//! What a pattern compiles to, told from its text: cut at a `:`, a `#` or a pair
//! of brackets, a pattern compiles to what its parts do.

use crate::laws::brackets;
use crate::laws::keywords;
use crate::laws::typed;
use crate::matching;
use crate::pattern;
use crate::pattern::{EntryModel, GroupModel, ParamKind, SegmentModel};
use vstd::prelude::*;

verus! {

/// The compiled form of a row of keywords, as that of a query or not and with the
/// parameter.
pub open spec fn entry_of(row: Seq<char>, is_query: bool, kind: Option<ParamKind>) -> EntryModel {
    EntryModel {
        segments: pattern::compiled(row + seq!['?']).segments,
        groups: pattern::compiled(row + seq!['?']).groups,
        is_query,
        param: kind,
    }
}

/// The segments of a row of keywords.
pub open spec fn segments_of(row: Seq<char>) -> Seq<SegmentModel> {
    pattern::compiled(row + seq!['?']).segments
}

/// The optional groups of a row of keywords.
pub open spec fn groups_of(row: Seq<char>) -> Seq<GroupModel> {
    pattern::compiled(row + seq!['?']).groups
}

/// The groups moved on by a number of segments.
pub open spec fn moved(groups: Seq<GroupModel>, by: nat) -> Seq<GroupModel> {
    Seq::new(
        groups.len(),
        |i: int| GroupModel { start: groups[i].start + by, end: groups[i].end + by },
    )
}

/// Whether the brackets of a text come in pairs that are not nested.
pub open spec fn is_paired(s: Seq<char>) -> bool {
    &&& !brackets::inside(s, s.len() as int)
    &&& forall|i: int|
        0 <= i < s.len() ==> (#[trigger] s[i] == '[' ==> !brackets::inside(s, i)) && (s[i] == ']'
            ==> brackets::inside(s, i))
}

/// Whether a text has no brackets.
pub open spec fn is_unbracketed(s: Seq<char>) -> bool {
    forall|i: int| 0 <= i < s.len() ==> #[trigger] s[i] != '[' && s[i] != ']'
}

/// Whether `s` ends in `tail`.
pub open spec fn has_end(s: Seq<char>, tail: Seq<char>) -> bool {
    s.len() >= tail.len() && s.skip(s.len() - tail.len()) == tail
}

/// Whether a row of keywords ends in what would be read as a declaration.
pub open spec fn ends_in_declaration(s: Seq<char>) -> bool {
    ||| has_end(s, seq![' ', 'n', 'u', 'm'])
    ||| has_end(s, seq![' ', 'b', 'o', 'o', 'l'])
    ||| has_end(s, seq![' ', 's', 't', 'r'])
}

/// The `?` and the declaration behind the keywords of a pattern say whether it is
/// a query and what parameter it takes, and change nothing else.
pub proof fn law_pattern_end(row: Seq<char>, is_query: bool, kind: Option<ParamKind>)
    requires
        kind is None && !is_query ==> !ends_in_declaration(row),
        !is_query ==> row.len() == 0 || row[row.len() - 1] != '?',
    ensures
        pattern::compiled(
            row + (if is_query {
                seq!['?']
            } else {
                seq![]
            }) + (match kind {
                None => seq![],
                Some(ParamKind::Num) => seq![' ', 'n', 'u', 'm'],
                Some(ParamKind::Bool) => seq![' ', 'b', 'o', 'o', 'l'],
                Some(ParamKind::Str) => seq![' ', 's', 't', 'r'],
            }),
        ) == entry_of(row, is_query, kind),
{
    lemma_row(row);
    typed::lemma_pattern_parts(row, is_query, kind);
}

/// A row of keywords in front of a `?` is read as it is.
proof fn lemma_row(row: Seq<char>)
    ensures
        (segments_of(row), groups_of(row)) == pattern::keywords_from(row, 0, seq![], seq![]),
{
    typed::lemma_pattern_parts(row, true, None);
    assert(row + seq!['?'] + Seq::<char>::empty() =~= row + seq!['?']);
}

/// What is compiled behind a place is compiled from what is behind it.
proof fn lemma_behind(
    whole: Seq<char>,
    offset: int,
    b: Seq<char>,
    i: int,
    segments: Seq<SegmentModel>,
    groups: Seq<GroupModel>,
)
    requires
        0 <= offset <= whole.len(),
        whole.skip(offset) == b,
        0 <= i <= b.len(),
    ensures
        pattern::keywords_from(whole, offset + i, segments, groups) == pattern::keywords_from(
            b,
            i,
            segments,
            groups,
        ),
    decreases b.len() - i,
{
    if i < b.len() {
        assert(b[i] == whole[offset + i]);
        if b[i] == ']' {
        } else if b[i] == ':' {
            lemma_behind(whole, offset, b, i + 1, segments, groups);
        } else if b[i] == '[' {
            let (inner, next) = pattern::group_segments(b, i + 1);
            let group = GroupModel { start: segments.len(), end: segments.len() + inner.len() };
            lemma_group_behind(whole, offset, b, i + 1);
            pattern::lemma_group_end(b, i + 1);
            lemma_behind(whole, offset, b, next, segments + inner, groups.push(group));
        } else {
            let (first, next) = pattern::keyword_segments(b, i);
            lemma_segments_behind(whole, offset, b, i);
            pattern::lemma_segments_step(b, i, false);
            lemma_behind(whole, offset, b, next, segments + first, groups);
        }
    }
}

/// A keyword behind a place.
proof fn lemma_keyword_behind(whole: Seq<char>, offset: int, b: Seq<char>, i: int)
    requires
        0 <= offset <= whole.len(),
        whole.skip(offset) == b,
        0 <= i <= b.len(),
    ensures
        pattern::keyword_end(whole, offset + i) == offset + pattern::keyword_end(b, i),
    decreases b.len() - i,
{
    if i < b.len() {
        assert(b[i] == whole[offset + i]);
        if !pattern::is_delimiter(b[i]) {
            lemma_keyword_behind(whole, offset, b, i + 1);
        }
    }
}

/// Segments behind a place.
proof fn lemma_segments_behind(whole: Seq<char>, offset: int, b: Seq<char>, i: int)
    requires
        0 <= offset <= whole.len(),
        whole.skip(offset) == b,
        0 <= i < b.len(),
    ensures
        pattern::keyword_segments(whole, offset + i) == (
            pattern::keyword_segments(b, i).0,
            offset + pattern::keyword_segments(b, i).1,
        ),
{
    let end = pattern::keyword_end(b, i);
    lemma_keyword_behind(whole, offset, b, i);
    pattern::lemma_keyword_end(b, i);
    assert(b[i] == whole[offset + i]);
    assert(whole.subrange(offset + i, offset + end) =~= b.subrange(i, end));
    if end < b.len() {
        assert(b[end] == whole[offset + end]);
    }
}

/// A group behind a place.
proof fn lemma_group_behind(whole: Seq<char>, offset: int, b: Seq<char>, i: int)
    requires
        0 <= offset <= whole.len(),
        whole.skip(offset) == b,
        0 <= i <= b.len(),
    ensures
        pattern::group_segments(whole, offset + i) == (
            pattern::group_segments(b, i).0,
            offset + pattern::group_segments(b, i).1,
        ),
    decreases b.len() - i,
{
    if i < b.len() {
        assert(b[i] == whole[offset + i]);
        if b[i] == '[' || b[i] == ']' {
        } else if b[i] == ':' {
            lemma_group_behind(whole, offset, b, i + 1);
        } else {
            let (first, next) = pattern::keyword_segments(b, i);
            lemma_segments_behind(whole, offset, b, i);
            pattern::lemma_segments_step(b, i, true);
            lemma_group_behind(whole, offset, b, next);
        }
    }
}

/// What is compiled is put behind what is there already.
#[verifier::rlimit(40)]
proof fn lemma_added(
    x: Seq<char>,
    i: int,
    segments: Seq<SegmentModel>,
    groups: Seq<GroupModel>,
)
    requires
        0 <= i <= x.len(),
    ensures
        ({
            let (s, g) = pattern::keywords_from(x, i, seq![], seq![]);
            pattern::keywords_from(x, i, segments, groups) == (
                segments + s,
                groups + moved(g, segments.len()),
            )
        }),
    decreases x.len() - i,
{
    let none = Seq::<SegmentModel>::empty();
    let no_groups = Seq::<GroupModel>::empty();
    let (s, g) = pattern::keywords_from(x, i, seq![], seq![]);
    if i >= x.len() || x[i] == ']' {
        assert(segments + none =~= segments);
        assert(groups + moved(no_groups, segments.len()) =~= groups);
    } else if x[i] == ':' {
        lemma_added(x, i + 1, segments, groups);
    } else if x[i] == '[' {
        let (inner, next) = pattern::group_segments(x, i + 1);
        let here = GroupModel { start: segments.len(), end: segments.len() + inner.len() };
        let alone = GroupModel { start: 0, end: inner.len() };
        pattern::lemma_group_end(x, i + 1);
        let (s2, g2) = pattern::keywords_from(x, next, seq![], seq![]);
        lemma_added(x, next, segments + inner, groups.push(here));
        assert(none + inner =~= inner);
        lemma_added(x, next, inner, no_groups.push(alone));
        assert(segments + inner + s2 =~= segments + (inner + s2));
        assert(groups.push(here) + moved(g2, (segments + inner).len()) =~= groups + moved(
            no_groups.push(alone) + moved(g2, inner.len()),
            segments.len(),
        ));
    } else {
        let (first, next) = pattern::keyword_segments(x, i);
        pattern::lemma_segments_step(x, i, false);
        let (s2, g2) = pattern::keywords_from(x, next, seq![], seq![]);
        lemma_added(x, next, segments + first, groups);
        assert(none + first =~= first);
        lemma_added(x, next, first, no_groups);
        assert(segments + first + s2 =~= segments + (first + s2));
        assert(groups + moved(g2, (segments + first).len()) =~= groups + moved(
            no_groups + moved(g2, first.len()),
            segments.len(),
        ));
    }
}

/// A keyword ends where it does without what is behind, if that starts with a
/// delimiter.
proof fn lemma_keyword_front(a: Seq<char>, y: Seq<char>, i: int)
    requires
        0 <= i <= a.len(),
        y.len() > 0 ==> pattern::is_delimiter(y[0]),
    ensures
        pattern::keyword_end(a + y, i) == pattern::keyword_end(a, i),
        i <= pattern::keyword_end(a, i) <= a.len(),
        (a + y).subrange(i, pattern::keyword_end(a, i)) == a.subrange(
            i,
            pattern::keyword_end(a, i),
        ),
    decreases a.len() - i,
{
    let whole = a + y;
    if i < a.len() {
        assert(whole[i] == a[i]);
        if !pattern::is_delimiter(a[i]) {
            lemma_keyword_front(a, y, i + 1);
        }
    } else if y.len() > 0 {
        assert(whole[i] == y[0]);
    }
    pattern::lemma_keyword_end(a, i);
    let end = pattern::keyword_end(a, i);
    assert(whole.subrange(i, end) =~= a.subrange(i, end));
}

/// Segments are the same without what is behind, but for a `#` that is glued to
/// the last keyword.
proof fn lemma_segments_front(a: Seq<char>, y: Seq<char>, i: int)
    requires
        0 <= i < a.len(),
        y.len() > 0 ==> pattern::is_delimiter(y[0]),
    ensures
        ({
            let (first, next) = pattern::keyword_segments(a, i);
            if a[i] != '#' && pattern::keyword_end(a, i) == a.len() && y.len() > 0 && y[0] == '#' {
                next == a.len() && pattern::keyword_segments(a + y, i) == (
                    first.push(SegmentModel::NumericSuffix),
                    next + 1,
                )
            } else {
                pattern::keyword_segments(a + y, i) == (first, next)
            }
        }),
{
    let whole = a + y;
    let end = pattern::keyword_end(a, i);
    lemma_keyword_front(a, y, i);
    assert(whole[i] == a[i]);
    if end < a.len() {
        assert(whole[end] == a[end]);
    } else if y.len() > 0 {
        assert(whole[end] == y[0]);
        let keyword = pattern::keyword_segment(a.subrange(i, end));
        assert(seq![keyword].push(SegmentModel::NumericSuffix) =~= seq![
            keyword,
            SegmentModel::NumericSuffix,
        ]);
    }
}

/// A group that is closed is the same without what is behind.
proof fn lemma_group_front(a: Seq<char>, y: Seq<char>, i: int)
    requires
        is_paired(a),
        0 <= i <= a.len(),
        brackets::inside(a, i),
        y.len() > 0 ==> pattern::is_delimiter(y[0]),
    ensures
        pattern::group_segments(a + y, i) == pattern::group_segments(a, i),
        i < pattern::group_segments(a, i).1 <= a.len(),
        !brackets::inside(a, pattern::group_segments(a, i).1),
    decreases a.len() - i,
{
    assert(i < a.len());
    assert((a + y)[i] == a[i]);
    if a[i] == ']' {
    } else if a[i] == ':' {
        lemma_group_front(a, y, i + 1);
    } else {
        let (first, next) = pattern::keyword_segments(a, i);
        lemma_no_bracket_between(a, i);
        lemma_segments_front(a, y, i);
        pattern::lemma_keyword_end(a, i);
        lemma_group_front(a, y, next);
    }
}

/// Segments hold no brackets.
proof fn lemma_no_bracket_between(a: Seq<char>, i: int)
    requires
        0 <= i < a.len(),
        a[i] != ':' && a[i] != '[' && a[i] != ']',
    ensures
        i < pattern::keyword_segments(a, i).1 <= a.len(),
        brackets::inside(a, pattern::keyword_segments(a, i).1) == brackets::inside(a, i),
        brackets::inside(a, pattern::keyword_end(a, i)) == brackets::inside(a, i),
{
    let end = pattern::keyword_end(a, i);
    let next = pattern::keyword_segments(a, i).1;
    pattern::lemma_segments_step(a, i, false);
    pattern::lemma_keyword_end(a, i);
    assert forall|m: int| i <= m < next implies !brackets::is_bracket(#[trigger] a[m]) by {
        if m < end {
            assert(!pattern::is_delimiter(a[m]));
        }
    }
    brackets::lemma_inside_stays(a, i, next);
    brackets::lemma_inside_stays(a, i, end);
}

/// What is compiled in front of a delimiter.
#[verifier::rlimit(40)]
proof fn lemma_front(
    a: Seq<char>,
    y: Seq<char>,
    i: int,
    segments: Seq<SegmentModel>,
    groups: Seq<GroupModel>,
)
    requires
        is_paired(a),
        0 <= i <= a.len(),
        !brackets::inside(a, i),
        y.len() > 0,
        y[0] == ':' || y[0] == '#' || y[0] == '[',
    ensures
        ({
            let (s, g) = pattern::keywords_from(a, i, segments, groups);
            pattern::keywords_from(a + y, i, segments, groups) == (if y[0] == ':' {
                pattern::keywords_from(a + y, a.len() as int + 1, s, g)
            } else if y[0] == '#' {
                pattern::keywords_from(
                    a + y,
                    a.len() as int + 1,
                    s.push(SegmentModel::NumericSuffix),
                    g,
                )
            } else {
                pattern::keywords_from(a + y, a.len() as int, s, g)
            })
        }),
    decreases a.len() - i,
{
    let whole = a + y;
    if i == a.len() {
        assert(whole[i] == y[0]);
        assert(segments + seq![SegmentModel::NumericSuffix] =~= segments.push(
            SegmentModel::NumericSuffix,
        ));
    } else {
        assert(whole[i] == a[i]);
        if a[i] == ':' {
            lemma_front(a, y, i + 1, segments, groups);
        } else if a[i] == '[' {
            let (inner, next) = pattern::group_segments(a, i + 1);
            let group = GroupModel { start: segments.len(), end: segments.len() + inner.len() };
            lemma_group_front(a, y, i + 1);
            lemma_front(a, y, next, segments + inner, groups.push(group));
        } else {
            let (first, next) = pattern::keyword_segments(a, i);
            lemma_no_bracket_between(a, i);
            lemma_segments_front(a, y, i);
            if a[i] != '#' && pattern::keyword_end(a, i) == a.len() && y[0] == '#' {
                assert(segments + first.push(SegmentModel::NumericSuffix) =~= (segments
                    + first).push(SegmentModel::NumericSuffix));
                assert(pattern::keywords_from(a, next, segments + first, groups) == (
                    segments + first,
                    groups,
                ));
            } else {
                lemma_front(a, y, next, segments + first, groups);
            }
        }
    }
}

/// The start of a text is outside brackets.
proof fn lemma_start(a: Seq<char>, y: Seq<char>)
    requires
        is_paired(a),
        y.len() > 0,
        y[0] == ':' || y[0] == '#' || y[0] == '[',
    ensures
        (segments_of(a + y), groups_of(a + y)) == (if y[0] == ':' {
            pattern::keywords_from(a + y, a.len() as int + 1, segments_of(a), groups_of(a))
        } else if y[0] == '#' {
            pattern::keywords_from(
                a + y,
                a.len() as int + 1,
                segments_of(a).push(SegmentModel::NumericSuffix),
                groups_of(a),
            )
        } else {
            pattern::keywords_from(a + y, a.len() as int, segments_of(a), groups_of(a))
        }),
{
    lemma_row(a);
    lemma_row(a + y);
    lemma_front(a, y, 0, seq![], seq![]);
}

/// No keywords compile to nothing.
pub proof fn law_no_keywords()
    ensures
        segments_of(seq![]) == Seq::<SegmentModel>::empty(),
        groups_of(seq![]) == Seq::<GroupModel>::empty(),
{
    lemma_row(seq![]);
}

/// One keyword compiles to its two forms.
pub proof fn law_one_keyword(w: Seq<char>)
    requires
        w.len() > 0,
        forall|i: int|
            0 <= i < w.len() ==> #[trigger] w[i] != ':' && w[i] != '[' && w[i] != ']' && w[i]
                != '#',
    ensures
        segments_of(w) == seq![
            SegmentModel::Keyword { short: pattern::short_form(w), long: pattern::long_form(w) },
        ],
        groups_of(w) == Seq::<GroupModel>::empty(),
{
    let end = w.len() as int;
    lemma_row(w);
    typed::lemma_keyword_at(w, 0, end);
    assert(w.subrange(0, end) =~= w);
    let keyword = pattern::keyword_segment(w);
    assert(Seq::<SegmentModel>::empty() + seq![keyword] =~= seq![keyword]);
    assert(pattern::keyword_segments(w, 0) == (seq![keyword], end));
    assert(pattern::keywords_from(w, end, seq![keyword], seq![]) == (
        seq![keyword],
        Seq::<GroupModel>::empty(),
    ));
}

/// A `:` separates: the segments and groups of what is behind it follow those of
/// what is before it.
pub proof fn law_cut_at_colon(a: Seq<char>, b: Seq<char>)
    requires
        is_paired(a),
    ensures
        segments_of(a + seq![':'] + b) == segments_of(a) + segments_of(b),
        groups_of(a + seq![':'] + b) == groups_of(a) + moved(
            groups_of(b),
            segments_of(a).len(),
        ),
{
    let y = seq![':'] + b;
    let n = a.len() as int + 1;
    assert(a + seq![':'] + b =~= a + y);
    lemma_start(a, y);
    assert((a + y).skip(n) =~= b);
    lemma_behind(a + y, n, b, 0, segments_of(a), groups_of(a));
    lemma_added(b, 0, segments_of(a), groups_of(a));
    lemma_row(b);
}

/// A `#` stands for one number, between what is before it and what is behind it.
pub proof fn law_cut_at_number(a: Seq<char>, b: Seq<char>)
    requires
        is_paired(a),
    ensures
        segments_of(a + seq!['#'] + b) == segments_of(a).push(SegmentModel::NumericSuffix)
            + segments_of(b),
        groups_of(a + seq!['#'] + b) == groups_of(a) + moved(
            groups_of(b),
            segments_of(a).len() + 1,
        ),
{
    let y = seq!['#'] + b;
    let n = a.len() as int + 1;
    let s = segments_of(a).push(SegmentModel::NumericSuffix);
    assert(a + seq!['#'] + b =~= a + y);
    lemma_start(a, y);
    assert((a + y).skip(n) =~= b);
    lemma_behind(a + y, n, b, 0, s, groups_of(a));
    lemma_added(b, 0, s, groups_of(a));
    lemma_row(b);
}

/// The nodes in brackets, from `i` on, are those of the text in them.
proof fn lemma_inner(
    whole: Seq<char>,
    offset: int,
    n: Seq<char>,
    i: int,
    segments: Seq<SegmentModel>,
    groups: Seq<GroupModel>,
)
    requires
        0 <= offset,
        offset + n.len() <= whole.len(),
        whole.subrange(offset, offset + n.len()) == n,
        is_unbracketed(n),
        offset + n.len() < whole.len() ==> whole[offset + n.len()] == ']',
        0 <= i <= n.len(),
    ensures
        pattern::keywords_from(n, i, segments, groups) == (
            segments + pattern::group_segments(whole, offset + i).0,
            groups,
        ),
        pattern::group_segments(whole, offset + i).1 == (if offset + n.len() < whole.len() {
            offset + n.len() + 1
        } else {
            whole.len() as int
        }),
    decreases n.len() - i,
{
    let none = Seq::<SegmentModel>::empty();
    if i == n.len() {
        assert(segments + none =~= segments);
    } else {
        assert(n[i] == whole[offset + i]);
        if n[i] == ':' {
            lemma_inner(whole, offset, n, i + 1, segments, groups);
        } else {
            let y = whole.skip(offset + n.len());
            let rest = whole.skip(offset);
            let (first, next) = pattern::keyword_segments(n, i);
            assert(rest =~= n + y) by {
                assert forall|k: int| 0 <= k < rest.len() implies rest[k] == (n + y)[k] by {
                    if k < n.len() {
                        assert(whole.subrange(offset, offset + n.len())[k] == whole[offset + k]);
                    }
                }
            }
            lemma_segments_behind(whole, offset, rest, i);
            lemma_segments_front(n, y, i);
            pattern::lemma_segments_step(n, i, true);
            lemma_inner(whole, offset, n, next, segments + first, groups);
            let more = pattern::group_segments(whole, offset + next).0;
            assert(segments + first + more =~= segments + (first + more));
        }
    }
}

/// A pair of brackets makes one group, which covers exactly the segments of what
/// is between them. What is before and behind is compiled as it is alone.
#[verifier::rlimit(40)]
pub proof fn law_cut_at_brackets(a: Seq<char>, n: Seq<char>, b: Seq<char>)
    requires
        is_paired(a),
        is_unbracketed(n),
    ensures
        segments_of(a + seq!['['] + n + seq![']'] + b) == segments_of(a) + segments_of(n)
            + segments_of(b),
        groups_of(a + seq!['['] + n + seq![']'] + b) == groups_of(a).push(
            GroupModel {
                start: segments_of(a).len(),
                end: segments_of(a).len() + segments_of(n).len(),
            },
        ) + moved(groups_of(b), segments_of(a).len() + segments_of(n).len()),
{
    let y = seq!['['] + n + seq![']'] + b;
    let whole = a + y;
    let open = a.len() as int + 1;
    let next = open + n.len() + 1;
    let inner = segments_of(n);
    let s = segments_of(a);
    let group = GroupModel { start: s.len(), end: s.len() + inner.len() };
    assert(a + seq!['['] + n + seq![']'] + b =~= whole);
    lemma_start(a, y);
    assert(whole.subrange(open, open + n.len()) =~= n);
    assert(whole[open + n.len()] == ']');
    lemma_inner(whole, open, n, 0, seq![], seq![]);
    lemma_row(n);
    assert(Seq::<SegmentModel>::empty() + pattern::group_segments(whole, open).0
        =~= pattern::group_segments(whole, open).0);
    assert(whole[a.len() as int] == '[');
    assert(whole.skip(next) =~= b);
    lemma_behind(whole, next, b, 0, s + inner, groups_of(a).push(group));
    lemma_added(b, 0, s + inner, groups_of(a).push(group));
    lemma_row(b);
}

/// A bracket that is not closed makes a group up to the end.
#[verifier::rlimit(40)]
pub proof fn law_open_bracket(a: Seq<char>, n: Seq<char>)
    requires
        is_paired(a),
        is_unbracketed(n),
    ensures
        segments_of(a + seq!['['] + n) == segments_of(a) + segments_of(n),
        groups_of(a + seq!['['] + n) == groups_of(a).push(
            GroupModel {
                start: segments_of(a).len(),
                end: segments_of(a).len() + segments_of(n).len(),
            },
        ),
{
    let y = seq!['['] + n;
    let whole = a + y;
    let open = a.len() as int + 1;
    let inner = segments_of(n);
    let s = segments_of(a);
    let group = GroupModel { start: s.len(), end: s.len() + inner.len() };
    assert(a + seq!['['] + n =~= whole);
    lemma_start(a, y);
    assert(whole.subrange(open, open + n.len()) =~= n);
    lemma_inner(whole, open, n, 0, seq![], seq![]);
    lemma_row(n);
    assert(Seq::<SegmentModel>::empty() + pattern::group_segments(whole, open).0
        =~= pattern::group_segments(whole, open).0);
    assert(whole[a.len() as int] == '[');
    assert(pattern::keywords_from(
        whole,
        whole.len() as int,
        s + inner,
        groups_of(a).push(group),
    ) == (s + inner, groups_of(a).push(group)));
}

/// A pattern can be compiled exactly when no bracket is opened inside brackets and
/// none is closed outside.
pub proof fn law_compilable(s: Seq<char>)
    ensures
        pattern::well_bracketed(s) <==> forall|i: int|
            0 <= i < s.len() ==> (#[trigger] s[i] == '[' ==> !brackets::inside(s, i)) && (s[i]
                == ']' ==> brackets::inside(s, i)),
{
    if forall|i: int|
        0 <= i < s.len() ==> (#[trigger] s[i] == '[' ==> !brackets::inside(s, i)) && (s[i] == ']'
            ==> brackets::inside(s, i)) {
        brackets::lemma_well_bracketed(s, 0);
    }
    if pattern::well_bracketed(s) {
        assert forall|i: int| 0 <= i < s.len() implies (#[trigger] s[i] == '['
            ==> !brackets::inside(s, i)) && (s[i] == ']' ==> brackets::inside(s, i)) by {
            lemma_bracketed_at(s, 0, i);
        }
    }
}

/// What holds of the brackets holds from every place on.
proof fn lemma_bracketed_at(s: Seq<char>, i: int, k: int)
    requires
        0 <= i <= k <= s.len(),
        pattern::bracketed(s, i, brackets::inside(s, i)),
    ensures
        pattern::bracketed(s, k, brackets::inside(s, k)),
    decreases k - i,
{
    if i < k {
        lemma_bracketed_at(s, i + 1, k);
    }
}

/// Segments that no group leaves out are there up to the end of them.
proof fn lemma_same_active(e: EntryModel, c: Seq<bool>, f: EntryModel, d: Seq<bool>, n: nat)
    requires
        n <= e.segments.len(),
        n <= f.segments.len(),
        forall|i: int| 0 <= i < n ==> e.segments[i] == f.segments[i],
        forall|i: int|
            0 <= i < n ==> (#[trigger] matching::left_out(e.groups, c, i)) == matching::left_out(
                f.groups,
                d,
                i,
            ),
    ensures
        matching::active_upto(e, c, n) == matching::active_upto(f, d, n),
    decreases n,
{
    if n > 0 {
        lemma_same_active(e, c, f, d, (n - 1) as nat);
        assert(matching::left_out(e.groups, c, n - 1) == matching::left_out(f.groups, d, n - 1));
    }
}

/// A group that is there leaves nothing out.
proof fn lemma_group_there(e: EntryModel, f: EntryModel, c: Seq<bool>)
    requires
        e.segments == f.segments,
        e.groups.len() == f.groups.len() + 1,
        e.groups.drop_last() == f.groups,
        c.len() == e.groups.len(),
        c.last(),
    ensures
        matching::active_upto(e, c, e.segments.len()) == matching::active_upto(
            f,
            c.drop_last(),
            f.segments.len(),
        ),
{
    let d = c.drop_last();
    let m = f.groups.len() as int;
    assert forall|i: int| 0 <= i < e.segments.len() implies (#[trigger] matching::left_out(
        e.groups,
        c,
        i,
    )) == matching::left_out(f.groups, d, i) by {
        lemma_left_out_front(e.groups, f.groups, c, i);
    }
    lemma_same_active(e, c, f, d, e.segments.len());
}

/// What is left out, without the last group.
proof fn lemma_left_out_front(e: Seq<GroupModel>, f: Seq<GroupModel>, c: Seq<bool>, i: int)
    requires
        e.len() == f.len() + 1,
        e.drop_last() == f,
        c.len() == e.len(),
    ensures
        matching::left_out(e, c, i) == (matching::left_out(f, c.drop_last(), i) || (e.last().start
            <= i < e.last().end && !c.last())),
{
    let d = c.drop_last();
    let m = f.len() as int;
    if matching::left_out(e, c, i) {
        let g = choose|g: int|
            0 <= g < e.len() && (#[trigger] e[g]).start <= i < e[g].end && !c[g];
        if g < m {
            assert(f[g] == e[g]);
            assert(d[g] == c[g]);
        }
    }
    if matching::left_out(f, d, i) {
        let g = choose|g: int|
            0 <= g < f.len() && (#[trigger] f[g]).start <= i < f[g].end && !d[g];
        assert(e[g] == f[g]);
        assert(d[g] == c[g]);
    }
    if e.last().start <= i < e.last().end && !c.last() {
        assert(e[m].start <= i < e[m].end && !c[m]);
    }
}

/// A group that is left out takes its segments with it.
proof fn lemma_group_gone(
    e: EntryModel,
    f: EntryModel,
    c: Seq<bool>,
    s: nat,
    inner: nat,
    n: nat,
)
    requires
        e.groups.len() == f.groups.len() + 1,
        e.groups.drop_last() == f.groups,
        e.groups.last() == (GroupModel { start: s, end: s + inner }),
        c.len() == e.groups.len(),
        !c.last(),
        e.segments.len() == f.segments.len() + inner,
        s <= f.segments.len(),
        forall|i: int| 0 <= i < s ==> e.segments[i] == f.segments[i],
        forall|i: int| s <= i < f.segments.len() ==> e.segments[i + inner] == f.segments[i],
        forall|g: int| 0 <= g < f.groups.len() ==> (#[trigger] f.groups[g]).end <= s,
        s <= n <= f.segments.len(),
    ensures
        matching::active_upto(e, c, n + inner) == matching::active_upto(f, c.drop_last(), n),
    decreases n,
{
    let d = c.drop_last();
    if n == s {
        assert forall|i: int| 0 <= i < s implies (#[trigger] matching::left_out(e.groups, c, i))
            == matching::left_out(f.groups, d, i) by {
            lemma_left_out_front(e.groups, f.groups, c, i);
        }
        lemma_same_active(e, c, f, d, s);
        lemma_stretch_gone(e, f, c, s, inner, inner);
    } else {
        lemma_group_gone(e, f, c, s, inner, (n - 1) as nat);
        let i = n - 1;
        lemma_left_out_front(e.groups, f.groups, c, i + inner);
        assert(!matching::left_out(f.groups, d, i + inner)) by {
            if matching::left_out(f.groups, d, i + inner) {
                let g = choose|g: int|
                    0 <= g < f.groups.len() && (#[trigger] f.groups[g]).start <= i + inner
                        < f.groups[g].end && !d[g];
                assert(f.groups[g].end <= s);
            }
        }
        assert(!matching::left_out(f.groups, d, i)) by {
            if matching::left_out(f.groups, d, i) {
                let g = choose|g: int|
                    0 <= g < f.groups.len() && (#[trigger] f.groups[g]).start <= i
                        < f.groups[g].end && !d[g];
                assert(f.groups[g].end <= s);
            }
        }
        assert(e.segments[i + inner] == f.segments[i]);
        assert((n + inner - 1) as nat == (n - 1) as nat + inner);
    }
}

/// The segments of a group that is left out.
proof fn lemma_stretch_gone(
    e: EntryModel,
    f: EntryModel,
    c: Seq<bool>,
    s: nat,
    inner: nat,
    k: nat,
)
    requires
        e.groups.len() == f.groups.len() + 1,
        e.groups.drop_last() == f.groups,
        e.groups.last() == (GroupModel { start: s, end: s + inner }),
        c.len() == e.groups.len(),
        !c.last(),
        k <= inner,
    ensures
        matching::active_upto(e, c, s + k) == matching::active_upto(e, c, s),
    decreases k,
{
    if k > 0 {
        lemma_stretch_gone(e, f, c, s, inner, (k - 1) as nat);
        lemma_left_out_front(e.groups, f.groups, c, s + k - 1);
        assert((s + k - 1) as nat == s + (k - 1) as nat);
    }
}

/// Where every choice of the other groups matches alike, so does the search.
proof fn lemma_same_search(
    e: EntryModel,
    f: EntryModel,
    c: Seq<bool>,
    g: nat,
    tokens: Seq<Seq<char>>,
)
    requires
        c.len() > 0,
        g < c.len(),
        forall|d: Seq<bool>|
            d.len() == c.len() && d.last() == c.last() ==> #[trigger] matching::choice_match(
                e,
                d,
                tokens,
            ) == matching::choice_match(f, d.drop_last(), tokens),
    ensures
        matching::first_match(e, c, g, tokens) == matching::first_match(
            f,
            c.drop_last(),
            g,
            tokens,
        ),
    decreases g,
{
    if g > 0 {
        let h = (g - 1) as nat;
        let without = c.update(h as int, false);
        let with = c.update(h as int, true);
        assert(without.drop_last() =~= c.drop_last().update(h as int, false));
        assert(with.drop_last() =~= c.drop_last().update(h as int, true));
        lemma_same_search(e, f, without, h, tokens);
        lemma_same_search(e, f, with, h, tokens);
    }
}

/// The last group of an entry is left out first, and then is there.
proof fn lemma_last_group(
    e: EntryModel,
    f: EntryModel,
    w: EntryModel,
    s: nat,
    inner: nat,
    words: Seq<Seq<char>>,
    asked: bool,
)
    requires
        e.is_query == f.is_query,
        w.is_query == f.is_query,
        e.groups.len() == f.groups.len() + 1,
        e.groups.drop_last() == f.groups,
        w.groups == f.groups,
        w.segments == e.segments,
        e.groups.last() == (GroupModel { start: s, end: s + inner }),
        e.segments.len() == f.segments.len() + inner,
        s <= f.segments.len(),
        forall|i: int| 0 <= i < s ==> e.segments[i] == f.segments[i],
        forall|i: int| s <= i < f.segments.len() ==> e.segments[i + inner] == f.segments[i],
        forall|g: int| 0 <= g < f.groups.len() ==> (#[trigger] f.groups[g]).end <= s,
    ensures
        matching::entry_match(e, words, asked) == (match matching::entry_match(f, words, asked) {
            Some(suffixes) => Some(suffixes),
            None => matching::entry_match(w, words, asked),
        }),
{
    let m = f.groups.len();
    let c = Seq::new(m + 1, |i: int| false);
    let off = c.update(m as int, false);
    let on = c.update(m as int, true);
    let none = Seq::new(m, |i: int| false);
    assert(c =~= Seq::new(e.groups.len(), |i: int| false));
    assert forall|d: Seq<bool>|
        d.len() == off.len() && d.last() == off.last() implies #[trigger] matching::choice_match(
        e,
        d,
        words,
    ) == matching::choice_match(f, d.drop_last(), words) by {
        lemma_group_gone(e, f, d, s, inner, f.segments.len());
    }
    assert forall|d: Seq<bool>|
        d.len() == on.len() && d.last() == on.last() implies #[trigger] matching::choice_match(
        e,
        d,
        words,
    ) == matching::choice_match(w, d.drop_last(), words) by {
        lemma_group_there(e, w, d);
    }
    lemma_same_search(e, f, off, m, words);
    lemma_same_search(e, w, on, m, words);
    assert(off.drop_last() =~= none);
    assert(on.drop_last() =~= none);
}

/// What a pattern compiles to with brackets, without what is in them, and with it.
#[verifier::rlimit(40)]
proof fn lemma_three_texts(a: Seq<char>, n: Seq<char>, b: Seq<char>)
    requires
        is_paired(a),
        is_unbracketed(n),
        is_unbracketed(b),
    ensures
        ({
            let both = a + seq!['['] + n + seq![']'] + b;
            let without = a + seq![':'] + b;
            let with = a + seq![':'] + n + seq![':'] + b;
            let s = segments_of(a);
            let inner = segments_of(n);
            let rest = segments_of(b);
            &&& segments_of(both) == s + inner + rest
            &&& segments_of(without) == s + rest
            &&& segments_of(with) == s + inner + rest
            &&& groups_of(both) == groups_of(a).push(
                GroupModel { start: s.len(), end: s.len() + inner.len() },
            )
            &&& groups_of(without) == groups_of(a)
            &&& groups_of(with) == groups_of(a)
        }),
{
    let s = segments_of(a);
    let inner = segments_of(n);
    let group = GroupModel { start: s.len(), end: s.len() + inner.len() };
    lemma_unbracketed_groups(n);
    lemma_unbracketed_groups(b);
    law_cut_at_brackets(a, n, b);
    law_cut_at_colon(a, b);
    lemma_paired_colon(a, n);
    law_cut_at_colon(a, n);
    law_cut_at_colon(a + seq![':'] + n, b);
    lemma_nothing_moved(groups_of(a), s.len());
    lemma_nothing_moved(groups_of(a), (s + inner).len());
    lemma_nothing_moved(groups_of(a).push(group), s.len() + inner.len());
}

/// No groups behind others.
proof fn lemma_nothing_moved(groups: Seq<GroupModel>, by: nat)
    ensures
        groups + moved(seq![], by) == groups,
{
    assert(moved(seq![], by) =~= seq![]);
    assert(groups + Seq::<GroupModel>::empty() =~= groups);
}

/// Groups end within the segments.
proof fn lemma_groups_within(a: Seq<char>)
    ensures
        forall|g: int|
            0 <= g < groups_of(a).len() ==> (#[trigger] groups_of(a)[g]).end <= segments_of(
                a,
            ).len(),
{
    keywords::law_compiled_patterns(a + seq!['?']);
}

/// Optional nodes are there or are not: words match a pattern with `[n]` in it
/// exactly when they match it without `n`, or with `n` as any other node. Without
/// it is tried first, where no other brackets follow.
#[verifier::rlimit(40)]
pub proof fn law_optional_node(
    a: Seq<char>,
    n: Seq<char>,
    b: Seq<char>,
    is_query: bool,
    kind: Option<ParamKind>,
    words: Seq<Seq<char>>,
    asked: bool,
)
    requires
        is_paired(a),
        is_unbracketed(n),
        is_unbracketed(b),
    ensures
        ({
            let both = entry_of(a + seq!['['] + n + seq![']'] + b, is_query, kind);
            let without = entry_of(a + seq![':'] + b, is_query, kind);
            let with = entry_of(a + seq![':'] + n + seq![':'] + b, is_query, kind);
            matching::entry_match(both, words, asked) == (match matching::entry_match(
                without,
                words,
                asked,
            ) {
                Some(suffixes) => Some(suffixes),
                None => matching::entry_match(with, words, asked),
            })
        }),
{
    let e = entry_of(a + seq!['['] + n + seq![']'] + b, is_query, kind);
    let f = entry_of(a + seq![':'] + b, is_query, kind);
    let w = entry_of(a + seq![':'] + n + seq![':'] + b, is_query, kind);
    let s = segments_of(a);
    let inner = segments_of(n);
    let rest = segments_of(b);
    lemma_three_texts(a, n, b);
    lemma_groups_within(a);
    assert(e.groups.drop_last() =~= f.groups);
    assert forall|i: int| s.len() <= i < f.segments.len() implies e.segments[i + inner.len()]
        == f.segments[i] by {
        assert(f.segments[i] == rest[i - s.len()]);
    }
    lemma_last_group(e, f, w, s.len(), inner.len(), words, asked);
}

/// Text without brackets has no groups.
proof fn lemma_unbracketed_groups(n: Seq<char>)
    requires
        is_unbracketed(n),
    ensures
        groups_of(n) == Seq::<GroupModel>::empty(),
{
    assert(n.subrange(0, n.len() as int) =~= n);
    lemma_inner(n, 0, n, 0, seq![], seq![]);
    lemma_row(n);
}

/// Text without brackets behind paired ones leaves them paired.
proof fn lemma_paired_colon(a: Seq<char>, n: Seq<char>)
    requires
        is_paired(a),
        is_unbracketed(n),
    ensures
        is_paired(a + seq![':'] + n),
{
    let y = seq![':'] + n;
    let whole = a + y;
    assert(a + seq![':'] + n =~= whole);
    brackets::lemma_inside_front(a, y, a.len() as int);
    assert forall|m: int| a.len() <= m < whole.len() implies !brackets::is_bracket(
        #[trigger] whole[m],
    ) by {
        if m > a.len() {
            assert(whole[m] == n[m - a.len() - 1]);
        }
    }
    brackets::lemma_inside_stays(whole, a.len() as int, whole.len() as int);
    assert forall|i: int| 0 <= i < whole.len() implies (#[trigger] whole[i] == '['
        ==> !brackets::inside(whole, i)) && (whole[i] == ']' ==> brackets::inside(whole, i)) by {
        if i < a.len() {
            brackets::lemma_inside_front(a, y, i);
            assert(whole[i] == a[i]);
        } else {
            assert(!brackets::is_bracket(whole[i]));
        }
    }
}

/// A keyword in the middle of a text goes up to the next `:`, `#` or bracket, and
/// a `#` there belongs to it.
pub proof fn law_keyword_in_text(a: Seq<char>, w: Seq<char>, y: Seq<char>)
    requires
        w.len() + y.len() > 0,
        forall|i: int|
            0 <= i < w.len() ==> #[trigger] w[i] != ':' && w[i] != '[' && w[i] != ']' && w[i]
                != '#',
        y.len() > 0 ==> y[0] == ':' || y[0] == '[' || y[0] == ']' || y[0] == '#',
    ensures
        ({
            let keyword = SegmentModel::Keyword {
                short: pattern::short_form(w),
                long: pattern::long_form(w),
            };
            let end = a.len() as int + w.len();
            pattern::keyword_segments(a + w + y, a.len() as int) == (if y.len() > 0 && y[0]
                == '#' {
                if w.len() == 0 {
                    (seq![SegmentModel::NumericSuffix], end + 1)
                } else {
                    (seq![keyword, SegmentModel::NumericSuffix], end + 1)
                }
            } else {
                (seq![keyword], end)
            })
        }),
{
    let whole = a + w + y;
    let start = a.len() as int;
    let end = start + w.len();
    assert forall|j: int| start <= j < end implies !pattern::is_delimiter(#[trigger] whole[j]) by {
        assert(whole[j] == w[j - start]);
    }
    if y.len() > 0 {
        assert(whole[end] == y[0]);
    }
    if w.len() > 0 {
        assert(whole[start] == w[0]);
    }
    typed::lemma_keyword_at(whole, start, end);
    assert(whole.subrange(start, end) =~= w);
}

} // verus!
