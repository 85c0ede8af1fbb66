//! Optional nodes in the text of a pattern.

use crate::laws::typed;
use crate::pattern;
use crate::pattern::{EntryModel, GroupModel, ParamKind, SegmentModel};
use vstd::prelude::*;

verus! {

/// The brackets around an optional node.
pub open spec fn is_bracket(c: char) -> bool {
    c == '[' || c == ']'
}

/// Whether the place before character `i` is inside brackets.
pub open spec fn inside(chars: Seq<char>, i: int) -> bool
    decreases i,
{
    if i <= 0 {
        false
    } else if chars[i - 1] == '[' {
        true
    } else if chars[i - 1] == ']' {
        false
    } else {
        inside(chars, i - 1)
    }
}

/// Whether optional nodes are written as `[:NODE]`: brackets are closed, are not
/// nested and hold no space and no `?`, a `:` stands behind each `[`, and behind
/// each `]` a `:`, a `[` or nothing.
pub open spec fn is_tidy(chars: Seq<char>) -> bool {
    &&& !inside(chars, chars.len() as int)
    &&& forall|i: int|
        0 <= i < chars.len() ==> if #[trigger] chars[i] == '[' {
            !inside(chars, i) && i + 1 < chars.len() && chars[i + 1] == ':'
        } else if chars[i] == ']' {
            inside(chars, i) && (i + 1 < chars.len() ==> chars[i + 1] == ':' || chars[i + 1] == '[')
        } else {
            inside(chars, i) ==> chars[i] != ' ' && chars[i] != '?'
        }
}

/// A text without its brackets.
pub open spec fn without_brackets(s: Seq<char>) -> Seq<char>
    decreases s.len(),
{
    if s.len() == 0 {
        seq![]
    } else {
        (if is_bracket(s[0]) {
            seq![]
        } else {
            seq![s[0]]
        }) + without_brackets(s.drop_first())
    }
}

/// How many brackets are opened in a text.
pub open spec fn opened(s: Seq<char>) -> nat
    decreases s.len(),
{
    if s.len() == 0 {
        0
    } else {
        (if s[0] == '[' {
            1nat
        } else {
            0
        }) + opened(s.drop_first())
    }
}

/// Texts behind each other.
proof fn lemma_concat(a: Seq<char>, b: Seq<char>)
    ensures
        without_brackets(a + b) == without_brackets(a) + without_brackets(b),
        opened(a + b) == opened(a) + opened(b),
    decreases a.len(),
{
    if a.len() == 0 {
        assert(a + b =~= b);
        assert(without_brackets(a) + without_brackets(b) =~= without_brackets(b));
    } else {
        let rest = a.drop_first();
        lemma_concat(rest, b);
        assert((a + b).drop_first() =~= rest + b);
        assert((a + b)[0] == a[0]);
        assert(without_brackets(a + b) =~= without_brackets(a) + without_brackets(b));
    }
}

/// A text that has no brackets.
proof fn lemma_no_brackets(s: Seq<char>)
    requires
        forall|i: int| 0 <= i < s.len() ==> !is_bracket(#[trigger] s[i]),
    ensures
        without_brackets(s) == s,
        opened(s) == 0,
    decreases s.len(),
{
    if s.len() > 0 {
        let rest = s.drop_first();
        assert forall|i: int| 0 <= i < rest.len() implies !is_bracket(#[trigger] rest[i]) by {
            assert(rest[i] == s[i + 1]);
        }
        lemma_no_brackets(rest);
        assert(without_brackets(s) =~= s);
    }
}

/// What is left without brackets has none.
proof fn lemma_brackets_gone(s: Seq<char>)
    ensures
        forall|i: int|
            0 <= i < without_brackets(s).len() ==> !is_bracket(#[trigger] without_brackets(s)[i]),
    decreases s.len(),
{
    if s.len() > 0 {
        let rest = without_brackets(s.drop_first());
        let all = without_brackets(s);
        lemma_brackets_gone(s.drop_first());
        assert forall|i: int| 0 <= i < all.len() implies !is_bracket(#[trigger] all[i]) by {
            if is_bracket(s[0]) {
                assert(all[i] == rest[i]);
            } else if i > 0 {
                assert(all[i] == rest[i - 1]);
            }
        }
    }
}

/// One character on, in a text and in what is left of it without brackets.
proof fn lemma_step(chars: Seq<char>, i: int, left: Seq<char>, j: int)
    requires
        0 <= i < chars.len(),
        0 <= j <= left.len(),
        left.skip(j) == without_brackets(chars.skip(i)),
    ensures
        opened(chars.skip(i)) == opened(chars.skip(i + 1)) + (if chars[i] == '[' {
            1nat
        } else {
            0
        }),
        if is_bracket(chars[i]) {
            left.skip(j) == without_brackets(chars.skip(i + 1))
        } else {
            &&& j < left.len()
            &&& left[j] == chars[i]
            &&& left.skip(j + 1) == without_brackets(chars.skip(i + 1))
        },
{
    let here = chars.skip(i);
    let rest = without_brackets(chars.skip(i + 1));
    assert(here[0] == chars[i]);
    assert(here.drop_first() =~= chars.skip(i + 1));
    if is_bracket(chars[i]) {
        assert(without_brackets(here) =~= rest);
    } else {
        assert(without_brackets(here) == seq![chars[i]] + rest);
        assert(left.skip(j)[0] == chars[i]);
        assert(left.skip(j + 1) =~= left.skip(j).skip(1));
        assert((seq![chars[i]] + rest).skip(1) =~= rest);
    }
}

/// Behind brackets comes a `:` or nothing.
proof fn lemma_behind_bracket(chars: Seq<char>, i: int, left: Seq<char>, j: int)
    requires
        is_tidy(chars),
        0 <= i < chars.len(),
        is_bracket(chars[i]),
        0 <= j <= left.len(),
        left.skip(j) == without_brackets(chars.skip(i)),
    ensures
        j < left.len() ==> left[j] == ':',
    decreases chars.len() - i,
{
    lemma_step(chars, i, left, j);
    if i + 1 < chars.len() {
        if chars[i + 1] == '[' {
            lemma_behind_bracket(chars, i + 1, left, j);
        } else {
            lemma_step(chars, i + 1, left, j);
        }
    } else {
        assert(chars.skip(i + 1) =~= seq![]);
        assert(left.skip(j).len() == 0);
    }
}

/// Whether a place is inside does not change where no bracket stands.
pub(crate) proof fn lemma_inside_stays(chars: Seq<char>, i: int, k: int)
    requires
        0 <= i <= k <= chars.len(),
        forall|m: int| i <= m < k ==> !is_bracket(#[trigger] chars[m]),
    ensures
        inside(chars, k) == inside(chars, i),
    decreases k - i,
{
    if i < k {
        lemma_inside_stays(chars, i, k - 1);
        assert(!is_bracket(chars[k - 1]));
    }
}

/// A keyword is the same without the brackets of its pattern.
proof fn lemma_keyword_kept(chars: Seq<char>, i: int, left: Seq<char>, j: int)
    requires
        is_tidy(chars),
        0 <= i <= chars.len(),
        0 <= j <= left.len(),
        left.skip(j) == without_brackets(chars.skip(i)),
    ensures
        ({
            let end = pattern::keyword_end(chars, i);
            let to = j + (end - i);
            &&& i <= end <= chars.len()
            &&& to <= left.len()
            &&& pattern::keyword_end(left, j) == to
            &&& left.skip(to) == without_brackets(chars.skip(end))
            &&& left.subrange(j, to) == chars.subrange(i, end)
            &&& (to < left.len() && left[to] == '#') == (end < chars.len() && chars[end] == '#')
        }),
    decreases chars.len() - i,
{
    let end = pattern::keyword_end(chars, i);
    let to = j + (end - i);
    if i == chars.len() {
        assert(chars.skip(i) =~= seq![]);
        assert(left.skip(j).len() == 0);
        assert(left.subrange(j, to) =~= chars.subrange(i, end));
    } else if is_bracket(chars[i]) {
        lemma_behind_bracket(chars, i, left, j);
        assert(left.subrange(j, to) =~= chars.subrange(i, end));
    } else {
        lemma_step(chars, i, left, j);
        if pattern::is_delimiter(chars[i]) {
            assert(left.subrange(j, to) =~= chars.subrange(i, end));
        } else {
            lemma_keyword_kept(chars, i + 1, left, j + 1);
            let rest = chars.subrange(i + 1, end);
            assert(left.subrange(j + 1, to) == rest);
            assert(left.subrange(j, to) =~= seq![left[j]] + left.subrange(j + 1, to));
            assert(chars.subrange(i, end) =~= seq![chars[i]] + rest);
        }
    }
}

/// A keyword with the placeholder behind it is the same without the brackets of
/// its pattern.
proof fn lemma_segments_kept(chars: Seq<char>, i: int, left: Seq<char>, j: int)
    requires
        is_tidy(chars),
        0 <= i < chars.len(),
        chars[i] != ':' && !is_bracket(chars[i]),
        0 <= j <= left.len(),
        left.skip(j) == without_brackets(chars.skip(i)),
    ensures
        ({
            let (first, next) = pattern::keyword_segments(chars, i);
            let to = j + (next - i);
            &&& i < next <= chars.len()
            &&& to <= left.len()
            &&& pattern::keyword_segments(left, j) == (first, to)
            &&& left.skip(to) == without_brackets(chars.skip(next))
            &&& left[j] == chars[i]
            &&& inside(chars, next) == inside(chars, i)
            &&& opened(chars.skip(next)) == opened(chars.skip(i))
        }),
{
    let end = pattern::keyword_end(chars, i);
    let (first, next) = pattern::keyword_segments(chars, i);
    lemma_step(chars, i, left, j);
    lemma_keyword_kept(chars, i, left, j);
    pattern::lemma_keyword_end(chars, i);
    pattern::lemma_segments_step(chars, i, false);
    if chars[i] != '#' && end < chars.len() && chars[end] == '#' {
        lemma_step(chars, end, left, j + (end - i));
    }
    assert forall|m: int| i <= m < next implies !is_bracket(#[trigger] chars[m]) by {
        if m < end {
            assert(!pattern::is_delimiter(chars[m]));
        }
    }
    lemma_inside_stays(chars, i, next);
    let between = chars.subrange(i, next);
    assert forall|m: int| 0 <= m < between.len() implies !is_bracket(#[trigger] between[m]) by {
        assert(between[m] == chars[i + m]);
    }
    lemma_no_brackets(between);
    lemma_concat(between, chars.skip(next));
    assert(chars.skip(i) =~= between + chars.skip(next));
}

/// The nodes in brackets are read as others are, without them.
proof fn lemma_group_kept(
    chars: Seq<char>,
    i: int,
    left: Seq<char>,
    j: int,
    segments: Seq<SegmentModel>,
    groups: Seq<GroupModel>,
) -> (to: int)
    requires
        is_tidy(chars),
        0 <= i <= chars.len(),
        inside(chars, i),
        0 <= j <= left.len(),
        left.skip(j) == without_brackets(chars.skip(i)),
    ensures
        ({
            let (inner, next) = pattern::group_segments(chars, i);
            &&& i <= next <= chars.len()
            &&& !inside(chars, next)
            &&& 0 <= to <= left.len()
            &&& left.skip(to) == without_brackets(chars.skip(next))
            &&& opened(chars.skip(next)) == opened(chars.skip(i))
            &&& pattern::keywords_from(left, j, segments, groups) == pattern::keywords_from(
                left,
                to,
                segments + inner,
                groups,
            )
        }),
    decreases chars.len() - i,
{
    assert(i < chars.len());
    lemma_step(chars, i, left, j);
    if chars[i] == ']' {
        assert(segments + Seq::<SegmentModel>::empty() =~= segments);
        j
    } else if chars[i] == ':' {
        lemma_group_kept(chars, i + 1, left, j + 1, segments, groups)
    } else {
        let (first, next) = pattern::keyword_segments(chars, i);
        lemma_segments_kept(chars, i, left, j);
        let (rest, _) = pattern::group_segments(chars, next);
        let to = lemma_group_kept(
            chars,
            next,
            left,
            j + (next - i),
            segments + first,
            groups,
        );
        assert(segments + first + rest =~= segments + (first + rest));
        to
    }
}

/// Without its brackets a pattern has the same segments and no groups.
proof fn lemma_pattern_kept(
    chars: Seq<char>,
    i: int,
    left: Seq<char>,
    j: int,
    segments: Seq<SegmentModel>,
    groups: Seq<GroupModel>,
)
    requires
        is_tidy(chars),
        0 <= i <= chars.len(),
        !inside(chars, i),
        0 <= j <= left.len(),
        left.skip(j) == without_brackets(chars.skip(i)),
    ensures
        pattern::keywords_from(left, j, segments, seq![]).0 == pattern::keywords_from(
            chars,
            i,
            segments,
            groups,
        ).0,
        pattern::keywords_from(left, j, segments, seq![]).1 == Seq::<GroupModel>::empty(),
        pattern::keywords_from(chars, i, segments, groups).1.len() == groups.len() + opened(
            chars.skip(i),
        ),
    decreases chars.len() - i,
{
    if i == chars.len() {
        assert(chars.skip(i) =~= seq![]);
        assert(left.skip(j).len() == 0);
    } else {
        lemma_step(chars, i, left, j);
        if chars[i] == ':' {
            lemma_pattern_kept(chars, i + 1, left, j + 1, segments, groups);
        } else if chars[i] == '[' {
            let (inner, next) = pattern::group_segments(chars, i + 1);
            let to = lemma_group_kept(chars, i + 1, left, j, segments, seq![]);
            let group = GroupModel { start: segments.len(), end: segments.len() + inner.len() };
            lemma_pattern_kept(chars, next, left, to, segments + inner, groups.push(group));
        } else {
            let (first, next) = pattern::keyword_segments(chars, i);
            lemma_segments_kept(chars, i, left, j);
            lemma_pattern_kept(chars, next, left, j + (next - i), segments + first, groups);
        }
    }
}

/// One character back.
proof fn lemma_step_back(chars: Seq<char>, i: int)
    requires
        0 <= i < chars.len(),
    ensures
        without_brackets(chars.take(i + 1)) == (if is_bracket(chars[i]) {
            without_brackets(chars.take(i))
        } else {
            without_brackets(chars.take(i)).push(chars[i])
        }),
{
    let last = seq![chars[i]];
    lemma_concat(chars.take(i), last);
    assert(chars.take(i + 1) =~= chars.take(i) + last);
    assert(last.drop_first() =~= seq![]);
    reveal_with_fuel(without_brackets, 2);
    if is_bracket(chars[i]) {
        assert(without_brackets(last) =~= seq![]);
    } else {
        assert(without_brackets(last) =~= last);
        assert(without_brackets(chars.take(i)) + last =~= without_brackets(chars.take(i)).push(
            chars[i],
        ));
    }
}

/// No bracket breaks up what a text without brackets ends in, once the last
/// character is no bracket.
proof fn lemma_tail_before(chars: Seq<char>, end: int, tail: Seq<char>, n: int)
    requires
        is_tidy(chars),
        0 <= end <= chars.len(),
        0 <= n <= tail.len(),
        n <= end,
        forall|i: int|
            0 <= i < tail.len() ==> #[trigger] tail[i] != ':' && !is_bracket(tail[i]),
        chars.subrange(end - n, end) == tail.skip(tail.len() - n),
        pattern::ends_in(without_brackets(chars.take(end - n)), tail.take(tail.len() - n)),
        n == 0 && end > 0 ==> !is_bracket(chars[end - 1]),
    ensures
        tail.len() <= end,
        chars.subrange(end - tail.len(), end) == tail,
    decreases tail.len() - n,
{
    let m = tail.len() as int;
    if n == m {
        assert(tail.skip(0) =~= tail);
    } else {
        let k = end - n;
        let part = tail.take(m - n);
        let before = without_brackets(chars.take(k));
        assert(before.skip(before.len() - part.len()) == part);
        assert(before.last() == part.last()) by {
            assert(before.skip(before.len() - part.len()).last() == before.last());
        }
        if k == 0 {
            assert(chars.take(k) =~= seq![]);
        }
        lemma_step_back(chars, k - 1);
        if is_bracket(chars[k - 1]) {
            assert(chars[k] == tail[m - n]) by {
                assert(chars.subrange(k, end)[0] == tail.skip(m - n)[0]);
            }
        }
        let shorter = without_brackets(chars.take(k - 1));
        assert(before == shorter.push(chars[k - 1]));
        assert(tail.take(m - n - 1) =~= part.drop_last());
        assert(shorter.skip(shorter.len() - (m - n - 1)) =~= part.drop_last()) by {
            let from = before.len() - part.len();
            assert forall|x: int| 0 <= x < m - n - 1 implies shorter.skip(from)[x] == part[x] by {
                assert(before.skip(from)[x] == part[x]);
            }
            assert(shorter.skip(from) =~= part.drop_last());
        }
        assert(chars.subrange(k - 1, end) =~= seq![chars[k - 1]] + chars.subrange(k, end));
        assert(tail.skip(m - n - 1) =~= seq![tail[m - n - 1]] + tail.skip(m - n));
        lemma_tail_before(chars, end, tail, n + 1);
    }
}

/// What a pattern ends in without its brackets, from a space or a `?` on, it ends
/// in with them.
proof fn lemma_tail_kept(chars: Seq<char>, tail: Seq<char>)
    requires
        is_tidy(chars),
        tail.len() > 0,
        tail[0] == ' ' || tail[0] == '?',
        forall|i: int|
            0 <= i < tail.len() ==> #[trigger] tail[i] != ':' && !is_bracket(tail[i]),
        pattern::ends_in(without_brackets(chars), tail),
    ensures
        pattern::ends_in(chars, tail),
{
    let len = chars.len() as int;
    let m = tail.len() as int;
    assert(tail.take(m) =~= tail);
    assert(tail.skip(m) =~= seq![]);
    assert(chars.take(len) =~= chars);
    if len == 0 {
        assert(without_brackets(chars).len() == 0);
    } else if !is_bracket(chars[len - 1]) {
        assert(chars.subrange(len, len) =~= seq![]);
        lemma_tail_before(chars, len, tail, 0);
        assert(chars.skip(len - m) =~= chars.subrange(len - m, len));
    } else {
        let end = len - 1;
        lemma_step_back(chars, end);
        assert(chars[end] == ']');
        assert(inside(chars, end));
        assert(!is_bracket(chars[end - 1]));
        assert(chars.subrange(end, end) =~= seq![]);
        lemma_tail_before(chars, end, tail, 0);
        let start = end - m;
        assert forall|x: int| start <= x < end implies !is_bracket(#[trigger] chars[x]) by {
            assert(chars.subrange(start, end)[x - start] == tail[x - start]);
        }
        lemma_inside_stays(chars, start, end);
        assert(chars.subrange(start, end)[0] == tail[0]);
        assert(chars[start] == tail[0]);
    }
}

/// Whether a place is inside does not depend on what is behind it.
pub(crate) proof fn lemma_inside_front(a: Seq<char>, b: Seq<char>, i: int)
    requires
        i <= a.len(),
    ensures
        inside(a + b, i) == inside(a, i),
    decreases i,
{
    if i > 0 {
        lemma_inside_front(a, b, i - 1);
        assert((a + b)[i - 1] == a[i - 1]);
    }
}

/// Brackets that stand where they may.
pub(crate) proof fn lemma_well_bracketed(chars: Seq<char>, i: int)
    requires
        0 <= i <= chars.len(),
        forall|k: int|
            0 <= k < chars.len() ==> (#[trigger] chars[k] == '[' ==> !inside(chars, k)) && (chars[k]
                == ']' ==> inside(chars, k)),
    ensures
        pattern::bracketed(chars, i, inside(chars, i)),
    decreases chars.len() - i,
{
    if i < chars.len() {
        lemma_well_bracketed(chars, i + 1);
    }
}

/// The `?` and the declaration of a pattern hold no bracket.
proof fn lemma_plain_tail(is_query: bool, kind: Option<ParamKind>)
    ensures
        forall|i: int|
            0 <= i < (typed::query_text(is_query) + typed::kind_text(kind)).len() ==> !is_bracket(
                #[trigger] (typed::query_text(is_query) + typed::kind_text(kind))[i],
            ),
{
    let query = typed::query_text(is_query);
    let declaration = typed::kind_text(kind);
    let tail = query + declaration;
    assert forall|i: int| 0 <= i < tail.len() implies !is_bracket(#[trigger] tail[i]) by {
        if i < query.len() {
            assert(tail[i] == query[i]);
        } else {
            assert(tail[i] == declaration[i - query.len()]);
        }
    }
}

/// Keywords without a declaration have none without their brackets.
proof fn lemma_no_declaration_kept(row: Seq<char>)
    requires
        is_tidy(row),
        !typed::declares(row),
    ensures
        !typed::declares(without_brackets(row)),
{
    let left = without_brackets(row);
    if typed::declares(left) {
        let kind = pattern::declared_param(left);
        let declaration = typed::kind_text(kind);
        lemma_plain_tail(false, kind);
        assert(typed::query_text(false) + declaration =~= declaration);
        assert(declaration[0] == ' ');
        assert forall|i: int| 0 <= i < declaration.len() implies #[trigger] declaration[i]
            != ':' by {}
        assert(pattern::ends_in(left, declaration));
        lemma_tail_kept(row, declaration);
        assert(pattern::ends_in(row, declaration));
    }
}

/// Keywords that do not end in `?` do not without their brackets.
proof fn lemma_no_query_kept(row: Seq<char>)
    requires
        is_tidy(row),
        row.len() == 0 || row.last() != '?',
    ensures
        without_brackets(row).len() == 0 || without_brackets(row).last() != '?',
{
    let left = without_brackets(row);
    if left.len() > 0 && left.last() == '?' {
        let mark = seq!['?'];
        assert(left.skip(left.len() - 1) =~= mark);
        lemma_tail_kept(row, mark);
        assert(row.skip(row.len() - 1)[0] == row.last());
    }
}

/// A pattern without its brackets has its keywords without their brackets, and
/// the same `?` and declaration.
proof fn lemma_parts_kept(text: Seq<char>)
    requires
        is_tidy(pattern::keyword_part(text)),
    ensures
        ({
            let left = without_brackets(text);
            &&& pattern::keyword_part(left) == without_brackets(pattern::keyword_part(text))
            &&& pattern::declares_query(left) == pattern::declares_query(text)
            &&& pattern::declared_param(left) == pattern::declared_param(text)
            &&& opened(text) == opened(pattern::keyword_part(text))
        }),
{
    let row = pattern::keyword_part(text);
    let is_query = pattern::declares_query(text);
    let kind = pattern::declared_param(text);
    let query = typed::query_text(is_query);
    let declaration = typed::kind_text(kind);
    let left = without_brackets(row);
    typed::lemma_pattern_whole(text);
    lemma_plain_tail(is_query, kind);
    lemma_no_brackets(query + declaration);
    lemma_concat(row, query + declaration);
    assert(text =~= row + (query + declaration));
    assert(without_brackets(text) =~= left + query + declaration);
    if kind is None && !is_query {
        lemma_no_declaration_kept(row);
    }
    if !is_query {
        lemma_no_query_kept(row);
    }
    typed::lemma_pattern_parts(left, is_query, kind);
}

/// A pattern of this form can be compiled.
proof fn lemma_tidy_compiles(text: Seq<char>)
    requires
        is_tidy(pattern::keyword_part(text)),
    ensures
        pattern::well_bracketed(text),
{
    let row = pattern::keyword_part(text);
    let is_query = pattern::declares_query(text);
    let kind = pattern::declared_param(text);
    let tail = typed::query_text(is_query) + typed::kind_text(kind);
    typed::lemma_pattern_whole(text);
    lemma_plain_tail(is_query, kind);
    assert(text =~= row + tail);
    assert forall|k: int| 0 <= k < text.len() implies (#[trigger] text[k] == '[' ==> !inside(
        text,
        k,
    )) && (text[k] == ']' ==> inside(text, k)) by {
        if k < row.len() {
            lemma_inside_front(row, tail, k);
            assert(text[k] == row[k]);
        } else {
            assert(text[k] == tail[k - row.len()]);
        }
    }
    lemma_well_bracketed(text, 0);
}

/// Brackets only mark nodes as optional: without them a pattern compiles to the
/// same segments, is a query or not as before, and takes the same parameter, but
/// has no groups. With them it has one group for each pair.
pub proof fn law_brackets_mark_groups(text: Seq<char>)
    requires
        is_tidy(pattern::keyword_part(text)),
    ensures
        pattern::well_bracketed(text),
        pattern::well_bracketed(without_brackets(text)),
        pattern::compiled(without_brackets(text)) == (EntryModel {
            segments: pattern::compiled(text).segments,
            groups: seq![],
            is_query: pattern::compiled(text).is_query,
            param: pattern::compiled(text).param,
        }),
        pattern::compiled(text).groups.len() == opened(text),
{
    let row = pattern::keyword_part(text);
    let left = without_brackets(row);
    lemma_parts_kept(text);
    assert(row.skip(0) =~= row);
    assert(left.skip(0) =~= left);
    lemma_pattern_kept(row, 0, left, 0, seq![], seq![]);
    lemma_tidy_compiles(text);
    lemma_brackets_gone(text);
    typed::lemma_unbracketed(without_brackets(text), 0);
}

} // verus!
