//! The pattern language: from the text of a pattern to its segments.
//!
//! A pattern is a row of keywords, separated by `:`, with optional nodes in
//! square brackets, an optional `?` and an optional parameter declaration.

use crate::error::ParseError;
use crate::text;
use vstd::prelude::*;

verus! {

/// What kind of parameter a command takes.
#[derive(Debug, Clone, Copy, PartialEq, Eq, Structural)]
pub enum ParamKind {
    Num,
    Bool,
    Str,
}

/// One segment of a compiled keyword pattern.
#[derive(Debug, Clone)]
pub enum Segment {
    /// A keyword with its short and its long form, both in upper case.
    Keyword { short: String, long: String },
    /// A `#` numeric suffix placeholder.
    NumericSuffix,
}

/// The model of a [`Segment`].
#[verifier::ext_equal]
pub enum SegmentModel {
    Keyword { short: Seq<char>, long: Seq<char> },
    NumericSuffix,
}

impl View for Segment {
    type V = SegmentModel;

    open spec fn view(&self) -> SegmentModel {
        match self {
            Segment::Keyword { short, long } => SegmentModel::Keyword {
                short: short@,
                long: long@,
            },
            Segment::NumericSuffix => SegmentModel::NumericSuffix,
        }
    }
}

impl DeepView for Segment {
    type V = SegmentModel;

    open spec fn deep_view(&self) -> SegmentModel {
        self@
    }
}

/// One `[...]` optional group: the segments from `start` up to, and without,
/// `end`.
#[derive(Debug, Clone)]
pub struct OptGroup {
    pub start: usize,
    pub end: usize,
}

/// The model of an [`OptGroup`].
pub struct GroupModel {
    pub start: nat,
    pub end: nat,
}

impl DeepView for OptGroup {
    type V = GroupModel;

    open spec fn deep_view(&self) -> GroupModel {
        GroupModel { start: self.start as nat, end: self.end as nat }
    }
}

/// The characters that belong to the short form of a keyword when they stand at
/// its start.
pub open spec fn is_short_char(c: char) -> bool {
    'A' <= c <= 'Z' || text::is_digit(c) || c == '+' || c == '-'
}

/// How many such characters a text starts with.
pub open spec fn short_run(s: Seq<char>) -> nat
    decreases s.len(),
{
    if s.len() > 0 && is_short_char(s[0]) {
        1 + short_run(s.drop_first())
    } else {
        0
    }
}

/// How many characters at the start of a keyword belong to its short form. The
/// `*` that a common command starts with is one of them.
pub open spec fn short_len(token: Seq<char>) -> nat {
    if token.len() > 0 && token[0] == '*' {
        1 + short_run(token.drop_first())
    } else {
        short_run(token)
    }
}

/// The short form of a keyword.
pub open spec fn short_form(token: Seq<char>) -> Seq<char> {
    text::upper(token.take(short_len(token) as int))
}

/// The long form of a keyword.
pub open spec fn long_form(token: Seq<char>) -> Seq<char> {
    text::upper(token)
}

/// The short form of a mixed-case keyword such as `SYSTem`, which is its leading
/// upper-case characters, and its long form, which is all of it. A keyword in
/// upper case only, such as `BAUD` or `*IDN`, has one form.
pub fn short_long(token: &str) -> (r: (String, String))
    ensures
        r.0@ == short_form(token@),
        r.1@ == long_form(token@),
{
    let chars = text::to_chars(token);
    let n: usize = chars.len();
    let mut k: usize = if n > 0 && chars[0] == '*' {
        1
    } else {
        0
    };
    assert(token@.skip(0) == token@);
    assert(n > 0 ==> token@.skip(1) == token@.drop_first());
    while k < n && (('A' <= chars[k] && chars[k] <= 'Z') || ('0' <= chars[k] && chars[k] <= '9')
        || chars[k] == '+' || chars[k] == '-')
        invariant
            chars@ == token@,
            k <= n == chars.len(),
            short_len(token@) == k + short_run(token@.skip(k as int)),
        decreases n - k,
    {
        assert(token@.skip(k as int).drop_first() == token@.skip(k + 1));
        k = k + 1;
    }
    assert(short_len(token@) == k);
    assert(token@.subrange(0, n as int) == token@);
    assert(token@.subrange(0, k as int) == token@.take(k as int));
    (text::upper_string(chars.as_slice(), 0, k), text::upper_string(chars.as_slice(), 0, n))
}

/// The characters that end a keyword.
pub open spec fn is_delimiter(c: char) -> bool {
    c == ':' || c == '[' || c == ']' || c == '#'
}

/// Where the keyword that starts at `i` ends.
pub open spec fn keyword_end(chars: Seq<char>, i: int) -> int
    decreases chars.len() - i,
{
    if 0 <= i < chars.len() && !is_delimiter(chars[i]) {
        keyword_end(chars, i + 1)
    } else {
        i
    }
}

/// The segment of one keyword.
pub open spec fn keyword_segment(token: Seq<char>) -> SegmentModel {
    SegmentModel::Keyword { short: short_form(token), long: long_form(token) }
}

/// The segments that start at `pos`, and where they end: a `#` alone, or a
/// keyword with the `#` that is glued to it.
pub open spec fn keyword_segments(chars: Seq<char>, pos: int) -> (Seq<SegmentModel>, int) {
    let end = keyword_end(chars, pos);
    let keyword = keyword_segment(chars.subrange(pos, end));
    if chars[pos] == '#' {
        (seq![SegmentModel::NumericSuffix], pos + 1)
    } else if end < chars.len() && chars[end] == '#' {
        (seq![keyword, SegmentModel::NumericSuffix], end + 1)
    } else {
        (seq![keyword], end)
    }
}

/// A keyword ends within the text, at its end or at a delimiter.
pub proof fn lemma_keyword_end(chars: Seq<char>, i: int)
    requires
        0 <= i <= chars.len(),
    ensures
        i <= keyword_end(chars, i) <= chars.len(),
        forall|j: int| i <= j < keyword_end(chars, i) ==> !is_delimiter(#[trigger] chars[j]),
        keyword_end(chars, i) < chars.len() ==> is_delimiter(chars[keyword_end(chars, i)]),
    decreases chars.len() - i,
{
    if i < chars.len() && !is_delimiter(chars[i]) {
        lemma_keyword_end(chars, i + 1);
    }
}

/// Compiles one keyword with the suffix placeholder behind it, if there is one,
/// or a placeholder alone.
pub fn parse_keyword_segments(chars: &[char], pos: &mut usize) -> (r: Vec<Segment>)
    requires
        *old(pos) < chars.len(),
    ensures
        r.deep_view() == keyword_segments(chars@, *old(pos) as int).0,
        *final(pos) == keyword_segments(chars@, *old(pos) as int).1,
        *old(pos) <= *final(pos) <= chars.len(),
{
    let start: usize = *pos;
    if chars[start] == '#' {
        *pos = start + 1;
        let r = vec![Segment::NumericSuffix];
        assert(r.deep_view() =~= seq![SegmentModel::NumericSuffix]);
        return r;
    }
    let mut end: usize = start;
    proof {
        lemma_keyword_end(chars@, start as int);
    }
    while end < chars.len() && chars[end] != ':' && chars[end] != '[' && chars[end] != ']'
        && chars[end] != '#'
        invariant
            start <= end <= chars.len(),
            keyword_end(chars@, start as int) == keyword_end(chars@, end as int),
        decreases chars.len() - end,
    {
        end = end + 1;
    }
    let token = text::string_of(chars, start, end);
    let (short, long) = short_long(token.as_str());
    let keyword = Segment::Keyword { short, long };
    if end < chars.len() && chars[end] == '#' {
        *pos = end + 1;
        let r = vec![keyword, Segment::NumericSuffix];
        assert(r.deep_view() =~= seq![keyword@, SegmentModel::NumericSuffix]);
        r
    } else {
        *pos = end;
        let r = vec![keyword];
        assert(r.deep_view() =~= seq![keyword@]);
        r
    }
}

/// No `[` stands inside an optional group and no `]` outside one, from `i` on,
/// where `inside` says whether `i` is inside a group.
pub open spec fn bracketed(chars: Seq<char>, i: int, inside: bool) -> bool
    decreases chars.len() - i,
{
    if i < 0 || i >= chars.len() {
        true
    } else if chars[i] == '[' {
        !inside && bracketed(chars, i + 1, true)
    } else if chars[i] == ']' {
        inside && bracketed(chars, i + 1, false)
    } else {
        bracketed(chars, i + 1, inside)
    }
}

/// The patterns that can be compiled: groups are not nested, and none is closed
/// that was not opened. The last one may stay open.
pub open spec fn well_bracketed(pattern: Seq<char>) -> bool {
    bracketed(pattern, 0, false)
}

/// Whether a pattern can be compiled.
pub fn is_well_bracketed(pattern: &str) -> (r: bool)
    ensures
        r == well_bracketed(pattern@),
{
    let chars = text::to_chars(pattern);
    let mut inside: bool = false;
    let mut i: usize = 0;
    while i < chars.len()
        invariant
            chars@ == pattern@,
            i <= chars.len(),
            well_bracketed(pattern@) == bracketed(pattern@, i as int, inside),
        decreases chars.len() - i,
    {
        if chars[i] == '[' {
            if inside {
                return false;
            }
            inside = true;
        } else if chars[i] == ']' {
            if !inside {
                return false;
            }
            inside = false;
        }
        i = i + 1;
    }
    true
}

/// What is left of a text when something is cut off its end has brackets as the
/// text has.
proof fn lemma_bracketed_take(chars: Seq<char>, k: int, i: int, inside: bool)
    requires
        bracketed(chars, i, inside),
        0 <= i,
        0 <= k <= chars.len(),
    ensures
        bracketed(chars.take(k), i, inside),
    decreases chars.len() - i,
{
    if i < k {
        if chars[i] == '[' {
            lemma_bracketed_take(chars, k, i + 1, true);
        } else if chars[i] == ']' {
            lemma_bracketed_take(chars, k, i + 1, false);
        } else {
            lemma_bracketed_take(chars, k, i + 1, inside);
        }
    }
}

/// A stretch without brackets does not change what is inside.
proof fn lemma_bracketed_skip(chars: Seq<char>, i: int, j: int, inside: bool)
    requires
        0 <= i <= j <= chars.len(),
        forall|m: int| i <= m < j ==> #[trigger] chars[m] != '[' && chars[m] != ']',
    ensures
        bracketed(chars, i, inside) == bracketed(chars, j, inside),
    decreases j - i,
{
    if i < j {
        lemma_bracketed_skip(chars, i + 1, j, inside);
    }
}

/// Segments that start at a character that is no bracket and no `:` take up that
/// character, and hold no bracket.
pub proof fn lemma_segments_step(chars: Seq<char>, i: int, inside: bool)
    requires
        0 <= i < chars.len(),
        chars[i] != ':' && chars[i] != '[' && chars[i] != ']',
    ensures
        i < keyword_segments(chars, i).1 <= chars.len(),
        bracketed(chars, i, inside) == bracketed(chars, keyword_segments(chars, i).1, inside),
{
    lemma_keyword_end(chars, i);
    if chars[i] != '#' {
        lemma_keyword_end(chars, i + 1);
    }
    lemma_bracketed_skip(chars, i, keyword_segments(chars, i).1, inside);
}

/// The segments from `i` to the end of the group that `i` is in, and where that
/// is: behind its `]`, or at the end of the text.
pub open spec fn group_segments(chars: Seq<char>, i: int) -> (Seq<SegmentModel>, int)
    decreases chars.len() - i,
{
    if i < 0 || i >= chars.len() || chars[i] == '[' {
        (seq![], i)
    } else if chars[i] == ']' {
        (seq![], i + 1)
    } else if chars[i] == ':' {
        group_segments(chars, i + 1)
    } else {
        proof {
            lemma_segments_step(chars, i, true);
        }
        let (first, next) = keyword_segments(chars, i);
        let (rest, end) = group_segments(chars, next);
        (first + rest, end)
    }
}

/// A group ends behind where it starts, within the text.
pub proof fn lemma_group_end(chars: Seq<char>, i: int)
    requires
        0 <= i <= chars.len(),
    ensures
        i <= group_segments(chars, i).1 <= chars.len(),
    decreases chars.len() - i,
{
    if i < chars.len() && chars[i] != '[' && chars[i] != ']' {
        if chars[i] == ':' {
            lemma_group_end(chars, i + 1);
        } else {
            lemma_segments_step(chars, i, true);
            lemma_group_end(chars, keyword_segments(chars, i).1);
        }
    }
}

/// The segments and the optional groups of a pattern's keywords, with those from
/// `i` on added to the ones already there.
pub open spec fn keywords_from(
    chars: Seq<char>,
    i: int,
    segments: Seq<SegmentModel>,
    groups: Seq<GroupModel>,
) -> (Seq<SegmentModel>, Seq<GroupModel>)
    decreases chars.len() - i,
{
    if i < 0 || i >= chars.len() || chars[i] == ']' {
        (segments, groups)
    } else if chars[i] == ':' {
        keywords_from(chars, i + 1, segments, groups)
    } else if chars[i] == '[' {
        proof {
            lemma_group_end(chars, i + 1);
        }
        let (inner, next) = group_segments(chars, i + 1);
        let group = GroupModel { start: segments.len(), end: segments.len() + inner.len() };
        keywords_from(chars, next, segments + inner, groups.push(group))
    } else {
        proof {
            lemma_segments_step(chars, i, false);
        }
        let (first, next) = keyword_segments(chars, i);
        keywords_from(chars, next, segments + first, groups)
    }
}

/// Whether `s` ends in `tail`.
pub open spec fn ends_in(s: Seq<char>, tail: Seq<char>) -> bool {
    s.len() >= tail.len() && s.skip(s.len() - tail.len()) == tail
}

/// The parameter that a pattern declares.
pub open spec fn declared_param(pattern: Seq<char>) -> Option<ParamKind> {
    if ends_in(pattern, seq![' ', 'n', 'u', 'm']) {
        Some(ParamKind::Num)
    } else if ends_in(pattern, seq![' ', 'b', 'o', 'o', 'l']) {
        Some(ParamKind::Bool)
    } else if ends_in(pattern, seq![' ', 's', 't', 'r']) {
        Some(ParamKind::Str)
    } else {
        None
    }
}

/// A pattern without its parameter declaration.
pub open spec fn without_param(pattern: Seq<char>) -> Seq<char> {
    match declared_param(pattern) {
        Some(ParamKind::Bool) => pattern.take(pattern.len() - 5),
        Some(_) => pattern.take(pattern.len() - 4),
        None => pattern,
    }
}

/// Whether a pattern is that of a query.
pub open spec fn declares_query(pattern: Seq<char>) -> bool {
    let header = without_param(pattern);
    header.len() > 0 && header.last() == '?'
}

/// The keywords of a pattern: what stands before the `?` and the parameter
/// declaration.
pub open spec fn keyword_part(pattern: Seq<char>) -> Seq<char> {
    if declares_query(pattern) {
        without_param(pattern).drop_last()
    } else {
        without_param(pattern)
    }
}

/// What a pattern compiles to.
#[verifier::ext_equal]
pub struct EntryModel {
    pub segments: Seq<SegmentModel>,
    pub groups: Seq<GroupModel>,
    pub is_query: bool,
    pub param: Option<ParamKind>,
}

/// The compiled form of a pattern.
pub open spec fn compiled(pattern: Seq<char>) -> EntryModel {
    let (segments, groups) = keywords_from(keyword_part(pattern), 0, seq![], seq![]);
    EntryModel {
        segments,
        groups,
        is_query: declares_query(pattern),
        param: declared_param(pattern),
    }
}

/// Whether the first `n` characters of `chars` end in `tail`.
fn prefix_ends_in(chars: &Vec<char>, n: usize, tail: &[char]) -> (r: bool)
    requires
        n <= chars.len(),
    ensures
        r == ends_in(chars@.take(n as int), tail@),
{
    let m: usize = tail.len();
    if n < m {
        return false;
    }
    let ghost end = chars@.take(n as int).skip(n - m);
    let mut i: usize = 0;
    while i < m
        invariant
            i <= m == tail.len() <= n <= chars.len(),
            end == chars@.take(n as int).skip(n - m),
            forall|j: int| 0 <= j < i ==> #[trigger] end[j] == tail@[j],
        decreases m - i,
    {
        if chars[n - m + i] != tail[i] {
            assert(end[i as int] != tail@[i as int]);
            return false;
        }
        i = i + 1;
    }
    assert(end =~= tail@);
    true
}

/// Adds the segments of `more` behind those of `segments`.
fn add_segments(segments: &mut Vec<Segment>, more: Vec<Segment>)
    ensures
        final(segments).deep_view() == old(segments).deep_view() + more.deep_view(),
{
    let ghost added = more.deep_view();
    let mut rest = more;
    segments.append(&mut rest);
    assert(segments.deep_view() =~= old(segments).deep_view() + added);
}

/// Compiles a pattern into its segments, its optional groups, whether it is a
/// query, and the parameter that it declares.
pub fn compile(pattern: &str) -> (r: Result<
    (Vec<Segment>, Vec<OptGroup>, bool, Option<ParamKind>),
    ParseError,
>)
    requires
        well_bracketed(pattern@),
    ensures
        r is Ok,
        r->Ok_0.0.deep_view() == compiled(pattern@).segments,
        r->Ok_0.1.deep_view() == compiled(pattern@).groups,
        r->Ok_0.2 == compiled(pattern@).is_query,
        r->Ok_0.3 == compiled(pattern@).param,
{
    let mut chars = text::to_chars(pattern);
    let len: usize = chars.len();
    assert(pattern@.take(len as int) == pattern@);
    let param: Option<ParamKind> = if prefix_ends_in(&chars, len, &[' ', 'n', 'u', 'm']) {
        Some(ParamKind::Num)
    } else if prefix_ends_in(&chars, len, &[' ', 'b', 'o', 'o', 'l']) {
        Some(ParamKind::Bool)
    } else if prefix_ends_in(&chars, len, &[' ', 's', 't', 'r']) {
        Some(ParamKind::Str)
    } else {
        None
    };
    assert(param == declared_param(pattern@));
    match param {
        Some(ParamKind::Bool) => chars.truncate(len - 5),
        Some(_) => chars.truncate(len - 4),
        None => {},
    }
    assert(chars@ == without_param(pattern@));
    let is_query: bool = chars.len() > 0 && chars[chars.len() - 1] == '?';
    if is_query {
        let shorter: usize = chars.len() - 1;
        chars.truncate(shorter);
    }
    assert(chars@ == keyword_part(pattern@));
    proof {
        lemma_bracketed_take(pattern@, chars@.len() as int, 0, false);
        assert(pattern@.take(chars@.len() as int) == chars@);
    }
    let mut segments: Vec<Segment> = Vec::new();
    let mut groups: Vec<OptGroup> = Vec::new();
    assert(segments.deep_view() =~= seq![]);
    assert(groups.deep_view() =~= seq![]);
    let mut i: usize = 0;
    while i < chars.len()
        invariant
            i <= chars.len(),
            bracketed(chars@, i as int, false),
            keywords_from(chars@, 0, seq![], seq![]) == keywords_from(
                chars@,
                i as int,
                segments.deep_view(),
                groups.deep_view(),
            ),
        decreases chars.len() - i,
    {
        if chars[i] == ':' {
            i = i + 1;
        } else if chars[i] == '[' {
            let start: usize = segments.len();
            let ghost before = segments.deep_view();
            let ghost old_groups = groups.deep_view();
            let ghost open = i as int + 1;
            i = i + 1;
            proof {
                lemma_group_end(chars@, open);
            }
            assert(segments.deep_view() =~= before + seq![]);
            while i < chars.len() && chars[i] != ']'
                invariant
                    open <= i <= chars.len(),
                    bracketed(chars@, i as int, true),
                    group_segments(chars@, open).1 == group_segments(chars@, i as int).1,
                    before + group_segments(chars@, open).0 == segments.deep_view()
                        + group_segments(chars@, i as int).0,
                decreases chars.len() - i,
            {
                if chars[i] == ':' {
                    i = i + 1;
                } else {
                    proof {
                        lemma_segments_step(chars@, i as int, true);
                    }
                    let more = parse_keyword_segments(chars.as_slice(), &mut i);
                    add_segments(&mut segments, more);
                }
            }
            if i < chars.len() {
                i = i + 1;
            }
            groups.push(OptGroup { start, end: segments.len() });
            proof {
                let (inner, _) = group_segments(chars@, open);
                assert(segments.deep_view() =~= before + inner);
                assert(groups.deep_view() =~= old_groups.push(
                    GroupModel { start: before.len(), end: before.len() + inner.len() },
                ));
            }
        } else {
            proof {
                lemma_segments_step(chars@, i as int, false);
            }
            let more = parse_keyword_segments(chars.as_slice(), &mut i);
            add_segments(&mut segments, more);
        }
    }
    Ok((segments, groups, is_query, param))
}

} // verus!
