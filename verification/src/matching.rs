//! Matching the keywords of a command against a compiled pattern.

use crate::number;
use crate::pattern::{EntryModel, GroupModel, OptGroup, ParamKind, Segment, SegmentModel};
use crate::text;
use vstd::prelude::*;
use vstd::utf8;

verus! {

/// How many bytes a text takes up.
pub open spec fn byte_len(s: Seq<char>) -> nat {
    utf8::encode_utf8(s).len()
}

/// A keyword accepts the words that begin its long form and are at least as long
/// as its short form.
pub open spec fn keyword_accepts(short: Seq<char>, long: Seq<char>, input: Seq<char>) -> bool {
    byte_len(short) <= byte_len(input) && input.is_prefix_of(long)
}

/// Whether `prefix` begins `s`.
fn begins(prefix: &Vec<char>, s: &Vec<char>) -> (r: bool)
    ensures
        r == prefix@.is_prefix_of(s@),
{
    if prefix.len() > s.len() {
        return false;
    }
    let mut i: usize = 0;
    while i < prefix.len()
        invariant
            i <= prefix.len() <= s.len(),
            forall|j: int| 0 <= j < i ==> #[trigger] prefix@[j] == s@[j],
        decreases prefix.len() - i,
    {
        if prefix[i] != s[i] {
            assert(s@.subrange(0, prefix@.len() as int)[i as int] != prefix@[i as int]);
            return false;
        }
        i = i + 1;
    }
    true
}

/// Whether `input`, in upper case, matches a keyword with the given forms: it is
/// at least as long as `short`, in bytes, and begins `long`.
pub fn keyword_matches(short: &str, long: &str, input: &str) -> (r: bool)
    ensures
        r == keyword_accepts(short@, long@, input@),
        utf8::is_ascii_chars(short@) && utf8::is_ascii_chars(input@) ==> r == (short@.len()
            <= input@.len() && input@.is_prefix_of(long@)),
{
    proof {
        if utf8::is_ascii_chars(short@) && utf8::is_ascii_chars(input@) {
            utf8::is_ascii_chars_encode_utf8(short@);
            utf8::is_ascii_chars_encode_utf8(input@);
        }
    }
    if input.as_bytes().len() < short.as_bytes().len() {
        return false;
    }
    begins(&text::to_chars(input), &text::to_chars(long))
}

/// The number behind a keyword at the start of `token`: 1 where nothing stands
/// there, none where something else than digits does.
pub open spec fn number_behind(token: Seq<char>, keyword: Seq<char>) -> Option<u32> {
    if !keyword.is_prefix_of(token) {
        None
    } else if token.len() == keyword.len() {
        Some(1)
    } else {
        number::row_value(token.skip(keyword.len() as int))
    }
}

/// The longest form of a keyword that `token` starts with, and the number behind
/// it, among the first `k` characters of the long form and what begins them. A
/// form is at least as long as the short one.
pub open spec fn longest_form(
    token: Seq<char>,
    short: Seq<char>,
    long: Seq<char>,
    k: nat,
) -> Option<(Seq<char>, u32)>
    decreases k,
{
    let form = long.take(k as int);
    if byte_len(form) < byte_len(short) {
        None
    } else {
        match number_behind(token, form) {
            Some(n) => Some((form, n)),
            None => if k == 0 {
                None
            } else {
                longest_form(token, short, long, (k - 1) as nat)
            },
        }
    }
}

/// The form of the keyword that `token` starts with, and the number behind it.
/// The forms are the beginnings of the long form down to the length of the short
/// one, the longest first, and at last the short one as it is.
pub open spec fn suffix_of(
    token: Seq<char>,
    short: Seq<char>,
    long: Seq<char>,
) -> Option<(Seq<char>, u32)> {
    match longest_form(token, short, long, long.len()) {
        Some(found) => Some(found),
        None => match number_behind(token, short) {
            Some(n) => Some((short, n)),
            None => None,
        },
    }
}

/// The number behind `keyword` at the start of `token`.
fn read_number_behind(token: &Vec<char>, keyword: &str) -> (r: Option<u32>)
    ensures
        r == number_behind(token@, keyword@),
{
    let word = text::to_chars(keyword);
    if !begins(&word, token) {
        return None;
    }
    let k: usize = word.len();
    let n: usize = token.len();
    if k == n {
        return Some(1);
    }
    let rest = &token.as_slice()[k..n];
    assert(rest@ == token@.skip(k as int));
    number::parse_row(rest)
}

/// The longest form of a keyword that `token` starts with, and the number behind
/// it.
fn find_form(token: &Vec<char>, short: &str, long: &str) -> (r: Option<(String, u32)>)
    ensures
        match r {
            Some((form, n)) => longest_form(token@, short@, long@, long@.len()) == Some(
                (form@, n),
            ),
            None => longest_form(token@, short@, long@, long@.len()) is None,
        },
{
    let chars = text::to_chars(long);
    let least: usize = short.as_bytes().len();
    let mut k: usize = chars.len();
    loop
        invariant
            chars@ == long@,
            least == byte_len(short@),
            k <= chars.len(),
            longest_form(token@, short@, long@, long@.len()) == longest_form(
                token@,
                short@,
                long@,
                k as nat,
            ),
        decreases k,
    {
        let form = text::string_of(chars.as_slice(), 0, k);
        assert(form@ == long@.take(k as int));
        if form.as_str().as_bytes().len() < least {
            return None;
        }
        if let Some(n) = read_number_behind(token, form.as_str()) {
            return Some((form, n));
        }
        if k == 0 {
            return None;
        }
        k = k - 1;
    }
}

/// Takes the numeric suffix off the end of a token: the long form of the keyword
/// is tried first, then the shorter ones down to the short form. Where the token
/// is the keyword alone, the suffix is 1.
pub fn extract_suffix(token: &str, short: &str, long: &str) -> (r: Option<(String, u32)>)
    ensures
        match r {
            Some((keyword, n)) => suffix_of(token@, short@, long@) == Some((keyword@, n)),
            None => suffix_of(token@, short@, long@) is None,
        },
{
    let chars = text::to_chars(token);
    if let Some(found) = find_form(&chars, short, long) {
        return Some(found);
    }
    if let Some(n) = read_number_behind(&chars, short) {
        return Some((short.to_owned(), n));
    }
    None
}

/// What follows from one suffix value and those behind it.
pub open spec fn with_first(n: u32, rest: Option<Seq<u32>>) -> Option<Seq<u32>> {
    match rest {
        Some(s) => Some(seq![n] + s),
        None => None,
    }
}

/// The suffix values with which `tokens`, all of them, match `segments`, all of
/// them, in order. A keyword and the placeholder behind it share one token; a
/// placeholder alone takes a number, which may have a `+`.
pub open spec fn segments_match(
    segments: Seq<SegmentModel>,
    tokens: Seq<Seq<char>>,
) -> Option<Seq<u32>>
    decreases segments.len(),
{
    if segments.len() == 0 {
        if tokens.len() == 0 {
            Some(seq![])
        } else {
            None
        }
    } else if tokens.len() == 0 {
        None
    } else {
        match segments[0] {
            SegmentModel::Keyword { short, long } => if segments.len() > 1
                && segments[1] is NumericSuffix {
                match suffix_of(tokens[0], short, long) {
                    Some((_, n)) => with_first(n, segments_match(segments.skip(2), tokens.skip(1))),
                    None => None,
                }
            } else if keyword_accepts(short, long, tokens[0]) {
                segments_match(segments.skip(1), tokens.skip(1))
            } else {
                None
            },
            SegmentModel::NumericSuffix => match number::u32_value(tokens[0]) {
                Some(n) => with_first(n, segments_match(segments.skip(1), tokens.skip(1))),
                None => None,
            },
        }
    }
}

/// What follows from the suffix values so far and those behind them.
spec fn with_all(done: Seq<u32>, rest: Option<Seq<u32>>) -> Option<Seq<u32>> {
    match rest {
        Some(s) => Some(done + s),
        None => None,
    }
}

/// Matches a flat list of segments against the tokens of a command, and returns
/// the suffix values.
pub fn match_segments(segments: &[&Segment], tokens: &[String]) -> (r: Option<Vec<u32>>)
    ensures
        match r {
            Some(s) => segments_match(segments.deep_view(), tokens.deep_view()) == Some(s@),
            None => segments_match(segments.deep_view(), tokens.deep_view()) is None,
        },
{
    let ghost all = segments.deep_view();
    let ghost words = tokens.deep_view();
    let mut suffixes: Vec<u32> = Vec::new();
    let mut ti: usize = 0;
    let mut si: usize = 0;
    assert(all.skip(0) == all);
    assert(words.skip(0) == words);
    proof {
        if let Some(s) = segments_match(all, words) {
            assert(suffixes@ + s =~= s);
        }
    }
    while si < segments.len()
        invariant
            all == segments.deep_view(),
            words == tokens.deep_view(),
            si <= segments.len(),
            ti <= tokens.len(),
            segments_match(all, words) == with_all(
                suffixes@,
                segments_match(all.skip(si as int), words.skip(ti as int)),
            ),
        decreases segments.len() - si,
    {
        if ti >= tokens.len() {
            return None;
        }
        let ghost left = all.skip(si as int);
        let ghost done = suffixes@;
        assert(left[0] == segments@[si as int]@);
        assert(words.skip(ti as int)[0] == tokens@[ti as int]@);
        assert(left.skip(1) == all.skip(si + 1));
        assert(words.skip(ti as int).skip(1) == words.skip(ti + 1));
        match segments[si] {
            Segment::Keyword { short, long } => {
                let next_is_suffix: bool = si + 1 < segments.len() && matches!(
                    segments[si + 1],
                    Segment::NumericSuffix
                );
                if next_is_suffix {
                    assert(left[1] == segments@[si + 1]@);
                    assert(left.skip(2) == all.skip(si + 2));
                    match extract_suffix(tokens[ti].as_str(), short.as_str(), long.as_str()) {
                        None => {
                            return None;
                        },
                        Some((_, n)) => {
                            suffixes.push(n);
                            proof {
                                if let Some(s) = segments_match(
                                    all.skip(si + 2),
                                    words.skip(ti + 1),
                                ) {
                                    assert(done + (seq![n] + s) =~= suffixes@ + s);
                                }
                            }
                            si = si + 2;
                            ti = ti + 1;
                        },
                    }
                } else {
                    proof {
                        if left.len() > 1 {
                            assert(left[1] == segments@[si + 1]@);
                        }
                    }
                    if !keyword_matches(short.as_str(), long.as_str(), tokens[ti].as_str()) {
                        return None;
                    }
                    si = si + 1;
                    ti = ti + 1;
                }
            },
            Segment::NumericSuffix => {
                let digits = text::to_chars(tokens[ti].as_str());
                match number::parse_u32(digits.as_slice()) {
                    None => {
                        return None;
                    },
                    Some(n) => {
                        suffixes.push(n);
                        proof {
                            if let Some(s) = segments_match(all.skip(si + 1), words.skip(ti + 1)) {
                                assert(done + (seq![n] + s) =~= suffixes@ + s);
                            }
                        }
                        si = si + 1;
                        ti = ti + 1;
                    },
                }
            },
        }
    }
    assert(suffixes@ + seq![] =~= suffixes@);
    if ti == tokens.len() {
        Some(suffixes)
    } else {
        None
    }
}

/// A compiled command: its pattern and the handler that goes with it.
pub struct Entry<H> {
    /// The segments of the pattern, those of its optional groups among them.
    pub segments: Vec<Segment>,
    /// The optional groups.
    pub optional_groups: Vec<OptGroup>,
    pub is_query: bool,
    pub param: Option<ParamKind>,
    pub handler: H,
}

impl<H> View for Entry<H> {
    type V = EntryModel;

    open spec fn view(&self) -> EntryModel {
        EntryModel {
            segments: self.segments.deep_view(),
            groups: self.optional_groups.deep_view(),
            is_query: self.is_query,
            param: self.param,
        }
    }
}

/// Whether segment `idx` is in a group that is left out.
pub open spec fn left_out(groups: Seq<GroupModel>, choice: Seq<bool>, idx: int) -> bool {
    exists|g: int|
        0 <= g < groups.len() && (#[trigger] groups[g]).start <= idx < groups[g].end && !choice[g]
}

/// Those of the first `n` segments that are not left out, where `choice` says of
/// each group whether it is there.
pub open spec fn active_upto(entry: EntryModel, choice: Seq<bool>, n: nat) -> Seq<SegmentModel>
    decreases n,
{
    if n == 0 {
        seq![]
    } else {
        let before = active_upto(entry, choice, (n - 1) as nat);
        if left_out(entry.groups, choice, n - 1) {
            before
        } else {
            before.push(entry.segments[n - 1])
        }
    }
}

/// The suffix values with which `tokens` match `entry`, for one choice of its
/// optional groups.
pub open spec fn choice_match(
    entry: EntryModel,
    choice: Seq<bool>,
    tokens: Seq<Seq<char>>,
) -> Option<Seq<u32>> {
    segments_match(active_upto(entry, choice, entry.segments.len()), tokens)
}

/// The first match among the choices that agree with `choice` from group `g` on:
/// every group is left out first, and the first groups change fastest.
pub open spec fn first_match(
    entry: EntryModel,
    choice: Seq<bool>,
    g: nat,
    tokens: Seq<Seq<char>>,
) -> Option<Seq<u32>>
    decreases g,
{
    if g == 0 {
        choice_match(entry, choice, tokens)
    } else {
        let h = (g - 1) as nat;
        match first_match(entry, choice.update(h as int, false), h, tokens) {
            Some(s) => Some(s),
            None => first_match(entry, choice.update(h as int, true), h, tokens),
        }
    }
}

/// The suffix values with which `tokens` match `entry`. A query matches only the
/// pattern of a query, a command only that of a command.
pub open spec fn entry_match(
    entry: EntryModel,
    tokens: Seq<Seq<char>>,
    is_query: bool,
) -> Option<Seq<u32>> {
    if is_query != entry.is_query {
        None
    } else {
        let n = entry.groups.len();
        first_match(entry, Seq::new(n, |i: int| false), n, tokens)
    }
}

/// Matches `tokens` against `entry` for one choice of its optional groups.
fn match_choice<H>(entry: &Entry<H>, choice: &Vec<bool>, tokens: &[String]) -> (r: Option<
    Vec<u32>,
>)
    requires
        choice.len() == entry.optional_groups.len(),
    ensures
        match r {
            Some(s) => choice_match(entry@, choice@, tokens.deep_view()) == Some(s@),
            None => choice_match(entry@, choice@, tokens.deep_view()) is None,
        },
{
    let ghost groups = entry@.groups;
    let mut active: Vec<&Segment> = Vec::new();
    let mut idx: usize = 0;
    assert(active.deep_view() =~= seq![]);
    while idx < entry.segments.len()
        invariant
            idx <= entry.segments.len(),
            groups == entry@.groups,
            choice.len() == entry.optional_groups.len(),
            active.deep_view() == active_upto(entry@, choice@, idx as nat),
        decreases entry.segments.len() - idx,
    {
        let mut skipped: bool = false;
        let mut g: usize = 0;
        while g < entry.optional_groups.len() && !skipped
            invariant
                g <= entry.optional_groups.len() == choice.len(),
                groups == entry@.groups,
                skipped ==> left_out(groups, choice@, idx as int),
                !skipped ==> forall|h: int|
                    0 <= h < g ==> !((#[trigger] groups[h]).start <= idx < groups[h].end
                        && !choice@[h]),
            decreases entry.optional_groups.len() - g,
        {
            let group = &entry.optional_groups[g];
            assert(groups[g as int] == group.deep_view());
            if idx >= group.start && idx < group.end && !choice[g] {
                skipped = true;
            }
            g = g + 1;
        }
        let ghost before = active.deep_view();
        if !skipped {
            active.push(&entry.segments[idx]);
            assert(active.deep_view() =~= before.push(entry@.segments[idx as int]));
        }
        idx = idx + 1;
    }
    match_segments(active.as_slice(), tokens)
}

/// What a choice says of the groups before `g` does not matter there.
pub proof fn lemma_first_match_agrees(
    entry: EntryModel,
    c: Seq<bool>,
    d: Seq<bool>,
    g: nat,
    tokens: Seq<Seq<char>>,
)
    requires
        g <= c.len() == d.len(),
        forall|i: int| g <= i < c.len() ==> c[i] == d[i],
    ensures
        first_match(entry, c, g, tokens) == first_match(entry, d, g, tokens),
    decreases g,
{
    if g == 0 {
        assert(c == d);
    } else {
        let h = (g - 1) as nat;
        lemma_first_match_agrees(
            entry,
            c.update(h as int, false),
            d.update(h as int, false),
            h,
            tokens,
        );
        lemma_first_match_agrees(
            entry,
            c.update(h as int, true),
            d.update(h as int, true),
            h,
            tokens,
        );
    }
}

/// The first match among the choices that agree with `choice` from group `g` on.
fn search<H>(entry: &Entry<H>, choice: &mut Vec<bool>, g: usize, tokens: &[String]) -> (r: Option<
    Vec<u32>,
>)
    requires
        g <= old(choice).len() == entry.optional_groups.len(),
    ensures
        final(choice).len() == old(choice).len(),
        forall|i: int| g <= i < old(choice).len() ==> #[trigger] final(choice)@[i] == old(
            choice,
        )@[i],
        match r {
            Some(s) => first_match(entry@, old(choice)@, g as nat, tokens.deep_view()) == Some(s@),
            None => first_match(entry@, old(choice)@, g as nat, tokens.deep_view()) is None,
        },
    decreases g,
{
    if g == 0 {
        return match_choice(entry, choice, tokens);
    }
    choice.set(g - 1, false);
    if let Some(s) = search(entry, choice, g - 1, tokens) {
        return Some(s);
    }
    choice.set(g - 1, true);
    proof {
        lemma_first_match_agrees(
            entry@,
            choice@,
            old(choice)@.update(g - 1, true),
            (g - 1) as nat,
            tokens.deep_view(),
        );
    }
    search(entry, choice, g - 1, tokens)
}

/// Matches the tokens of a command against an entry, with every choice of its
/// optional groups in turn, and returns the suffix values of the first match.
pub fn try_match<H>(entry: &Entry<H>, tokens: &[String], input_is_query: bool) -> (r: Option<
    Vec<u32>,
>)
    ensures
        match r {
            Some(s) => entry_match(entry@, tokens.deep_view(), input_is_query) == Some(s@),
            None => entry_match(entry@, tokens.deep_view(), input_is_query) is None,
        },
{
    if input_is_query != entry.is_query {
        return None;
    }
    let n: usize = entry.optional_groups.len();
    let mut choice: Vec<bool> = Vec::new();
    let mut i: usize = 0;
    while i < n
        invariant
            i <= n,
            choice@ == Seq::new(i as nat, |j: int| false),
        decreases n - i,
    {
        choice.push(false);
        i = i + 1;
    }
    search(entry, &mut choice, n, tokens)
}

} // verus!
