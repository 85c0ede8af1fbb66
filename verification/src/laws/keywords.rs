//! What patterns compile to, and what their keywords match.

use crate::command;
use crate::matching;
use crate::number;
use crate::pattern::{EntryModel, GroupModel, SegmentModel};
use crate::pattern;
use crate::text;
use vstd::prelude::*;
use vstd::utf8;

verus! {

/// A longer beginning of a text takes up more bytes.
proof fn lemma_byte_len(s: Seq<char>, i: int, j: int)
    requires
        0 <= i <= j <= s.len(),
    ensures
        matching::byte_len(s.take(i)) <= matching::byte_len(s.take(j)),
        i < j ==> matching::byte_len(s.take(i)) < matching::byte_len(s.take(j)),
    decreases i,
{
    let a = s.take(i);
    let b = s.take(j);
    if j > 0 {
        let rest = utf8::encode_utf8(b.drop_first());
        assert(utf8::encode_utf8(b) == utf8::encode_scalar(b[0] as u32) + rest);
        assert(utf8::encode_scalar(b[0] as u32).len() > 0) by {
            utf8::char_is_scalar(b[0]);
        }
    }
    if i > 0 {
        let t = s.drop_first();
        lemma_byte_len(t, i - 1, j - 1);
        assert(a.drop_first() == t.take(i - 1));
        assert(b.drop_first() == t.take(j - 1));
        assert(a[0] == b[0]);
    } else {
        assert(a == Seq::<char>::empty());
    }
}

/// Such characters are within the text, and end where another stands.
proof fn lemma_short_run(s: Seq<char>)
    ensures
        pattern::short_run(s) <= s.len(),
        pattern::short_run(s) < s.len() ==> !pattern::is_short_char(
            s[pattern::short_run(s) as int],
        ),
    decreases s.len(),
{
    if s.len() > 0 && pattern::is_short_char(s[0]) {
        lemma_short_run(s.drop_first());
    }
}

/// The short form is within the keyword.
proof fn lemma_short_len(token: Seq<char>)
    ensures
        pattern::short_len(token) <= token.len(),
        pattern::short_len(token) < token.len() ==> !pattern::is_short_char(
            token[pattern::short_len(token) as int],
        ),
{
    lemma_short_run(token);
    if token.len() > 0 {
        lemma_short_run(token.drop_first());
    }
}

/// A keyword of a pattern matches, in any case, the beginnings of it that hold at
/// least its leading upper-case characters, and nothing else: `SYSTem` matches
/// `SYST`, `SYSTE` and `SYSTEM`.
pub proof fn law_keyword_forms(token: Seq<char>, input: Seq<char>)
    ensures
        matching::keyword_accepts(
            pattern::short_form(token),
            pattern::long_form(token),
            text::upper(input),
        ) <==> exists|k: int|
            pattern::short_len(token) <= k <= token.len() && text::upper(input) == text::upper(
                #[trigger] token.take(k),
            ),
{
    let short = pattern::short_form(token);
    let long = pattern::long_form(token);
    let word = text::upper(input);
    let n = pattern::short_len(token) as int;
    lemma_short_len(token);
    assert(short == long.take(n));
    if matching::keyword_accepts(short, long, word) {
        let k = word.len() as int;
        assert(word == long.take(k));
        if k < n {
            lemma_byte_len(long, k, n);
        }
        assert(text::upper(token.take(k)) == long.take(k));
    }
    if exists|k: int|
        pattern::short_len(token) <= k <= token.len() && word == text::upper(
            #[trigger] token.take(k),
        ) {
        let k = choose|k: int|
            pattern::short_len(token) <= k <= token.len() && word == text::upper(
                #[trigger] token.take(k),
            );
        assert(text::upper(token.take(k)) == long.take(k));
        lemma_byte_len(long, n, k);
        assert(long.subrange(0, word.len() as int) == long.take(k));
    }
}

/// The longest form that fits is the one that is found.
proof fn lemma_longest_form(
    word: Seq<char>,
    short: Seq<char>,
    long: Seq<char>,
    m: nat,
    k: int,
)
    requires
        0 <= k <= m <= long.len(),
        matching::byte_len(short) <= matching::byte_len(long.take(k)),
        matching::number_behind(word, long.take(k)) is Some,
        forall|j: int|
            k < j <= m ==> matching::number_behind(word, #[trigger] long.take(j)) is None,
    ensures
        matching::longest_form(word, short, long, m) == Some(
            (long.take(k), matching::number_behind(word, long.take(k))->0),
        ),
    decreases m,
{
    lemma_byte_len(long, k, m as int);
    if k < m {
        assert(matching::number_behind(word, long.take(m as int)) is None);
        lemma_longest_form(word, short, long, (m - 1) as nat, k);
    }
}

/// What the search for the longest form finds.
pub(crate) proof fn lemma_form_found(word: Seq<char>, short: Seq<char>, long: Seq<char>, m: nat)
    requires
        m <= long.len(),
    ensures
        match matching::longest_form(word, short, long, m) {
            Some((form, n)) => exists|k: int|
                {
                    &&& 0 <= k <= m
                    &&& form == #[trigger] long.take(k)
                    &&& matching::byte_len(short) <= matching::byte_len(form)
                    &&& matching::number_behind(word, form) == Some(n)
                    &&& forall|j: int|
                        k < j <= m ==> matching::number_behind(
                            word,
                            #[trigger] long.take(j),
                        ) is None
                },
            None => forall|j: int|
                0 <= j <= m && matching::byte_len(short) <= matching::byte_len(
                    #[trigger] long.take(j),
                ) ==> matching::number_behind(word, long.take(j)) is None,
        },
    decreases m,
{
    let form = long.take(m as int);
    if matching::byte_len(form) < matching::byte_len(short) {
        assert forall|j: int|
            0 <= j <= m && matching::byte_len(short) <= matching::byte_len(
                #[trigger] long.take(j),
            ) implies matching::number_behind(word, long.take(j)) is None by {
            lemma_byte_len(long, j, m as int);
        }
    } else if matching::number_behind(word, form) is None && m > 0 {
        lemma_form_found(word, short, long, (m - 1) as nat);
        if let Some((found, n)) = matching::longest_form(word, short, long, (m - 1) as nat) {
            let k = choose|k: int|
                {
                    &&& 0 <= k <= m - 1
                    &&& found == #[trigger] long.take(k)
                    &&& matching::byte_len(short) <= matching::byte_len(found)
                    &&& matching::number_behind(word, found) == Some(n)
                    &&& forall|j: int|
                        k < j <= m - 1 ==> matching::number_behind(
                            word,
                            #[trigger] long.take(j),
                        ) is None
                };
            assert forall|j: int| k < j <= m implies matching::number_behind(
                word,
                #[trigger] long.take(j),
            ) is None by {
                if j == m {
                    assert(long.take(j) == form);
                }
            }
            assert(found == long.take(k));
        }
    }
}

/// Every form of a keyword, from the short to the long one, takes a numeric
/// suffix, which is 1 where it is left out: `SOURce#` matches `SOUR2`, `SOURC2`
/// and `SOURCE2`. Where the keyword goes on with a digit, digits behind the form
/// are those of a longer form.
pub proof fn law_numeric_suffix(token: Seq<char>, k: int, digits: Seq<char>)
    requires
        pattern::short_len(token) <= k <= token.len(),
        digits.len() == 0 || number::row_value(digits) is Some,
        digits.len() > 0 && k < token.len() ==> !text::is_digit(token[k]),
    ensures
        ({
            let form = text::upper(token.take(k));
            let n = match number::row_value(digits) {
                Some(n) => n,
                None => 1,
            };
            matching::suffix_of(
                form + digits,
                pattern::short_form(token),
                pattern::long_form(token),
            ) == Some((form, n))
        }),
{
    let short = pattern::short_form(token);
    let long = pattern::long_form(token);
    let form = text::upper(token.take(k));
    let word = form + digits;
    let least = pattern::short_len(token) as int;
    lemma_short_len(token);
    assert(short == long.take(least));
    assert(form == long.take(k));
    lemma_byte_len(long, least, k);
    assert(word.skip(k) == digits);
    assert(word.subrange(0, k) == form);
    if digits.len() == 0 {
        assert(number::row_value(digits) is None);
    }
    assert forall|j: int| k < j <= long.len() implies matching::number_behind(
        word,
        #[trigger] long.take(j),
    ) is None by {
        if long.take(j).is_prefix_of(word) {
            assert(word.subrange(0, j)[k] == long.take(j)[k]);
            assert(long[k] == text::upper_char(token[k]));
            assert(word[k] == digits[0]);
            assert(text::is_digit(digits[0]));
        }
    }
    lemma_longest_form(word, short, long, long.len(), k);
}

/// Whether `word` is the form of a keyword with `k` characters and then nothing
/// or a number.
pub open spec fn is_numbered(token: Seq<char>, k: int, word: Seq<char>) -> bool {
    matching::number_behind(word, text::upper(token.take(k))) is Some
}

/// A numbered keyword matches its forms, from the short to the long one, with
/// nothing or a number behind them, and nothing else. The longest form that fits
/// gives the number.
pub proof fn law_numbered_forms(token: Seq<char>, word: Seq<char>)
    ensures
        match matching::suffix_of(word, pattern::short_form(token), pattern::long_form(token)) {
            Some((form, n)) => exists|k: int|
                {
                    &&& pattern::short_len(token) <= k <= token.len()
                    &&& #[trigger] is_numbered(token, k, word)
                    &&& form == text::upper(token.take(k))
                    &&& matching::number_behind(word, form) == Some(n)
                    &&& forall|j: int|
                        k < j <= token.len() ==> !#[trigger] is_numbered(token, j, word)
                },
            None => forall|k: int|
                pattern::short_len(token) <= k <= token.len() ==> !#[trigger] is_numbered(
                    token,
                    k,
                    word,
                ),
        },
{
    let short = pattern::short_form(token);
    let long = pattern::long_form(token);
    let least = pattern::short_len(token) as int;
    lemma_short_len(token);
    assert(short == long.take(least));
    assert forall|j: int| 0 <= j <= token.len() implies text::upper(#[trigger] token.take(j))
        == long.take(j) by {
        assert(text::upper(token.take(j)) =~= long.take(j));
    }
    lemma_form_found(word, short, long, long.len());
    match matching::longest_form(word, short, long, long.len()) {
        Some((form, n)) => {
            let k = choose|k: int|
                {
                    &&& 0 <= k <= long.len()
                    &&& form == #[trigger] long.take(k)
                    &&& matching::byte_len(short) <= matching::byte_len(form)
                    &&& matching::number_behind(word, form) == Some(n)
                    &&& forall|j: int|
                        k < j <= long.len() ==> matching::number_behind(
                            word,
                            #[trigger] long.take(j),
                        ) is None
                };
            if k < least {
                lemma_byte_len(long, k, least);
            }
            assert(text::upper(token.take(k)) == long.take(k));
            assert(is_numbered(token, k, word));
            assert forall|j: int| k < j <= token.len() implies !#[trigger] is_numbered(
                token,
                j,
                word,
            ) by {
                assert(text::upper(token.take(j)) == long.take(j));
            }
        },
        None => {
            assert forall|k: int| least <= k <= token.len() implies !#[trigger] is_numbered(
                token,
                k,
                word,
            ) by {
                assert(text::upper(token.take(k)) == long.take(k));
                lemma_byte_len(long, least, k);
            }
            assert(!is_numbered(token, least, word));
            assert(text::upper(token.take(least)) == long.take(least));
        },
    }
}

/// How many of the segments are suffix placeholders.
pub open spec fn placeholders(segments: Seq<SegmentModel>) -> nat
    decreases segments.len(),
{
    if segments.len() == 0 {
        0
    } else {
        (if segments[0] is NumericSuffix {
            1nat
        } else {
            0
        }) + placeholders(segments.skip(1))
    }
}

/// A match has one suffix value for each placeholder.
pub proof fn law_suffix_count(segments: Seq<SegmentModel>, tokens: Seq<Seq<char>>)
    ensures
        matching::segments_match(segments, tokens) matches Some(suffixes) ==> suffixes.len()
            == placeholders(segments),
    decreases segments.len(),
{
    reveal_with_fuel(placeholders, 3);
    if segments.len() > 0 && tokens.len() > 0 {
        law_suffix_count(segments.skip(1), tokens.skip(1));
        if segments.len() > 1 {
            law_suffix_count(segments.skip(2), tokens.skip(1));
            assert(segments.skip(1)[0] == segments[1]);
            assert(segments.skip(1).skip(1) == segments.skip(2));
        }
    }
}

/// Whether two choices of optional groups agree from group `g` on.
pub open spec fn agree_from(c: Seq<bool>, d: Seq<bool>, g: int) -> bool {
    c.len() == d.len() && forall|i: int| g <= i < c.len() ==> c[i] == d[i]
}

/// Whether choice `c` is tried before choice `d`: of the groups in which they
/// differ, the last one is left out in `c`.
pub open spec fn precedes(c: Seq<bool>, d: Seq<bool>) -> bool {
    exists|k: int| 0 <= k < c.len() && !#[trigger] c[k] && d[k] && agree_from(c, d, k + 1)
}

/// `d` is the choice, among those that agree with `c` from `g` on, that decides:
/// it matches with these suffix values, and none tried before it matches.
pub open spec fn decides(
    entry: EntryModel,
    c: Seq<bool>,
    g: int,
    tokens: Seq<Seq<char>>,
    d: Seq<bool>,
    suffixes: Seq<u32>,
) -> bool {
    &&& agree_from(c, d, g)
    &&& matching::choice_match(entry, d, tokens) == Some(suffixes)
    &&& forall|e: Seq<bool>|
        agree_from(c, e, g) && #[trigger] precedes(e, d) ==> matching::choice_match(
            entry,
            e,
            tokens,
        ) is None
}

/// What a search for the first match finds.
proof fn lemma_first_match(
    entry: EntryModel,
    c: Seq<bool>,
    g: nat,
    tokens: Seq<Seq<char>>,
)
    requires
        g <= c.len(),
    ensures
        match matching::first_match(entry, c, g, tokens) {
            Some(s) => exists|d: Seq<bool>| decides(entry, c, g as int, tokens, d, s),
            None => forall|d: Seq<bool>|
                #[trigger] agree_from(c, d, g as int) ==> matching::choice_match(
                    entry,
                    d,
                    tokens,
                ) is None,
        },
    decreases g,
{
    if g == 0 {
        if let Some(s) = matching::first_match(entry, c, g, tokens) {
            assert forall|e: Seq<bool>|
                agree_from(c, e, 0) && #[trigger] precedes(e, c) implies matching::choice_match(
                entry,
                e,
                tokens,
            ) is None by {
                assert(c == e);
            }
            assert(decides(entry, c, 0, tokens, c, s));
        } else {
            assert forall|d: Seq<bool>| #[trigger]
                agree_from(c, d, 0) implies matching::choice_match(entry, d, tokens) is None by {
                assert(c == d);
            }
        }
    } else {
        let h = (g - 1) as nat;
        let without = c.update(h as int, false);
        let with = c.update(h as int, true);
        lemma_first_match(entry, without, h, tokens);
        lemma_first_match(entry, with, h, tokens);
        assert forall|d: Seq<bool>| agree_from(c, d, g as int) implies agree_from(
            without,
            d,
            h as int,
        ) || agree_from(with, d, h as int) by {
            if d[h as int] {
                assert(agree_from(with, d, h as int));
            } else {
                assert(agree_from(without, d, h as int));
            }
        }
        match matching::first_match(entry, without, h, tokens) {
            Some(s) => {
                let d = choose|d: Seq<bool>| decides(entry, without, h as int, tokens, d, s);
                assert(d[h as int] == without[h as int]);
                assert forall|e: Seq<bool>|
                    agree_from(c, e, g as int) && #[trigger] precedes(
                        e,
                        d,
                    ) implies matching::choice_match(entry, e, tokens) is None by {
                    let k = choose|k: int|
                        0 <= k < e.len() && !#[trigger] e[k] && d[k] && agree_from(e, d, k + 1);
                    assert(k < h) by {
                        if k >= g {
                            assert(c[k] == e[k] && c[k] == d[k]);
                        }
                    }
                    assert(e[h as int] == d[h as int]);
                    assert(agree_from(without, e, h as int));
                }
                assert(decides(entry, c, g as int, tokens, d, s));
            },
            None => {
                if let Some(s) = matching::first_match(entry, with, h, tokens) {
                    let d = choose|d: Seq<bool>| decides(entry, with, h as int, tokens, d, s);
                    assert forall|e: Seq<bool>|
                        agree_from(c, e, g as int) && #[trigger] precedes(
                            e,
                            d,
                        ) implies matching::choice_match(entry, e, tokens) is None by {
                        if e[h as int] {
                            assert(agree_from(with, e, h as int));
                        } else {
                            assert(agree_from(without, e, h as int));
                        }
                    }
                    assert(decides(entry, c, g as int, tokens, d, s));
                }
            },
        }
    }
}

/// Every optional group can be there or be left out: the keywords match an entry
/// exactly when they match it for some choice of its groups, and then with the
/// suffix values of the first choice that matches. A query never matches the
/// pattern of a command, nor a command that of a query.
pub proof fn law_optional_groups(entry: EntryModel, tokens: Seq<Seq<char>>, is_query: bool)
    ensures
        match matching::entry_match(entry, tokens, is_query) {
            Some(suffixes) => is_query == entry.is_query && exists|d: Seq<bool>|
                {
                    &&& d.len() == entry.groups.len()
                    &&& #[trigger] matching::choice_match(entry, d, tokens) == Some(suffixes)
                    &&& forall|e: Seq<bool>|
                        e.len() == d.len() && #[trigger] precedes(e, d)
                            ==> matching::choice_match(entry, e, tokens) is None
                },
            None => is_query != entry.is_query || forall|d: Seq<bool>|
                d.len() == entry.groups.len() ==> #[trigger] matching::choice_match(
                    entry,
                    d,
                    tokens,
                ) is None,
        },
{
    let n = entry.groups.len();
    let c = Seq::new(n, |i: int| false);
    if is_query == entry.is_query {
        lemma_first_match(entry, c, n, tokens);
        match matching::entry_match(entry, tokens, is_query) {
            Some(s) => {
                let d = choose|d: Seq<bool>| decides(entry, c, n as int, tokens, d, s);
                assert forall|e: Seq<bool>|
                    e.len() == d.len() && #[trigger] precedes(e, d) implies matching::choice_match(
                    entry,
                    e,
                    tokens,
                ) is None by {
                    assert(agree_from(c, e, n as int));
                }
            },
            None => {
                assert forall|d: Seq<bool>|
                    d.len() == n implies #[trigger] matching::choice_match(
                    entry,
                    d,
                    tokens,
                ) is None by {
                    assert(agree_from(c, d, n as int));
                }
            },
        }
    }
}

/// The entry that keywords lead to is the first in the table that they match.
pub proof fn law_first_entry(
    entries: Seq<EntryModel>,
    path: Seq<Seq<char>>,
    is_query: bool,
    i: int,
)
    requires
        0 <= i <= entries.len(),
    ensures
        match command::lookup(entries, path, is_query, i) {
            Some((index, suffixes)) => {
                &&& i <= index < entries.len()
                &&& matching::entry_match(entries[index], path, is_query) == Some(suffixes)
                &&& forall|j: int|
                    i <= j < index ==> matching::entry_match(
                        #[trigger] entries[j],
                        path,
                        is_query,
                    ) is None
            },
            None => forall|j: int|
                i <= j < entries.len() ==> matching::entry_match(
                    #[trigger] entries[j],
                    path,
                    is_query,
                ) is None,
        },
    decreases entries.len() - i,
{
    if i < entries.len() && matching::entry_match(entries[i], path, is_query) is None {
        law_first_entry(entries, path, is_query, i + 1);
    }
}

/// Whether the groups lie one behind the other within the first `n` segments.
pub open spec fn in_order(groups: Seq<GroupModel>, n: nat) -> bool {
    &&& forall|i: int|
        0 <= i < groups.len() ==> (#[trigger] groups[i]).start <= groups[i].end <= n
    &&& forall|i: int, j: int|
        0 <= i < j < groups.len() ==> (#[trigger] groups[i]).end <= (#[trigger] groups[j]).start
}

/// Whether the segments are placeholders and keywords with the forms that the
/// text of a keyword has.
pub open spec fn from_text(segments: Seq<SegmentModel>) -> bool {
    forall|i: int|
        0 <= i < segments.len() ==> #[trigger] segments[i] is NumericSuffix || exists|token: Seq<
            char,
        >|
            segments[i] == #[trigger] pattern::keyword_segment(token)
}

/// Segments behind segments.
proof fn lemma_from_text_concat(a: Seq<SegmentModel>, b: Seq<SegmentModel>)
    requires
        from_text(a),
        from_text(b),
    ensures
        from_text(a + b),
{
    let all = a + b;
    assert forall|i: int| 0 <= i < all.len() implies #[trigger] all[i] is NumericSuffix
        || exists|token: Seq<char>| all[i] == #[trigger] pattern::keyword_segment(token) by {
        if i < a.len() {
            assert(all[i] == a[i]);
        } else {
            assert(all[i] == b[i - a.len()]);
        }
    }
}

/// The segments that start at one place.
proof fn lemma_segments_from_text(chars: Seq<char>, pos: int)
    ensures
        from_text(pattern::keyword_segments(chars, pos).0),
{
    let (segments, _) = pattern::keyword_segments(chars, pos);
    let token = chars.subrange(pos, pattern::keyword_end(chars, pos));
    assert forall|i: int| 0 <= i < segments.len() implies #[trigger] segments[i] is NumericSuffix
        || exists|t: Seq<char>| segments[i] == #[trigger] pattern::keyword_segment(t) by {
        if !(segments[i] is NumericSuffix) {
            assert(segments[i] == pattern::keyword_segment(token));
        }
    }
}

/// The segments of a group.
proof fn lemma_group_from_text(chars: Seq<char>, i: int)
    ensures
        from_text(pattern::group_segments(chars, i).0),
    decreases chars.len() - i,
{
    if 0 <= i < chars.len() && chars[i] != '[' && chars[i] != ']' {
        if chars[i] == ':' {
            lemma_group_from_text(chars, i + 1);
        } else {
            let (first, next) = pattern::keyword_segments(chars, i);
            pattern::lemma_segments_step(chars, i, true);
            lemma_segments_from_text(chars, i);
            lemma_group_from_text(chars, next);
            lemma_from_text_concat(first, pattern::group_segments(chars, next).0);
        }
    }
}

/// What compiling adds to segments and groups that are in order.
proof fn lemma_keywords_compiled(
    chars: Seq<char>,
    i: int,
    segments: Seq<SegmentModel>,
    groups: Seq<GroupModel>,
)
    requires
        from_text(segments),
        in_order(groups, segments.len()),
    ensures
        ({
            let (s, g) = pattern::keywords_from(chars, i, segments, groups);
            from_text(s) && in_order(g, s.len())
        }),
    decreases chars.len() - i,
{
    if 0 <= i < chars.len() && chars[i] != ']' {
        if chars[i] == ':' {
            lemma_keywords_compiled(chars, i + 1, segments, groups);
        } else if chars[i] == '[' {
            let (inner, next) = pattern::group_segments(chars, i + 1);
            let group = GroupModel { start: segments.len(), end: segments.len() + inner.len() };
            pattern::lemma_group_end(chars, i + 1);
            lemma_group_from_text(chars, i + 1);
            lemma_from_text_concat(segments, inner);
            lemma_keywords_compiled(chars, next, segments + inner, groups.push(group));
        } else {
            let (first, next) = pattern::keyword_segments(chars, i);
            pattern::lemma_segments_step(chars, i, false);
            lemma_segments_from_text(chars, i);
            lemma_from_text_concat(segments, first);
            lemma_keywords_compiled(chars, next, segments + first, groups);
        }
    }
}

/// A pattern compiles to keywords in the two forms of their text, placeholders,
/// and optional groups that lie one behind the other within the segments.
pub proof fn law_compiled_patterns(text: Seq<char>)
    ensures
        from_text(pattern::compiled(text).segments),
        in_order(pattern::compiled(text).groups, pattern::compiled(text).segments.len()),
{
    lemma_keywords_compiled(pattern::keyword_part(text), 0, seq![], seq![]);
}

/// Without groups nothing is left out.
pub(crate) proof fn lemma_all_active(entry: EntryModel, choice: Seq<bool>, n: nat)
    requires
        entry.groups.len() == 0,
        n <= entry.segments.len(),
    ensures
        matching::active_upto(entry, choice, n) == entry.segments.take(n as int),
        n == entry.segments.len() ==> matching::active_upto(entry, choice, n) == entry.segments,
    decreases n,
{
    if n > 0 {
        lemma_all_active(entry, choice, (n - 1) as nat);
    }
}

/// The entry that is found is the first that matches.
pub(crate) proof fn lemma_lookup_at(
    entries: Seq<EntryModel>,
    path: Seq<Seq<char>>,
    is_query: bool,
    i: int,
    k: int,
)
    requires
        0 <= i <= k < entries.len(),
        forall|j: int|
            0 <= j < k ==> matching::entry_match(#[trigger] entries[j], path, is_query) is None,
    ensures
        matching::entry_match(entries[k], path, is_query) matches Some(suffixes)
            ==> command::lookup(entries, path, is_query, i) == Some((k, suffixes)),
    decreases k - i,
{
    if i < k {
        lemma_lookup_at(entries, path, is_query, i + 1, k);
    }
}

} // verus!
