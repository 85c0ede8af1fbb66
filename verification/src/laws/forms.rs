//! The forms of a keyword, told from its characters.

use crate::laws::capitals;
use crate::laws::keywords;
use crate::laws::values;
use crate::matching;
use crate::number;
use crate::pattern;
use crate::text;
use vstd::prelude::*;
use vstd::utf8;

verus! {

/// The upper-case letters, the digits and the signs.
pub open spec fn is_capital(c: char) -> bool {
    'A' <= c <= 'Z' || '0' <= c <= '9' || c == '+' || c == '-'
}

/// The `*` of a common command.
pub open spec fn star_text(star: bool) -> Seq<char> {
    if star {
        seq!['*']
    } else {
        seq![]
    }
}

/// Whether a keyword has been cut where its capitals end: `u` are the capitals,
/// behind a `*` or not, and `l` is the rest.
pub open spec fn is_cut(star: bool, u: Seq<char>, l: Seq<char>) -> bool {
    &&& forall|i: int| 0 <= i < u.len() ==> is_capital(#[trigger] u[i])
    &&& l.len() > 0 ==> !is_capital(l[0])
    &&& !star && u.len() == 0 && l.len() > 0 ==> l[0] != '*'
}

/// The keyword that was cut.
pub open spec fn keyword_text(star: bool, u: Seq<char>, l: Seq<char>) -> Seq<char> {
    star_text(star) + u + l
}

/// Upper case changes the letters from `a` to `z` and nothing else.
pub proof fn law_upper_case(s: Seq<char>)
    ensures
        text::upper(s).len() == s.len(),
        forall|i: int|
            0 <= i < s.len() ==> #[trigger] text::upper(s)[i] as int == (if 'a' <= s[i] <= 'z' {
                s[i] as int - 32
            } else {
                s[i] as int
            }),
{
}

/// Capitals in front of something else are counted in full.
proof fn lemma_run(u: Seq<char>, l: Seq<char>)
    requires
        forall|i: int| 0 <= i < u.len() ==> is_capital(#[trigger] u[i]),
        l.len() > 0 ==> !is_capital(l[0]),
    ensures
        pattern::short_run(u + l) == u.len(),
    decreases u.len(),
{
    if u.len() > 0 {
        let rest = u.drop_first();
        assert forall|i: int| 0 <= i < rest.len() implies is_capital(#[trigger] rest[i]) by {
            assert(rest[i] == u[i + 1]);
        }
        lemma_run(rest, l);
        assert((u + l).drop_first() =~= rest + l);
        assert((u + l)[0] == u[0]);
    } else {
        assert(u + l =~= l);
    }
}

/// Where the short form ends.
proof fn lemma_short_len(star: bool, u: Seq<char>, l: Seq<char>)
    requires
        is_cut(star, u, l),
    ensures
        pattern::short_len(keyword_text(star, u, l)) == (star_text(star) + u).len(),
{
    let t = keyword_text(star, u, l);
    lemma_run(u, l);
    if star {
        assert(t.drop_first() =~= u + l);
        assert(t[0] == '*');
    } else {
        assert(t =~= u + l);
        if u.len() > 0 {
            assert(t[0] == u[0]);
        } else if l.len() > 0 {
            assert(t[0] == l[0]);
        }
    }
}

/// The short form of a keyword is its leading capitals, with the `*` before them,
/// and never a lower-case letter. The long form is all of it in upper case.
pub proof fn law_two_forms(star: bool, u: Seq<char>, l: Seq<char>)
    requires
        is_cut(star, u, l),
    ensures
        pattern::short_form(keyword_text(star, u, l)) == star_text(star) + u,
        pattern::long_form(keyword_text(star, u, l)) == text::upper(keyword_text(star, u, l)),
{
    let t = keyword_text(star, u, l);
    let front = star_text(star) + u;
    lemma_short_len(star, u, l);
    assert(t.take(front.len() as int) =~= front);
    assert forall|i: int| 0 <= i < front.len() implies text::upper(front)[i] == front[i] by {
        if i >= star_text(star).len() {
            assert(front[i] == u[i - star_text(star).len()]);
        }
    }
    assert(text::upper(front) =~= front);
}

/// A keyword matches the beginnings of it, in upper case, that hold all its
/// capitals, and nothing else.
pub proof fn law_forms_accepted(star: bool, u: Seq<char>, l: Seq<char>, word: Seq<char>)
    requires
        is_cut(star, u, l),
    ensures
        ({
            let t = keyword_text(star, u, l);
            matching::keyword_accepts(pattern::short_form(t), pattern::long_form(t), word)
                <==> exists|k: int|
                (star_text(star) + u).len() <= k <= t.len() && word == text::upper(
                    #[trigger] t.take(k),
                )
        }),
{
    let t = keyword_text(star, u, l);
    let short = pattern::short_form(t);
    let long = pattern::long_form(t);
    lemma_short_len(star, u, l);
    keywords::law_keyword_forms(t, word);
    if matching::keyword_accepts(short, long, word) {
        let k = word.len() as int;
        assert(word == long.subrange(0, k));
        assert(word =~= text::upper(t.take(k)));
        capitals::lemma_twice(t.take(k));
    }
    if exists|k: int|
        (star_text(star) + u).len() <= k <= t.len() && word == text::upper(#[trigger] t.take(k)) {
        let k = choose|k: int|
            (star_text(star) + u).len() <= k <= t.len() && word == text::upper(
                #[trigger] t.take(k),
            );
        capitals::lemma_twice(t.take(k));
    }
}

/// Whether a text is a row of decimal digits.
pub open spec fn is_row(s: Seq<char>) -> bool {
    forall|i: int| 0 <= i < s.len() ==> '0' <= #[trigger] s[i] <= '9'
}

/// The value of a row of decimal digits.
pub open spec fn row_worth(s: Seq<char>) -> int
    decreases s.len(),
{
    if s.len() == 0 {
        0
    } else {
        row_worth(s.drop_last()) * 10 + (s.last() as int - '0' as int)
    }
}

/// Whether `s` behind a keyword gives the number `n`: the digits of `n`, or
/// nothing for 1.
pub open spec fn gives(s: Seq<char>, n: u32) -> bool {
    if s.len() == 0 {
        n == 1
    } else {
        is_row(s) && row_worth(s) == n
    }
}

/// Whether `word` is the first `k` characters of a keyword in upper case, and then
/// the number `n`.
pub open spec fn is_numbered_form(t: Seq<char>, k: int, word: Seq<char>, n: u32) -> bool {
    k <= word.len() && word.take(k) == text::upper(t.take(k)) && gives(word.skip(k), n)
}

/// The two ways to value a row of digits agree.
pub(crate) proof fn lemma_row_worth(s: Seq<char>)
    requires
        is_row(s),
    ensures
        values::place_value(s, 10) == row_worth(s),
        values::in_radix(s, 10),
    decreases s.len(),
{
    if s.len() > 0 {
        let front = s.drop_last();
        assert forall|i: int| 0 <= i < front.len() implies '0' <= #[trigger] front[i] <= '9' by {
            assert(front[i] == s[i]);
        }
        lemma_row_worth(front);
        assert(s.last() == s[s.len() - 1]);
    }
    assert forall|i: int| 0 <= i < s.len() implies number::digit_value(
        #[trigger] s[i],
        10,
    ) is Some by {}
}

/// A number without a sign is at least one digit, and nothing else.
pub proof fn law_row_number(s: Seq<char>, n: u32)
    ensures
        number::row_value(s) == Some(n) <==> s.len() > 0 && gives(s, n),
{
    values::law_integer_value(s, 10, u32::MAX as nat);
    if number::all_digits(s) {
        assert(is_row(s)) by {
            assert forall|i: int| 0 <= i < s.len() implies '0' <= #[trigger] s[i] <= '9' by {
                assert(text::is_digit(s[i]));
            }
        }
        lemma_row_worth(s);
        if s.len() > 0 {
            assert('0' <= s[0] <= '9');
        }
    } else {
        assert(!is_row(s)) by {
            if is_row(s) {
                assert forall|i: int| 0 <= i < s.len() implies text::is_digit(
                    #[trigger] s[i],
                ) by {
                    assert('0' <= s[i] <= '9');
                }
            }
        }
    }
}

/// What stands behind a form.
proof fn lemma_number_behind(t: Seq<char>, k: int, word: Seq<char>, n: u32)
    requires
        0 <= k <= t.len(),
    ensures
        matching::number_behind(word, text::upper(t.take(k))) == Some(n) <==> is_numbered_form(
            t,
            k,
            word,
            n,
        ),
{
    let form = text::upper(t.take(k));
    assert(form.len() == k);
    if k <= word.len() {
        law_row_number(word.skip(k), n);
        assert(word.subrange(0, k) =~= word.take(k));
    }
}

/// A numbered keyword matches its forms, which hold all its capitals, with the
/// digits of a number behind them or with nothing, which gives 1. It matches
/// nothing else, and the longest form that fits decides.
pub proof fn law_numbered_accepted(star: bool, u: Seq<char>, l: Seq<char>, word: Seq<char>)
    requires
        is_cut(star, u, l),
    ensures
        ({
            let t = keyword_text(star, u, l);
            let least = (star_text(star) + u).len() as int;
            match matching::suffix_of(word, pattern::short_form(t), pattern::long_form(t)) {
                Some((form, n)) => exists|k: int|
                    {
                        &&& least <= k <= t.len()
                        &&& #[trigger] is_numbered_form(t, k, word, n)
                        &&& form == text::upper(t.take(k))
                        &&& forall|j: int, m: u32|
                            k < j <= t.len() ==> !#[trigger] is_numbered_form(t, j, word, m)
                    },
                None => forall|k: int, n: u32|
                    least <= k <= t.len() ==> !#[trigger] is_numbered_form(t, k, word, n),
            }
        }),
{
    let t = keyword_text(star, u, l);
    let least = (star_text(star) + u).len() as int;
    lemma_short_len(star, u, l);
    keywords::law_numbered_forms(t, word);
    assert forall|k: int, n: u32|
        0 <= k <= t.len() && #[trigger] is_numbered_form(
            t,
            k,
            word,
            n,
        ) implies keywords::is_numbered(t, k, word) by {
        lemma_number_behind(t, k, word, n);
    }
    if let Some((form, n)) = matching::suffix_of(
        word,
        pattern::short_form(t),
        pattern::long_form(t),
    ) {
        let k = choose|k: int|
            {
                &&& pattern::short_len(t) <= k <= t.len()
                &&& #[trigger] keywords::is_numbered(t, k, word)
                &&& form == text::upper(t.take(k))
                &&& matching::number_behind(word, form) == Some(n)
                &&& forall|j: int|
                    k < j <= t.len() ==> !#[trigger] keywords::is_numbered(t, j, word)
            };
        lemma_number_behind(t, k, word, n);
        assert(is_numbered_form(t, k, word, n));
    }
}

/// A placeholder that stands alone takes the digits of a number, with a `+` before
/// them or not, and nothing else.
pub proof fn law_lone_number(s: Seq<char>, n: u32)
    ensures
        number::u32_value(s) == Some(n) <==> ({
            let digits = if s.len() > 0 && s[0] == '+' {
                s.skip(1)
            } else {
                s
            };
            digits.len() > 0 && gives(digits, n)
        }),
{
    let digits = if s.len() > 0 && s[0] == '+' {
        s.skip(1)
    } else {
        s
    };
    values::law_integer_value(s, 10, u32::MAX as nat);
    if is_row(digits) {
        lemma_row_worth(digits);
    } else if values::in_radix(digits, 10) {
        assert forall|i: int| 0 <= i < digits.len() implies '0' <= #[trigger] digits[i] <= '9' by {
            assert(number::digit_value(digits[i], 10) is Some);
        }
    }
}

/// A word is accepted by any two forms exactly when it begins the long one and is
/// at least as long as the short one, in bytes.
pub proof fn law_accepted(short: Seq<char>, long: Seq<char>, word: Seq<char>)
    ensures
        matching::keyword_accepts(short, long, word) <==> utf8::encode_utf8(short).len()
            <= utf8::encode_utf8(word).len() && exists|rest: Seq<char>| long == #[trigger] (word
            + rest),
{
    if matching::keyword_accepts(short, long, word) {
        assert(long =~= word + long.skip(word.len() as int));
    }
    if exists|rest: Seq<char>| long == #[trigger] (word + rest) {
        let rest = choose|rest: Seq<char>| long == #[trigger] (word + rest);
        assert((word + rest).subrange(0, word.len() as int) =~= word);
    }
}

/// Whether `word` is `form` and then the number `n`.
pub open spec fn is_form_with(form: Seq<char>, word: Seq<char>, n: u32) -> bool {
    form.len() <= word.len() && word.take(form.len() as int) == form && gives(
        word.skip(form.len() as int),
        n,
    )
}

/// Whether the first `k` characters of the long form are a form: they are no
/// shorter than the short one, in bytes.
pub open spec fn is_form(short: Seq<char>, long: Seq<char>, k: int) -> bool {
    0 <= k <= long.len() && utf8::encode_utf8(short).len() <= utf8::encode_utf8(
        long.take(k),
    ).len()
}

/// What stands behind any form.
proof fn lemma_behind_form(form: Seq<char>, word: Seq<char>, n: u32)
    ensures
        matching::number_behind(word, form) == Some(n) <==> is_form_with(form, word, n),
{
    let k = form.len() as int;
    if k <= word.len() {
        law_row_number(word.skip(k), n);
        assert(word.subrange(0, k) =~= word.take(k));
    }
}

/// With any two forms, a suffix is taken off the longest beginning of the long form
/// that is a form and that leaves nothing or a number, and off the short form where
/// there is none.
pub proof fn law_suffix_taken(word: Seq<char>, short: Seq<char>, long: Seq<char>)
    ensures
        match matching::suffix_of(word, short, long) {
            Some((form, n)) => is_form_with(form, word, n) && ((exists|k: int|
                {
                    &&& #[trigger] is_form(short, long, k)
                    &&& form == long.take(k)
                    &&& forall|j: int, m: u32|
                        k < j <= long.len() ==> !#[trigger] is_form_with(long.take(j), word, m)
                }) || (form == short && forall|k: int, m: u32|
                #[trigger] is_form(short, long, k) ==> !#[trigger] is_form_with(
                    long.take(k),
                    word,
                    m,
                ))),
            None => (forall|m: u32| !#[trigger] is_form_with(short, word, m)) && forall|k: int,
                m: u32|
                #[trigger] is_form(short, long, k) ==> !#[trigger] is_form_with(
                    long.take(k),
                    word,
                    m,
                ),
        },
{
    keywords::lemma_form_found(word, short, long, long.len());
    assert forall|form: Seq<char>, m: u32| #[trigger]
        is_form_with(form, word, m) implies matching::number_behind(word, form) == Some(m) by {
        lemma_behind_form(form, word, m);
    }
    if let Some((form, n)) = matching::suffix_of(word, short, long) {
        lemma_behind_form(form, word, n);
        if matching::longest_form(word, short, long, long.len()) is Some {
            let k = choose|k: int|
                {
                    &&& 0 <= k <= long.len()
                    &&& form == #[trigger] long.take(k)
                    &&& matching::byte_len(short) <= matching::byte_len(form)
                    &&& matching::number_behind(word, form) == Some(n)
                    &&& forall|j: int|
                        k < j <= long.len() ==> matching::number_behind(
                            word,
                            #[trigger] long.take(j),
                        ) is None
                };
            assert(is_form(short, long, k));
        }
    }
}

} // verus!
