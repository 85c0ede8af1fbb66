//! The keywords and the parameter of a command, told from its characters.

use crate::laws::blanks;
use crate::laws::positions;
use crate::laws::quoting;
use crate::line;
use crate::text;
use vstd::prelude::*;

verus! {

/// The characters behind the keywords of a command: a space, a tab or a quotation
/// mark.
pub open spec fn is_break(c: char) -> bool {
    c == ' ' || c == '\t' || c == '\'' || c == '"'
}

/// Whether a text holds none of them.
pub open spec fn is_unbroken(s: Seq<char>) -> bool {
    forall|i: int| 0 <= i < s.len() ==> !is_break(#[trigger] s[i])
}

/// Trimming takes off all the white space at either end of a text, and nothing
/// else.
pub proof fn law_trimmed(before: Seq<char>, s: Seq<char>, behind: Seq<char>)
    requires
        blanks::is_blank(before),
        blanks::is_blank(behind),
        s.len() > 0 ==> !text::is_space(s[0]) && !text::is_space(s[s.len() - 1]),
    ensures
        text::trimmed(before + s + behind) == s,
{
    blanks::lemma_trimmed_padded(before, s, behind);
    if s.len() > 0 {
        blanks::lemma_already_trimmed(s);
    } else {
        assert(s =~= seq![]);
    }
}

/// A command is its keywords and, behind a space, a tab or a quotation mark, its
/// parameter, if there is more than white space. White space before the keywords
/// makes no difference.
pub proof fn law_header_and_parameter(before: Seq<char>, h: Seq<char>, rest: Seq<char>)
    requires
        blanks::is_blank(before),
        h.len() > 0,
        is_unbroken(h),
        !text::is_space(h[0]),
        rest.len() > 0 ==> is_break(rest[0]),
        blanks::is_blank(rest) ==> !text::is_space(h[h.len() - 1]),
    ensures
        line::header_of(before + h + rest) == h,
        line::param_of(before + h + rest) == (if text::trimmed(rest).len() == 0 {
            None
        } else {
            Some(text::trimmed(rest))
        }),
{
    let c = before + h + rest;
    let v = blanks::lemma_end_padding(rest);
    let tail = text::trim_end(rest);
    let s = h + tail;
    assert(c =~= before + s + v);
    if tail.len() > 0 {
        blanks::lemma_trim_end_prefix(rest);
        assert(s[s.len() - 1] == tail[tail.len() - 1]);
        lemma_end_is_plain(rest);
    } else {
        assert(rest =~= v);
        assert(s =~= h);
    }
    assert(s[0] == h[0]);
    law_trimmed(before, s, v);
    assert forall|j: int| 0 <= j < h.len() implies !line::ends_keywords(#[trigger] h[j]) by {
        assert(!is_break(h[j]));
    }
    positions::lemma_header_end_behind(h, tail, 0);
    assert(tail.len() > 0 ==> tail[0] == rest[0]) by {
        if tail.len() > 0 {
            assert(rest == tail + v);
        }
    }
    assert(line::header_end(tail, 0) == 0);
    assert(s.take(h.len() as int) =~= h);
    assert(s.skip(h.len() as int) =~= tail);
    lemma_trim_end_first(rest);
}

/// What is trimmed at its end does not end in white space.
proof fn lemma_end_is_plain(s: Seq<char>)
    ensures
        text::trim_end(s).len() > 0 ==> !text::is_space(
            text::trim_end(s)[text::trim_end(s).len() - 1],
        ),
    decreases s.len(),
{
    if s.len() > 0 && text::is_space(s.last()) {
        lemma_end_is_plain(s.drop_last());
    }
}

/// Trimming the end first makes no difference.
proof fn lemma_trim_end_first(s: Seq<char>)
    ensures
        text::trimmed(text::trim_end(s)) == text::trimmed(s),
{
    let v = blanks::lemma_end_padding(s);
    let t = text::trim_end(s);
    let none = Seq::<char>::empty();
    assert(s =~= none + t + v);
    blanks::lemma_trimmed_padded(none, t, v);
}

/// A command that starts with a quotation mark has no keywords, and all of it is
/// its parameter.
pub proof fn law_parameter_alone(before: Seq<char>, rest: Seq<char>)
    requires
        blanks::is_blank(before),
        rest.len() > 0,
        quoting::is_mark(rest[0]),
    ensures
        line::header_of(before + rest) == Seq::<char>::empty(),
        line::param_of(before + rest) == Some(text::trimmed(rest)),
{
    let none = Seq::<char>::empty();
    let s = text::trimmed(rest);
    assert(before + rest =~= before + rest + none);
    blanks::lemma_trimmed_padded(before, rest, none);
    assert(text::trim_start(rest) == rest);
    blanks::lemma_trim_end_keeps(rest);
    assert(s[0] == rest[0]);
    assert(line::header_end(s, 0) == 0);
    assert(s.take(0) =~= none);
    assert(s.skip(0) =~= s);
    blanks::lemma_trimmed_ends(rest);
    blanks::lemma_already_trimmed(s);
}

/// A common command is one keyword in upper case, whatever it holds.
pub proof fn law_common_keyword(x: Seq<char>)
    ensures
        line::keywords_of(seq!['*'] + x) == seq![text::upper(seq!['*'] + x)],
{
    assert((seq!['*'] + x)[0] == '*');
}

/// A header without `:` is one keyword in upper case, or none where it is empty.
pub proof fn law_single_keyword(w: Seq<char>)
    requires
        forall|i: int| 0 <= i < w.len() ==> #[trigger] w[i] != ':',
    ensures
        line::keywords_of(w) == (if w.len() == 0 {
            seq![]
        } else {
            seq![text::upper(w)]
        }),
        line::keywords_of(seq![':'] + w) == (if w.len() == 0 {
            seq![]
        } else {
            seq![text::upper(w)]
        }),
{
    let led = seq![':'] + w;
    lemma_one(w);
    assert(led[0] == ':');
    assert(led.skip(1) =~= w);
    positions::lemma_words_behind(led, 1, w, 0, 0);
    assert(line::word(led, 0, 0) =~= seq![]);
    assert(line::words_from(led, 0, 0) =~= line::words_from(led, 1, 1));
    assert(w.subrange(0, w.len() as int) =~= w);
}

/// A header without `:` is one word.
proof fn lemma_one(w: Seq<char>)
    requires
        forall|i: int| 0 <= i < w.len() ==> #[trigger] w[i] != ':',
    ensures
        line::words_from(w, 0, 0) == line::word(w, 0, w.len() as int),
{
    lemma_one_from(w, 0);
}

/// A header without `:` is one word, from every place on.
proof fn lemma_one_from(w: Seq<char>, i: int)
    requires
        0 <= i <= w.len(),
        forall|j: int| 0 <= j < w.len() ==> #[trigger] w[j] != ':',
    ensures
        line::words_from(w, 0, i) == line::word(w, 0, w.len() as int),
    decreases w.len() - i,
{
    if i < w.len() {
        lemma_one_from(w, i + 1);
    }
}

/// A `:` separates keywords: those of what is behind it follow those of what is
/// before it.
pub proof fn law_keywords_at_colon(a: Seq<char>, b: Seq<char>)
    requires
        a.len() > 0 ==> a[0] != '*',
    ensures
        line::keywords_of(a + seq![':'] + b) == line::keywords_of(a) + line::keywords_of(
            seq![':'] + b,
        ),
{
    let behind = seq![':'] + b;
    let whole = a + behind;
    assert(a + seq![':'] + b =~= whole);
    assert(whole[0] == (if a.len() > 0 {
        a[0]
    } else {
        ':'
    }));
    assert(behind[0] == ':');
    lemma_words_cut(a, behind, 0, 0);
}

/// The words before a `:` and those behind it.
proof fn lemma_words_cut(a: Seq<char>, behind: Seq<char>, start: int, i: int)
    requires
        0 <= start <= i <= a.len(),
        behind.len() > 0,
        behind[0] == ':',
    ensures
        line::words_from(a + behind, start, i) == line::words_from(a, start, i)
            + line::words_from(behind, 0, 0),
    decreases a.len() - i,
{
    let whole = a + behind;
    let n = a.len() as int;
    if i == n {
        assert(whole[n] == ':');
        assert(whole.skip(n) =~= behind);
        positions::lemma_words_behind(whole, n, behind, 1, 1);
        assert(line::word(behind, 0, 0) =~= seq![]);
        assert(line::words_from(behind, 0, 0) =~= line::words_from(behind, 1, 1));
        assert(whole.subrange(start, n) =~= a.subrange(start, n));
    } else {
        assert(whole[i] == a[i]);
        if a[i] == ':' {
            lemma_words_cut(a, behind, i + 1, i + 1);
            assert(whole.subrange(start, i) =~= a.subrange(start, i));
            let rest = line::words_from(a, i + 1, i + 1);
            assert(line::word(a, start, i) + (rest + line::words_from(behind, 0, 0))
                =~= line::word(a, start, i) + rest + line::words_from(behind, 0, 0));
        } else {
            lemma_words_cut(a, behind, start, i + 1);
        }
    }
}

/// White space alone has neither keywords nor a parameter.
pub proof fn law_blank_command(c: Seq<char>)
    requires
        blanks::is_blank(c),
    ensures
        line::header_of(c) == Seq::<char>::empty(),
        line::param_of(c) is None,
        line::keywords_of(seq![]) == Seq::<Seq<char>>::empty(),
{
    let none = Seq::<char>::empty();
    assert(c =~= c + none + none);
    law_trimmed(c, none, none);
    assert(none.take(0) =~= none);
    assert(none.skip(0) =~= none);
    assert(text::trimmed(none) =~= none);
}

} // verus!
