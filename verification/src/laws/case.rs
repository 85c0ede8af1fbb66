//! Commands are read without regard to case.

use crate::command;
use crate::laws::keywords;
use crate::line;
use crate::pattern::EntryModel;
use crate::text;
use vstd::prelude::*;

verus! {

/// Case does not change what a character separates or ends.
pub(crate) proof fn lemma_upper_char(c: char)
    ensures
        text::is_space(text::upper_char(c)) == text::is_space(c),
        line::ends_keywords(text::upper_char(c)) == line::ends_keywords(c),
        text::upper_char(text::upper_char(c)) == text::upper_char(c),
        (text::upper_char(c) == ':') == (c == ':'),
        (text::upper_char(c) == '*') == (c == '*'),
{
}

/// Upper case comes out the same before and after trimming.
pub(crate) proof fn lemma_upper_trim(s: Seq<char>)
    ensures
        text::trim_start(text::upper(s)) == text::upper(text::trim_start(s)),
        text::trim_end(text::upper(s)) == text::upper(text::trim_end(s)),
    decreases s.len(),
{
    if s.len() > 0 {
        lemma_upper_char(s[0]);
        lemma_upper_char(s.last());
        lemma_upper_trim(s.drop_first());
        lemma_upper_trim(s.drop_last());
        assert(text::upper(s).drop_first() =~= text::upper(s.drop_first()));
        assert(text::upper(s).drop_last() =~= text::upper(s.drop_last()));
    }
}

/// Case does not change where the keywords end.
pub(crate) proof fn lemma_upper_header_end(s: Seq<char>, i: int)
    ensures
        line::header_end(text::upper(s), i) == line::header_end(s, i),
        0 <= i <= s.len() ==> i <= line::header_end(s, i) <= s.len(),
    decreases s.len() - i,
{
    if 0 <= i < s.len() {
        lemma_upper_char(s[i]);
        lemma_upper_header_end(s, i + 1);
    }
}

/// Case does not change the keywords.
proof fn lemma_upper_words(h: Seq<char>, start: int, i: int)
    requires
        0 <= start <= i <= h.len(),
    ensures
        line::words_from(text::upper(h), start, i) == line::words_from(h, start, i),
    decreases h.len() - i,
{
    let end = if i < h.len() {
        i
    } else {
        h.len() as int
    };
    assert(line::word(text::upper(h), start, end) == line::word(h, start, end)) by {
        let a = text::upper(text::upper(h).subrange(start, end));
        let b = text::upper(h.subrange(start, end));
        assert forall|j: int| 0 <= j < b.len() implies a[j] == b[j] by {
            lemma_upper_char(h[start + j]);
        }
        assert(a =~= b);
    }
    if i < h.len() {
        lemma_upper_char(h[i]);
        if h[i] == ':' {
            lemma_upper_words(h, i + 1, i + 1);
        } else {
            lemma_upper_words(h, start, i + 1);
        }
    }
}

/// Keywords are read without regard to case: a command in upper case has the
/// same keywords, so it leads to the same entry with the same suffix values.
/// Where that entry takes no parameter, it parses to the same.
pub proof fn law_case_is_ignored(
    entries: Seq<EntryModel>,
    c: Seq<char>,
    position: Seq<Seq<char>>,
)
    ensures
        line::keywords_of(line::header_of(text::upper(c))) == line::keywords_of(
            line::header_of(c),
        ),
        command::leads_with(text::upper(c), ':') == command::leads_with(c, ':'),
        command::leads_with(text::upper(c), '*') == command::leads_with(c, '*'),
        command::command_value(entries, c, position) matches Ok(step) ==> (
        entries[step.command.index as int].param is None ==> command::command_value(
            entries,
            text::upper(c),
            position,
        ) == Ok::<command::StepModel, Seq<char>>(step)),
{
    let s = text::trimmed(c);
    lemma_upper_trim(c);
    lemma_upper_trim(text::trim_start(c));
    assert(text::trimmed(text::upper(c)) == text::upper(s));
    lemma_upper_header_end(s, 0);
    let end = line::header_end(s, 0);
    assert(text::upper(s).take(end) =~= text::upper(s.take(end)));
    let h = line::header_of(c);
    assert(line::header_of(text::upper(c)) == text::upper(h));
    lemma_upper_words(h, 0, 0);
    if s.len() > 0 {
        lemma_upper_char(s[0]);
    }
    if h.len() > 0 {
        lemma_upper_char(h[0]);
        assert(text::upper(text::upper(h)) =~= text::upper(h)) by {
            assert forall|j: int| 0 <= j < h.len() implies text::upper(text::upper(h))[j]
                == text::upper(h)[j] by {
                lemma_upper_char(h[j]);
            }
        }
    }
    let tokens = line::keywords_of(h);
    let path = command::path_of(tokens);
    if let Ok(step) = command::command_value(entries, c, position) {
        let start = command::starting_point(c, path, position);
        keywords::law_first_entry(entries, start + path, command::asks(tokens), 0);
        keywords::law_first_entry(entries, path, command::asks(tokens), 0);
    }
}

/// The keywords of a command may be spelled in any case: with the same keywords
/// but for case, and the same parameter, two commands parse to the same or are
/// both refused, and then for the same reason.
pub proof fn law_keyword_case(
    entries: Seq<EntryModel>,
    c: Seq<char>,
    d: Seq<char>,
    position: Seq<Seq<char>>,
)
    requires
        text::upper(line::header_of(c)) == text::upper(line::header_of(d)),
        line::param_of(c) == line::param_of(d),
    ensures
        command::command_value(entries, c, position) == command::command_value(
            entries,
            d,
            position,
        ) || (command::command_value(entries, c, position) == Err::<command::StepModel, Seq<char>>(
            "unrecognised command: "@ + c,
        ) && command::command_value(entries, d, position) == Err::<command::StepModel, Seq<char>>(
            "unrecognised command: "@ + d,
        )),
{
    let g = line::header_of(c);
    let h = line::header_of(d);
    lemma_upper_words(g, 0, 0);
    lemma_upper_words(h, 0, 0);
    lemma_leads(c);
    lemma_leads(d);
    assert(g.len() == text::upper(g).len());
    assert(h.len() == text::upper(h).len());
    if g.len() > 0 {
        lemma_upper_char(g[0]);
        lemma_upper_char(h[0]);
        assert(text::upper(g)[0] == text::upper(h)[0]);
    }
    assert(line::keywords_of(g) == line::keywords_of(h));
}

/// What a command starts with is what its keywords start with.
proof fn lemma_leads(c: Seq<char>)
    ensures
        forall|x: char|
            !line::ends_keywords(x) ==> #[trigger] command::leads_with(c, x) == (line::header_of(
                c,
            ).len() > 0 && line::header_of(c)[0] == x),
{
    let s = text::trimmed(c);
    lemma_upper_header_end(s, 0);
    if s.len() > 0 && !line::ends_keywords(s[0]) {
        lemma_upper_header_end(s, 1);
    }
}

} // verus!
