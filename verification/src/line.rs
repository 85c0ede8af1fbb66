//! Taking a command line apart: into commands, and these into keywords and a
//! parameter.

use crate::text;
use vstd::prelude::*;

verus! {

/// The two kinds of quotation mark.
pub open spec fn is_quote(c: char) -> bool {
    c == '\'' || c == '"'
}

/// The quotation mark that is open before character `i`, if one is.
pub open spec fn open_quote(line: Seq<char>, i: int) -> Option<char>
    decreases i,
{
    if i <= 0 {
        None
    } else {
        let c = line[i - 1];
        match open_quote(line, i - 1) {
            Some(q) => if c == q {
                None
            } else {
                Some(q)
            },
            None => if is_quote(c) {
                Some(c)
            } else {
                None
            },
        }
    }
}

/// Whether character `i` separates two commands: it is a `;` outside quotes.
pub open spec fn separates(line: Seq<char>, i: int) -> bool {
    line[i] == ';' && open_quote(line, i) is None
}

/// The commands from `start` on, where none of the characters from there up to
/// `i` separates two commands. What is behind the last separator counts only if
/// it is not empty.
pub open spec fn commands_from(line: Seq<char>, start: int, i: int) -> Seq<Seq<char>>
    decreases line.len() - i,
{
    if i < 0 || i >= line.len() {
        if start < line.len() {
            seq![line.subrange(start, line.len() as int)]
        } else {
            seq![]
        }
    } else if separates(line, i) {
        seq![line.subrange(start, i)] + commands_from(line, i + 1, i + 1)
    } else {
        commands_from(line, start, i + 1)
    }
}

/// The commands of a line.
pub open spec fn commands_of(line: Seq<char>) -> Seq<Seq<char>> {
    commands_from(line, 0, 0)
}

/// Splits a line on the `;` that stand outside quotes.
pub fn split_commands(line: &str) -> (r: Vec<String>)
    ensures
        r.deep_view() == commands_of(line@),
{
    let chars = text::to_chars(line);
    let n: usize = chars.len();
    let mut parts: Vec<String> = Vec::new();
    let mut quote: Option<char> = None;
    let mut start: usize = 0;
    let mut i: usize = 0;
    assert(parts.deep_view() =~= seq![]);
    assert(commands_of(line@) =~= parts.deep_view() + commands_from(line@, 0, 0));
    while i < n
        invariant
            chars@ == line@,
            start <= i <= n == chars.len(),
            quote == open_quote(line@, i as int),
            commands_of(line@) == parts.deep_view() + commands_from(
                line@,
                start as int,
                i as int,
            ),
        decreases n - i,
    {
        let c: char = chars[i];
        match quote {
            Some(q) => {
                if c == q {
                    quote = None;
                }
            },
            None => {
                if c == '\'' || c == '"' {
                    quote = Some(c);
                } else if c == ';' {
                    let ghost before = parts.deep_view();
                    let part = text::string_of(chars.as_slice(), start, i);
                    parts.push(part);
                    start = i + 1;
                    assert(parts.deep_view() =~= before.push(part@));
                    assert(before + (seq![part@] + commands_from(line@, i + 1, i + 1))
                        =~= before.push(part@) + commands_from(line@, i + 1, i + 1));
                }
            },
        }
        i = i + 1;
    }
    if start < n {
        let ghost before = parts.deep_view();
        let part = text::string_of(chars.as_slice(), start, n);
        parts.push(part);
        assert(parts.deep_view() =~= before + seq![part@]);
    } else {
        assert(parts.deep_view() =~= parts.deep_view() + seq![]);
    }
    parts
}

/// The characters that end the keywords of a command.
pub open spec fn ends_keywords(c: char) -> bool {
    is_quote(c) || c == ' ' || c == '\t'
}

/// Where the keywords of a command end, if none of the characters before `i`
/// ends them.
pub open spec fn header_end(command: Seq<char>, i: int) -> int
    decreases command.len() - i,
{
    if 0 <= i < command.len() && !ends_keywords(command[i]) {
        header_end(command, i + 1)
    } else {
        i
    }
}

/// The keyword in `header[from..to]`, in upper case, if it is not empty.
pub open spec fn word(header: Seq<char>, from: int, to: int) -> Seq<Seq<char>> {
    if from < to {
        seq![text::upper(header.subrange(from, to))]
    } else {
        seq![]
    }
}

/// The keywords from `start` on, where none of the characters from there up to
/// `i` is a `:`.
pub open spec fn words_from(header: Seq<char>, start: int, i: int) -> Seq<Seq<char>>
    decreases header.len() - i,
{
    if i < 0 || i >= header.len() {
        word(header, start, header.len() as int)
    } else if header[i] == ':' {
        word(header, start, i) + words_from(header, i + 1, i + 1)
    } else {
        words_from(header, start, i + 1)
    }
}

/// The keywords of a command in upper case, without the empty ones. A common
/// command, which starts with `*`, is one keyword.
pub open spec fn keywords_of(header: Seq<char>) -> Seq<Seq<char>> {
    if header.len() > 0 && header[0] == '*' {
        seq![text::upper(header)]
    } else {
        words_from(header, 0, 0)
    }
}

/// The part of a command that holds its keywords.
pub open spec fn header_of(command: Seq<char>) -> Seq<char> {
    let s = text::trimmed(command);
    s.take(header_end(s, 0))
}

/// The part of a command behind its keywords, if there is any.
pub open spec fn param_of(command: Seq<char>) -> Option<Seq<char>> {
    let s = text::trimmed(command);
    let param = text::trimmed(s.skip(header_end(s, 0)));
    if param.len() == 0 {
        None
    } else {
        Some(param)
    }
}

/// Splits the characters of a header on `:`.
fn split_words(header: &[char]) -> (r: Vec<String>)
    ensures
        r.deep_view() == words_from(header@, 0, 0),
{
    let n: usize = header.len();
    let mut words: Vec<String> = Vec::new();
    let mut start: usize = 0;
    let mut i: usize = 0;
    assert(words.deep_view() =~= seq![]);
    assert(words_from(header@, 0, 0) =~= words.deep_view() + words_from(header@, 0, 0));
    while i < n
        invariant
            start <= i <= n == header.len(),
            words_from(header@, 0, 0) == words.deep_view() + words_from(
                header@,
                start as int,
                i as int,
            ),
        decreases n - i,
    {
        if header[i] == ':' {
            let ghost before = words.deep_view();
            let ghost rest = words_from(header@, i + 1, i + 1);
            let ghost here = word(header@, start as int, i as int);
            if start < i {
                words.push(text::upper_string(header, start, i));
            }
            assert(words.deep_view() =~= before + here);
            assert(before + (here + rest) =~= (before + here) + rest);
            start = i + 1;
        }
        i = i + 1;
    }
    let ghost before = words.deep_view();
    if start < n {
        words.push(text::upper_string(header, start, n));
    }
    assert(words.deep_view() =~= before + word(header@, start as int, n as int));
    words
}

/// Splits one command into its keywords, in upper case, and its parameter. The
/// keywords end at the first space, tab or quotation mark.
pub fn tokenise_command(input: &str) -> (r: (Vec<String>, Option<String>))
    ensures
        r.0.deep_view() == keywords_of(header_of(input@)),
        match r.1 {
            Some(p) => param_of(input@) == Some(p@),
            None => param_of(input@) is None,
        },
{
    let input = text::trim(input);
    let chars = text::to_chars(input);
    let n: usize = chars.len();
    let mut end: usize = 0;
    while end < n && chars[end] != '\'' && chars[end] != '"' && chars[end] != ' ' && chars[end]
        != '\t'
        invariant
            chars@ == input@,
            end <= n == chars.len(),
            header_end(input@, 0) == header_end(input@, end as int),
        decreases n - end,
    {
        end = end + 1;
    }
    let header = &chars.as_slice()[0..end];
    assert(header@ == input@.take(end as int));
    let rest = text::trim(input.substring_char(end, n));
    assert(input@.subrange(end as int, n as int) == input@.skip(end as int));
    let param: Option<String> = if rest.is_empty() {
        None
    } else {
        Some(rest.to_owned())
    };
    let tokens: Vec<String> = if end > 0 && header[0] == '*' {
        let token = text::upper_string(header, 0, end);
        assert(header@.subrange(0, end as int) == header@);
        let tokens = vec![token];
        assert(tokens.deep_view() =~= seq![token@]);
        tokens
    } else {
        split_words(header)
    };
    (tokens, param)
}

} // verus!
