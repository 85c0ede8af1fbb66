//! Where in the command tree a command is found, told from the entries of the
//! table that match its keywords.

use crate::command;
use crate::command::{CommandModel, StepModel};
use crate::laws::blanks;
use crate::laws::keywords;
use crate::laws::quoting;
use crate::line;
use crate::matching;
use crate::param;
use crate::pattern::{EntryModel, ParamKind};
use crate::text;
use vstd::prelude::*;

verus! {

/// The keywords of a command, as they are matched.
pub open spec fn path(c: Seq<char>) -> Seq<Seq<char>> {
    command::path_of(line::keywords_of(line::header_of(c)))
}

/// Whether a command is a query.
pub open spec fn is_query(c: Seq<char>) -> bool {
    command::asks(line::keywords_of(line::header_of(c)))
}

/// Whether a command has a keyword, if only a `?`.
pub open spec fn has_keywords(c: Seq<char>) -> bool {
    line::keywords_of(line::header_of(c)).len() > 0
}

/// Whether a command starts with a character, but for white space.
pub open spec fn begins_with(c: Seq<char>, x: char) -> bool {
    text::trimmed(c).len() > 0 && text::trimmed(c)[0] == x
}

/// Whether the keywords of `c` are told from the root, whatever stands before it.
pub open spec fn is_rooted(c: Seq<char>) -> bool {
    begins_with(c, ':') || begins_with(c, '*') || path(c).len() == 0
}

/// Whether entry `k` is the first of the table that keywords match, and gives
/// these suffix values.
pub open spec fn is_first_match(
    entries: Seq<EntryModel>,
    words: Seq<Seq<char>>,
    query: bool,
    k: int,
    suffixes: Seq<u32>,
) -> bool {
    &&& 0 <= k < entries.len()
    &&& matching::entry_match(entries[k], words, query) == Some(suffixes)
    &&& forall|j: int|
        0 <= j < k ==> matching::entry_match(#[trigger] entries[j], words, query) is None
}

/// Whether keywords match no entry of the table.
pub open spec fn matches_none(
    entries: Seq<EntryModel>,
    words: Seq<Seq<char>>,
    query: bool,
) -> bool {
    forall|j: int|
        0 <= j < entries.len() ==> matching::entry_match(
            #[trigger] entries[j],
            words,
            query,
        ) is None
}

/// What a command gives that leads to entry `k`: its parameter is the one that the
/// entry declares, and there is none where the entry declares none.
pub open spec fn outcome(
    entries: Seq<EntryModel>,
    c: Seq<char>,
    k: int,
    suffixes: Seq<u32>,
    position: Seq<Seq<char>>,
) -> Result<StepModel, Seq<char>> {
    match (entries[k].param, line::param_of(c)) {
        (None, _) => Ok(
            StepModel {
                command: CommandModel { index: k as nat, params: seq![], suffixes },
                position,
            },
        ),
        (Some(_), None) => Err("command expects a parameter but none given"@),
        (Some(kind), Some(raw)) => match param::param_value(kind, raw) {
            Err(message) => Err(message),
            Ok(v) => Ok(
                StepModel {
                    command: CommandModel { index: k as nat, params: seq![v], suffixes },
                    position,
                },
            ),
        },
    }
}

/// The entry that is looked up.
proof fn lemma_lookup(
    entries: Seq<EntryModel>,
    words: Seq<Seq<char>>,
    query: bool,
    k: int,
    suffixes: Seq<u32>,
)
    requires
        is_first_match(entries, words, query, k, suffixes),
    ensures
        command::lookup(entries, words, query, 0) == Some((k, suffixes)),
{
    keywords::lemma_lookup_at(entries, words, query, 0, k);
}

/// Nothing that is looked up.
proof fn lemma_lookup_none(entries: Seq<EntryModel>, words: Seq<Seq<char>>, query: bool, i: int)
    requires
        matches_none(entries, words, query),
        0 <= i,
    ensures
        command::lookup(entries, words, query, i) is None,
    decreases entries.len() - i,
{
    if i < entries.len() {
        lemma_lookup_none(entries, words, query, i + 1);
    }
}

/// A table that keywords match has a first entry that they match.
proof fn lemma_some_first(entries: Seq<EntryModel>, words: Seq<Seq<char>>, query: bool) -> (r: (
    int,
    Seq<u32>,
))
    requires
        !matches_none(entries, words, query),
    ensures
        is_first_match(entries, words, query, r.0, r.1),
{
    keywords::law_first_entry(entries, words, query, 0);
    match command::lookup(entries, words, query, 0) {
        Some(r) => r,
        None => {
            assert(matches_none(entries, words, query));
            (0, seq![])
        },
    }
}

/// A command without a leading `:` or `*` leads to the first entry that its
/// keywords match behind those of the position. The position that it leaves is the
/// node above its last keyword.
pub proof fn law_found_at_position(
    entries: Seq<EntryModel>,
    c: Seq<char>,
    p: Seq<Seq<char>>,
    k: int,
    suffixes: Seq<u32>,
)
    requires
        !is_rooted(c),
        is_first_match(entries, p + path(c), is_query(c), k, suffixes),
    ensures
        command::command_value(entries, c, p) == outcome(
            entries,
            c,
            k,
            suffixes,
            (p + path(c)).drop_last(),
        ),
{
    lemma_lookup(entries, p + path(c), is_query(c), k, suffixes);
}

/// A command that starts with `:` or `*`, or that no entry matches at the
/// position, however deep that is, leads to the first entry that its own keywords
/// match. The position that it leaves is the node above its last keyword; a common
/// command leaves the one that was there.
pub proof fn law_found_at_root(
    entries: Seq<EntryModel>,
    c: Seq<char>,
    p: Seq<Seq<char>>,
    k: int,
    suffixes: Seq<u32>,
)
    requires
        has_keywords(c),
        is_rooted(c) || matches_none(entries, p + path(c), is_query(c)),
        is_first_match(entries, path(c), is_query(c), k, suffixes),
    ensures
        command::command_value(entries, c, p) == outcome(
            entries,
            c,
            k,
            suffixes,
            if begins_with(c, '*') {
                p
            } else if path(c).len() == 0 {
                seq![]
            } else {
                path(c).drop_last()
            },
        ),
{
    let root = Seq::<Seq<char>>::empty();
    lemma_lookup(entries, path(c), is_query(c), k, suffixes);
    assert(root + path(c) =~= path(c));
    if !is_rooted(c) {
        lemma_lookup_none(entries, p + path(c), is_query(c), 0);
    }
}

/// A command is not recognised exactly where no entry matches its keywords, neither
/// at the position nor at the root.
pub proof fn law_not_found(entries: Seq<EntryModel>, c: Seq<char>, p: Seq<Seq<char>>)
    requires
        has_keywords(c),
        is_rooted(c) || matches_none(entries, p + path(c), is_query(c)),
        matches_none(entries, path(c), is_query(c)),
    ensures
        command::command_value(entries, c, p) == Err::<StepModel, Seq<char>>(
            "unrecognised command: "@ + c,
        ),
{
    let root = Seq::<Seq<char>>::empty();
    assert(root + path(c) =~= path(c));
    lemma_lookup_none(entries, path(c), is_query(c), 0);
    if !is_rooted(c) {
        lemma_lookup_none(entries, p + path(c), is_query(c), 0);
    }
}

/// A command without keywords is refused as empty.
pub proof fn law_no_keywords(entries: Seq<EntryModel>, c: Seq<char>, p: Seq<Seq<char>>)
    requires
        !has_keywords(c),
    ensures
        command::command_value(entries, c, p) == Err::<StepModel, Seq<char>>("empty command"@),
{
}

/// What is said of a parameter is not what is said of a command that is not
/// recognised.
proof fn lemma_other_message(kind: ParamKind, raw: Seq<char>)
    ensures
        param::param_value(kind, raw) matches Err(m) ==> m.len() > 0 && m[0] != 'u',
{
    reveal_strlit("cannot parse integer from empty string");
    reveal_strlit("invalid digit found in string");
    reveal_strlit("number too large to fit in target type");
    reveal_strlit("cannot parse float from empty string");
    reveal_strlit("invalid float literal");
    reveal_strlit("invalid boolean: ");
}

/// A command whose own keywords match an entry is recognised at every position.
pub proof fn law_recognised_everywhere(
    entries: Seq<EntryModel>,
    c: Seq<char>,
    p: Seq<Seq<char>>,
    i: int,
)
    requires
        has_keywords(c),
        0 <= i < entries.len(),
        matching::entry_match(entries[i], path(c), is_query(c)) is Some,
    ensures
        command::command_value(entries, c, p) != Err::<StepModel, Seq<char>>(
            "unrecognised command: "@ + c,
        ),
{
    reveal_strlit("unrecognised command: ");
    reveal_strlit("command expects a parameter but none given");
    let message = "unrecognised command: "@ + c;
    assert(message[0] == 'u');
    let (k, suffixes) = if is_rooted(c) || matches_none(entries, p + path(c), is_query(c)) {
        let found = lemma_some_first(entries, path(c), is_query(c));
        law_found_at_root(entries, c, p, found.0, found.1);
        found
    } else {
        let found = lemma_some_first(entries, p + path(c), is_query(c));
        law_found_at_position(entries, c, p, found.0, found.1);
        found
    };
    if let (Some(kind), Some(raw)) = (entries[k].param, line::param_of(c)) {
        lemma_other_message(kind, raw);
    }
}

/// A `?` at the end of the last keyword makes a query and is no part of the
/// keywords; a keyword that is a `?` alone is none.
pub proof fn law_query_mark(words: Seq<Seq<char>>, word: Seq<char>)
    ensures
        command::asks(words.push(word + seq!['?'])),
        command::path_of(words.push(word + seq!['?'])) == (if word.len() == 0 {
            words
        } else {
            words.push(word)
        }),
        word.len() == 0 || word[word.len() - 1] != '?' ==> !command::asks(words.push(word))
            && command::path_of(words.push(word)) == words.push(word),
{
    let asked = words.push(word + seq!['?']);
    assert(asked.last().last() == '?');
    assert(asked.drop_last() =~= words);
    assert(asked.last().drop_last() =~= word);
    assert(words.push(word).last() == word);
}

/// A row of one command parses to that command, and to nothing where it is white
/// space only.
pub proof fn law_row_of_one(entries: Seq<EntryModel>, c: Seq<char>, p: Seq<Seq<char>>)
    ensures
        command::commands_value(entries, seq![c], p) == (if text::trimmed(c).len() == 0 {
            Ok(seq![])
        } else {
            match command::command_value(entries, text::trimmed(c), p) {
                Ok(step) => Ok(seq![step.command]),
                Err(message) => Err(message),
            }
        }),
{
    assert(seq![c].skip(1) =~= seq![]);
    reveal_with_fuel(command::commands_value, 2);
    if let Ok(step) = command::command_value(entries, text::trimmed(c), p) {
        assert(seq![step.command] + Seq::<CommandModel>::empty() =~= seq![step.command]);
    }
}

/// A line without quotation marks and `;` parses as one command at the root, and
/// to nothing where it is white space only.
pub proof fn law_line_of_one(entries: Seq<EntryModel>, line: Seq<char>)
    requires
        quoting::is_bare(line),
    ensures
        command::line_value(entries, line) == (if text::trimmed(line).len() == 0 {
            Ok(seq![])
        } else {
            match command::command_value(entries, text::trimmed(line), seq![]) {
                Ok(step) => Ok(seq![step.command]),
                Err(message) => Err(message),
            }
        }),
{
    let t = text::trimmed(line);
    let (w, v) = blanks::lemma_padding(line);
    assert(quoting::is_bare(t)) by {
        assert forall|i: int| 0 <= i < t.len() implies !quoting::is_mark(#[trigger] t[i]) && t[i]
            != ';' by {
            assert(line[w.len() + i] == t[i]);
        }
    }
    blanks::lemma_trimmed_ends(line);
    blanks::lemma_already_trimmed(t);
    quoting::law_empty_line();
    if t.len() > 0 {
        quoting::law_bare_front(t, seq![]);
        assert(t + Seq::<char>::empty() =~= t);
    } else {
        assert(t =~= seq![]);
    }
    law_row_of_one(entries, t, seq![]);
}

/// A row of commands parses one after the other: the first from where the row
/// starts, and the rest from the position that the first leaves. A refusal refuses
/// the row, and a command of white space only counts for nothing.
pub proof fn law_first_then_rest(
    entries: Seq<EntryModel>,
    c: Seq<char>,
    rest: Seq<Seq<char>>,
    p: Seq<Seq<char>>,
)
    ensures
        command::commands_value(entries, seq![c] + rest, p) == (if text::trimmed(c).len() == 0 {
            command::commands_value(entries, rest, p)
        } else {
            match command::command_value(entries, text::trimmed(c), p) {
                Err(message) => Err(message),
                Ok(step) => match command::commands_value(entries, rest, step.position) {
                    Err(message) => Err(message),
                    Ok(commands) => Ok(seq![step.command] + commands),
                },
            }
        }),
        command::commands_value(entries, seq![], p) == Ok::<Seq<CommandModel>, Seq<char>>(seq![]),
{
    let all = seq![c] + rest;
    assert(all[0] == c);
    assert(all.skip(1) =~= rest);
}

/// A line parses as the row of its commands does, from the root. White space around
/// the line is not part of them.
pub proof fn law_line_by_commands(
    entries: Seq<EntryModel>,
    before: Seq<char>,
    line: Seq<char>,
    behind: Seq<char>,
)
    requires
        blanks::is_blank(before),
        blanks::is_blank(behind),
        line.len() > 0 ==> !text::is_space(line[0]) && !text::is_space(line[line.len() - 1]),
    ensures
        command::line_value(entries, before + line + behind) == command::commands_value(
            entries,
            line::commands_of(line),
            seq![],
        ),
{
    blanks::lemma_trimmed_padded(before, line, behind);
    if line.len() > 0 {
        blanks::lemma_already_trimmed(line);
    } else {
        assert(line =~= seq![]);
    }
}

} // verus!
