//! Command sets: parsing a line against a table of patterns, and dispatching the
//! commands that it holds.

use crate::error::ParseError;
use crate::laws::compound;
use crate::line;
use crate::matching;
use crate::matching::Entry;
use crate::param;
use crate::param::{Param, ParamModel};
use crate::pattern;
use crate::pattern::{EntryModel, ParamKind};
use crate::text;
use vstd::prelude::*;

verus! {

/// A single parsed command ready for dispatch.
#[derive(Debug)]
pub struct Command {
    /// Index into the table that the command set was built from.
    pub index: usize,
    /// The parameter values.
    pub params: Vec<Param>,
    /// The values of the numeric suffixes (`#` placeholders), in order of
    /// appearance; 1 where the digits are left out.
    pub suffixes: Vec<u32>,
}

/// Handler function signature.
pub type Handler = fn(&Command);

/// The model of a [`Command`].
#[verifier::ext_equal]
pub struct CommandModel {
    pub index: nat,
    pub params: Seq<ParamModel>,
    pub suffixes: Seq<u32>,
}

impl View for Command {
    type V = CommandModel;

    open spec fn view(&self) -> CommandModel {
        CommandModel {
            index: self.index as nat,
            params: self.params.deep_view(),
            suffixes: self.suffixes@,
        }
    }
}

impl DeepView for Command {
    type V = CommandModel;

    open spec fn deep_view(&self) -> CommandModel {
        self@
    }
}

/// The first entry from `i` on that the keywords in `path` match, with the
/// suffix values.
pub open spec fn lookup(
    entries: Seq<EntryModel>,
    path: Seq<Seq<char>>,
    is_query: bool,
    i: int,
) -> Option<(int, Seq<u32>)>
    decreases entries.len() - i,
{
    if i < 0 || i >= entries.len() {
        None
    } else {
        match matching::entry_match(entries[i], path, is_query) {
            Some(suffixes) => Some((i, suffixes)),
            None => lookup(entries, path, is_query, i + 1),
        }
    }
}

/// Whether the keywords are those of a query: the last one ends in `?`.
pub open spec fn asks(tokens: Seq<Seq<char>>) -> bool {
    tokens.len() > 0 && tokens.last().len() > 0 && tokens.last().last() == '?'
}

/// The keywords without the `?`, and without the last one where it was no more
/// than that.
pub open spec fn path_of(tokens: Seq<Seq<char>>) -> Seq<Seq<char>> {
    if !asks(tokens) {
        tokens
    } else if tokens.last().len() == 1 {
        tokens.drop_last()
    } else {
        tokens.drop_last().push(tokens.last().drop_last())
    }
}

/// Whether a command starts with the given character.
pub open spec fn leads_with(command: Seq<char>, c: char) -> bool {
    text::trimmed(command).len() > 0 && text::trimmed(command)[0] == c
}

/// Where in the command tree a command is looked up: at the position that the
/// command before it left, or at the root if it starts with `:`, is a common
/// command, or has no keyword.
pub open spec fn starting_point(
    command: Seq<char>,
    path: Seq<Seq<char>>,
    position: Seq<Seq<char>>,
) -> Seq<Seq<char>> {
    if leads_with(command, ':') || leads_with(command, '*') || path.len() == 0 {
        seq![]
    } else {
        position
    }
}

/// An entry that was found: its index, the suffix values, and the keywords that
/// lead to it from the root.
pub struct Found {
    pub index: int,
    pub suffixes: Seq<u32>,
    pub path: Seq<Seq<char>>,
}

/// The entry that `path` leads to from the node `start`, or from the root where
/// it leads to none from there.
pub open spec fn resolve(
    entries: Seq<EntryModel>,
    start: Seq<Seq<char>>,
    path: Seq<Seq<char>>,
    is_query: bool,
) -> Option<Found> {
    match lookup(entries, start + path, is_query, 0) {
        Some((index, suffixes)) => Some(Found { index, suffixes, path: start + path }),
        None => match lookup(entries, path, is_query, 0) {
            Some((index, suffixes)) => Some(Found { index, suffixes, path }),
            None => None,
        },
    }
}

/// The position that a command leaves: the node that its last keyword is under.
/// A common command leaves it as it was.
pub open spec fn position_after(
    command: Seq<char>,
    path: Seq<Seq<char>>,
    position: Seq<Seq<char>>,
) -> Seq<Seq<char>> {
    if leads_with(command, '*') {
        position
    } else if path.len() == 0 {
        seq![]
    } else {
        path.drop_last()
    }
}

/// The parameter values of a command whose pattern declares `kind`, where `given`
/// stands behind its keywords.
pub open spec fn params_value(kind: Option<ParamKind>, given: Option<Seq<char>>) -> Result<
    Seq<ParamModel>,
    Seq<char>,
> {
    match kind {
        None => Ok(seq![]),
        Some(k) => match given {
            None => Err("command expects a parameter but none given"@),
            Some(raw) => match param::param_value(k, raw) {
                Ok(v) => Ok(seq![v]),
                Err(message) => Err(message),
            },
        },
    }
}

/// A parsed command and the position that it leaves.
#[verifier::ext_equal]
pub struct StepModel {
    pub command: CommandModel,
    pub position: Seq<Seq<char>>,
}

/// What one command parses to at a position of the command tree, or the message
/// why it is refused.
pub open spec fn command_value(
    entries: Seq<EntryModel>,
    command: Seq<char>,
    position: Seq<Seq<char>>,
) -> Result<StepModel, Seq<char>> {
    let tokens = line::keywords_of(line::header_of(command));
    let path = path_of(tokens);
    if tokens.len() == 0 {
        Err("empty command"@)
    } else {
        match resolve(entries, starting_point(command, path, position), path, asks(tokens)) {
            None => Err("unrecognised command: "@ + command),
            Some(found) => match params_value(
                entries[found.index].param,
                line::param_of(command),
            ) {
                Err(message) => Err(message),
                Ok(params) => Ok(
                    StepModel {
                        command: CommandModel {
                            index: found.index as nat,
                            params,
                            suffixes: found.suffixes,
                        },
                        position: position_after(command, found.path, position),
                    },
                ),
            },
        }
    }
}

/// What a row of commands parses to, from a position on: those that are empty
/// count for nothing, and the first that is refused decides.
pub open spec fn commands_value(
    entries: Seq<EntryModel>,
    commands: Seq<Seq<char>>,
    position: Seq<Seq<char>>,
) -> Result<Seq<CommandModel>, Seq<char>>
    decreases commands.len(),
{
    if commands.len() == 0 {
        Ok(seq![])
    } else {
        let first = text::trimmed(commands[0]);
        if first.len() == 0 {
            commands_value(entries, commands.skip(1), position)
        } else {
            match command_value(entries, first, position) {
                Err(message) => Err(message),
                Ok(step) => match commands_value(entries, commands.skip(1), step.position) {
                    Err(message) => Err(message),
                    Ok(rest) => Ok(seq![step.command] + rest),
                },
            }
        }
    }
}

/// What a line parses to. It starts at the root of the command tree.
pub open spec fn line_value(entries: Seq<EntryModel>, line: Seq<char>) -> Result<
    Seq<CommandModel>,
    Seq<char>,
> {
    commands_value(entries, line::commands_of(text::trimmed(line)), seq![])
}

/// What the commands so far and those behind them parse to.
spec fn with_commands(
    done: Seq<CommandModel>,
    rest: Result<Seq<CommandModel>, Seq<char>>,
) -> Result<Seq<CommandModel>, Seq<char>> {
    match rest {
        Ok(commands) => Ok(done + commands),
        Err(message) => Err(message),
    }
}

/// Adds copies of the first `n` keywords of `words` behind those of `path`.
fn add_words(path: &mut Vec<String>, words: &Vec<String>, n: usize)
    requires
        n <= words.len(),
    ensures
        final(path).deep_view() == old(path).deep_view() + words.deep_view().take(n as int),
{
    let mut i: usize = 0;
    assert(path.deep_view() =~= old(path).deep_view() + words.deep_view().take(0));
    while i < n
        invariant
            i <= n <= words.len(),
            path.deep_view() == old(path).deep_view() + words.deep_view().take(i as int),
        decreases n - i,
    {
        let ghost before = path.deep_view();
        path.push(words[i].clone());
        assert(path.deep_view() =~= before.push(words@[i as int]@));
        assert(path.deep_view() =~= old(path).deep_view() + words.deep_view().take(i + 1));
        i = i + 1;
    }
}

/// Takes the `?` off the keywords of a query, and says whether it was one.
fn strip_query(tokens: Vec<String>) -> (r: (Vec<String>, bool))
    ensures
        r.0.deep_view() == path_of(tokens.deep_view()),
        r.1 == asks(tokens.deep_view()),
{
    let ghost all = tokens.deep_view();
    let n: usize = tokens.len();
    if n == 0 {
        return (tokens, false);
    }
    let last = text::to_chars(tokens[n - 1].as_str());
    let len: usize = last.len();
    assert(all.last() == last@);
    if len == 0 || last[len - 1] != '?' {
        return (tokens, false);
    }
    let mut path: Vec<String> = Vec::new();
    assert(path.deep_view() =~= seq![]);
    add_words(&mut path, &tokens, n - 1);
    assert(path.deep_view() =~= all.drop_last());
    if len > 1 {
        let word = text::string_of(last.as_slice(), 0, len - 1);
        assert(word@ =~= last@.drop_last());
        path.push(word);
        assert(path.deep_view() =~= all.drop_last().push(word@));
    }
    (path, true)
}

/// Whether a command starts with the given character.
fn starts(command: &str, c: char) -> (r: bool)
    ensures
        r == leads_with(command@, c),
{
    let trimmed = text::trim(command);
    trimmed.unicode_len() > 0 && trimmed.get_char(0) == c
}

/// Reads the parameter of a command whose pattern declares `kind`.
fn read_params(kind: Option<ParamKind>, given: &Option<String>) -> (r: Result<
    Vec<Param>,
    ParseError,
>)
    ensures
        ({
            let raw = match *given {
                Some(p) => Some(p@),
                None => None,
            };
            match r {
                Ok(params) => params_value(kind, raw) == Ok::<Seq<ParamModel>, Seq<char>>(
                    params.deep_view(),
                ),
                Err(e) => params_value(kind, raw) == Err::<Seq<ParamModel>, Seq<char>>(e@),
            }
        }),
{
    let mut params: Vec<Param> = Vec::new();
    assert(params.deep_view() =~= seq![]);
    match kind {
        None => Ok(params),
        Some(k) => match given {
            None => Err(
                ParseError::new("command expects a parameter but none given".to_owned()),
            ),
            Some(raw) => match param::parse_param(k, raw.as_str()) {
                Ok(v) => {
                    params.push(v);
                    assert(params.deep_view() =~= seq![v@]);
                    Ok(params)
                },
                Err(e) => Err(e),
            },
        },
    }
}

/// A compiled command set, built from a table of patterns and handlers.
pub struct CommandSet<H> {
    entries: Vec<Entry<H>>,
}

impl<H> CommandSet<H> {
    /// The compiled patterns, in the order of the table.
    pub closed spec fn patterns(&self) -> Seq<EntryModel> {
        Seq::new(self.entries@.len(), |i: int| self.entries@[i]@)
    }

    /// The handlers, in the order of the table.
    pub closed spec fn handlers(&self) -> Seq<H> {
        Seq::new(self.entries@.len(), |i: int| self.entries@[i].handler)
    }

    /// The first entry that the keywords in `path` match.
    fn find(&self, path: &Vec<String>, is_query: bool) -> (r: Option<(usize, Vec<u32>)>)
        ensures
            match r {
                Some((index, suffixes)) => lookup(self.patterns(), path.deep_view(), is_query, 0)
                    == Some((index as int, suffixes@)) && index < self.patterns().len(),
                None => lookup(self.patterns(), path.deep_view(), is_query, 0) is None,
            },
    {
        let mut i: usize = 0;
        while i < self.entries.len()
            invariant
                i <= self.entries.len(),
                lookup(self.patterns(), path.deep_view(), is_query, 0) == lookup(
                    self.patterns(),
                    path.deep_view(),
                    is_query,
                    i as int,
                ),
            decreases self.entries.len() - i,
        {
            assert(self.patterns()[i as int] == self.entries@[i as int]@);
            if let Some(suffixes) = matching::try_match(
                &self.entries[i],
                path.as_slice(),
                is_query,
            ) {
                return Some((i, suffixes));
            }
            i = i + 1;
        }
        None
    }

    /// Parses one command at a position of the command tree, and returns it with
    /// the position that it leaves.
    fn parse_single(&self, input: &str, position: &Vec<String>) -> (r: Result<
        (Command, Vec<String>),
        ParseError,
    >)
        ensures
            match r {
                Ok((command, after)) => command_value(
                    self.patterns(),
                    input@,
                    position.deep_view(),
                ) == Ok::<StepModel, Seq<char>>(
                    StepModel { command: command@, position: after.deep_view() },
                ),
                Err(e) => command_value(self.patterns(), input@, position.deep_view()) == Err::<
                    StepModel,
                    Seq<char>,
                >(e@),
            },
    {
        let (tokens, given) = line::tokenise_command(input);
        if tokens.len() == 0 {
            return Err(ParseError::new("empty command".to_owned()));
        }
        let (path, is_query) = strip_query(tokens);
        let is_common: bool = starts(input, '*');
        let mut full: Vec<String> = Vec::new();
        assert(full.deep_view() =~= seq![]);
        if !is_common && !starts(input, ':') && path.len() > 0 {
            add_words(&mut full, position, position.len());
        }
        assert(full.deep_view() =~= starting_point(
            input@,
            path.deep_view(),
            position.deep_view(),
        ));
        add_words(&mut full, &path, path.len());
        assert(full.deep_view() =~= starting_point(
            input@,
            path.deep_view(),
            position.deep_view(),
        ) + path.deep_view());
        let mut found = self.find(&full, is_query);
        if found.is_none() {
            found = self.find(&path, is_query);
            full = path;
        }
        match found {
            None => {
                let mut message = "unrecognised command: ".to_owned();
                message.append(input);
                Err(ParseError::new(message))
            },
            Some((index, suffixes)) => {
                assert(self.patterns()[index as int] == self.entries@[index as int]@);
                match read_params(self.entries[index].param, &given) {
                    Err(e) => Err(e),
                    Ok(params) => {
                        let mut after: Vec<String> = Vec::new();
                        assert(after.deep_view() =~= seq![]);
                        if is_common {
                            add_words(&mut after, position, position.len());
                        } else if full.len() > 0 {
                            add_words(&mut after, &full, full.len() - 1);
                        }
                        assert(after.deep_view() =~= position_after(
                            input@,
                            full.deep_view(),
                            position.deep_view(),
                        ));
                        Ok((Command { index, params, suffixes }, after))
                    },
                }
            },
        }
    }

    /// Parses a line, which may hold several commands separated by `;`. A command
    /// is looked up at the position of the command tree that the one before it
    /// left, and then at the root; one that starts with `:`, at the root only.
    pub fn parse(&self, line: &str) -> (r: Result<Vec<Command>, ParseError>)
        ensures
            match r {
                Ok(commands) => line_value(self.patterns(), line@) == Ok::<
                    Seq<CommandModel>,
                    Seq<char>,
                >(commands.deep_view()),
                Err(e) => line_value(self.patterns(), line@) == Err::<
                    Seq<CommandModel>,
                    Seq<char>,
                >(e@),
            },
            r matches Ok(commands) ==> forall|i: int|
                0 <= i < commands.len() ==> (#[trigger] commands@[i]).index
                    < self.handlers().len(),
    {
        let parts = line::split_commands(text::trim(line));
        let ghost all = parts.deep_view();
        let mut result: Vec<Command> = Vec::new();
        let mut position: Vec<String> = Vec::new();
        let mut i: usize = 0;
        assert(position.deep_view() =~= seq![]);
        assert(all.skip(0) == all);
        proof {
            if let Ok(commands) = commands_value(self.patterns(), all, seq![]) {
                assert(result.deep_view() + commands =~= commands);
            }
        }
        while i < parts.len()
            invariant
                all == parts.deep_view(),
                i <= parts.len(),
                line_value(self.patterns(), line@) == with_commands(
                    result.deep_view(),
                    commands_value(self.patterns(), all.skip(i as int), position.deep_view()),
                ),
            decreases parts.len() - i,
        {
            let ghost left = all.skip(i as int);
            assert(left[0] == parts@[i as int]@);
            assert(left.skip(1) == all.skip(i + 1));
            let raw = text::trim(parts[i].as_str());
            if !raw.is_empty() {
                match self.parse_single(raw, &position) {
                    Err(e) => {
                        return Err(e);
                    },
                    Ok((command, after)) => {
                        let ghost done = result.deep_view();
                        result.push(command);
                        proof {
                            assert(result.deep_view() =~= done.push(command@));
                            if let Ok(rest) = commands_value(
                                self.patterns(),
                                all.skip(i + 1),
                                after.deep_view(),
                            ) {
                                assert(done + (seq![command@] + rest) =~= result.deep_view()
                                    + rest);
                            }
                        }
                        position = after;
                    },
                }
            }
            i = i + 1;
        }
        proof {
            assert(result.deep_view() + seq![] =~= result.deep_view());
            compound::law_parsed_commands(self.patterns(), line@);
            assert forall|k: int| 0 <= k < result.len() implies (#[trigger] result@[k]).index
                < self.handlers().len() by {
                assert(compound::comes_from_table(self.patterns(), result.deep_view()[k]));
            }
        }
        Ok(result)
    }
}

impl<H: Copy> CommandSet<H> {
    /// Builds a command set from a table of patterns and handlers.
    pub fn from_table(table: &[(&str, H)]) -> (r: Result<CommandSet<H>, ParseError>)
        requires
            forall|i: int|
                0 <= i < table.len() ==> pattern::well_bracketed((#[trigger] table@[i]).0@),
        ensures
            r is Ok,
            r->Ok_0.patterns() == Seq::new(
                table@.len(),
                |i: int| pattern::compiled(table@[i].0@),
            ),
            r->Ok_0.handlers() == Seq::new(table@.len(), |i: int| table@[i].1),
    {
        let mut entries: Vec<Entry<H>> = Vec::new();
        let mut i: usize = 0;
        while i < table.len()
            invariant
                i <= table.len(),
                i == entries.len(),
                forall|j: int|
                    0 <= j < table.len() ==> pattern::well_bracketed((#[trigger] table@[j]).0@),
                forall|j: int|
                    0 <= j < i ==> (#[trigger] entries@[j])@ == pattern::compiled(table@[j].0@)
                        && entries@[j].handler == table@[j].1,
            decreases table.len() - i,
        {
            match pattern::compile(table[i].0) {
                Ok((segments, optional_groups, is_query, param)) => {
                    entries.push(
                        Entry { segments, optional_groups, is_query, param, handler: table[i].1 },
                    );
                },
                Err(e) => {
                    return Err(e);
                },
            }
            i = i + 1;
        }
        Ok(CommandSet { entries })
    }
}

impl<H: Fn(&Command)> CommandSet<H> {
    /// Calls the handler of a parsed command, once. The contract says which handler
    /// is called and with what, not how often.
    pub fn dispatch(&self, cmd: &Command)
        requires
            cmd.index < self.handlers().len(),
            call_requires(self.handlers()[cmd.index as int], (cmd,)),
        ensures
            call_ensures(self.handlers()[cmd.index as int], (cmd,), ()),
    {
        let handler = &self.entries[cmd.index].handler;
        handler(cmd)
    }
}

} // verus!
