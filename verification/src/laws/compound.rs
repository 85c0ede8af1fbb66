//! Lines of several commands.

use crate::command::CommandModel;
use crate::command;
use crate::laws::blanks;
use crate::laws::keywords;
use crate::laws::splitting;
use crate::line;
use crate::param::ParamModel;
use crate::pattern::{EntryModel, ParamKind};
use crate::text;
use vstd::prelude::*;

verus! {

/// Whether the parameters are those of a pattern that declares `kind`: none, or
/// one of that kind.
pub open spec fn fits(kind: Option<ParamKind>, params: Seq<ParamModel>) -> bool {
    match kind {
        None => params.len() == 0,
        Some(ParamKind::Num) => params.len() == 1 && params[0] is Numeric,
        Some(ParamKind::Bool) => params.len() == 1 && params[0] is Bool,
        Some(ParamKind::Str) => params.len() == 1 && params[0] is String,
    }
}

/// Whether a command comes from its entry: some keywords lead to that entry with
/// the suffix values of the command, and its parameters are as declared.
pub open spec fn comes_from_table(entries: Seq<EntryModel>, c: CommandModel) -> bool {
    &&& c.index < entries.len()
    &&& fits(entries[c.index as int].param, c.params)
    &&& exists|path: Seq<Seq<char>>, is_query: bool| #[trigger]
        command::lookup(entries, path, is_query, 0) == Some((c.index as int, c.suffixes))
}

/// How many of the commands are more than white space.
pub open spec fn filled(commands: Seq<Seq<char>>) -> nat
    decreases commands.len(),
{
    if commands.len() == 0 {
        0
    } else {
        (if text::trimmed(commands[0]).len() == 0 {
            0nat
        } else {
            1
        }) + filled(commands.skip(1))
    }
}

/// A command that is accepted comes from the table.
proof fn lemma_command_from_table(
    entries: Seq<EntryModel>,
    c: Seq<char>,
    position: Seq<Seq<char>>,
)
    ensures
        command::command_value(entries, c, position) matches Ok(step) ==> comes_from_table(
            entries,
            step.command,
        ),
{
    let tokens = line::keywords_of(line::header_of(c));
    let path = command::path_of(tokens);
    let start = command::starting_point(c, path, position);
    let is_query = command::asks(tokens);
    keywords::law_first_entry(entries, start + path, is_query, 0);
    keywords::law_first_entry(entries, path, is_query, 0);
    if let Ok(step) = command::command_value(entries, c, position) {
        let found = command::resolve(entries, start, path, is_query)->0;
        assert(command::lookup(entries, found.path, is_query, 0) == Some(
            (found.index, found.suffixes),
        ));
    }
}

/// The commands that a row parses to.
proof fn lemma_commands_from_table(
    entries: Seq<EntryModel>,
    commands: Seq<Seq<char>>,
    position: Seq<Seq<char>>,
)
    ensures
        command::commands_value(entries, commands, position) matches Ok(parsed) ==> {
            &&& parsed.len() == filled(commands)
            &&& forall|i: int|
                0 <= i < parsed.len() ==> comes_from_table(entries, #[trigger] parsed[i])
        },
    decreases commands.len(),
{
    if commands.len() > 0 {
        let first = text::trimmed(commands[0]);
        if first.len() == 0 {
            lemma_commands_from_table(entries, commands.skip(1), position);
        } else if let Ok(step) = command::command_value(entries, first, position) {
            lemma_command_from_table(entries, first, position);
            lemma_commands_from_table(entries, commands.skip(1), step.position);
            if let Ok(rest) = command::commands_value(
                entries,
                commands.skip(1),
                step.position,
            ) {
                let parsed = seq![step.command] + rest;
                assert forall|i: int| 0 <= i < parsed.len() implies comes_from_table(
                    entries,
                    #[trigger] parsed[i],
                ) by {
                    if i > 0 {
                        assert(parsed[i] == rest[i - 1]);
                    }
                }
            }
        }
    }
}

/// A line that is accepted parses to one command for each that it holds, and
/// each of them has an index into the table, the suffix values of its keywords
/// and the parameter that its pattern declares.
pub proof fn law_parsed_commands(entries: Seq<EntryModel>, line: Seq<char>)
    ensures
        command::line_value(entries, line) matches Ok(parsed) ==> {
            &&& parsed.len() == filled(line::commands_of(text::trimmed(line)))
            &&& forall|i: int|
                0 <= i < parsed.len() ==> comes_from_table(entries, #[trigger] parsed[i])
        },
{
    lemma_commands_from_table(entries, line::commands_of(text::trimmed(line)), seq![]);
}

/// The position that a row of commands leaves, as far as they are accepted.
pub open spec fn position_behind(
    entries: Seq<EntryModel>,
    commands: Seq<Seq<char>>,
    position: Seq<Seq<char>>,
) -> Seq<Seq<char>>
    decreases commands.len(),
{
    if commands.len() == 0 {
        position
    } else {
        let first = text::trimmed(commands[0]);
        if first.len() == 0 {
            position_behind(entries, commands.skip(1), position)
        } else {
            match command::command_value(entries, first, position) {
                Ok(step) => position_behind(entries, commands.skip(1), step.position),
                Err(_) => position,
            }
        }
    }
}

/// Commands are parsed in order: a row of them is refused where its first part
/// is, and otherwise what its second part parses to follows, from the position
/// that the first part left.
pub proof fn law_commands_in_order(
    entries: Seq<EntryModel>,
    a: Seq<Seq<char>>,
    b: Seq<Seq<char>>,
    position: Seq<Seq<char>>,
)
    ensures
        command::commands_value(entries, a + b, position) == (match command::commands_value(
            entries,
            a,
            position,
        ) {
            Err(message) => Err(message),
            Ok(x) => match command::commands_value(
                entries,
                b,
                position_behind(entries, a, position),
            ) {
                Err(message) => Err(message),
                Ok(y) => Ok(x + y),
            },
        }),
    decreases a.len(),
{
    let whole = a + b;
    if a.len() == 0 {
        assert(whole =~= b);
        if let Ok(y) = command::commands_value(entries, b, position) {
            assert(Seq::<CommandModel>::empty() + y =~= y);
        }
    } else {
        let first = text::trimmed(a[0]);
        let rest = a.skip(1);
        assert(whole[0] == a[0]);
        assert(whole.skip(1) =~= rest + b);
        if first.len() == 0 {
            law_commands_in_order(entries, rest, b, position);
        } else if let Ok(step) = command::command_value(entries, first, position) {
            law_commands_in_order(entries, rest, b, step.position);
            if let Ok(x) = command::commands_value(entries, rest, step.position) {
                if let Ok(y) = command::commands_value(
                    entries,
                    b,
                    position_behind(entries, rest, step.position),
                ) {
                    assert(seq![step.command] + (x + y) =~= (seq![step.command] + x) + y);
                }
            }
        }
    }
}

/// A leading `:` resets to the root: such a command parses to the same whatever
/// stands before it.
pub proof fn law_colon_resets(
    entries: Seq<EntryModel>,
    c: Seq<char>,
    p: Seq<Seq<char>>,
    q: Seq<Seq<char>>,
)
    requires
        command::leads_with(c, ':'),
    ensures
        command::command_value(entries, c, p) == command::command_value(entries, c, q),
{
}

/// A common command parses to the same wherever it stands, and leaves the
/// position in the command tree as it was.
pub proof fn law_common_commands(
    entries: Seq<EntryModel>,
    c: Seq<char>,
    p: Seq<Seq<char>>,
    q: Seq<Seq<char>>,
)
    requires
        command::leads_with(c, '*'),
    ensures
        match command::command_value(entries, c, p) {
            Ok(step) => step.position == p && command::command_value(entries, c, q) == Ok::<
                command::StepModel,
                Seq<char>,
            >(command::StepModel { command: step.command, position: q }),
            Err(message) => command::command_value(entries, c, q) == Err::<
                command::StepModel,
                Seq<char>,
            >(message),
        },
{
}

/// White space around a line makes no difference.
pub proof fn law_outer_space(
    entries: Seq<EntryModel>,
    before: Seq<char>,
    line: Seq<char>,
    behind: Seq<char>,
)
    requires
        blanks::is_blank(before),
        blanks::is_blank(behind),
    ensures
        command::line_value(entries, before + line + behind) == command::line_value(entries, line),
{
    blanks::lemma_trimmed_padded(before, line, behind);
}

/// Commands of white space only count for nothing.
pub proof fn law_blank_commands(
    entries: Seq<EntryModel>,
    commands: Seq<Seq<char>>,
    position: Seq<Seq<char>>,
)
    requires
        forall|i: int| 0 <= i < commands.len() ==> blanks::is_blank(#[trigger] commands[i]),
    ensures
        command::commands_value(entries, commands, position) == Ok::<
            Seq<CommandModel>,
            Seq<char>,
        >(seq![]),
    decreases commands.len(),
{
    if commands.len() > 0 {
        let first = commands[0];
        blanks::lemma_trim_start_blank(first, Seq::empty());
        assert(first + Seq::<char>::empty() =~= first);
        assert forall|i: int| 0 <= i < commands.skip(1).len() implies blanks::is_blank(
            #[trigger] commands.skip(1)[i],
        ) by {
            assert(commands.skip(1)[i] == commands[i + 1]);
        }
        law_blank_commands(entries, commands.skip(1), position);
    }
}

/// The commands of a row, trimmed, without those of white space only.
pub open spec fn substance(commands: Seq<Seq<char>>) -> Seq<Seq<char>>
    decreases commands.len(),
{
    if commands.len() == 0 {
        seq![]
    } else {
        let first = text::trimmed(commands[0]);
        (if first.len() == 0 {
            seq![]
        } else {
            seq![first]
        }) + substance(commands.skip(1))
    }
}

/// What a row of commands parses to depends on its substance alone.
proof fn lemma_substance_decides(
    entries: Seq<EntryModel>,
    commands: Seq<Seq<char>>,
    position: Seq<Seq<char>>,
)
    ensures
        command::commands_value(entries, commands, position) == command::commands_value(
            entries,
            substance(commands),
            position,
        ),
        position_behind(entries, commands, position) == position_behind(
            entries,
            substance(commands),
            position,
        ),
    decreases commands.len(),
{
    if commands.len() > 0 {
        let first = text::trimmed(commands[0]);
        let rest = commands.skip(1);
        if first.len() == 0 {
            assert(substance(commands) =~= substance(rest));
            lemma_substance_decides(entries, rest, position);
        } else {
            let all = substance(commands);
            blanks::lemma_trimmed_ends(commands[0]);
            blanks::lemma_already_trimmed(first);
            assert(all[0] == first);
            assert(all.skip(1) =~= substance(rest));
            if let Ok(step) = command::command_value(entries, first, position) {
                lemma_substance_decides(entries, rest, step.position);
            }
        }
    }
}

/// A row of one command more.
proof fn lemma_substance_first(first: Seq<char>, rest: Seq<Seq<char>>)
    ensures
        substance(seq![first] + rest) == (if text::trimmed(first).len() == 0 {
            substance(rest)
        } else {
            seq![text::trimmed(first)] + substance(rest)
        }),
{
    let all = seq![first] + rest;
    assert(all[0] == first);
    assert(all.skip(1) =~= rest);
    if text::trimmed(first).len() == 0 {
        assert(Seq::<Seq<char>>::empty() + substance(rest) =~= substance(rest));
    }
}

/// White space is no quotation mark.
proof fn lemma_blank_quotes(w: Seq<char>, s: Seq<char>, i: int)
    requires
        blanks::is_blank(w),
        0 <= i <= w.len(),
    ensures
        line::open_quote(w + s, i) is None,
    decreases i,
{
    if i > 0 {
        lemma_blank_quotes(w, s, i - 1);
        assert((w + s)[i - 1] == w[i - 1]);
    }
}

/// White space in front of a line belongs to its first command.
proof fn lemma_blank_front(w: Seq<char>, s: Seq<char>, i: int)
    requires
        blanks::is_blank(w),
        0 <= i <= s.len(),
    ensures
        substance(line::commands_from(w + s, 0, w.len() + i)) == substance(
            line::commands_from(s, 0, i),
        ),
    decreases s.len() - i,
{
    let whole = w + s;
    let n = w.len() as int;
    lemma_blank_quotes(w, s, n);
    assert(whole.subrange(n, whole.len() as int) =~= s);
    let end = if i < s.len() {
        i
    } else {
        s.len() as int
    };
    let here = s.subrange(0, end);
    assert(whole.subrange(0, n + end) =~= w + here + Seq::<char>::empty());
    blanks::lemma_trimmed_padded(w, here, Seq::empty());
    if i < s.len() {
        splitting::lemma_open_quote_within(whole, n, whole.len() as int, i);
        assert(whole[n + i] == s[i]);
        if line::separates(s, i) {
            assert(whole.skip(n) =~= s);
            splitting::lemma_commands_behind(whole, n, s, i + 1, i + 1);
            let rest = line::commands_from(s, i + 1, i + 1);
            lemma_substance_first(here, rest);
            lemma_substance_first(whole.subrange(0, n + i), rest);
        } else {
            lemma_blank_front(w, s, i + 1);
        }
    } else {
        let none = Seq::<Seq<char>>::empty();
        lemma_substance_first(here, none);
        lemma_substance_first(whole.subrange(0, n + end), none);
        assert(seq![here] + none =~= seq![here]);
        assert(seq![whole.subrange(0, n + end)] + none =~= seq![whole.subrange(0, n + end)]);
        assert(text::trimmed(Seq::<char>::empty()).len() == 0);
    }
}

/// Up to there, white space separates nothing.
proof fn lemma_blank_start(w: Seq<char>, s: Seq<char>, i: int)
    requires
        blanks::is_blank(w),
        0 <= i <= w.len(),
    ensures
        line::commands_from(w + s, 0, i) == line::commands_from(w + s, 0, w.len() as int),
    decreases w.len() - i,
{
    if i < w.len() {
        assert((w + s)[i] == w[i]);
        lemma_blank_start(w, s, i + 1);
    }
}

/// White space behind a line belongs to its last command.
proof fn lemma_blank_behind(s: Seq<char>, v: Seq<char>, start: int, i: int)
    requires
        blanks::is_blank(v),
        0 <= start <= i <= s.len() + v.len(),
        start <= s.len(),
    ensures
        substance(line::commands_from(s + v, start, i)) == substance(
            line::commands_from(s, start, if i <= s.len() {
                i
            } else {
                s.len() as int
            }),
        ),
    decreases s.len() + v.len() - i,
{
    let whole = s + v;
    let n = s.len() as int;
    if i < n {
        assert(whole.subrange(0, n) =~= s);
        splitting::lemma_open_quote_within(whole, 0, n, i);
        assert(whole[i] == s[i]);
        assert(whole.subrange(start, i) =~= s.subrange(start, i));
        if line::separates(s, i) {
            lemma_blank_behind(s, v, i + 1, i + 1);
            lemma_substance_first(s.subrange(start, i), line::commands_from(s, i + 1, i + 1));
            lemma_substance_first(s.subrange(start, i), line::commands_from(whole, i + 1, i + 1));
        } else {
            lemma_blank_behind(s, v, start, i + 1);
        }
    } else if i < whole.len() {
        assert(whole[i] == v[i - n]);
        lemma_blank_behind(s, v, start, i + 1);
    } else {
        let none = Seq::<Seq<char>>::empty();
        let here = s.subrange(start, n);
        let padded = whole.subrange(start, whole.len() as int);
        assert(padded =~= Seq::<char>::empty() + here + v);
        blanks::lemma_trimmed_padded(Seq::empty(), here, v);
        lemma_substance_first(here, none);
        lemma_substance_first(padded, none);
        assert(seq![here] + none =~= seq![here]);
        assert(seq![padded] + none =~= seq![padded]);
        if start == n {
            assert(here =~= Seq::<char>::empty());
        }
    }
}

/// Trimming a line does not change the substance of its commands.
proof fn lemma_trim_keeps_substance(s: Seq<char>)
    ensures
        substance(line::commands_of(text::trimmed(s))) == substance(line::commands_of(s)),
{
    let t = text::trimmed(s);
    let (w, v) = blanks::lemma_padding(s);
    let front = w + t;
    lemma_blank_behind(front, v, 0, 0);
    lemma_blank_start(w, t, 0);
    lemma_blank_front(w, t, 0);
}

/// Rows of commands behind each other.
proof fn lemma_substance_concat(a: Seq<Seq<char>>, b: Seq<Seq<char>>)
    ensures
        substance(a + b) == substance(a) + substance(b),
    decreases a.len(),
{
    if a.len() == 0 {
        assert(a + b =~= b);
        assert(substance(a) + substance(b) =~= substance(b));
    } else {
        let rest = a.skip(1);
        lemma_substance_concat(rest, b);
        assert(a =~= seq![a[0]] + rest);
        assert(a + b =~= seq![a[0]] + (rest + b));
        lemma_substance_first(a[0], rest);
        lemma_substance_first(a[0], rest + b);
        assert(substance(a) + substance(b) =~= (if text::trimmed(a[0]).len() == 0 {
            substance(rest) + substance(b)
        } else {
            seq![text::trimmed(a[0])] + (substance(rest) + substance(b))
        }));
    }
}

/// A separator at the end adds no substance.
proof fn lemma_separator_at_end(a: Seq<char>, start: int, i: int)
    requires
        line::open_quote(a, a.len() as int) is None,
        0 <= start <= i <= a.len(),
    ensures
        substance(line::commands_from(a + seq![';'], start, i)) == substance(
            line::commands_from(a, start, i),
        ),
    decreases a.len() - i,
{
    let whole = a + seq![';'];
    let n = a.len() as int;
    assert(whole.subrange(0, n) =~= a);
    splitting::lemma_open_quote_within(whole, 0, n, i);
    assert(whole.subrange(start, i) =~= a.subrange(start, i));
    let here = a.subrange(start, i);
    if i == n {
        let none = Seq::<Seq<char>>::empty();
        assert(line::commands_from(whole, n + 1, n + 1) =~= none);
        lemma_substance_first(here, none);
        assert(seq![here] + none =~= seq![here]);
        if start == n {
            assert(here =~= Seq::<char>::empty());
        }
    } else {
        assert(whole[i] == a[i]);
        if line::separates(a, i) {
            lemma_separator_at_end(a, i + 1, i + 1);
            lemma_substance_first(here, line::commands_from(a, i + 1, i + 1));
            lemma_substance_first(here, line::commands_from(whole, i + 1, i + 1));
        } else {
            lemma_separator_at_end(a, start, i + 1);
        }
    }
}

/// A line of two parts with a `;` between them, the first without an open quote,
/// parses to what the first part parses to and then what the second does, from
/// the position in the command tree that the first left.
pub proof fn law_compound_line(entries: Seq<EntryModel>, a: Seq<char>, b: Seq<char>)
    requires
        line::open_quote(a, a.len() as int) is None,
    ensures
        command::line_value(entries, a + seq![';'] + b) == (match command::line_value(
            entries,
            a,
        ) {
            Err(message) => Err(message),
            Ok(x) => match command::commands_value(
                entries,
                line::commands_of(b),
                position_behind(entries, line::commands_of(a), seq![]),
            ) {
                Err(message) => Err(message),
                Ok(y) => Ok(x + y),
            },
        }),
{
    let whole = a + seq![';'] + b;
    let root = Seq::<Seq<char>>::empty();
    let first = line::commands_of(a);
    let second = line::commands_of(b);
    lemma_trim_keeps_substance(whole);
    lemma_trim_keeps_substance(a);
    splitting::law_split_at_separator(a, b);
    lemma_substance_concat(line::commands_of(a + seq![';']), second);
    lemma_separator_at_end(a, 0, 0);
    lemma_substance_concat(first, second);
    assert(substance(line::commands_of(text::trimmed(whole))) == substance(first + second));
    lemma_substance_decides(entries, line::commands_of(text::trimmed(whole)), root);
    lemma_substance_decides(entries, first + second, root);
    lemma_substance_decides(entries, line::commands_of(text::trimmed(a)), root);
    lemma_substance_decides(entries, first, root);
    law_commands_in_order(entries, first, second, root);
}

/// The first command of a line starts where the line does.
proof fn lemma_first_command(s: Seq<char>, i: int)
    requires
        s.len() > 0,
        s[0] == ':',
        0 <= i <= s.len(),
    ensures
        line::commands_from(s, 0, i).len() > 0,
        i > 0 ==> line::commands_from(s, 0, i)[0].len() > 0 && line::commands_from(
            s,
            0,
            i,
        )[0][0] == ':',
        i == 0 ==> line::commands_from(s, 0, i) == line::commands_from(s, 0, 1),
    decreases s.len() - i,
{
    if i < s.len() && !line::separates(s, i) {
        lemma_first_command(s, i + 1);
    }
}

/// A second part that starts with `:` parses to the same as a line of its own.
pub proof fn law_rooted_part(entries: Seq<EntryModel>, a: Seq<char>, b: Seq<char>)
    requires
        line::open_quote(a, a.len() as int) is None,
        command::leads_with(b, ':'),
    ensures
        command::line_value(entries, a + seq![';'] + b) == (match command::line_value(
            entries,
            a,
        ) {
            Err(message) => Err(message),
            Ok(x) => match command::line_value(entries, b) {
                Err(message) => Err(message),
                Ok(y) => Ok(x + y),
            },
        }),
{
    let root = Seq::<Seq<char>>::empty();
    let t = text::trimmed(b);
    let behind = position_behind(entries, line::commands_of(a), root);
    law_compound_line(entries, a, b);
    lemma_trim_keeps_substance(b);
    lemma_substance_decides(entries, line::commands_of(b), behind);
    lemma_substance_decides(entries, line::commands_of(t), behind);
    lemma_first_command(t, 0);
    lemma_first_command(t, 1);
    let first = line::commands_of(t)[0];
    assert(first[0] == ':');
    blanks::lemma_trim_end_prefix(first);
    assert(text::trim_start(first) == first);
    let command = text::trimmed(first);
    assert(command.len() > 0 && command[0] == ':') by {
        blanks::lemma_trim_end_keeps(first);
    }
    blanks::lemma_trimmed_ends(first);
    blanks::lemma_already_trimmed(command);
    law_colon_resets(entries, command, root, behind);
}

} // verus!
