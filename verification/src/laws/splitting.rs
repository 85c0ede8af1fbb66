//! Splitting a line into commands.

use crate::line;
use vstd::prelude::*;

verus! {

/// The commands of a row with a `;` between each two of them.
pub open spec fn joined(commands: Seq<Seq<char>>) -> Seq<char>
    decreases commands.len(),
{
    if commands.len() == 0 {
        seq![]
    } else if commands.len() == 1 {
        commands[0]
    } else {
        commands[0] + seq![';'] + joined(commands.skip(1))
    }
}

/// Whether a line ends in a `;` that separates.
pub open spec fn ends_in_separator(line: Seq<char>) -> bool {
    line.len() > 0 && line::separates(line, line.len() - 1)
}

/// There is a command behind every place but the end.
proof fn lemma_some_command(line: Seq<char>, start: int, i: int)
    requires
        0 <= start <= i <= line.len(),
        start < line.len(),
    ensures
        line::commands_from(line, start, i).len() > 0,
    decreases line.len() - i,
{
    if i < line.len() && !line::separates(line, i) {
        lemma_some_command(line, start, i + 1);
    }
}

/// The commands from `start` on make up what is there.
proof fn lemma_joined(line: Seq<char>, start: int, i: int)
    requires
        0 <= start <= i <= line.len(),
        forall|j: int| start <= j < i ==> !#[trigger] line::separates(line, j),
    ensures
        line.skip(start) == joined(line::commands_from(line, start, i)) + (if start < line.len()
            && ends_in_separator(line) {
            seq![';']
        } else {
            seq![]
        }),
    decreases line.len() - i,
{
    let parts = line::commands_from(line, start, i);
    if i >= line.len() {
        if start < line.len() {
            assert(!line::separates(line, line.len() - 1));
            assert(parts =~= seq![line.skip(start)]);
        }
    } else if line::separates(line, i) {
        let here = line.subrange(start, i);
        let rest = line::commands_from(line, i + 1, i + 1);
        lemma_joined(line, i + 1, i + 1);
        assert(parts =~= seq![here] + rest);
        assert(parts[0] == here);
        assert(parts.skip(1) =~= rest);
        assert(line.skip(start) =~= here + seq![';'] + line.skip(i + 1));
        if i + 1 < line.len() {
            lemma_some_command(line, i + 1, i + 1);
        } else {
            assert(rest =~= seq![]);
        }
    } else {
        lemma_joined(line, start, i + 1);
    }
}

/// Splitting a line loses nothing: its commands with a `;` between them are the
/// line again, but for a separating `;` at its end.
pub proof fn law_split_loses_nothing(line: Seq<char>)
    ensures
        line == joined(line::commands_of(line)) + (if ends_in_separator(line) {
            seq![';']
        } else {
            seq![]
        }),
{
    lemma_joined(line, 0, 0);
    assert(line.skip(0) == line);
}

/// Quotes are the same in a stretch that starts outside quotes as in the whole.
pub(crate) proof fn lemma_open_quote_within(line: Seq<char>, start: int, end: int, j: int)
    requires
        0 <= start <= end <= line.len(),
        0 <= j <= end - start,
        line::open_quote(line, start) is None,
    ensures
        line::open_quote(line.subrange(start, end), j) == line::open_quote(line, start + j),
    decreases j,
{
    if j > 0 {
        lemma_open_quote_within(line, start, end, j - 1);
        assert(line.subrange(start, end)[j - 1] == line[start + j - 1]);
    }
}

/// None of the commands from `start` on holds a separator.
proof fn lemma_commands_are_whole(line: Seq<char>, start: int, i: int, m: int, k: int)
    requires
        0 <= start <= i <= line.len(),
        line::open_quote(line, start) is None,
        forall|j: int| start <= j < i ==> !#[trigger] line::separates(line, j),
        0 <= m < line::commands_from(line, start, i).len(),
        0 <= k < line::commands_from(line, start, i)[m].len(),
    ensures
        !line::separates(line::commands_from(line, start, i)[m], k),
    decreases line.len() - i,
{
    let parts = line::commands_from(line, start, i);
    if i >= line.len() {
        let end = line.len() as int;
        lemma_open_quote_within(line, start, end, k);
        assert(parts[m] == line.subrange(start, end));
        assert(!line::separates(line, start + k));
    } else if line::separates(line, i) {
        let rest = line::commands_from(line, i + 1, i + 1);
        if m == 0 {
            lemma_open_quote_within(line, start, i, k);
            assert(parts[m] == line.subrange(start, i));
            assert(!line::separates(line, start + k));
        } else {
            assert(parts[m] == rest[m - 1]);
            lemma_commands_are_whole(line, i + 1, i + 1, m - 1, k);
        }
    } else {
        lemma_commands_are_whole(line, start, i + 1, m, k);
    }
}

/// A stretch without a separator is one command.
proof fn lemma_one_command(line: Seq<char>, i: int)
    requires
        0 <= i <= line.len(),
        line.len() > 0,
        forall|j: int| 0 <= j < line.len() ==> !#[trigger] line::separates(line, j),
    ensures
        line::commands_from(line, 0, i) == seq![line],
    decreases line.len() - i,
{
    if i < line.len() {
        lemma_one_command(line, i + 1);
    } else {
        assert(line.subrange(0, line.len() as int) == line);
    }
}

/// A command is not split any further: a `;` inside quotes stays where it is.
pub proof fn law_commands_are_whole(line: Seq<char>, m: int)
    requires
        0 <= m < line::commands_of(line).len(),
    ensures
        ({
            let command = line::commands_of(line)[m];
            line::commands_of(command) == (if command.len() == 0 {
                seq![]
            } else {
                seq![command]
            })
        }),
{
    let command = line::commands_of(line)[m];
    assert forall|k: int| 0 <= k < command.len() implies !#[trigger] line::separates(
        command,
        k,
    ) by {
        lemma_commands_are_whole(line, 0, 0, m, k);
    }
    if command.len() > 0 {
        lemma_one_command(command, 0);
    }
}

/// The commands behind a place outside quotes are those of what is behind it alone.
pub(crate) proof fn lemma_commands_behind(
    whole: Seq<char>,
    offset: int,
    b: Seq<char>,
    start: int,
    i: int,
)
    requires
        0 <= offset <= whole.len(),
        whole.skip(offset) == b,
        line::open_quote(whole, offset) is None,
        0 <= start <= i <= b.len(),
    ensures
        line::commands_from(whole, offset + start, offset + i) == line::commands_from(b, start, i),
    decreases b.len() - i,
{
    let end = whole.len() as int;
    assert(b == whole.subrange(offset, end));
    if i < b.len() {
        lemma_open_quote_within(whole, offset, end, i);
        assert(b[i] == whole[offset + i]);
        if line::separates(b, i) {
            lemma_commands_behind(whole, offset, b, i + 1, i + 1);
            assert(b.subrange(start, i) == whole.subrange(offset + start, offset + i));
        } else {
            lemma_commands_behind(whole, offset, b, start, i + 1);
        }
    } else {
        assert(b.subrange(start, b.len() as int) == whole.subrange(offset + start, end));
    }
}

/// The commands before a separator are those of what is before it alone.
proof fn lemma_commands_before(a: Seq<char>, b: Seq<char>, start: int, i: int)
    requires
        line::open_quote(a, a.len() as int) is None,
        0 <= start <= i <= a.len(),
    ensures
        line::commands_from(a + seq![';'] + b, start, i) == line::commands_from(
            a + seq![';'],
            start,
            i,
        ) + line::commands_of(b),
    decreases a.len() - i,
{
    let whole = a + seq![';'] + b;
    let left = a + seq![';'];
    let n = a.len() as int;
    assert(left.subrange(0, n) == a);
    assert(whole.subrange(0, n) == a);
    lemma_open_quote_within(left, 0, n, i);
    lemma_open_quote_within(whole, 0, n, i);
    assert(left[i] == whole[i]);
    let here = left.subrange(start, i);
    assert(here == whole.subrange(start, i));
    if i == n {
        assert(whole.skip(n + 1) == b);
        assert(line::open_quote(whole, n + 1) is None);
        lemma_commands_behind(whole, n + 1, b, 0, 0);
        assert(line::commands_from(left, n + 1, n + 1) =~= seq![]);
        assert(line::commands_from(left, start, i) =~= seq![here]);
    } else if line::separates(left, i) {
        lemma_commands_before(a, b, i + 1, i + 1);
        let rest = line::commands_from(left, i + 1, i + 1);
        assert(seq![here] + (rest + line::commands_of(b)) =~= (seq![here] + rest)
            + line::commands_of(b));
    } else {
        lemma_commands_before(a, b, start, i + 1);
    }
}

/// A `;` outside quotes separates: the commands of `a;b` are those of `a;` and
/// then those of `b`.
pub proof fn law_split_at_separator(a: Seq<char>, b: Seq<char>)
    requires
        line::open_quote(a, a.len() as int) is None,
    ensures
        line::commands_of(a + seq![';'] + b) == line::commands_of(a + seq![';'])
            + line::commands_of(b),
{
    lemma_commands_before(a, b, 0, 0);
}

} // verus!
