//! How a line falls into commands, told from its characters: what a `;` does, and
//! what quotation marks do to it.

use crate::laws::splitting;
use crate::line;
use vstd::prelude::*;

verus! {

/// A single or a double quotation mark.
pub open spec fn is_mark(c: char) -> bool {
    c == '\'' || c == '"'
}

/// Whether a text holds neither quotation marks nor `;`.
pub open spec fn is_bare(s: Seq<char>) -> bool {
    forall|i: int| 0 <= i < s.len() ==> !is_mark(#[trigger] s[i]) && s[i] != ';'
}

/// A text in quotation marks.
pub open spec fn quoted(mark: char, s: Seq<char>) -> Seq<char> {
    seq![mark] + s + seq![mark]
}

/// The commands with `front` put in front of the first of them.
pub open spec fn with_front(front: Seq<char>, commands: Seq<Seq<char>>) -> Seq<Seq<char>> {
    if commands.len() == 0 {
        seq![front]
    } else {
        seq![front + commands[0]] + commands.skip(1)
    }
}

/// Whether no `;` separates in a text, and no quotation mark is open at its end.
spec fn is_closed(u: Seq<char>) -> bool {
    &&& line::open_quote(u, u.len() as int) is None
    &&& forall|i: int| 0 <= i < u.len() ==> !#[trigger] line::separates(u, i)
}

/// What is open does not depend on what is behind.
proof fn lemma_open_front(u: Seq<char>, x: Seq<char>, i: int)
    requires
        i <= u.len(),
    ensures
        line::open_quote(u + x, i) == line::open_quote(u, i),
    decreases i,
{
    if i > 0 {
        lemma_open_front(u, x, i - 1);
        assert((u + x)[i - 1] == u[i - 1]);
    }
}

/// A front without separators is passed over.
proof fn lemma_pass(u: Seq<char>, x: Seq<char>, i: int)
    requires
        is_closed(u),
        0 <= i <= u.len(),
    ensures
        line::commands_from(u + x, 0, i) == line::commands_from(u + x, 0, u.len() as int),
    decreases u.len() - i,
{
    if i < u.len() {
        lemma_open_front(u, x, i);
        assert((u + x)[i] == u[i]);
        assert(!line::separates(u, i));
        lemma_pass(u, x, i + 1);
    }
}

/// The front belongs to the first command.
proof fn lemma_front(u: Seq<char>, x: Seq<char>, i: int)
    requires
        is_closed(u),
        u.len() > 0,
        0 <= i <= x.len(),
    ensures
        line::commands_from(u + x, 0, u.len() + i) == with_front(u, line::commands_from(x, 0, i)),
    decreases x.len() - i,
{
    let whole = u + x;
    let n = u.len() as int;
    lemma_open_front(u, x, n);
    assert(whole.subrange(n, whole.len() as int) =~= x);
    assert(whole.skip(n) =~= x);
    if i < x.len() {
        splitting::lemma_open_quote_within(whole, n, whole.len() as int, i);
        assert(whole[n + i] == x[i]);
        if line::separates(x, i) {
            splitting::lemma_commands_behind(whole, n, x, i + 1, i + 1);
            let rest = line::commands_from(x, i + 1, i + 1);
            let here = x.subrange(0, i);
            assert(whole.subrange(0, n + i) =~= u + here);
            assert((seq![here] + rest).skip(1) =~= rest);
        } else {
            lemma_front(u, x, i + 1);
        }
    } else if x.len() > 0 {
        assert(x.subrange(0, x.len() as int) =~= x);
        assert(whole.subrange(0, whole.len() as int) =~= u + x);
        assert(seq![x].skip(1) =~= seq![]);
        assert(with_front(u, seq![x]) =~= seq![u + x]);
    } else {
        assert(whole.subrange(0, whole.len() as int) =~= u);
    }
}

/// What a closed front does.
proof fn lemma_closed_front(u: Seq<char>, x: Seq<char>)
    requires
        is_closed(u),
        u.len() > 0,
    ensures
        line::commands_of(u + x) == with_front(u, line::commands_of(x)),
{
    lemma_pass(u, x, 0);
    lemma_front(u, x, 0);
}

/// No quotation mark is open in a text that has none.
proof fn lemma_bare_open(s: Seq<char>, i: int)
    requires
        is_bare(s),
        i <= s.len(),
    ensures
        line::open_quote(s, i) is None,
    decreases i,
{
    if i > 0 {
        lemma_bare_open(s, i - 1);
        assert(!is_mark(s[i - 1]));
    }
}

/// A quotation mark stays open until the same one comes again.
proof fn lemma_open_inside(line: Seq<char>, mark: char, i: int)
    requires
        is_mark(mark),
        1 <= i <= line.len(),
        line[0] == mark,
        forall|j: int| 1 <= j < i ==> #[trigger] line[j] != mark,
    ensures
        line::open_quote(line, i) == Some(mark),
    decreases i,
{
    if i > 1 {
        lemma_open_inside(line, mark, i - 1);
    } else {
        assert(line::open_quote(line, 0) is None);
    }
}

/// An empty line has no commands.
pub proof fn law_empty_line()
    ensures
        line::commands_of(seq![]) == Seq::<Seq<char>>::empty(),
{
}

/// A `;` at the start ends an empty command.
pub proof fn law_leading_separator(x: Seq<char>)
    ensures
        line::commands_of(seq![';'] + x) == seq![Seq::<char>::empty()] + line::commands_of(x),
{
    let whole = seq![';'] + x;
    assert(whole.skip(1) =~= x);
    assert(line::open_quote(whole, 1) is None) by {
        assert(line::open_quote(whole, 0) is None);
    }
    splitting::lemma_commands_behind(whole, 1, x, 0, 0);
    assert(whole.subrange(0, 0) =~= seq![]);
    assert(line::separates(whole, 0));
}

/// A stretch without quotation marks and `;` belongs to the first command of what
/// is behind it.
pub proof fn law_bare_front(a: Seq<char>, x: Seq<char>)
    requires
        is_bare(a),
        a.len() > 0,
    ensures
        line::commands_of(a + x) == with_front(a, line::commands_of(x)),
{
    lemma_bare_open(a, a.len() as int);
    lemma_closed_front(a, x);
}

/// A text in quotation marks belongs to the first command of what is behind it,
/// whole, whatever it holds: spaces, `;` and marks of the other sort.
pub proof fn law_quoted_front(mark: char, s: Seq<char>, x: Seq<char>)
    requires
        is_mark(mark),
        forall|i: int| 0 <= i < s.len() ==> #[trigger] s[i] != mark,
    ensures
        line::commands_of(quoted(mark, s) + x) == with_front(
            quoted(mark, s),
            line::commands_of(x),
        ),
{
    let u = quoted(mark, s);
    let n = u.len() as int;
    assert forall|j: int| 1 <= j < n - 1 implies #[trigger] u[j] != mark by {
        assert(u[j] == s[j - 1]);
    }
    lemma_open_inside(u, mark, n - 1);
    assert(u[n - 1] == mark);
    assert forall|i: int| 0 <= i < n implies !#[trigger] line::separates(u, i) by {
        if 0 < i < n - 1 {
            lemma_open_inside(u, mark, i);
        }
    }
    lemma_closed_front(u, x);
}

/// A quotation mark that is not closed takes up the rest of the line.
pub proof fn law_quote_left_open(mark: char, s: Seq<char>)
    requires
        is_mark(mark),
        forall|i: int| 0 <= i < s.len() ==> #[trigger] s[i] != mark,
    ensures
        line::commands_of(seq![mark] + s) == seq![seq![mark] + s],
{
    let u = seq![mark] + s;
    assert forall|j: int| 1 <= j < u.len() implies #[trigger] u[j] != mark by {
        assert(u[j] == s[j - 1]);
    }
    lemma_all_open(u, mark, 0);
    assert(u.subrange(0, u.len() as int) =~= u);
}

/// Nothing separates behind an open quotation mark.
proof fn lemma_all_open(u: Seq<char>, mark: char, i: int)
    requires
        is_mark(mark),
        0 <= i <= u.len(),
        u.len() > 0,
        u[0] == mark,
        forall|j: int| 1 <= j < u.len() ==> #[trigger] u[j] != mark,
    ensures
        line::commands_from(u, 0, i) == seq![u.subrange(0, u.len() as int)],
    decreases u.len() - i,
{
    if i < u.len() {
        if i > 0 {
            lemma_open_inside(u, mark, i);
        }
        lemma_all_open(u, mark, i + 1);
    }
}

/// A command with a quoted text in it is one command, and a `;` behind it
/// separates it from those that follow.
pub proof fn law_quoted_command(a: Seq<char>, mark: char, s: Seq<char>, b: Seq<char>)
    requires
        is_bare(a),
        is_mark(mark),
        forall|i: int| 0 <= i < s.len() ==> #[trigger] s[i] != mark,
    ensures
        line::commands_of(a + quoted(mark, s)) == seq![a + quoted(mark, s)],
        line::commands_of(a + quoted(mark, s) + seq![';'] + b) == seq![a + quoted(mark, s)]
            + line::commands_of(b),
{
    let q = quoted(mark, s);
    let none = Seq::<char>::empty();
    let behind = seq![';'] + b;
    law_empty_line();
    law_leading_separator(b);
    law_quoted_front(mark, s, none);
    law_quoted_front(mark, s, behind);
    assert(q + none =~= q);
    assert((seq![none] + line::commands_of(b)).skip(1) =~= line::commands_of(b));
    assert(line::commands_of(q + behind) =~= seq![q] + line::commands_of(b));
    if a.len() > 0 {
        law_bare_front(a, q);
        law_bare_front(a, q + behind);
        assert(seq![q].skip(1) =~= seq![]);
        assert(with_front(a, seq![q]) =~= seq![a + q]);
        assert((seq![q] + line::commands_of(b)).skip(1) =~= line::commands_of(b));
        assert(a + q + seq![';'] + b =~= a + (q + behind));
    } else {
        assert(a + q =~= q);
        assert(a + q + seq![';'] + b =~= q + behind);
    }
}

} // verus!
