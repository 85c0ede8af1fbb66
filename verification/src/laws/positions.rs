//! Positions in the command tree.

use crate::command;
use crate::laws::blanks;
use crate::laws::case;
use crate::line;
use crate::pattern::EntryModel;
use crate::text;
use vstd::prelude::*;

verus! {

/// A keyword as it stands in a position of the command tree.
pub open spec fn is_keyword(w: Seq<char>) -> bool {
    &&& w.len() > 0
    &&& text::upper(w) == w
    &&& forall|i: int| 0 <= i < w.len() ==> #[trigger] w[i] != ':' && !line::ends_keywords(w[i])
}

/// A position in the command tree: the keywords that lead to it.
pub open spec fn is_position(p: Seq<Seq<char>>) -> bool {
    forall|i: int| 0 <= i < p.len() ==> is_keyword(#[trigger] p[i])
}

/// The command `c` with the keywords of `position` spelled out in front of it,
/// from the root on.
pub open spec fn spelled_out(position: Seq<Seq<char>>, c: Seq<char>) -> Seq<char>
    decreases position.len(),
{
    if position.len() == 0 {
        seq![':'] + c
    } else {
        seq![':'] + position[0] + spelled_out(position.skip(1), c)
    }
}

/// The words behind a place are those of what is behind it alone.
pub(crate) proof fn lemma_words_behind(
    whole: Seq<char>,
    offset: int,
    b: Seq<char>,
    start: int,
    i: int,
)
    requires
        0 <= offset <= whole.len(),
        whole.skip(offset) == b,
        0 <= start <= i <= b.len(),
    ensures
        line::words_from(whole, offset + start, offset + i) == line::words_from(b, start, i),
    decreases b.len() - i,
{
    let end = if i < b.len() {
        i
    } else {
        b.len() as int
    };
    assert(whole.subrange(offset + start, offset + end) =~= b.subrange(start, end));
    if i < b.len() {
        assert(b[i] == whole[offset + i]);
        if b[i] == ':' {
            lemma_words_behind(whole, offset, b, i + 1, i + 1);
        } else {
            lemma_words_behind(whole, offset, b, start, i + 1);
        }
    }
}

/// A word ends at the first `:` behind its start.
pub(crate) proof fn lemma_word_ends(h: Seq<char>, start: int, i: int, k: int)
    requires
        0 <= start <= i <= k < h.len(),
        h[k] == ':',
        forall|j: int| i <= j < k ==> #[trigger] h[j] != ':',
    ensures
        line::words_from(h, start, i) == line::word(h, start, k) + line::words_from(
            h,
            k + 1,
            k + 1,
        ),
    decreases k - i,
{
    if i < k {
        lemma_word_ends(h, start, i + 1, k);
    }
}

/// The words of a header that is spelled out.
proof fn lemma_spelled_words(position: Seq<Seq<char>>, h: Seq<char>)
    requires
        is_position(position),
    ensures
        line::words_from(spelled_out(position, h), 0, 0) == position + line::words_from(h, 0, 0),
    decreases position.len(),
{
    let whole = spelled_out(position, h);
    assert(whole[0] == ':');
    assert(line::word(whole, 0, 0) =~= seq![]);
    assert(line::words_from(whole, 0, 0) =~= line::words_from(whole, 1, 1));
    if position.len() == 0 {
        assert(whole.skip(1) =~= h);
        lemma_words_behind(whole, 1, h, 0, 0);
        assert(position + line::words_from(h, 0, 0) =~= line::words_from(h, 0, 0));
    } else {
        let w = position[0];
        let rest = position.skip(1);
        let tail = spelled_out(rest, h);
        let k = 1 + w.len() as int;
        assert(is_keyword(w));
        assert(is_position(rest)) by {
            assert forall|i: int| 0 <= i < rest.len() implies is_keyword(#[trigger] rest[i]) by {
                assert(rest[i] == position[i + 1]);
            }
        }
        lemma_spelled_words(rest, h);
        assert(tail[0] == ':');
        assert(whole[k] == tail[0]);
        assert forall|j: int| 1 <= j < k implies #[trigger] whole[j] != ':' by {
            assert(whole[j] == w[j - 1]);
        }
        lemma_word_ends(whole, 1, 1, k);
        assert(whole.subrange(1, k) =~= w);
        assert(line::word(whole, 1, k) =~= seq![w]);
        assert(whole.skip(k) =~= tail);
        lemma_words_behind(whole, k, tail, 1, 1);
        assert(line::word(tail, 0, 0) =~= seq![]);
        assert(line::words_from(tail, 0, 0) =~= line::words_from(tail, 1, 1));
        assert(seq![w] + (rest + line::words_from(h, 0, 0)) =~= position + line::words_from(
            h,
            0,
            0,
        ));
    }
}

/// What is spelled out in front of a command is the same for every command, and
/// holds no character that ends keywords.
proof fn lemma_spelled_front(position: Seq<Seq<char>>, c: Seq<char>)
    requires
        is_position(position),
    ensures
        spelled_out(position, c) == spelled_out(position, seq![]) + c,
        spelled_out(position, seq![]).len() > 0,
        spelled_out(position, seq![])[0] == ':',
        forall|i: int|
            0 <= i < spelled_out(position, seq![]).len() ==> !line::ends_keywords(
                #[trigger] spelled_out(position, seq![])[i],
            ),
    decreases position.len(),
{
    let front = spelled_out(position, seq![]);
    if position.len() == 0 {
        assert(spelled_out(position, c) =~= front + c);
    } else {
        let w = position[0];
        let rest = position.skip(1);
        assert(is_keyword(w));
        assert(is_position(rest)) by {
            assert forall|i: int| 0 <= i < rest.len() implies is_keyword(#[trigger] rest[i]) by {
                assert(rest[i] == position[i + 1]);
            }
        }
        lemma_spelled_front(rest, c);
        let tail = spelled_out(rest, seq![]);
        assert(spelled_out(position, c) =~= front + c);
        assert forall|i: int| 0 <= i < front.len() implies !line::ends_keywords(
            #[trigger] front[i],
        ) by {
            if 1 <= i < 1 + w.len() {
                assert(front[i] == w[i - 1]);
            } else if i > 0 {
                assert(front[i] == tail[i - 1 - w.len()]);
            }
        }
    }
}

/// Where the keywords end behind a front that does not end them.
pub(crate) proof fn lemma_header_end_behind(front: Seq<char>, c: Seq<char>, i: int)
    requires
        forall|j: int| 0 <= j < front.len() ==> !line::ends_keywords(#[trigger] front[j]),
        0 <= i <= front.len() + c.len(),
    ensures
        line::header_end(front + c, i) == (if i <= front.len() {
            front.len() + line::header_end(c, 0)
        } else {
            front.len() + line::header_end(c, i - front.len())
        }),
    decreases front.len() + c.len() - i,
{
    let whole = front + c;
    if i < front.len() {
        assert(whole[i] == front[i]);
        lemma_header_end_behind(front, c, i + 1);
    } else if i < whole.len() {
        assert(whole[i] == c[i - front.len()]);
        lemma_header_end_behind(front, c, i + 1);
    }
}

/// The node from which a command is found: the position that the command before
/// it left, if it is found there, and the root otherwise.
pub open spec fn found_under(
    entries: Seq<EntryModel>,
    c: Seq<char>,
    position: Seq<Seq<char>>,
) -> Seq<Seq<char>> {
    let tokens = line::keywords_of(line::header_of(c));
    if command::lookup(
        entries,
        position + command::path_of(tokens),
        command::asks(tokens),
        0,
    ) is Some {
        position
    } else {
        seq![]
    }
}

/// Without a leading `:` a command continues from the position in the command
/// tree that the one before it left: it parses to what it does with the keywords
/// of that position spelled out in front of it. One that is not found there
/// parses to what it does at the root.
pub proof fn law_compound_continues(
    entries: Seq<EntryModel>,
    c: Seq<char>,
    position: Seq<Seq<char>>,
    anywhere: Seq<Seq<char>>,
)
    requires
        is_position(position),
        text::trimmed(c) == c,
        !command::leads_with(c, ':'),
        !command::leads_with(c, '*'),
        ({
            let tokens = line::keywords_of(line::header_of(c));
            let path = command::path_of(tokens);
            path.len() > 0 && command::resolve(
                entries,
                position,
                path,
                command::asks(tokens),
            ) is Some
        }),
    ensures
        command::command_value(entries, c, position) == command::command_value(
            entries,
            spelled_out(found_under(entries, c, position), c),
            anywhere,
        ),
{
    let under = found_under(entries, c, position);
    let full = spelled_out(under, c);
    let front = spelled_out(under, seq![]);
    let tokens = line::keywords_of(line::header_of(c));
    let path = command::path_of(tokens);
    let is_query = command::asks(tokens);
    lemma_spelled_front(under, c);
    case::lemma_upper_header_end(c, 0);
    let end = line::header_end(c, 0);
    let h = c.take(end);
    lemma_spelled_front(under, h);
    assert(line::header_of(c) == h);
    assert(tokens == line::words_from(h, 0, 0)) by {
        if h.len() > 0 {
            assert(h[0] == c[0]);
        }
    }
    assert(c.len() > 0) by {
        if c.len() == 0 {
            assert(h =~= seq![]);
            assert(line::words_from(h, 0, 0) =~= seq![]);
        }
    }
    blanks::lemma_trimmed_ends(c);
    assert(full.last() == c.last());
    assert(full[0] == front[0]);
    blanks::lemma_already_trimmed(full);
    lemma_header_end_behind(front, c, 0);
    assert(full.take(front.len() + end) =~= front + h);
    assert(full.skip(front.len() + end) =~= c.skip(end));
    assert(line::header_of(full) == spelled_out(under, h));
    assert(line::param_of(full) == line::param_of(c));
    lemma_spelled_words(under, h);
    let full_tokens = line::keywords_of(line::header_of(full));
    assert(full_tokens == under + tokens);
    assert(command::asks(full_tokens) == is_query);
    assert(command::path_of(full_tokens) =~= under + path);
    assert(Seq::<Seq<char>>::empty() + (under + path) =~= under + path);
    assert(Seq::<Seq<char>>::empty() + path =~= path);
    let before = command::resolve(entries, position, path, is_query);
    assert(before->0.path == under + path);
}

/// The characters before the end of the keywords do not end them.
proof fn lemma_header_chars(s: Seq<char>, i: int, j: int)
    requires
        0 <= i <= j < line::header_end(s, i),
        i <= s.len(),
    ensures
        j < s.len(),
        !line::ends_keywords(s[j]),
    decreases s.len() - i,
{
    if i < s.len() && !line::ends_keywords(s[i]) && i < j {
        lemma_header_chars(s, i + 1, j);
    }
}

/// The words of a header are keywords.
proof fn lemma_words_are_keywords(h: Seq<char>, start: int, i: int)
    requires
        0 <= start <= i <= h.len(),
        forall|j: int| 0 <= j < h.len() ==> !line::ends_keywords(#[trigger] h[j]),
        forall|j: int| start <= j < i ==> #[trigger] h[j] != ':',
    ensures
        is_position(line::words_from(h, start, i)),
    decreases h.len() - i,
{
    let end = if i < h.len() {
        i
    } else {
        h.len() as int
    };
    let here = line::word(h, start, end);
    assert(is_position(here)) by {
        if start < end {
            let w = text::upper(h.subrange(start, end));
            assert forall|j: int| 0 <= j < w.len() implies #[trigger] w[j] != ':'
                && !line::ends_keywords(w[j]) && text::upper_char(w[j]) == w[j] by {
                case::lemma_upper_char(h[start + j]);
                assert(h[start + j] != ':');
            }
            assert(text::upper(w) =~= w);
        }
    }
    if i < h.len() {
        if h[i] == ':' {
            lemma_words_are_keywords(h, i + 1, i + 1);
            let rest = line::words_from(h, i + 1, i + 1);
            let all = here + rest;
            assert forall|j: int| 0 <= j < all.len() implies is_keyword(#[trigger] all[j]) by {
                if j < here.len() {
                    assert(all[j] == here[j]);
                } else {
                    assert(all[j] == rest[j - here.len()]);
                }
            }
        } else {
            lemma_words_are_keywords(h, start, i + 1);
        }
    }
}

/// Commands leave positions of the command tree: what one leaves is made of
/// keywords if what it started from was.
pub proof fn law_positions(entries: Seq<EntryModel>, c: Seq<char>, position: Seq<Seq<char>>)
    requires
        is_position(position),
    ensures
        command::command_value(entries, c, position) matches Ok(step) ==> is_position(
            step.position,
        ),
{
    if let Ok(step) = command::command_value(entries, c, position) {
        if !command::leads_with(c, '*') {
            let s = text::trimmed(c);
            let h = line::header_of(c);
            case::lemma_upper_header_end(s, 0);
            assert forall|j: int| 0 <= j < h.len() implies !line::ends_keywords(
                #[trigger] h[j],
            ) by {
                lemma_header_chars(s, 0, j);
            }
            lemma_words_are_keywords(h, 0, 0);
            let tokens = line::keywords_of(h);
            assert(tokens == line::words_from(h, 0, 0)) by {
                if h.len() > 0 {
                    assert(h[0] == s[0]);
                }
            }
            let path = command::path_of(tokens);
            let start = command::starting_point(c, path, position);
            let found = command::resolve(entries, start, path, command::asks(tokens))->0;
            assert(found.path == start + path || found.path == path);
            assert forall|i: int| 0 <= i < step.position.len() implies is_keyword(
                #[trigger] step.position[i],
            ) by {
                if found.path == path {
                    assert(step.position[i] == tokens[i]);
                } else if i < start.len() {
                    assert(step.position[i] == start[i]);
                } else {
                    assert(step.position[i] == tokens[i - start.len()]);
                }
            }
        }
    }
}

} // verus!
