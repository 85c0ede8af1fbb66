//! Patterns and commands as they are typed: from their text to the match.

use crate::command::CommandModel;
use crate::command;
use crate::laws::blanks;
use crate::laws::keywords;
use crate::laws::positions;
use crate::line;
use crate::matching;
use crate::pattern::{EntryModel, GroupModel, ParamKind, SegmentModel};
use crate::pattern;
use crate::text;
use vstd::prelude::*;

verus! {

/// A node of a pattern as it is written: a keyword, with a `#` behind it or not.
pub struct Node {
    pub keyword: Seq<char>,
    pub numbered: bool,
}

/// Whether a text can stand as a keyword in a pattern.
pub open spec fn is_written(keyword: Seq<char>) -> bool {
    &&& keyword.len() > 0
    &&& forall|i: int|
        0 <= i < keyword.len() ==> #[trigger] keyword[i] != ':' && keyword[i] != '[' && keyword[i]
            != ']' && keyword[i] != '#' && keyword[i] != ' ' && keyword[i] != '?'
}

/// A row of at least one node that can stand in a pattern.
pub open spec fn are_nodes(nodes: Seq<Node>) -> bool {
    &&& nodes.len() > 0
    &&& forall|i: int| 0 <= i < nodes.len() ==> is_written((#[trigger] nodes[i]).keyword)
}

/// The text of one node.
pub open spec fn node_text(node: Node) -> Seq<char> {
    node.keyword + (if node.numbered {
        seq!['#']
    } else {
        seq![]
    })
}

/// The text of a row of nodes, with a `:` between each two of them.
pub open spec fn nodes_text(nodes: Seq<Node>) -> Seq<char>
    decreases nodes.len(),
{
    if nodes.len() == 0 {
        seq![]
    } else if nodes.len() == 1 {
        node_text(nodes[0])
    } else {
        node_text(nodes[0]) + seq![':'] + nodes_text(nodes.skip(1))
    }
}

/// The `?` of a query.
pub open spec fn query_text(is_query: bool) -> Seq<char> {
    if is_query {
        seq!['?']
    } else {
        seq![]
    }
}

/// The declaration of a parameter.
pub open spec fn kind_text(kind: Option<ParamKind>) -> Seq<char> {
    match kind {
        None => seq![],
        Some(ParamKind::Num) => seq![' ', 'n', 'u', 'm'],
        Some(ParamKind::Bool) => seq![' ', 'b', 'o', 'o', 'l'],
        Some(ParamKind::Str) => seq![' ', 's', 't', 'r'],
    }
}

/// The text of a pattern without optional nodes.
pub open spec fn pattern_text(nodes: Seq<Node>, is_query: bool, kind: Option<ParamKind>) -> Seq<
    char,
> {
    nodes_text(nodes) + query_text(is_query) + kind_text(kind)
}

/// The segments of one node.
pub open spec fn node_segments(node: Node) -> Seq<SegmentModel> {
    seq![pattern::keyword_segment(node.keyword)] + (if node.numbered {
        seq![SegmentModel::NumericSuffix]
    } else {
        seq![]
    })
}

/// The segments of a row of nodes.
pub open spec fn nodes_segments(nodes: Seq<Node>) -> Seq<SegmentModel>
    decreases nodes.len(),
{
    if nodes.len() == 0 {
        seq![]
    } else {
        node_segments(nodes[0]) + nodes_segments(nodes.skip(1))
    }
}

/// The suffix values with which a word matches a node: none for a plain keyword,
/// one for a numbered one.
pub open spec fn node_match(node: Node, word: Seq<char>) -> Option<Seq<u32>> {
    let short = pattern::short_form(node.keyword);
    let long = pattern::long_form(node.keyword);
    if node.numbered {
        match matching::suffix_of(word, short, long) {
            Some((_, n)) => Some(seq![n]),
            None => None,
        }
    } else if matching::keyword_accepts(short, long, word) {
        Some(seq![])
    } else {
        None
    }
}

/// The suffix values with which words match nodes, one word for each node.
pub open spec fn nodes_match(nodes: Seq<Node>, words: Seq<Seq<char>>) -> Option<Seq<u32>>
    decreases nodes.len(),
{
    if nodes.len() != words.len() {
        None
    } else if nodes.len() == 0 {
        Some(seq![])
    } else {
        match node_match(nodes[0], words[0]) {
            None => None,
            Some(first) => match nodes_match(nodes.skip(1), words.skip(1)) {
                None => None,
                Some(rest) => Some(first + rest),
            },
        }
    }
}

/// Nodes but for the first.
proof fn lemma_nodes_rest(nodes: Seq<Node>)
    requires
        are_nodes(nodes),
        nodes.len() > 1,
    ensures
        are_nodes(nodes.skip(1)),
{
    assert forall|i: int| 0 <= i < nodes.skip(1).len() implies is_written(
        (#[trigger] nodes.skip(1)[i]).keyword,
    ) by {
        assert(nodes.skip(1)[i] == nodes[i + 1]);
    }
}

/// The text of nodes holds no bracket, no space and no `?`.
proof fn lemma_nodes_text(nodes: Seq<Node>)
    requires
        are_nodes(nodes),
    ensures
        nodes_text(nodes).len() > 0,
        forall|i: int|
            0 <= i < nodes_text(nodes).len() ==> #[trigger] nodes_text(nodes)[i] != ' '
                && nodes_text(nodes)[i] != '?' && nodes_text(nodes)[i] != '[' && nodes_text(
                nodes,
            )[i] != ']',
    decreases nodes.len(),
{
    let first = node_text(nodes[0]);
    let whole = nodes_text(nodes);
    assert(is_written(nodes[0].keyword));
    assert forall|i: int| 0 <= i < first.len() implies #[trigger] first[i] != ' ' && first[i] != '?'
        && first[i] != '[' && first[i] != ']' by {
        if i < nodes[0].keyword.len() {
            assert(first[i] == nodes[0].keyword[i]);
            assert(!pattern::is_delimiter(nodes[0].keyword[i]));
        }
    }
    if nodes.len() > 1 {
        lemma_nodes_rest(nodes);
        lemma_nodes_text(nodes.skip(1));
        assert forall|i: int| 0 <= i < whole.len() implies #[trigger] whole[i] != ' ' && whole[i]
            != '?' && whole[i] != '[' && whole[i] != ']' by {
            if i < first.len() {
                assert(whole[i] == first[i]);
            } else if i > first.len() {
                assert(whole[i] == nodes_text(nodes.skip(1))[i - first.len() - 1]);
            }
        }
    }
}

/// Where a keyword ends that stands at `i`.
pub(crate) proof fn lemma_keyword_at(chars: Seq<char>, i: int, k: int)
    requires
        0 <= i <= k <= chars.len(),
        forall|j: int| i <= j < k ==> !pattern::is_delimiter(#[trigger] chars[j]),
        k < chars.len() ==> pattern::is_delimiter(chars[k]),
    ensures
        pattern::keyword_end(chars, i) == k,
    decreases k - i,
{
    if i < k {
        lemma_keyword_at(chars, i + 1, k);
    }
}

/// Nodes at the end of a text compile to their segments.
proof fn lemma_nodes_compiled(
    chars: Seq<char>,
    i: int,
    nodes: Seq<Node>,
    segments: Seq<SegmentModel>,
    groups: Seq<GroupModel>,
)
    requires
        0 <= i <= chars.len(),
        are_nodes(nodes),
        chars.skip(i) == nodes_text(nodes),
    ensures
        pattern::keywords_from(chars, i, segments, groups) == (
            segments + nodes_segments(nodes),
            groups,
        ),
    decreases nodes.len(),
{
    let node = nodes[0];
    let first = node_text(node);
    let text = nodes_text(nodes);
    let end = i + node.keyword.len();
    let next = i + first.len();
    lemma_nodes_text(nodes);
    assert(is_written(node.keyword));
    assert forall|j: int| 0 <= j < first.len() implies #[trigger] chars[i + j] == first[j] by {
        assert(chars[i + j] == text[j]);
    }
    assert forall|j: int| i <= j < end implies !pattern::is_delimiter(#[trigger] chars[j]) by {
        assert(chars[i + (j - i)] == first[j - i]);
        assert(first[j - i] == node.keyword[j - i]);
    }
    if node.numbered {
        assert(chars[i + node.keyword.len()] == first[node.keyword.len() as int]);
    }
    if nodes.len() > 1 {
        assert(chars[next] == text[first.len() as int]);
        assert(chars[next] == ':');
    }
    lemma_keyword_at(chars, i, end);
    assert(chars.subrange(i, end) =~= node.keyword) by {
        assert forall|j: int| 0 <= j < node.keyword.len() implies chars.subrange(i, end)[j]
            == node.keyword[j] by {
            assert(chars[i + j] == first[j]);
        }
    }
    assert(!pattern::is_delimiter(chars[i]));
    assert(pattern::keyword_segments(chars, i).0 =~= node_segments(node));
    assert(pattern::keyword_segments(chars, i).1 == next);
    let here = segments + node_segments(node);
    assert(pattern::keywords_from(chars, i, segments, groups) == pattern::keywords_from(
        chars,
        next,
        here,
        groups,
    ));
    if nodes.len() > 1 {
        let rest = nodes.skip(1);
        lemma_nodes_rest(nodes);
        assert(chars.skip(next + 1) =~= nodes_text(rest)) by {
            assert forall|j: int| 0 <= j < nodes_text(rest).len() implies chars.skip(next + 1)[j]
                == nodes_text(rest)[j] by {
                assert(text[first.len() + 1 + j] == nodes_text(rest)[j]);
                assert(chars.skip(i)[first.len() + 1 + j] == text[first.len() + 1 + j]);
            }
        }
        lemma_nodes_compiled(chars, next + 1, rest, here, groups);
        assert(here + nodes_segments(rest) =~= segments + nodes_segments(nodes));
    } else {
        assert(next == chars.len());
        assert(nodes_segments(nodes.skip(1)) =~= seq![]);
        assert(node_segments(node) + nodes_segments(nodes.skip(1)) =~= node_segments(node));
    }
}

/// Whether a text ends in the declaration of a parameter.
pub(crate) open spec fn declares(s: Seq<char>) -> bool {
    pattern::declared_param(s) is Some
}

/// A text without spaces ends in no declaration.
proof fn lemma_no_declaration(s: Seq<char>)
    requires
        forall|i: int| 0 <= i < s.len() ==> #[trigger] s[i] != ' ',
    ensures
        !declares(s),
{
    if s.len() >= 4 {
        assert(s.skip(s.len() - 4)[0] == s[s.len() - 4]);
    }
    if s.len() >= 5 {
        assert(s.skip(s.len() - 5)[0] == s[s.len() - 5]);
    }
}

/// What a text ends in, its last character is that of.
proof fn lemma_last(s: Seq<char>, tail: Seq<char>)
    requires
        tail.len() > 0,
    ensures
        pattern::ends_in(s, tail) ==> s.last() == tail.last(),
{
    if pattern::ends_in(s, tail) {
        assert(s.skip(s.len() - tail.len()).last() == s.last());
    }
}

/// The declaration behind a text is the one that is read.
proof fn lemma_declaration(header: Seq<char>, kind: Option<ParamKind>)
    requires
        kind is None ==> !declares(header),
    ensures
        pattern::declared_param(header + kind_text(kind)) == kind,
        pattern::without_param(header + kind_text(kind)) == header,
{
    let tail = kind_text(kind);
    let text = header + tail;
    if kind is None {
        assert(text =~= header);
    } else {
        assert(text.skip(text.len() - tail.len()) =~= tail);
        assert(text.take(text.len() - tail.len()) =~= header);
        assert(text.last() == tail.last());
        lemma_last(text, seq![' ', 'n', 'u', 'm']);
        lemma_last(text, seq![' ', 'b', 'o', 'o', 'l']);
    }
}

/// The keywords, the `?` and the declaration of a pattern are read as they were
/// put together.
pub(crate) proof fn lemma_pattern_parts(row: Seq<char>, is_query: bool, kind: Option<ParamKind>)
    requires
        kind is None && !is_query ==> !declares(row),
        !is_query ==> row.len() == 0 || row.last() != '?',
    ensures
        pattern::declared_param(row + query_text(is_query) + kind_text(kind)) == kind,
        pattern::declares_query(row + query_text(is_query) + kind_text(kind)) == is_query,
        pattern::keyword_part(row + query_text(is_query) + kind_text(kind)) == row,
{
    let header = row + query_text(is_query);
    if is_query {
        assert(header.last() == '?');
        assert(header.drop_last() =~= row);
        lemma_last(header, seq![' ', 'n', 'u', 'm']);
        lemma_last(header, seq![' ', 'b', 'o', 'o', 'l']);
        lemma_last(header, seq![' ', 's', 't', 'r']);
    } else {
        assert(header =~= row);
    }
    lemma_declaration(header, kind);
}

/// Every pattern is put together like that.
pub(crate) proof fn lemma_pattern_whole(text: Seq<char>)
    ensures
        text == pattern::keyword_part(text) + query_text(pattern::declares_query(text))
            + kind_text(pattern::declared_param(text)),
        pattern::declared_param(text) is None && !pattern::declares_query(text) ==> !declares(
            pattern::keyword_part(text),
        ),
        !pattern::declares_query(text) ==> pattern::keyword_part(text).len() == 0
            || pattern::keyword_part(text).last() != '?',
{
    let kind = pattern::declared_param(text);
    let tail = kind_text(kind);
    let header = pattern::without_param(text);
    assert(text =~= header + tail) by {
        if kind is Some {
            assert(text.skip(text.len() - tail.len()) == tail);
            assert(text =~= text.take(text.len() - tail.len()) + tail);
        }
    }
    assert(header =~= pattern::keyword_part(text) + query_text(pattern::declares_query(text)));
}

/// What a pattern without optional nodes compiles to: the segments of its nodes
/// in order, with its `?` and its parameter.
pub proof fn law_plain_pattern(nodes: Seq<Node>, is_query: bool, kind: Option<ParamKind>)
    requires
        are_nodes(nodes),
    ensures
        pattern::well_bracketed(pattern_text(nodes, is_query, kind)),
        pattern::compiled(pattern_text(nodes, is_query, kind)) == (EntryModel {
            segments: nodes_segments(nodes),
            groups: seq![],
            is_query,
            param: kind,
        }),
{
    let row = nodes_text(nodes);
    let text = pattern_text(nodes, is_query, kind);
    lemma_nodes_text(nodes);
    lemma_no_declaration(row);
    lemma_pattern_parts(row, is_query, kind);
    assert(row.skip(0) =~= row);
    lemma_nodes_compiled(row, 0, nodes, seq![], seq![]);
    assert(Seq::<SegmentModel>::empty() + nodes_segments(nodes) =~= nodes_segments(nodes));
    assert forall|i: int| 0 <= i < text.len() implies #[trigger] text[i] != '[' && text[i]
        != ']' by {
        if i < row.len() {
            assert(text[i] == row[i]);
        }
    }
    lemma_unbracketed(text, 0);
}

/// A text without brackets has none in the wrong place.
pub(crate) proof fn lemma_unbracketed(chars: Seq<char>, i: int)
    requires
        forall|j: int| 0 <= j < chars.len() ==> #[trigger] chars[j] != '[' && chars[j] != ']',
    ensures
        pattern::bracketed(chars, i, false),
    decreases chars.len() - i,
{
    if 0 <= i < chars.len() {
        lemma_unbracketed(chars, i + 1);
    }
}

/// Matching segments of nodes is matching the nodes.
pub(crate) proof fn lemma_nodes_match(nodes: Seq<Node>, words: Seq<Seq<char>>)
    ensures
        matching::segments_match(nodes_segments(nodes), words) == nodes_match(nodes, words),
    decreases nodes.len(),
{
    let segments = nodes_segments(nodes);
    if nodes.len() > 0 {
        let node = nodes[0];
        let first = node_segments(node);
        let rest = nodes_segments(nodes.skip(1));
        assert(segments == first + rest);
        assert(segments[0] == first[0]);
        if words.len() > 0 {
            lemma_nodes_match(nodes.skip(1), words.skip(1));
            if node.numbered {
                assert(segments[1] == first[1]);
                assert(segments.skip(2) =~= rest);
            } else {
                assert(segments.skip(1) =~= rest);
                if segments.len() > 1 {
                    assert(segments[1] == rest[0]);
                    lemma_first_segment(nodes.skip(1));
                }
                if let Some(s) = nodes_match(nodes.skip(1), words.skip(1)) {
                    assert(Seq::<u32>::empty() + s =~= s);
                }
            }
        }
    }
}

/// The segments of nodes start with a keyword.
proof fn lemma_first_segment(nodes: Seq<Node>)
    ensures
        nodes_segments(nodes).len() > 0 ==> nodes_segments(nodes)[0] is Keyword,
{
    if nodes.len() > 0 {
        assert(nodes_segments(nodes)[0] == node_segments(nodes[0])[0]);
    }
}

/// Whether a text can be typed as a keyword of a command.
pub open spec fn is_typed(word: Seq<char>) -> bool {
    &&& word.len() > 0
    &&& forall|i: int|
        0 <= i < word.len() ==> #[trigger] word[i] != ':' && word[i] != '?' && word[i] != '\''
            && word[i] != '"' && !text::is_space(word[i])
}

/// A row of at least one word that can be typed as the keywords of a command. A
/// common command has one.
pub open spec fn are_words(words: Seq<Seq<char>>) -> bool {
    &&& words.len() > 0
    &&& forall|i: int| 0 <= i < words.len() ==> is_typed(#[trigger] words[i])
    &&& words[0][0] == '*' ==> words.len() == 1
}

/// A row of words with a `:` between each two of them.
pub open spec fn words_text(words: Seq<Seq<char>>) -> Seq<char>
    decreases words.len(),
{
    if words.len() == 0 {
        seq![]
    } else if words.len() == 1 {
        words[0]
    } else {
        words[0] + seq![':'] + words_text(words.skip(1))
    }
}

/// A parameter as it is typed.
pub open spec fn given_text(given: Option<Seq<char>>) -> Seq<char> {
    match given {
        None => seq![],
        Some(raw) => seq![' '] + raw,
    }
}

/// The text of a command.
pub open spec fn command_text(
    words: Seq<Seq<char>>,
    is_query: bool,
    given: Option<Seq<char>>,
) -> Seq<char> {
    words_text(words) + query_text(is_query) + given_text(given)
}

/// The words in upper case.
pub open spec fn in_upper_case(words: Seq<Seq<char>>) -> Seq<Seq<char>> {
    Seq::new(words.len(), |i: int| text::upper(words[i]))
}

/// The words in upper case, with `tail` behind the last one.
spec fn with_tail(words: Seq<Seq<char>>, tail: Seq<char>) -> Seq<Seq<char>> {
    in_upper_case(words.drop_last()).push(text::upper(words.last() + tail))
}

/// A header without `:` is one word.
proof fn lemma_one_word(h: Seq<char>, i: int)
    requires
        0 <= i <= h.len(),
        forall|j: int| 0 <= j < h.len() ==> #[trigger] h[j] != ':',
    ensures
        line::words_from(h, 0, i) == line::word(h, 0, h.len() as int),
    decreases h.len() - i,
{
    if i < h.len() {
        lemma_one_word(h, i + 1);
    }
}

/// The words of a header that was put together from words.
proof fn lemma_typed_words(words: Seq<Seq<char>>, tail: Seq<char>)
    requires
        words.len() > 0,
        forall|i: int| 0 <= i < words.len() ==> is_typed(#[trigger] words[i]),
        forall|i: int| 0 <= i < tail.len() ==> #[trigger] tail[i] != ':',
    ensures
        line::words_from(words_text(words) + tail, 0, 0) == with_tail(words, tail),
    decreases words.len(),
{
    let whole = words_text(words) + tail;
    let w = words[0];
    let k = w.len() as int;
    assert(is_typed(w));
    if words.len() == 1 {
        assert forall|j: int| 0 <= j < whole.len() implies #[trigger] whole[j] != ':' by {
            if j < k {
                assert(whole[j] == w[j]);
            } else {
                assert(whole[j] == tail[j - k]);
            }
        }
        lemma_one_word(whole, 0);
        assert(whole.subrange(0, whole.len() as int) =~= w + tail);
        assert(line::word(whole, 0, whole.len() as int) =~= with_tail(words, tail));
    } else {
        let rest = words.skip(1);
        let behind = words_text(rest) + tail;
        assert forall|i: int| 0 <= i < rest.len() implies is_typed(#[trigger] rest[i]) by {
            assert(rest[i] == words[i + 1]);
        }
        lemma_typed_words(rest, tail);
        assert(whole =~= w + seq![':'] + behind);
        assert forall|j: int| 0 <= j < k implies #[trigger] whole[j] != ':' by {
            assert(whole[j] == w[j]);
        }
        positions::lemma_word_ends(whole, 0, 0, k);
        assert(whole.subrange(0, k) =~= w);
        assert(whole.skip(k + 1) =~= behind);
        positions::lemma_words_behind(whole, k + 1, behind, 0, 0);
        assert(seq![text::upper(w)] + with_tail(rest, tail) =~= with_tail(words, tail));
    }
}

/// The characters of words that were put together.
proof fn lemma_words_text(words: Seq<Seq<char>>)
    requires
        words.len() > 0,
        forall|i: int| 0 <= i < words.len() ==> is_typed(#[trigger] words[i]),
    ensures
        words_text(words).len() > 0,
        words_text(words)[0] == words[0][0],
        forall|i: int|
            0 <= i < words_text(words).len() ==> !line::ends_keywords(
                #[trigger] words_text(words)[i],
            ) && !text::is_space(words_text(words)[i]),
    decreases words.len(),
{
    let whole = words_text(words);
    let w = words[0];
    assert(is_typed(w));
    if words.len() > 1 {
        let rest = words.skip(1);
        assert forall|i: int| 0 <= i < rest.len() implies is_typed(#[trigger] rest[i]) by {
            assert(rest[i] == words[i + 1]);
        }
        lemma_words_text(rest);
        assert forall|i: int| 0 <= i < whole.len() implies !line::ends_keywords(#[trigger] whole[i])
            && !text::is_space(whole[i]) by {
            if i < w.len() {
                assert(whole[i] == w[i]);
            } else if i > w.len() {
                assert(whole[i] == words_text(rest)[i - w.len() - 1]);
            }
        }
    }
}

/// What is typed is what is read: a command has the keywords, in upper case, that
/// were put into its text, is a query if a `?` was, and has the parameter that
/// stands behind a space.
pub proof fn law_typed_command(
    words: Seq<Seq<char>>,
    is_query: bool,
    given: Option<Seq<char>>,
)
    requires
        are_words(words),
        given matches Some(raw) ==> raw.len() > 0 && text::trimmed(raw) == raw,
    ensures
        ({
            let c = command_text(words, is_query, given);
            let tokens = line::keywords_of(line::header_of(c));
            &&& tokens.len() > 0
            &&& command::path_of(tokens) == in_upper_case(words)
            &&& command::asks(tokens) == is_query
            &&& line::param_of(c) == given
            &&& text::trimmed(c) == c
            &&& command::leads_with(c, '*') == (words[0][0] == '*')
            &&& !command::leads_with(c, ':')
        }),
{
    let row = words_text(words);
    let q = query_text(is_query);
    let h = row + q;
    let behind = given_text(given);
    let c = command_text(words, is_query, given);
    let n = words.len() as int;
    lemma_words_text(words);
    assert(is_typed(words[0]) && is_typed(words[n - 1]));
    assert forall|i: int| 0 <= i < h.len() implies !line::ends_keywords(#[trigger] h[i])
        && !text::is_space(h[i]) by {
        if i < row.len() {
            assert(h[i] == row[i]);
        }
    }
    assert(c[0] == h[0]);
    if let Some(raw) = given {
        blanks::lemma_trimmed_ends(raw);
        assert(c.last() == raw.last());
    } else {
        assert(c =~= h);
    }
    blanks::lemma_already_trimmed(c);
    positions::lemma_header_end_behind(h, behind, 0);
    assert(line::header_end(c, 0) == h.len());
    assert(c.take(h.len() as int) =~= h);
    assert(c.skip(h.len() as int) =~= behind);
    if let Some(raw) = given {
        blanks::lemma_trimmed_padded(seq![' '], raw, seq![]);
        assert(behind =~= seq![' '] + raw + Seq::<char>::empty());
    } else {
        assert(text::trimmed(behind).len() == 0);
    }
    let tokens = line::keywords_of(h);
    lemma_typed_words(words, q);
    if words[0][0] == '*' {
        assert(h =~= words.last() + q);
        assert(tokens =~= with_tail(words, q));
    }
    assert(tokens == with_tail(words, q));
    let last = words.last();
    assert(tokens.last() == text::upper(last + q));
    assert(in_upper_case(words) =~= in_upper_case(words.drop_last()).push(text::upper(last)));
    assert(tokens.drop_last() =~= in_upper_case(words.drop_last()));
    if is_query {
        assert(tokens.last().last() == '?');
        assert(tokens.last().drop_last() =~= text::upper(last));
    } else {
        assert(last + q =~= last);
        assert(last[last.len() - 1] != '?');
        assert(tokens.last().last() == text::upper_char(last[last.len() - 1]));
    }
}

/// A pattern without optional nodes matches the commands that spell its nodes,
/// one word for each, as a query or as a command. The first entry of the table
/// that matches gives the command its index, with the suffix values of the words
/// and with the parameter.
pub proof fn law_typed_match(
    entries: Seq<EntryModel>,
    k: int,
    nodes: Seq<Node>,
    declared_query: bool,
    kind: Option<ParamKind>,
    words: Seq<Seq<char>>,
    is_query: bool,
    given: Option<Seq<char>>,
)
    requires
        are_nodes(nodes),
        are_words(words),
        given matches Some(raw) ==> raw.len() > 0 && text::trimmed(raw) == raw,
        0 <= k < entries.len(),
        entries[k] == pattern::compiled(pattern_text(nodes, declared_query, kind)),
        forall|j: int|
            0 <= j < k ==> matching::entry_match(
                #[trigger] entries[j],
                in_upper_case(words),
                is_query,
            ) is None,
    ensures
        matching::entry_match(entries[k], in_upper_case(words), is_query) == (if is_query
            == declared_query {
            nodes_match(nodes, in_upper_case(words))
        } else {
            None
        }),
        is_query == declared_query ==> (nodes_match(nodes, in_upper_case(words)) matches Some(
            suffixes,
        ) ==> command::command_value(entries, command_text(words, is_query, given), seq![]) == (
        match command::params_value(kind, given) {
            Err(message) => Err(message),
            Ok(params) => Ok(
                command::StepModel {
                    command: CommandModel { index: k as nat, params, suffixes },
                    position: if words[0][0] == '*' {
                        seq![]
                    } else {
                        in_upper_case(words.drop_last())
                    },
                },
            ),
        })),
{
    let entry = entries[k];
    let path = in_upper_case(words);
    law_plain_pattern(nodes, declared_query, kind);
    law_typed_command(words, is_query, given);
    lemma_nodes_match(nodes, path);
    keywords::lemma_all_active(entry, Seq::new(0, |i: int| false), entry.segments.len());
    keywords::lemma_lookup_at(entries, path, is_query, 0, k);
    let root = Seq::<Seq<char>>::empty();
    assert(root + path =~= path);
    assert(path.drop_last() =~= in_upper_case(words.drop_last()));
}

} // verus!
