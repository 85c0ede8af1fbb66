//! Matching words against a pattern, told word by word.

use crate::laws::keywords;
use crate::laws::typed;
use crate::laws::typed::Node;
use crate::matching;
use crate::number;
use crate::pattern;
use crate::pattern::{EntryModel, SegmentModel};
use vstd::prelude::*;

verus! {

/// How many of the first `i` nodes have a number.
pub open spec fn numbered_before(nodes: Seq<Node>, i: int) -> nat
    decreases i,
{
    if i <= 0 {
        0
    } else {
        numbered_before(nodes, i - 1) + (if nodes[i - 1].numbered {
            1nat
        } else {
            0
        })
    }
}

/// Whether a node takes a word: as one of its forms, or as one of its forms with
/// the number `n`, where it has a number.
#[verifier::opaque]
pub open spec fn takes(node: Node, word: Seq<char>, n: u32) -> bool {
    let short = pattern::short_form(node.keyword);
    let long = pattern::long_form(node.keyword);
    if node.numbered {
        matching::suffix_of(word, short, long) matches Some((_, m)) && m == n
    } else {
        matching::keyword_accepts(short, long, word)
    }
}

/// Numbers behind the first node.
proof fn lemma_numbered_rest(nodes: Seq<Node>, i: int)
    requires
        nodes.len() > 0,
        0 <= i < nodes.len(),
    ensures
        numbered_before(nodes, i + 1) == numbered_before(nodes, 1) + numbered_before(
            nodes.skip(1),
            i,
        ),
    decreases i,
{
    if i > 0 {
        lemma_numbered_rest(nodes, i - 1);
        assert(nodes.skip(1)[i - 1] == nodes[i]);
    }
}

/// The numbers of nodes.
proof fn lemma_numbered_grows(nodes: Seq<Node>, i: int, j: int)
    requires
        0 <= i <= j <= nodes.len(),
    ensures
        numbered_before(nodes, i) <= numbered_before(nodes, j),
        i < j && nodes[i].numbered ==> numbered_before(nodes, i) < numbered_before(nodes, j),
    decreases j - i,
{
    if i < j {
        lemma_numbered_grows(nodes, i, j - 1);
    }
}

/// Whether words and suffix values are those of nodes: one word for each node,
/// which takes it, and one value for each node that has a number, in their order.
pub open spec fn word_for_word(
    nodes: Seq<Node>,
    words: Seq<Seq<char>>,
    suffixes: Seq<u32>,
) -> bool {
    &&& words.len() == nodes.len()
    &&& suffixes.len() == numbered_before(nodes, nodes.len() as int)
    &&& forall|i: int|
        0 <= i < nodes.len() ==> takes(
            #[trigger] nodes[i],
            words[i],
            suffixes[numbered_before(nodes, i) as int],
        )
}

/// Without a number, no number matters.
proof fn lemma_takes_plain(node: Node, word: Seq<char>, n: u32, m: u32)
    requires
        !node.numbered || n == m,
    ensures
        takes(node, word, n) == takes(node, word, m),
{
    reveal(takes);
}

/// The value for a node behind the first.
proof fn lemma_value_behind(nodes: Seq<Node>, suffixes: Seq<u32>, word: Seq<char>, i: int)
    requires
        nodes.len() > 0,
        0 <= i < nodes.len() - 1,
        suffixes.len() == numbered_before(nodes, nodes.len() as int),
    ensures
        takes(
            nodes.skip(1)[i],
            word,
            suffixes.skip(numbered_before(nodes, 1) as int)[numbered_before(
                nodes.skip(1),
                i,
            ) as int],
        ) == takes(nodes[i + 1], word, suffixes[numbered_before(nodes, i + 1) as int]),
{
    let c = numbered_before(nodes, 1) as int;
    let rest = nodes.skip(1);
    let k = numbered_before(rest, i) as int;
    lemma_numbered_rest(nodes, i);
    lemma_numbered_grows(nodes, 1, nodes.len() as int);
    lemma_numbered_grows(nodes, i + 1, nodes.len() as int);
    assert(rest[i] == nodes[i + 1]);
    if rest[i].numbered {
        assert(suffixes.skip(c)[k] == suffixes[c + k]);
    }
    lemma_takes_plain(
        rest[i],
        word,
        suffixes.skip(c)[k],
        suffixes[numbered_before(nodes, i + 1) as int],
    );
}

/// The first word and the rest.
#[verifier::rlimit(40)]
proof fn lemma_first_word(nodes: Seq<Node>, words: Seq<Seq<char>>, suffixes: Seq<u32>)
    requires
        nodes.len() > 0,
        words.len() == nodes.len(),
        suffixes.len() == numbered_before(nodes, nodes.len() as int),
    ensures
        numbered_before(nodes, 1) <= suffixes.len(),
        word_for_word(nodes, words, suffixes) <==> takes(nodes[0], words[0], suffixes[0])
            && word_for_word(
            nodes.skip(1),
            words.skip(1),
            suffixes.skip(numbered_before(nodes, 1) as int),
        ),
{
    let c = numbered_before(nodes, 1) as int;
    let rest = nodes.skip(1);
    let behind = words.skip(1);
    let left = suffixes.skip(c);
    let n = nodes.len() as int;
    lemma_numbered_rest(nodes, n - 1);
    assert(numbered_before(nodes, 0) == 0);
    if word_for_word(nodes, words, suffixes) {
        assert(takes(nodes[0], words[0], suffixes[numbered_before(nodes, 0) as int]));
        assert forall|i: int| 0 <= i < rest.len() implies takes(
            #[trigger] rest[i],
            behind[i],
            left[numbered_before(rest, i) as int],
        ) by {
            lemma_value_behind(nodes, suffixes, words[i + 1], i);
            assert(takes(
                nodes[i + 1],
                words[i + 1],
                suffixes[numbered_before(nodes, i + 1) as int],
            ));
        }
    }
    if takes(nodes[0], words[0], suffixes[0]) && word_for_word(rest, behind, left) {
        assert forall|i: int| 0 <= i < nodes.len() implies takes(
            #[trigger] nodes[i],
            words[i],
            suffixes[numbered_before(nodes, i) as int],
        ) by {
            if i > 0 {
                lemma_value_behind(nodes, suffixes, words[i], i - 1);
                assert(takes(
                    rest[i - 1],
                    behind[i - 1],
                    left[numbered_before(rest, i - 1) as int],
                ));
            }
        }
    }
}

/// Words match nodes word for word.
#[verifier::rlimit(40)]
proof fn lemma_word_for_word(nodes: Seq<Node>, words: Seq<Seq<char>>, suffixes: Seq<u32>)
    ensures
        typed::nodes_match(nodes, words) == Some(suffixes) <==> word_for_word(
            nodes,
            words,
            suffixes,
        ),
    decreases nodes.len(),
{
    if nodes.len() != words.len() {
    } else if nodes.len() == 0 {
        if suffixes.len() == 0 {
            assert(suffixes =~= seq![]);
        }
    } else {
        let node = nodes[0];
        let c = numbered_before(nodes, 1) as int;
        let rest = nodes.skip(1);
        let behind = words.skip(1);
        reveal(takes);
        assert(numbered_before(nodes, 0) == 0);
        lemma_numbered_rest(nodes, nodes.len() - 1);
        if suffixes.len() == numbered_before(nodes, nodes.len() as int) {
            let left = suffixes.skip(c);
            lemma_first_word(nodes, words, suffixes);
            lemma_word_for_word(rest, behind, left);
            if node.numbered {
                assert(suffixes =~= seq![suffixes[0]] + left);
            } else {
                assert(suffixes =~= Seq::<u32>::empty() + left);
            }
        }
        if typed::nodes_match(nodes, words) == Some(suffixes) {
            let first = typed::node_match(node, words[0])->0;
            let others = typed::nodes_match(rest, behind)->0;
            lemma_word_for_word(rest, behind, others);
            assert(suffixes == first + others);
            assert(first.len() == c);
            assert(suffixes.skip(c) =~= others);
            if node.numbered {
                assert(suffixes[0] == first[0]);
            }
        }
    }
}

/// The words of a command match the nodes of a pattern word for word, all of them
/// and in order, and give the numbers of those that have one.
pub proof fn law_word_for_word(nodes: Seq<Node>, words: Seq<Seq<char>>, suffixes: Seq<u32>)
    ensures
        matching::segments_match(typed::nodes_segments(nodes), words) == Some(suffixes)
            <==> word_for_word(nodes, words, suffixes),
{
    typed::lemma_nodes_match(nodes, words);
    lemma_word_for_word(nodes, words, suffixes);
}

/// A pattern without optional groups matches as its segments do, a query if it is
/// one and a command if it is none.
pub proof fn law_without_groups(entry: EntryModel, words: Seq<Seq<char>>, is_query: bool)
    requires
        entry.groups.len() == 0,
    ensures
        matching::entry_match(entry, words, is_query) == (if is_query == entry.is_query {
            matching::segments_match(entry.segments, words)
        } else {
            None
        }),
{
    keywords::lemma_all_active(entry, Seq::new(0, |i: int| false), entry.segments.len());
}

/// A placeholder in front takes one word, which is a number.
pub proof fn law_lone_placeholder(
    segments: Seq<SegmentModel>,
    word: Seq<char>,
    words: Seq<Seq<char>>,
    n: u32,
    suffixes: Seq<u32>,
)
    ensures
        matching::segments_match(seq![SegmentModel::NumericSuffix] + segments, seq![word] + words)
            == Some(seq![n] + suffixes) <==> number::u32_value(word) == Some(n)
            && matching::segments_match(segments, words) == Some(suffixes),
        matching::segments_match(
            seq![SegmentModel::NumericSuffix] + segments,
            seq![word] + words,
        ) is Some <==> number::u32_value(word) is Some && matching::segments_match(
            segments,
            words,
        ) is Some,
        matching::segments_match(seq![SegmentModel::NumericSuffix] + segments, seq![]) is None,
{
    let all = seq![SegmentModel::NumericSuffix] + segments;
    let tokens = seq![word] + words;
    assert(all[0] is NumericSuffix);
    assert(tokens[0] == word);
    assert(all.skip(1) =~= segments);
    assert(tokens.skip(1) =~= words);
    if let Some(found) = matching::segments_match(all, tokens) {
        let m = number::u32_value(word)->0;
        let rest = matching::segments_match(segments, words)->0;
        assert(found == seq![m] + rest);
        if found == seq![n] + suffixes {
            assert(found[0] == m && found[0] == n);
            assert(rest =~= found.skip(1));
            assert(suffixes =~= found.skip(1));
        }
    }
}

/// One keyword and one word off the front: they match, and the rest matches. A
/// keyword with a placeholder behind it shares the word with it.
pub proof fn law_one_word_on(
    short: Seq<char>,
    long: Seq<char>,
    segments: Seq<SegmentModel>,
    word: Seq<char>,
    words: Seq<Seq<char>>,
)
    ensures
        matching::segments_match(
            seq![
                SegmentModel::Keyword { short, long },
                SegmentModel::NumericSuffix,
            ] + segments,
            seq![word] + words,
        ) == (match (
            matching::suffix_of(word, short, long),
            matching::segments_match(segments, words),
        ) {
            (Some((_, n)), Some(suffixes)) => Some(seq![n] + suffixes),
            _ => None,
        }),
        segments.len() == 0 || segments[0] is Keyword ==> matching::segments_match(
            seq![SegmentModel::Keyword { short, long }] + segments,
            seq![word] + words,
        ) == (if matching::keyword_accepts(short, long, word) {
            matching::segments_match(segments, words)
        } else {
            None
        }),
        matching::segments_match(seq![SegmentModel::Keyword { short, long }] + segments, seq![])
            is None,
        matching::segments_match(seq![], words) == (if words.len() == 0 {
            Some(Seq::<u32>::empty())
        } else {
            None
        }),
{
    let keyword = SegmentModel::Keyword { short, long };
    let numbered = seq![keyword, SegmentModel::NumericSuffix] + segments;
    let plain = seq![keyword] + segments;
    let tokens = seq![word] + words;
    assert(numbered[0] == keyword && numbered[1] is NumericSuffix);
    assert(plain[0] == keyword);
    assert(tokens[0] == word);
    assert(numbered.skip(2) =~= segments);
    assert(plain.skip(1) =~= segments);
    assert(tokens.skip(1) =~= words);
    if segments.len() > 0 {
        assert(plain[1] == segments[0]);
    }
}

} // verus!
