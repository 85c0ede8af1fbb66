//! White space at the ends of a text.

use crate::text;
use vstd::prelude::*;

verus! {

/// Whether a text is white space only.
pub open spec fn is_blank(s: Seq<char>) -> bool {
    forall|i: int| 0 <= i < s.len() ==> text::is_space(#[trigger] s[i])
}

/// White space in front of a text is trimmed with it.
pub(crate) proof fn lemma_trim_start_blank(w: Seq<char>, s: Seq<char>)
    requires
        is_blank(w),
    ensures
        text::trim_start(w + s) == text::trim_start(s),
    decreases w.len(),
{
    if w.len() == 0 {
        assert(w + s =~= s);
    } else {
        let rest = w.drop_first();
        assert((w + s)[0] == w[0]);
        assert((w + s).drop_first() =~= rest + s);
        assert forall|i: int| 0 <= i < rest.len() implies text::is_space(#[trigger] rest[i]) by {
            assert(rest[i] == w[i + 1]);
        }
        lemma_trim_start_blank(rest, s);
    }
}

/// White space behind a text is trimmed with it.
pub(crate) proof fn lemma_trim_end_blank(s: Seq<char>, v: Seq<char>)
    requires
        is_blank(v),
    ensures
        text::trim_end(s + v) == text::trim_end(s),
    decreases v.len(),
{
    if v.len() == 0 {
        assert(s + v =~= s);
    } else {
        let rest = v.drop_last();
        assert((s + v).last() == v.last());
        assert((s + v).drop_last() =~= s + rest);
        assert forall|i: int| 0 <= i < rest.len() implies text::is_space(#[trigger] rest[i]) by {
            assert(rest[i] == v[i]);
        }
        lemma_trim_end_blank(s, rest);
    }
}

/// What is behind the first character that is not white space stays.
proof fn lemma_trim_start_extend(s: Seq<char>, v: Seq<char>)
    ensures
        text::trim_start(s + v) == (if text::trim_start(s).len() > 0 {
            text::trim_start(s) + v
        } else {
            text::trim_start(v)
        }),
    decreases s.len(),
{
    if s.len() == 0 {
        assert(s + v =~= v);
    } else if text::is_space(s[0]) {
        assert((s + v).drop_first() =~= s.drop_first() + v);
        lemma_trim_start_extend(s.drop_first(), v);
    }
}

/// White space around a text makes no difference once it is trimmed.
pub(crate) proof fn lemma_trimmed_padded(w: Seq<char>, s: Seq<char>, v: Seq<char>)
    requires
        is_blank(w),
        is_blank(v),
    ensures
        text::trimmed(w + s + v) == text::trimmed(s),
{
    assert(w + s + v =~= w + (s + v));
    lemma_trim_start_blank(w, s + v);
    lemma_trim_start_extend(s, v);
    if text::trim_start(s).len() > 0 {
        lemma_trim_end_blank(text::trim_start(s), v);
    } else {
        lemma_trim_start_blank(v, Seq::empty());
        assert(v + Seq::<char>::empty() =~= v);
        assert(text::trim_start(s) =~= Seq::<char>::empty());
    }
}

/// A text that neither starts nor ends with white space is trimmed.
pub(crate) proof fn lemma_already_trimmed(s: Seq<char>)
    requires
        s.len() > 0 ==> !text::is_space(s[0]) && !text::is_space(s.last()),
    ensures
        text::trimmed(s) == s,
{
}

/// The start of what is left when a text is trimmed at its end.
pub(crate) proof fn lemma_trim_end_prefix(s: Seq<char>)
    ensures
        text::trim_end(s).len() <= s.len(),
        text::trim_end(s) == s.take(text::trim_end(s).len() as int),
        text::trim_end(s).len() > 0 ==> !text::is_space(text::trim_end(s).last()),
    decreases s.len(),
{
    if s.len() > 0 && text::is_space(s.last()) {
        lemma_trim_end_prefix(s.drop_last());
        let k = text::trim_end(s).len() as int;
        assert(s.drop_last().take(k) =~= s.take(k));
    } else {
        assert(s.take(s.len() as int) =~= s);
    }
}

/// What is left when a text is trimmed at its start.
proof fn lemma_trim_start_first(s: Seq<char>)
    ensures
        text::trim_start(s).len() > 0 ==> !text::is_space(text::trim_start(s)[0]),
    decreases s.len(),
{
    if s.len() > 0 && text::is_space(s[0]) {
        lemma_trim_start_first(s.drop_first());
    }
}

/// A trimmed text neither starts nor ends with white space.
pub(crate) proof fn lemma_trimmed_ends(s: Seq<char>)
    ensures
        text::trimmed(s).len() > 0 ==> !text::is_space(text::trimmed(s)[0]) && !text::is_space(
            text::trimmed(s).last(),
        ),
{
    lemma_trim_start_first(s);
    lemma_trim_end_prefix(text::trim_start(s));
}

/// A text is its trimmed form with white space around it.
pub(crate) proof fn lemma_padding(s: Seq<char>) -> (r: (Seq<char>, Seq<char>))
    ensures
        is_blank(r.0),
        is_blank(r.1),
        s == r.0 + text::trimmed(s) + r.1,
{
    let w = lemma_front_padding(s);
    let v = lemma_end_padding(text::trim_start(s));
    assert(s =~= w + text::trimmed(s) + v);
    (w, v)
}

/// What trimming takes off the start.
pub(crate) proof fn lemma_front_padding(s: Seq<char>) -> (w: Seq<char>)
    ensures
        is_blank(w),
        s == w + text::trim_start(s),
    decreases s.len(),
{
    if s.len() > 0 && text::is_space(s[0]) {
        let rest = lemma_front_padding(s.drop_first());
        let w = seq![s[0]] + rest;
        assert forall|i: int| 0 <= i < w.len() implies text::is_space(#[trigger] w[i]) by {
            if i > 0 {
                assert(w[i] == rest[i - 1]);
            }
        }
        assert(s =~= seq![s[0]] + s.drop_first());
        assert(s =~= w + text::trim_start(s));
        w
    } else {
        assert(s =~= Seq::<char>::empty() + s);
        Seq::empty()
    }
}

/// What trimming takes off the end.
pub(crate) proof fn lemma_end_padding(s: Seq<char>) -> (v: Seq<char>)
    ensures
        is_blank(v),
        s == text::trim_end(s) + v,
    decreases s.len(),
{
    if s.len() > 0 && text::is_space(s.last()) {
        let front = lemma_end_padding(s.drop_last());
        let v = front.push(s.last());
        assert forall|i: int| 0 <= i < v.len() implies text::is_space(#[trigger] v[i]) by {
            if i < front.len() {
                assert(v[i] == front[i]);
            }
        }
        assert(s =~= s.drop_last().push(s.last()));
        assert(s =~= text::trim_end(s) + v);
        v
    } else {
        assert(s =~= s + Seq::<char>::empty());
        Seq::empty()
    }
}

/// A text that starts with something else than white space is not blank.
pub(crate) proof fn lemma_trim_end_keeps(s: Seq<char>)
    requires
        s.len() > 0,
        !text::is_space(s[0]),
    ensures
        text::trim_end(s).len() > 0,
        text::trim_end(s)[0] == s[0],
    decreases s.len(),
{
    if text::is_space(s.last()) {
        lemma_trim_end_keeps(s.drop_last());
    }
}

} // verus!
