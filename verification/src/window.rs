//! The sliding window that a short-term memory keeps: once full, storing a
//! message first drops the oldest one.

use vstd::prelude::*;

verus! {

/// How many messages a memory built with `max_nodes` holds at most. A memory
/// built with zero still holds the latest message, since storing removes one
/// message only when there is one to remove.
pub open spec fn window_capacity(max_nodes: nat) -> nat {
    if max_nodes == 0 {
        1
    } else {
        max_nodes
    }
}

/// The history `s` after one message `x` is stored into a memory built with
/// `max_nodes`: when it already holds `max_nodes` messages or more, the oldest
/// one goes first.
pub open spec fn slide<T>(s: Seq<T>, x: T, max_nodes: nat) -> Seq<T> {
    if s.len() >= max_nodes && s.len() > 0 {
        s.drop_first().push(x)
    } else {
        s.push(x)
    }
}

/// The history after every message of `xs` is stored in turn, starting from `s`.
pub open spec fn slide_all<T>(s: Seq<T>, xs: Seq<T>, max_nodes: nat) -> Seq<T>
    decreases xs.len(),
{
    if xs.len() == 0 {
        s
    } else {
        slide(slide_all(s, xs.drop_last(), max_nodes), xs.last(), max_nodes)
    }
}

/// The last `min(xs.len(), cap)` elements of `xs`, in their order.
pub open spec fn latest<T>(xs: Seq<T>, cap: nat) -> Seq<T> {
    if xs.len() <= cap {
        xs
    } else {
        xs.subrange(xs.len() - cap, xs.len() as int)
    }
}

/// Storing into a history that fits the window keeps it within the window, and
/// it then holds the latest messages of the old history followed by the new one.
pub proof fn lemma_slide_keeps_latest<T>(s: Seq<T>, x: T, max_nodes: nat)
    requires
        s.len() <= window_capacity(max_nodes),
    ensures
        slide(s, x, max_nodes).len() <= window_capacity(max_nodes),
        slide(s, x, max_nodes) == latest(s.push(x), window_capacity(max_nodes)),
{
    let cap = window_capacity(max_nodes);
    if s.len() >= max_nodes && s.len() > 0 {
        assert(s.len() == cap);
        assert(s.drop_first().push(x) =~= s.push(x).subrange(s.push(x).len() - cap, s.push(x).len() as int));
    }
}

/// The window never holds more than its capacity.
pub proof fn lemma_latest_fits<T>(xs: Seq<T>, cap: nat)
    ensures
        latest(xs, cap).len() <= cap,
{
}

/// Storing into the window over `xs` gives the window over `xs` followed by
/// the new message.
pub proof fn lemma_slide_latest<T>(xs: Seq<T>, x: T, max_nodes: nat)
    ensures
        slide(latest(xs, window_capacity(max_nodes)), x, max_nodes) == latest(
            xs.push(x),
            window_capacity(max_nodes),
        ),
        latest(xs, window_capacity(max_nodes)).len() <= window_capacity(max_nodes),
{
    let cap = window_capacity(max_nodes);
    let l = latest(xs, cap);
    lemma_slide_keeps_latest(l, x, max_nodes);
    if xs.len() > cap {
        assert(l.push(x) =~= xs.push(x).subrange(xs.len() - cap, xs.len() + 1int));
        assert(latest(l.push(x), cap) =~= latest(xs.push(x), cap));
    }
}

/// Storing never loses the whole context at once: the new message is kept as
/// the latest, and before it stands the old history, or the old history
/// without its oldest message.
pub proof fn lemma_slide_drops_at_most_oldest<T>(s: Seq<T>, x: T, max_nodes: nat)
    ensures
        slide(s, x, max_nodes).len() >= 1,
        slide(s, x, max_nodes).last() == x,
        slide(s, x, max_nodes).drop_last() == s || slide(s, x, max_nodes).drop_last()
            == s.drop_first(),
{
    assert(s.push(x).drop_last() =~= s);
    if s.len() > 0 {
        assert(s.drop_first().push(x).drop_last() =~= s.drop_first());
    }
}

/// A memory that starts empty and is handed the messages `xs` one after the
/// other holds exactly the most recent `window_capacity(max_nodes)` of them (all
/// of them while there are fewer), oldest first.
pub proof fn lemma_history_is_latest<T>(xs: Seq<T>, max_nodes: nat)
    ensures
        slide_all(Seq::empty(), xs, max_nodes) == latest(xs, window_capacity(max_nodes)),
    decreases xs.len(),
{
    let cap = window_capacity(max_nodes);
    if xs.len() > 0 {
        let prefix = xs.drop_last();
        lemma_history_is_latest(prefix, max_nodes);
        let before = slide_all(Seq::<T>::empty(), prefix, max_nodes);
        lemma_slide_keeps_latest(before, xs.last(), max_nodes);
        assert(prefix.push(xs.last()) =~= xs);
        if prefix.len() > cap {
            let l = latest(prefix, cap);
            assert(l.push(xs.last()) =~= xs.subrange(xs.len() - cap - 1, xs.len() as int));
            assert(latest(l.push(xs.last()), cap) =~= latest(xs, cap));
        }
    }
}

} // verus!
