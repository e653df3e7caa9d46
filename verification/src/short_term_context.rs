//! Short-term memory kept in an unbalanced binary search tree, ordered either
//! by time stamp or by relevance score; messages with equal keys keep the
//! order in which they were stored.

use vstd::prelude::*;
use crate::client::Messages;
use crate::clock::nanos_since_epoch;
use crate::window::{latest, lemma_latest_fits, lemma_slide_latest, slide, window_capacity};

verus! {

/// What orders the messages of a memory.
#[derive(Debug, Clone, Copy)]
pub enum MemorySortStrategy {
    TimeStamp,
    Score,
}

/// The score key given to a message stored without a score: the key of a zero
/// score. Scores are held as order keys, one `u32` per score, that compare as
/// the scores do.
pub const NEUTRAL_SCORE: u32 = 0x8000_0000u32;

/// One node of the tree: a message with its time stamp, score key and
/// insertion number.
pub struct MemoryNode {
    /// The clock reading when the message was stored, in nanoseconds.
    pub timestamp: u64,
    /// The score key.
    pub score: u32,
    /// The insertion number: breaks ties between equal keys.
    pub order: u64,
    pub message: Messages,
    pub left: Option<Box<MemoryNode>>,
    pub right: Option<Box<MemoryNode>>,
}

/// What a node holds of its own: time stamp, score key, insertion number and
/// message.
pub type MemoryEntry = (u64, u32, u64, Messages);

/// The entry of one node.
pub open spec fn entry_of(n: MemoryNode) -> MemoryEntry {
    (n.timestamp, n.score, n.order, n.message)
}

/// The entries of a tree, in order.
pub open spec fn node_entries(t: Option<Box<MemoryNode>>) -> Seq<MemoryEntry>
    decreases t,
{
    match t {
        None => Seq::empty(),
        Some(n) => node_entries(n.left) + seq![entry_of(*n)] + node_entries(n.right),
    }
}

/// The key by which `strategy` orders an entry.
pub open spec fn entry_key(e: MemoryEntry, strategy: MemorySortStrategy) -> u64 {
    match strategy {
        MemorySortStrategy::TimeStamp => e.0,
        MemorySortStrategy::Score => e.1 as u64,
    }
}

/// Whether the key of `a` is below the key of `b`.
pub open spec fn key_below(a: MemoryEntry, b: MemoryEntry, strategy: MemorySortStrategy) -> bool {
    entry_key(a, strategy) < entry_key(b, strategy)
}

/// Keys never decrease along `s`.
pub open spec fn sorted_by(s: Seq<MemoryEntry>, strategy: MemorySortStrategy) -> bool {
    forall|i: int, j: int|
        0 <= i < j < s.len() ==> !key_below(#[trigger] s[j], #[trigger] s[i], strategy)
}

/// No two entries of `s` share an insertion number.
pub open spec fn orders_distinct(s: Seq<MemoryEntry>) -> bool {
    forall|i: int, j: int|
        0 <= i < s.len() && 0 <= j < s.len() && i != j ==> #[trigger] s[i].2 != #[trigger] s[j].2
}

/// The search-tree order, node by node: the keys in a node's left subtree are
/// below its key, those in its right subtree are not.
pub open spec fn is_search_tree(t: Option<Box<MemoryNode>>, strategy: MemorySortStrategy) -> bool
    decreases t,
{
    match t {
        None => true,
        Some(n) => {
            &&& forall|j: int|
                0 <= j < node_entries(n.left).len() ==> key_below(
                    #[trigger] node_entries(n.left)[j],
                    entry_of(*n),
                    strategy,
                )
            &&& forall|j: int|
                0 <= j < node_entries(n.right).len() ==> !key_below(
                    #[trigger] node_entries(n.right)[j],
                    entry_of(*n),
                    strategy,
                )
            &&& is_search_tree(n.left, strategy)
            &&& is_search_tree(n.right, strategy)
        },
    }
}

/// The tree `n` with the tree `new` hung in the empty child slot that a search
/// for `new`'s key reaches: left where it is below the key at hand, right
/// otherwise (so after equal keys). Every other node and link stays as it was.
pub open spec fn leaf_insert(n: Box<MemoryNode>, new: Box<MemoryNode>, strategy: MemorySortStrategy) -> Box<
    MemoryNode,
>
    decreases n,
{
    if key_below(entry_of(*new), entry_of(*n), strategy) {
        Box::new(
            MemoryNode {
                timestamp: n.timestamp,
                score: n.score,
                order: n.order,
                message: n.message,
                left: Some(
                    match n.left {
                        None => new,
                        Some(l) => leaf_insert(l, new, strategy),
                    },
                ),
                right: n.right,
            },
        )
    } else {
        Box::new(
            MemoryNode {
                timestamp: n.timestamp,
                score: n.score,
                order: n.order,
                message: n.message,
                left: n.left,
                right: Some(
                    match n.right {
                        None => new,
                        Some(r) => leaf_insert(r, new, strategy),
                    },
                ),
            },
        )
    }
}

/// The tree `t` without its leftmost node, whose right subtree takes its
/// place. Every other node and link stays as it was.
pub open spec fn without_leftmost(t: Option<Box<MemoryNode>>) -> Option<Box<MemoryNode>>
    decreases t,
{
    match t {
        None => None,
        Some(n) => match n.left {
            None => n.right,
            Some(l) => Some(
                Box::new(
                    MemoryNode {
                        timestamp: n.timestamp,
                        score: n.score,
                        order: n.order,
                        message: n.message,
                        left: without_leftmost(Some(l)),
                        right: n.right,
                    },
                ),
            ),
        },
    }
}

/// `s` with `e` placed after every entry whose key is not above its own, and
/// before the others (for a sorted `s`, the one place that keeps it sorted).
pub open spec fn sorted_insert(s: Seq<MemoryEntry>, e: MemoryEntry, strategy: MemorySortStrategy) -> Seq<
    MemoryEntry,
>
    decreases s.len(),
{
    if s.len() == 0 {
        seq![e]
    } else if key_below(e, s.last(), strategy) {
        sorted_insert(s.drop_last(), e, strategy).push(s.last())
    } else {
        s.push(e)
    }
}

/// Position `i` parts `s` into the entries whose keys are not above `e`'s and
/// those whose keys are.
pub open spec fn splits_at(s: Seq<MemoryEntry>, e: MemoryEntry, i: int, strategy: MemorySortStrategy) -> bool {
    &&& 0 <= i <= s.len()
    &&& forall|j: int| 0 <= j < i ==> !key_below(e, #[trigger] s[j], strategy)
    &&& forall|j: int| i <= j < s.len() ==> key_below(e, #[trigger] s[j], strategy)
}

/// The entry that storing `message` with `score` makes at clock reading
/// `nanos` as insertion number `order`: a message without a score gets
/// `NEUTRAL_SCORE`.
pub open spec fn stored_entry(nanos: u64, score: Option<u32>, order: u64, message: Messages) -> MemoryEntry {
    (nanos, match score {
        Some(s) => s,
        None => NEUTRAL_SCORE,
    }, order, message)
}

/// The time stamp given to a message stored at clock reading `reading` when
/// the greatest stamp given so far is `last`: the reading, or `last` when the
/// clock reads earlier, so that stamps never go back.
pub open spec fn stamp_after(reading: u64, last: u64) -> u64 {
    if reading < last {
        last
    } else {
        reading
    }
}

/// Of two entries, the one stored later (higher insertion number) never has
/// the earlier time stamp.
pub open spec fn stamps_follow_arrival(s: Seq<MemoryEntry>) -> bool {
    forall|i: int, j: int|
        0 <= i < s.len() && 0 <= j < s.len() && #[trigger] s[i].2 < #[trigger] s[j].2 ==> s[i].0
            <= s[j].0
}

/// Appending an entry whose key is not below any key of `s` is the sorted
/// insertion.
pub proof fn lemma_sorted_insert_at_end(s: Seq<MemoryEntry>, e: MemoryEntry, strategy: MemorySortStrategy)
    requires
        forall|j: int| 0 <= j < s.len() ==> !key_below(e, #[trigger] s[j], strategy),
    ensures
        sorted_insert(s, e, strategy) == s.push(e),
{
    if s.len() > 0 {
        assert(!key_below(e, s[s.len() - 1], strategy));
    }
}

/// The messages of a sequence of entries.
pub open spec fn entry_messages(s: Seq<MemoryEntry>) -> Seq<Messages> {
    s.map_values(|e: MemoryEntry| e.3)
}

/// A node without children.
pub open spec fn is_leaf(n: Box<MemoryNode>) -> bool {
    n.left is None && n.right is None
}

/// A search tree lists its entries sorted.
pub proof fn lemma_search_tree_sorted(t: Option<Box<MemoryNode>>, strategy: MemorySortStrategy)
    requires
        is_search_tree(t, strategy),
    ensures
        sorted_by(node_entries(t), strategy),
    decreases t,
{
    if let Some(n) = t {
        lemma_search_tree_sorted(n.left, strategy);
        lemma_search_tree_sorted(n.right, strategy);
        let a = node_entries(n.left);
        let b = node_entries(n.right);
        let s = node_entries(t);
        let m = a.len() as int;
        assert(s == a + seq![entry_of(*n)] + b);
        assert forall|i: int, j: int| 0 <= i < j < s.len() implies !key_below(
            #[trigger] s[j],
            #[trigger] s[i],
            strategy,
        ) by {
            if j < m {
                assert(s[i] == a[i] && s[j] == a[j]);
            } else if j == m {
                assert(s[i] == a[i]);
            } else if i < m {
                assert(s[i] == a[i] && s[j] == b[j - m - 1]);
                assert(key_below(a[i], entry_of(*n), strategy));
                assert(!key_below(b[j - m - 1], entry_of(*n), strategy));
            } else if i == m {
                assert(s[j] == b[j - m - 1]);
            } else {
                assert(s[i] == b[i - m - 1] && s[j] == b[j - m - 1]);
            }
        }
    }
}

/// Hanging a childless node into a search tree keeps it a search tree, and
/// puts the node's entry at its split point in the in-order sequence.
pub proof fn lemma_leaf_insert(n: Box<MemoryNode>, new: Box<MemoryNode>, strategy: MemorySortStrategy)
    requires
        is_search_tree(Some(n), strategy),
        is_leaf(new),
    ensures
        is_search_tree(Some(leaf_insert(n, new, strategy)), strategy),
        exists|i: int|
            splits_at(node_entries(Some(n)), entry_of(*new), i, strategy) && node_entries(
                Some(leaf_insert(n, new, strategy)),
            ) == node_entries(Some(n)).insert(i, entry_of(*new)),
    decreases n,
{
    let e = entry_of(*new);
    let a = node_entries(n.left);
    let b = node_entries(n.right);
    let s = node_entries(Some(n));
    let m = a.len() as int;
    let me = entry_of(*n);
    let res = leaf_insert(n, new, strategy);
    assert(s == a + seq![me] + b);
    lemma_search_tree_sorted(Some(n), strategy);
    assert(node_entries(new.left) =~= Seq::<MemoryEntry>::empty());
    assert(node_entries(new.right) =~= Seq::<MemoryEntry>::empty());
    assert(node_entries(Some(new)) =~= seq![e]);
    assert(new.left == None::<Box<MemoryNode>> && new.right == None::<Box<MemoryNode>>);
    assert(is_search_tree(new.left, strategy) && is_search_tree(new.right, strategy));
    assert(is_search_tree(Some(new), strategy));
    if key_below(e, me, strategy) {
        let (i, na) = match n.left {
            None => {
                assert(a =~= Seq::<MemoryEntry>::empty());
                assert(splits_at(a, e, 0, strategy));
                (0int, seq![e])
            },
            Some(l) => {
                lemma_leaf_insert(l, new, strategy);
                let i = choose|i: int|
                    splits_at(a, e, i, strategy) && node_entries(Some(leaf_insert(l, new, strategy)))
                        == a.insert(i, e);
                (i, a.insert(i, e))
            },
        };
        assert(node_entries(res.left) == na);
        assert(na =~= a.insert(i, e));
        assert(splits_at(s, e, i, strategy)) by {
            assert forall|j: int| 0 <= j < i implies !key_below(e, #[trigger] s[j], strategy) by {
                assert(s[j] == a[j]);
            }
            assert forall|j: int| i <= j < s.len() implies key_below(e, #[trigger] s[j], strategy) by {
                if j < m {
                    assert(s[j] == a[j]);
                } else if j > m {
                    assert(s[j] == b[j - m - 1]);
                    assert(!key_below(b[j - m - 1], me, strategy));
                }
            }
        }
        assert(node_entries(Some(res)) =~= s.insert(i, e));
        assert forall|j: int| 0 <= j < na.len() implies key_below(#[trigger] na[j], me, strategy) by {
            if j < i {
                assert(na[j] == a[j]);
            } else if j > i {
                assert(na[j] == a[j - 1]);
            }
        }
        assert(entry_of(*res) == me);
        assert(res.right == n.right);
        assert(is_search_tree(res.left, strategy));
        assert(node_entries(res.left) == na);
    } else {
        let (i, nb) = match n.right {
            None => {
                assert(b =~= Seq::<MemoryEntry>::empty());
                assert(splits_at(b, e, 0, strategy));
                (0int, seq![e])
            },
            Some(r) => {
                lemma_leaf_insert(r, new, strategy);
                let i = choose|i: int|
                    splits_at(b, e, i, strategy) && node_entries(Some(leaf_insert(r, new, strategy)))
                        == b.insert(i, e);
                (i, b.insert(i, e))
            },
        };
        assert(node_entries(res.right) == nb);
        assert(nb =~= b.insert(i, e));
        let w = m + 1 + i;
        assert(splits_at(s, e, w, strategy)) by {
            assert forall|j: int| 0 <= j < w implies !key_below(e, #[trigger] s[j], strategy) by {
                if j < m {
                    assert(s[j] == a[j]);
                    assert(key_below(a[j], me, strategy));
                } else if j > m {
                    assert(s[j] == b[j - m - 1]);
                }
            }
            assert forall|j: int| w <= j < s.len() implies key_below(e, #[trigger] s[j], strategy) by {
                assert(s[j] == b[j - m - 1]);
            }
        }
        assert(node_entries(Some(res)) =~= s.insert(w, e));
        assert forall|j: int| 0 <= j < nb.len() implies !key_below(#[trigger] nb[j], me, strategy) by {
            if j < i {
                assert(nb[j] == b[j]);
            } else if j > i {
                assert(nb[j] == b[j - 1]);
            }
        }
        assert(entry_of(*res) == me);
        assert(res.left == n.left);
        assert(is_search_tree(res.right, strategy));
        assert(node_entries(res.right) == nb);
    }
}

/// Dropping the leftmost node drops the first entry in order, and keeps a
/// search tree a search tree.
pub proof fn lemma_without_leftmost(t: Option<Box<MemoryNode>>, strategy: MemorySortStrategy)
    ensures
        node_entries(without_leftmost(t)) == if node_entries(t).len() > 0 {
            node_entries(t).drop_first()
        } else {
            node_entries(t)
        },
        is_search_tree(t, strategy) ==> is_search_tree(without_leftmost(t), strategy),
    decreases t,
{
    if let Some(n) = t {
        match n.left {
            None => {
                assert(node_entries(n.left) =~= Seq::<MemoryEntry>::empty());
                assert(node_entries(t) =~= seq![entry_of(*n)] + node_entries(n.right));
            },
            Some(l) => {
                lemma_without_leftmost(Some(l), strategy);
                let a = node_entries(Some(l));
                let na = node_entries(without_leftmost(Some(l)));
                assert(node_entries(t) == a + seq![entry_of(*n)] + node_entries(n.right));
                assert(node_entries(without_leftmost(t)) =~= node_entries(t).drop_first());
                if is_search_tree(t, strategy) {
                    assert forall|j: int| 0 <= j < na.len() implies key_below(
                        #[trigger] na[j],
                        entry_of(*n),
                        strategy,
                    ) by {
                        assert(na[j] == a[j + 1]);
                    }
                }
            },
        }
    }
}

/// On a sorted sequence, inserting at the split point of an entry is
/// `sorted_insert`, and keeps the sequence sorted.
pub proof fn lemma_split_insert_is_sorted_insert(
    s: Seq<MemoryEntry>,
    e: MemoryEntry,
    i: int,
    strategy: MemorySortStrategy,
)
    requires
        sorted_by(s, strategy),
        splits_at(s, e, i, strategy),
    ensures
        s.insert(i, e) == sorted_insert(s, e, strategy),
        sorted_by(s.insert(i, e), strategy),
    decreases s.len(),
{
    let r = s.insert(i, e);
    assert forall|a: int, b: int| 0 <= a < b < r.len() implies !key_below(
        #[trigger] r[b],
        #[trigger] r[a],
        strategy,
    ) by {
        if a < i {
            assert(r[a] == s[a]);
            if b > i {
                assert(r[b] == s[b - 1]);
            }
        } else if a == i {
            assert(r[b] == s[b - 1]);
        } else {
            assert(r[a] == s[a - 1] && r[b] == s[b - 1]);
        }
    }
    if s.len() > 0 {
        if key_below(e, s.last(), strategy) {
            let p = s.drop_last();
            assert(i < s.len());
            assert(sorted_by(p, strategy)) by {
                assert forall|a: int, b: int| 0 <= a < b < p.len() implies !key_below(
                    #[trigger] p[b],
                    #[trigger] p[a],
                    strategy,
                ) by {
                    assert(p[a] == s[a] && p[b] == s[b]);
                }
            }
            assert(splits_at(p, e, i, strategy)) by {
                assert forall|j: int| 0 <= j < i implies !key_below(e, #[trigger] p[j], strategy) by {
                    assert(p[j] == s[j]);
                }
                assert forall|j: int| i <= j < p.len() implies key_below(e, #[trigger] p[j], strategy) by {
                    assert(p[j] == s[j]);
                }
            }
            lemma_split_insert_is_sorted_insert(p, e, i, strategy);
            assert(s.insert(i, e) =~= p.insert(i, e).push(s.last()));
        } else {
            if i < s.len() {
                assert(key_below(e, s[s.len() - 1], strategy));
            }
            assert(s.insert(i, e) =~= s.push(e));
        }
    } else {
        assert(s.insert(i, e) =~= seq![e]);
    }
}

/// Among entries with equal keys, the earlier stands first: its insertion
/// number is the lower.
pub open spec fn ties_in_arrival_order(s: Seq<MemoryEntry>, strategy: MemorySortStrategy) -> bool {
    forall|i: int, j: int|
        0 <= i < j < s.len() && entry_key(s[i], strategy) == entry_key(s[j], strategy) ==> #[trigger] s[i].2
            < #[trigger] s[j].2
}

/// Placing an entry numbered above all others at its split point keeps equal
/// keys in arrival order, since it goes after every entry with its key.
pub proof fn lemma_insert_keeps_arrival_order(
    s: Seq<MemoryEntry>,
    e: MemoryEntry,
    i: int,
    strategy: MemorySortStrategy,
)
    requires
        ties_in_arrival_order(s, strategy),
        splits_at(s, e, i, strategy),
        forall|j: int| 0 <= j < s.len() ==> #[trigger] s[j].2 < e.2,
    ensures
        ties_in_arrival_order(s.insert(i, e), strategy),
{
    let r = s.insert(i, e);
    assert forall|a: int, b: int|
        0 <= a < b < r.len() && entry_key(r[a], strategy) == entry_key(r[b], strategy) implies #[trigger] r[a].2
        < #[trigger] r[b].2 by {
        if b < i {
            assert(r[a] == s[a] && r[b] == s[b]);
        } else if b == i {
            assert(r[a] == s[a]);
        } else if a < i {
            assert(r[a] == s[a] && r[b] == s[b - 1]);
        } else if a == i {
            assert(r[b] == s[b - 1]);
            assert(key_below(e, s[b - 1], strategy));
        } else {
            assert(r[a] == s[a - 1] && r[b] == s[b - 1]);
        }
    }
}

/// Inserting an entry numbered `stored` among entries with distinct numbers
/// below `stored` keeps the numbers distinct and below `stored + 1`.
proof fn lemma_insert_keeps_orders(kept: Seq<MemoryEntry>, e: MemoryEntry, i: int, stored: u64)
    requires
        0 <= i <= kept.len(),
        orders_distinct(kept),
        forall|j: int| 0 <= j < kept.len() ==> #[trigger] kept[j].2 < stored,
        e.2 == stored,
    ensures
        orders_distinct(kept.insert(i, e)),
        forall|j: int| 0 <= j < kept.len() + 1 ==> #[trigger] kept.insert(i, e)[j].2 < stored + 1,
{
    let s = kept.insert(i, e);
    assert forall|j: int| 0 <= j < s.len() implies #[trigger] s[j].2 < stored + 1 by {
        if j < i {
            assert(s[j] == kept[j]);
        } else if j > i {
            assert(s[j] == kept[j - 1]);
        }
    }
    assert forall|a: int, b: int| 0 <= a < s.len() && 0 <= b < s.len() && a != b implies #[trigger] s[a].2
        != #[trigger] s[b].2 by {
        if a != i && b != i {
            let oa = if a < i { a } else { a - 1 };
            let ob = if b < i { b } else { b - 1 };
            assert(s[a] == kept[oa] && s[b] == kept[ob]);
        } else if a == i {
            let ob = if b < i { b } else { b - 1 };
            assert(s[b] == kept[ob]);
        } else {
            let oa = if a < i { a } else { a - 1 };
            assert(s[a] == kept[oa]);
        }
    }
}

proof fn lemma_entry_messages_split(a: Seq<MemoryEntry>, e: MemoryEntry, b: Seq<MemoryEntry>)
    ensures
        entry_messages(a + seq![e] + b) == entry_messages(a) + seq![e.3] + entry_messages(b),
{
    assert(entry_messages(a + seq![e] + b) =~= entry_messages(a) + seq![e.3] + entry_messages(b));
}

/// What stays after the window drops its first entry keeps the facts of the
/// whole: insertion numbers below the next one, stamps at or below the last.
proof fn lemma_sorted_parts_kept(
    before: Seq<MemoryEntry>,
    kept: Seq<MemoryEntry>,
    stored: u64,
    last_stamp: u64,
    strategy: MemorySortStrategy,
)
    requires
        kept == before || (before.len() > 0 && kept == before.drop_first()),
        forall|j: int| 0 <= j < before.len() ==> #[trigger] before[j].2 < stored,
        forall|j: int| 0 <= j < before.len() ==> #[trigger] before[j].0 <= last_stamp,
        orders_distinct(before),
        ties_in_arrival_order(before, strategy),
    ensures
        forall|j: int| 0 <= j < kept.len() ==> #[trigger] kept[j].2 < stored,
        forall|j: int| 0 <= j < kept.len() ==> #[trigger] kept[j].0 <= last_stamp,
        orders_distinct(kept),
        ties_in_arrival_order(kept, strategy),
        stamps_follow_arrival(before) ==> stamps_follow_arrival(kept),
{
    if kept != before {
        assert forall|j: int| 0 <= j < kept.len() implies #[trigger] kept[j].2 < stored
            && kept[j].0 <= last_stamp by {
            assert(kept[j] == before[j + 1]);
        }
        assert forall|a: int, b: int| 0 <= a < kept.len() && 0 <= b < kept.len() && a != b implies #[trigger] kept[a].2
            != #[trigger] kept[b].2 by {
            assert(kept[a] == before[a + 1] && kept[b] == before[b + 1]);
        }
        assert forall|a: int, b: int|
            0 <= a < b < kept.len() && entry_key(kept[a], strategy) == entry_key(kept[b], strategy) implies #[trigger] kept[a].2
            < #[trigger] kept[b].2 by {
            assert(kept[a] == before[a + 1] && kept[b] == before[b + 1]);
        }
        if stamps_follow_arrival(before) {
            assert forall|a: int, b: int|
                0 <= a < kept.len() && 0 <= b < kept.len() && #[trigger] kept[a].2
                    < #[trigger] kept[b].2 implies kept[a].0 <= kept[b].0 by {
                assert(kept[a] == before[a + 1] && kept[b] == before[b + 1]);
            }
        }
    }
}

/// Placing an entry numbered `stored` and stamped at or after `last_stamp`
/// keeps stamps in storing order.
proof fn lemma_insert_keeps_stamps(
    kept: Seq<MemoryEntry>,
    e: MemoryEntry,
    i: int,
    stored: u64,
    last_stamp: u64,
)
    requires
        0 <= i <= kept.len(),
        stamps_follow_arrival(kept),
        forall|j: int| 0 <= j < kept.len() ==> #[trigger] kept[j].2 < stored,
        forall|j: int| 0 <= j < kept.len() ==> #[trigger] kept[j].0 <= last_stamp,
        e.2 == stored,
        last_stamp <= e.0,
    ensures
        stamps_follow_arrival(kept.insert(i, e)),
        forall|j: int| 0 <= j < kept.len() + 1 ==> #[trigger] kept.insert(i, e)[j].0 <= e.0,
{
    let r = kept.insert(i, e);
    assert forall|j: int| 0 <= j < r.len() implies #[trigger] r[j].0 <= e.0 by {
        if j < i {
            assert(r[j] == kept[j]);
        } else if j > i {
            assert(r[j] == kept[j - 1]);
        }
    }
    assert forall|a: int, b: int|
        0 <= a < r.len() && 0 <= b < r.len() && #[trigger] r[a].2 < #[trigger] r[b].2 implies r[a].0
        <= r[b].0 by {
        let oa = if a < i { a } else { a - 1 };
        let ob = if b < i { b } else { b - 1 };
        if a == i {
            assert(r[b] == kept[ob]);
        } else if b == i {
            assert(r[a] == kept[oa]);
        } else {
            assert(r[a] == kept[oa] && r[b] == kept[ob]);
        }
    }
}

/// After placing an entry, every time stamp is at or below the greater of the
/// old bound and the new entry's stamp.
proof fn lemma_insert_bounds_stamps(kept: Seq<MemoryEntry>, e: MemoryEntry, i: int, last_stamp: u64)
    requires
        0 <= i <= kept.len(),
        forall|j: int| 0 <= j < kept.len() ==> #[trigger] kept[j].0 <= last_stamp,
    ensures
        forall|j: int|
            0 <= j < kept.len() + 1 ==> #[trigger] kept.insert(i, e)[j].0 <= stamp_after(
                e.0,
                last_stamp,
            ),
{
    let r = kept.insert(i, e);
    assert forall|j: int| 0 <= j < r.len() implies #[trigger] r[j].0 <= stamp_after(e.0, last_stamp) by {
        if j < i {
            assert(r[j] == kept[j]);
        } else if j > i {
            assert(r[j] == kept[j - 1]);
        }
    }
}

/// The messages of a window step are the window step of the messages.
proof fn lemma_entry_messages_slide(s: Seq<MemoryEntry>, e: MemoryEntry, max_nodes: nat)
    ensures
        entry_messages(slide(s, e, max_nodes)) == slide(entry_messages(s), e.3, max_nodes),
{
    assert(entry_messages(slide(s, e, max_nodes)) =~= slide(entry_messages(s), e.3, max_nodes));
}

impl MemoryNode {
    /// A childless node for `message`, stamped with the clock reading `nanos`
    /// and the insertion number `order`. A message without a score gets
    /// `NEUTRAL_SCORE`.
    pub fn new(message: Messages, score: Option<u32>, nanos: u64, order: u64) -> (node: Self)
        ensures
            node.timestamp == nanos,
            node.score == match score {
                Some(s) => s,
                None => NEUTRAL_SCORE,
            },
            node.order == order,
            node.message == message,
            node.left.is_none(),
            node.right.is_none(),
    {
        MemoryNode {
            timestamp: nanos,
            score: score.unwrap_or(NEUTRAL_SCORE),
            order,
            message,
            left: None,
            right: None,
        }
    }

    /// The key by which `strategy` orders this node: its time stamp or its
    /// score key.
    pub fn get_key(&self, strategy: MemorySortStrategy) -> (key: u64)
        ensures
            key == entry_key(entry_of(*self), strategy),
    {
        match strategy {
            MemorySortStrategy::TimeStamp => self.timestamp,
            MemorySortStrategy::Score => self.score as u64,
        }
    }
}

/// The latest messages of a conversation, at most `max_nodes` of them (at
/// least one once anything was stored), in the order of their keys.
pub struct ShortTermMemory {
    root: Option<Box<MemoryNode>>,
    strategy: MemorySortStrategy,
    max_nodes: usize,
    current_count: usize,
    stored: u64,
    /// The greatest time stamp given so far.
    last_stamp: u64,
    /// Every message stored so far, in the order of storing.
    stored_messages: Ghost<Seq<Messages>>,
    /// Whether every message got a time stamp no earlier than all before it.
    in_order: Ghost<bool>,
}

impl View for ShortTermMemory {
    type V = Seq<MemoryEntry>;

    /// The stored entries, in order.
    closed spec fn view(&self) -> Seq<MemoryEntry> {
        node_entries(self.root)
    }
}

impl ShortTermMemory {
    /// The invariant kept by every operation: the tree is a search tree, the
    /// count is its size, its insertion numbers are distinct and below the
    /// next one, time stamps lie at or below the greatest one given; and while
    /// every message was stamped no earlier than those before it, time stamps
    /// follow the order of storing and, under the time-stamp strategy, the
    /// messages are the latest ones stored.
    #[verifier::type_invariant]
    closed spec fn wf(&self) -> bool {
        &&& forall|j: int|
            0 <= j < node_entries(self.root).len() ==> #[trigger] node_entries(self.root)[j].0
                <= self.last_stamp
        &&& self.in_order@ ==> stamps_follow_arrival(node_entries(self.root))
        &&& self.in_order@ && self.strategy is TimeStamp ==> entry_messages(node_entries(self.root))
            == latest(self.stored_messages@, window_capacity(self.max_nodes as nat))
        &&& is_search_tree(self.root, self.strategy)
        &&& self.current_count == node_entries(self.root).len()
        &&& orders_distinct(node_entries(self.root))
        &&& ties_in_arrival_order(node_entries(self.root), self.strategy)
        &&& forall|j: int|
            0 <= j < node_entries(self.root).len() ==> #[trigger] node_entries(self.root)[j].2
                < self.stored
        &&& self.current_count <= window_capacity(self.max_nodes as nat)
    }

    /// The `max_nodes` the memory was built with.
    pub closed spec fn max_nodes(&self) -> nat {
        self.max_nodes as nat
    }

    /// The greatest time stamp given so far (0 before any).
    pub closed spec fn last_stamp(&self) -> u64 {
        self.last_stamp
    }

    /// Every message stored so far, in the order of storing.
    pub closed spec fn stored_messages(&self) -> Seq<Messages> {
        self.stored_messages@
    }

    /// Whether every message was stamped no earlier than all stored before
    /// it. `new` starts so and `store` keeps it so; `store_at` with a clock
    /// reading below `last_stamp()` ends it.
    pub closed spec fn stamped_in_order(&self) -> bool {
        self.in_order@
    }

    /// The strategy that orders the memory.
    pub closed spec fn strategy(&self) -> MemorySortStrategy {
        self.strategy
    }

    /// How many messages were stored so far; it numbers the next one.
    pub closed spec fn stored_so_far(&self) -> u64 {
        self.stored
    }

    /// The entries that stay when one more message arrives at a memory built
    /// with `max_nodes`: all, or all but the first when it is full.
    pub open spec fn trimmed(s: Seq<MemoryEntry>, max_nodes: nat) -> Seq<MemoryEntry> {
        if s.len() >= max_nodes && s.len() > 0 {
            s.drop_first()
        } else {
            s
        }
    }

    /// An empty memory that keeps at most `max_nodes` messages, ordered by
    /// `strategy` (by time stamp when none is given).
    pub fn new(max_nodes: usize, strategy: Option<MemorySortStrategy>) -> (memory: Self)
        ensures
            memory@ == Seq::<MemoryEntry>::empty(),
            memory.max_nodes() == max_nodes,
            memory.strategy() == match strategy {
                Some(s) => s,
                None => MemorySortStrategy::TimeStamp,
            },
            memory.stored_so_far() == 0,
            memory.last_stamp() == 0,
            memory.stored_messages() == Seq::<Messages>::empty(),
            memory.stamped_in_order(),
    {
        let strategy = match strategy {
            Some(s) => s,
            None => MemorySortStrategy::TimeStamp,
        };
        proof {
            assert(entry_messages(node_entries(None)) =~= Seq::<Messages>::empty());
        }
        ShortTermMemory {
            root: None,
            strategy,
            max_nodes,
            current_count: 0,
            stored: 0,
            last_stamp: 0,
            stored_messages: Ghost(Seq::empty()),
            in_order: Ghost(true),
        }
    }

    /// Stores `message` with an optional score key, reading the clock for its
    /// time stamp (a clock that reads before 1970 counts as 0, and one that
    /// reads earlier than the last stamp given counts as that stamp, so that a
    /// message stored later is never stamped earlier). When the memory already
    /// holds `max_nodes` messages or more, the one that goes first leaves.
    pub fn store(&mut self, message: Messages, score: Option<u32>)
        requires
            old(self).stored_so_far() < u64::MAX,
        ensures
            exists|reading: u64|
                final(self)@ == sorted_insert(
                    Self::trimmed(old(self)@, old(self).max_nodes()),
                    #[trigger] stored_entry(
                        stamp_after(reading, old(self).last_stamp()),
                        score,
                        old(self).stored_so_far(),
                        message,
                    ),
                    old(self).strategy(),
                ) && final(self).last_stamp() == stamp_after(reading, old(self).last_stamp()),
            old(self).last_stamp() <= final(self).last_stamp(),
            forall|j: int|
                0 <= j < final(self)@.len() ==> #[trigger] final(self)@[j].0 <= final(self).last_stamp(),
            final(self).stored_messages() == old(self).stored_messages().push(message),
            final(self).stamped_in_order() == old(self).stamped_in_order(),
            old(self).strategy() is TimeStamp ==> entry_messages(final(self)@) == slide(
                entry_messages(old(self)@),
                message,
                old(self).max_nodes(),
            ),
            sorted_by(final(self)@, final(self).strategy()),
            orders_distinct(final(self)@),
            forall|j: int|
                0 <= j < final(self)@.len() ==> #[trigger] final(self)@[j].2
                    < final(self).stored_so_far(),
            final(self).max_nodes() == old(self).max_nodes(),
            final(self).strategy() == old(self).strategy(),
            final(self).stored_so_far() == old(self).stored_so_far() + 1,
            final(self)@.len() <= window_capacity(final(self).max_nodes()),
            ties_in_arrival_order(final(self)@, final(self).strategy()),
            final(self).stamped_in_order() ==> stamps_follow_arrival(final(self)@),
            final(self).stamped_in_order() && final(self).strategy() is TimeStamp ==> entry_messages(
                final(self)@,
            ) == latest(final(self).stored_messages(), window_capacity(final(self).max_nodes())),
    {
        proof {
            use_type_invariant(&*self);
        }
        let reading = match nanos_since_epoch() {
            Some(n) => n,
            None => 0,
        };
        let nanos = if reading < self.last_stamp {
            self.last_stamp
        } else {
            reading
        };
        let ghost old_entries = self@;
        self.store_at(message, score, nanos);
        proof {
            assert(stamp_after(nanos, old(self).last_stamp()) == nanos);
            assert(stamp_after(reading, old(self).last_stamp()) == nanos);
            if old(self).strategy() is TimeStamp {
                lemma_entry_messages_slide(
                    old_entries,
                    stored_entry(nanos, score, old(self).stored_so_far(), message),
                    old(self).max_nodes(),
                );
            }
        }
    }

    /// Stores `message` as `store` does, with `nanos` as the clock reading.
    #[verifier::rlimit(40)]
    pub fn store_at(&mut self, message: Messages, score: Option<u32>, nanos: u64)
        requires
            old(self).stored_so_far() < u64::MAX,
        ensures
            final(self)@ == sorted_insert(
                Self::trimmed(old(self)@, old(self).max_nodes()),
                stored_entry(nanos, score, old(self).stored_so_far(), message),
                old(self).strategy(),
            ),
            final(self).last_stamp() == stamp_after(nanos, old(self).last_stamp()),
            final(self).stored_messages() == old(self).stored_messages().push(message),
            final(self).stamped_in_order() == (old(self).stamped_in_order() && old(self).last_stamp() <= nanos),
            old(self).strategy() is TimeStamp && old(self).last_stamp() <= nanos ==> final(self)@
                == slide(
                old(self)@,
                stored_entry(nanos, score, old(self).stored_so_far(), message),
                old(self).max_nodes(),
            ),
            sorted_by(final(self)@, final(self).strategy()),
            orders_distinct(final(self)@),
            forall|j: int|
                0 <= j < final(self)@.len() ==> #[trigger] final(self)@[j].2
                    < final(self).stored_so_far(),
            final(self).max_nodes() == old(self).max_nodes(),
            final(self).strategy() == old(self).strategy(),
            final(self).stored_so_far() == old(self).stored_so_far() + 1,
            final(self)@.len() <= window_capacity(final(self).max_nodes()),
            ties_in_arrival_order(final(self)@, final(self).strategy()),
            forall|j: int|
                0 <= j < final(self)@.len() ==> #[trigger] final(self)@[j].0 <= final(self).last_stamp(),
            final(self).stamped_in_order() ==> stamps_follow_arrival(final(self)@),
            final(self).stamped_in_order() && final(self).strategy() is TimeStamp ==> entry_messages(
                final(self)@,
            ) == latest(final(self).stored_messages(), window_capacity(final(self).max_nodes())),
    {
        proof {
            use_type_invariant(&*self);
        }
        let mut taken = ShortTermMemory::new(self.max_nodes, None);
        std::mem::swap(&mut taken, self);
        proof {
            use_type_invariant(&taken);
        }
        let ShortTermMemory {
            root,
            strategy,
            max_nodes,
            current_count,
            stored,
            last_stamp,
            stored_messages,
            in_order,
        } = taken;
        let ghost before = node_entries(root);
        let (root, current_count) = if current_count >= max_nodes {
            Self::remove_oldest(root, current_count)
        } else {
            (root, current_count)
        };
        let ghost kept = node_entries(root);
        proof {
            lemma_sorted_parts_kept(before, kept, stored, last_stamp, strategy);
            lemma_search_tree_sorted(root, strategy);
        }
        let ghost m = message;
        let ghost still_in_order: bool = in_order@ && last_stamp <= nanos;
        let new_node = Box::new(MemoryNode::new(message, score, nanos, stored));
        let ghost e = entry_of(*new_node);
        let ghost gnew = new_node;
        let new_root = match root {
            None => {
                proof {
                    assert(node_entries(new_node.left) =~= Seq::<MemoryEntry>::empty());
                    assert(node_entries(new_node.right) =~= Seq::<MemoryEntry>::empty());
                    assert(node_entries(Some(new_node)) =~= seq![e]);
                    assert(kept =~= Seq::<MemoryEntry>::empty());
                    assert(seq![e] =~= kept.insert(0, e));
                    assert(splits_at(kept, e, 0, strategy));
                    assert(is_search_tree(new_node.left, strategy) && is_search_tree(
                        new_node.right,
                        strategy,
                    ));
                    assert(is_search_tree(Some(new_node), strategy));
                }
                new_node
            },
            Some(mut r) => {
                let ghost old_r = r;
                Self::insert_recursive(&mut r, new_node, strategy);
                proof {
                    lemma_leaf_insert(old_r, gnew, strategy);
                }
                r
            },
        };
        proof {
            let i = choose|i: int|
                splits_at(kept, e, i, strategy) && node_entries(Some(new_root)) == kept.insert(i, e);
            lemma_search_tree_sorted(root, strategy);
            lemma_split_insert_is_sorted_insert(kept, e, i, strategy);
            lemma_insert_keeps_orders(kept, e, i, stored);
            lemma_insert_keeps_arrival_order(kept, e, i, strategy);
            lemma_insert_bounds_stamps(kept, e, i, last_stamp);
            if in_order@ && last_stamp <= nanos {
                lemma_insert_keeps_stamps(kept, e, i, stored, last_stamp);
            }
            if in_order@ && last_stamp <= nanos && strategy is TimeStamp {
                lemma_sorted_insert_at_end(kept, e, strategy);
                lemma_entry_messages_slide(before, e, max_nodes as nat);
                lemma_slide_latest(stored_messages@, m, max_nodes as nat);
            }
        }
        *self = ShortTermMemory {
            root: Some(new_root),
            strategy,
            max_nodes,
            current_count: current_count + 1,
            stored: stored + 1,
            last_stamp: if nanos < last_stamp {
                last_stamp
            } else {
                nanos
            },
            stored_messages: Ghost(stored_messages@.push(m)),
            in_order: Ghost(still_in_order),
        };
    }

    /// Hangs the tree `new_node` below `current` as a search-tree insertion:
    /// to the left of a node whose key is above its own, else to the right
    /// (so after equal keys), into the first empty child slot reached. No node is moved; when `current` is a search tree and
    /// `new_node` has no children, the result is a search tree whose in-order
    /// entries are the old ones with the new entry at its split point.
    pub fn insert_recursive(
        current: &mut Box<MemoryNode>,
        new_node: Box<MemoryNode>,
        strategy: MemorySortStrategy,
    )
        ensures
            *final(current) == leaf_insert(*old(current), new_node, strategy),
            is_search_tree(Some(*old(current)), strategy) && is_leaf(new_node) ==> {
                &&& is_search_tree(Some(*final(current)), strategy)
                &&& exists|i: int|
                    splits_at(node_entries(Some(*old(current))), entry_of(*new_node), i, strategy)
                        && node_entries(Some(*final(current))) == node_entries(
                        Some(*old(current)),
                    ).insert(i, entry_of(*new_node))
            },
        decreases *old(current),
    {
        let ghost t = *current;
        let ghost g = new_node;
        let new_key = new_node.get_key(strategy);
        let current_key = current.get_key(strategy);
        if new_key < current_key {
            match current.left.take() {
                Some(mut left) => {
                    Self::insert_recursive(&mut left, new_node, strategy);
                    current.left = Some(left);
                },
                None => {
                    current.left = Some(new_node);
                },
            }
        } else {
            match current.right.take() {
                Some(mut right) => {
                    Self::insert_recursive(&mut right, new_node, strategy);
                    current.right = Some(right);
                },
                None => {
                    current.right = Some(new_node);
                },
            }
        }
        proof {
            assert(*current == leaf_insert(t, g, strategy));
            if is_search_tree(Some(t), strategy) && is_leaf(g) {
                lemma_leaf_insert(t, g, strategy);
            }
        }
    }

    /// A copy of the stored messages, in order. What the memory keeps holds
    /// of every memory: its entries are sorted by key, equal keys stand in the
    /// order of storing, insertion numbers are distinct and below the next
    /// one, and there are no more than the window holds; while messages were
    /// stamped in order (always, for a memory filled by `store`), a message
    /// stored later never has an earlier time stamp and, under the time-stamp
    /// strategy, the history is the latest messages stored, oldest first.
    pub fn get_ordered_history(&self) -> (history: Vec<Messages>)
        ensures
            history@ == entry_messages(self@),
            sorted_by(self@, self.strategy()),
            ties_in_arrival_order(self@, self.strategy()),
            orders_distinct(self@),
            forall|j: int| 0 <= j < self@.len() ==> #[trigger] self@[j].2 < self.stored_so_far(),
            self@.len() <= window_capacity(self.max_nodes()),
            forall|j: int| 0 <= j < self@.len() ==> #[trigger] self@[j].0 <= self.last_stamp(),
            self.stamped_in_order() ==> stamps_follow_arrival(self@),
            self.stamped_in_order() && self.strategy() is TimeStamp ==> history@ == latest(
                self.stored_messages(),
                window_capacity(self.max_nodes()),
            ),
    {
        proof {
            use_type_invariant(self);
            lemma_search_tree_sorted(self.root, self.strategy);
        }
        let mut history: Vec<Messages> = Vec::new();
        Self::in_order_traversal(&self.root, &mut history);
        proof {
            assert(history@ =~= entry_messages(node_entries(self.root)));
        }
        history
    }

    /// Appends the messages of `node`, in order, to `history`.
    fn in_order_traversal(node: &Option<Box<MemoryNode>>, history: &mut Vec<Messages>)
        ensures
            final(history)@ == old(history)@ + entry_messages(node_entries(*node)),
        decreases *node,
    {
        if let Some(n) = node {
            Self::in_order_traversal(&n.left, history);
            history.push(n.message.duplicate());
            Self::in_order_traversal(&n.right, history);
            proof {
                lemma_entry_messages_split(node_entries(n.left), entry_of(**n), node_entries(n.right));
            }
        } else {
            assert(entry_messages(node_entries(*node)) =~= Seq::<Messages>::empty());
        }
    }

    /// Drops the entry that goes first from the tree `root` of `current_count`
    /// entries, if there is one; returns the tree left and its count.
    fn remove_oldest(root: Option<Box<MemoryNode>>, current_count: usize) -> (rest: (
        Option<Box<MemoryNode>>,
        usize,
    ))
        requires
            current_count == node_entries(root).len(),
        ensures
            node_entries(rest.0) == if node_entries(root).len() > 0 {
                node_entries(root).drop_first()
            } else {
                node_entries(root)
            },
            rest.1 == node_entries(rest.0).len(),
            forall|strategy: MemorySortStrategy|
                is_search_tree(root, strategy) ==> #[trigger] is_search_tree(rest.0, strategy),
    {
        if root.is_none() {
            return (root, current_count);
        }
        let new_root = Self::remove_min(root);
        (new_root, current_count - 1)
    }

    /// The tree `node` without its leftmost node, whose right subtree takes
    /// its place; every other node and link stays. Its in-order entries lose
    /// the first one, and a search tree stays a search tree.
    fn remove_min(node: Option<Box<MemoryNode>>) -> (rest: Option<Box<MemoryNode>>)
        ensures
            rest == without_leftmost(node),
            node_entries(rest) == if node_entries(node).len() > 0 {
                node_entries(node).drop_first()
            } else {
                node_entries(node)
            },
            forall|strategy: MemorySortStrategy|
                is_search_tree(node, strategy) ==> #[trigger] is_search_tree(rest, strategy),
        decreases node,
    {
        proof {
            assert forall|strategy: MemorySortStrategy|
                is_search_tree(node, strategy) implies #[trigger] is_search_tree(
                without_leftmost(node),
                strategy,
            ) by {
                lemma_without_leftmost(node, strategy);
            }
            lemma_without_leftmost(node, MemorySortStrategy::TimeStamp);
        }
        match node {
            None => None,
            Some(n) => {
                let mut n = n;
                if n.left.is_none() {
                    n.right.take()
                } else {
                    let left = n.left.take();
                    n.left = Self::remove_min(left);
                    Some(n)
                }
            },
        }
    }
}

} // verus!
