//! Short-term memory kept in a treap: a search tree ordered by insertion
//! number, balanced by random priorities kept in heap order.

use vstd::prelude::*;
use crate::client::Messages;
use crate::window::{latest, lemma_latest_fits, lemma_slide_latest, slide, window_capacity};
use vstd::arithmetic::power2::{pow2, lemma_pow2_unfold, lemma_pow2_strictly_increases, lemma2_to64};

verus! {

/// One node of the treap.
struct TreapNode {
    /// The search key: the position of the message in the order of storing.
    insert_order: u64,
    /// The heap key: random; a parent's is never below its children's.
    priority: u32,
    message: Messages,
    left: Option<Box<TreapNode>>,
    right: Option<Box<TreapNode>>,
}

/// What a treap node holds of its own: insertion number, priority, message.
pub type TreapEntry = (u64, u32, Messages);

/// The (key, priority, message) triples of a tree, in order.
spec fn entries(t: Option<Box<TreapNode>>) -> Seq<TreapEntry>
    decreases t,
{
    match t {
        None => Seq::empty(),
        Some(n) => entries(n.left) + seq![(n.insert_order, n.priority, n.message)] + entries(n.right),
    }
}

/// The messages of a tree, in order.
spec fn messages(t: Option<Box<TreapNode>>) -> Seq<Messages>
    decreases t,
{
    match t {
        None => Seq::empty(),
        Some(n) => messages(n.left) + seq![n.message] + messages(n.right),
    }
}

/// Every priority in `t` is at most `p`.
spec fn prio_le(t: Option<Box<TreapNode>>, p: u32) -> bool
    decreases t,
{
    match t {
        None => true,
        Some(n) => n.priority <= p && prio_le(n.left, p) && prio_le(n.right, p),
    }
}

/// Heap order: no node has a priority above its parent's.
spec fn heap(t: Option<Box<TreapNode>>) -> bool
    decreases t,
{
    match t {
        None => true,
        Some(n) => prio_le(n.left, n.priority) && prio_le(n.right, n.priority) && heap(n.left)
            && heap(n.right),
    }
}

/// The height of a tree: the number of nodes on its longest downward path.
spec fn tree_height_of(t: Option<Box<TreapNode>>) -> nat
    decreases t,
{
    match t {
        None => 0,
        Some(n) => {
            let l = tree_height_of(n.left);
            let r = tree_height_of(n.right);
            1 + if l >= r {
                l
            } else {
                r
            }
        },
    }
}

/// Keys never decrease along `s`.
spec fn keys_sorted(s: Seq<TreapEntry>) -> bool {
    forall|i: int, j: int| 0 <= i < j < s.len() ==> #[trigger] s[i].0 <= #[trigger] s[j].0
}

/// Keys strictly increase along `s`.
spec fn keys_increasing(s: Seq<TreapEntry>) -> bool {
    forall|i: int, j: int| 0 <= i < j < s.len() ==> #[trigger] s[i].0 < #[trigger] s[j].0
}

/// Position `i` parts `s` into the keys up to `k` and those above it.
spec fn splits_at(s: Seq<TreapEntry>, k: u64, i: int) -> bool {
    &&& 0 <= i <= s.len()
    &&& forall|j: int| 0 <= j < i ==> #[trigger] s[j].0 <= k
    &&& forall|j: int| i <= j < s.len() ==> #[trigger] s[j].0 > k
}

proof fn lemma_prio_le_mono(t: Option<Box<TreapNode>>, p: u32, q: u32)
    requires
        prio_le(t, p),
        p <= q,
    ensures
        prio_le(t, q),
    decreases t,
{
    if let Some(n) = t {
        lemma_prio_le_mono(n.left, p, q);
        lemma_prio_le_mono(n.right, p, q);
    }
}

proof fn lemma_messages_are_entries(t: Option<Box<TreapNode>>)
    ensures
        messages(t) == entries(t).map_values(|e: TreapEntry| e.2),
    decreases t,
{
    if let Some(n) = t {
        lemma_messages_are_entries(n.left);
        lemma_messages_are_entries(n.right);
        assert(messages(t) =~= entries(t).map_values(|e: TreapEntry| e.2));
    } else {
        assert(messages(t) =~= entries(t).map_values(|e: TreapEntry| e.2));
    }
}

proof fn lemma_height_le_size(t: Option<Box<TreapNode>>)
    ensures
        tree_height_of(t) <= entries(t).len(),
    decreases t,
{
    if let Some(n) = t {
        lemma_height_le_size(n.left);
        lemma_height_le_size(n.right);
    }
}

/// The height of a node is one more than the greater height of its children.
proof fn lemma_height_parts(t: Option<Box<TreapNode>>)
    ensures
        t matches Some(n) ==> tree_height_of(t) >= 1 + tree_height_of(n.left) && tree_height_of(t)
            >= 1 + tree_height_of(n.right) && (tree_height_of(t) == 1 + tree_height_of(n.left)
            || tree_height_of(t) == 1 + tree_height_of(n.right)),
        t is None ==> tree_height_of(t) == 0,
{
}

/// The subtrees of a sorted tree are sorted, and the root's key lies between them.
proof fn lemma_sorted_parts(n: Box<TreapNode>)
    requires
        keys_sorted(entries(Some(n))),
    ensures
        keys_sorted(entries(n.left)),
        keys_sorted(entries(n.right)),
        forall|j: int| 0 <= j < entries(n.left).len() ==> #[trigger] entries(n.left)[j].0 <= n.insert_order,
        forall|j: int| 0 <= j < entries(n.right).len() ==> #[trigger] entries(n.right)[j].0 >= n.insert_order,
{
    let a = entries(n.left);
    let b = entries(n.right);
    let s = entries(Some(n));
    assert(s == a + seq![(n.insert_order, n.priority, n.message)] + b);
    assert forall|i: int, j: int| 0 <= i < j < a.len() implies #[trigger] a[i].0 <= #[trigger] a[j].0 by {
        assert(s[i] == a[i] && s[j] == a[j]);
    }
    assert forall|i: int, j: int| 0 <= i < j < b.len() implies #[trigger] b[i].0 <= #[trigger] b[j].0 by {
        assert(s[a.len() + 1 + i] == b[i] && s[a.len() + 1 + j] == b[j]);
    }
    assert forall|j: int| 0 <= j < a.len() implies #[trigger] a[j].0 <= n.insert_order by {
        assert(s[j] == a[j] && s[a.len() as int].0 == n.insert_order);
    }
    assert forall|j: int| 0 <= j < b.len() implies #[trigger] b[j].0 >= n.insert_order by {
        assert(s[a.len() + 1 + j] == b[j] && s[a.len() as int].0 == n.insert_order);
    }
}

impl TreapNode {
    /// A node without children.
    fn new(message: Messages, insert_order: u64, priority: u32) -> (node: Box<TreapNode>)
        ensures
            node.insert_order == insert_order,
            node.priority == priority,
            node.message == message,
            node.left.is_none(),
            node.right.is_none(),
    {
        Box::new(TreapNode { insert_order, priority, message, left: None, right: None })
    }
}

/// Lifts the right child of `node` above it (a left rotation).
fn rotate_left(node: Box<TreapNode>) -> (lifted: Box<TreapNode>)
    requires
        node.right.is_some(),
    ensures
        ({
            let r = node.right.unwrap();
            &&& lifted.insert_order == r.insert_order
            &&& lifted.priority == r.priority
            &&& lifted.message == r.message
            &&& lifted.right == r.right
            &&& lifted.left matches Some(l) && l.insert_order == node.insert_order && l.priority
                == node.priority && l.message == node.message && l.left == node.left && l.right
                == r.left
        }),
        entries(Some(lifted)) == entries(Some(node)),
{
    let ghost n0 = node;
    let mut node = node;
    let mut right = node.right.take().unwrap();
    node.right = right.left.take();
    right.left = Some(node);
    proof {
        let r0 = n0.right.unwrap();
        let l = right.left.unwrap();
        assert(entries(Some(n0)) == entries(n0.left) + seq![(n0.insert_order, n0.priority, n0.message)]
            + entries(Some(r0)));
        assert(entries(Some(r0)) == entries(r0.left) + seq![(r0.insert_order, r0.priority, r0.message)]
            + entries(r0.right));
        assert(entries(Some(l)) == entries(l.left) + seq![(l.insert_order, l.priority, l.message)] + entries(
            l.right,
        ));
        assert(entries(Some(right)) =~= entries(Some(n0)));
    }
    right
}

/// Lifts the left child of `node` above it (a right rotation).
fn rotate_right(node: Box<TreapNode>) -> (lifted: Box<TreapNode>)
    requires
        node.left.is_some(),
    ensures
        ({
            let l = node.left.unwrap();
            &&& lifted.insert_order == l.insert_order
            &&& lifted.priority == l.priority
            &&& lifted.message == l.message
            &&& lifted.left == l.left
            &&& lifted.right matches Some(r) && r.insert_order == node.insert_order && r.priority
                == node.priority && r.message == node.message && r.left == l.right && r.right
                == node.right
        }),
        entries(Some(lifted)) == entries(Some(node)),
{
    let ghost n0 = node;
    let mut node = node;
    let mut left = node.left.take().unwrap();
    node.left = left.right.take();
    left.right = Some(node);
    proof {
        let l0 = n0.left.unwrap();
        let r = left.right.unwrap();
        assert(entries(Some(n0)) == entries(Some(l0)) + seq![(n0.insert_order, n0.priority, n0.message)]
            + entries(n0.right));
        assert(entries(Some(l0)) == entries(l0.left) + seq![(l0.insert_order, l0.priority, l0.message)]
            + entries(l0.right));
        assert(entries(Some(r)) == entries(r.left) + seq![(r.insert_order, r.priority, r.message)] + entries(
            r.right,
        ));
        assert(entries(Some(left)) =~= entries(Some(n0)));
    }
    left
}

/// Placing an entry with a new key at its split point keeps keys strictly
/// increasing.
proof fn lemma_insert_increasing(s: Seq<TreapEntry>, x: TreapEntry, i: int)
    requires
        keys_increasing(s),
        splits_at(s, x.0, i),
        forall|j: int| 0 <= j < s.len() ==> #[trigger] s[j].0 != x.0,
    ensures
        keys_increasing(s.insert(i, x)),
{
    let r = s.insert(i, x);
    assert forall|a: int, b: int| 0 <= a < b < r.len() implies #[trigger] r[a].0 < #[trigger] r[b].0 by {
        if b < i {
            assert(r[a] == s[a] && r[b] == s[b]);
        } else if b == i {
            assert(r[a] == s[a]);
            assert(s[a].0 != x.0);
        } else if a < i {
            assert(r[a] == s[a] && r[b] == s[b - 1]);
        } else if a == i {
            assert(r[b] == s[b - 1]);
        } else {
            assert(r[a] == s[a - 1] && r[b] == s[b - 1]);
        }
    }
}

/// Inserts the childless `new_node` into `subtree` by its key, after every
/// key that is not above it, then rotates it up while its priority is above
/// its parent's.
fn insert(subtree: Option<Box<TreapNode>>, new_node: Box<TreapNode>) -> (tree: Box<TreapNode>)
    requires
        new_node.left.is_none(),
        new_node.right.is_none(),
        keys_sorted(entries(subtree)),
    ensures
        exists|i: int|
            splits_at(entries(subtree), new_node.insert_order, i) && entries(Some(tree))
                == entries(subtree).insert(i, (new_node.insert_order, new_node.priority, new_node.message)),
        heap(subtree) ==> heap(Some(tree)),
        forall|q: u32| prio_le(subtree, q) ==> prio_le(tree.left, q) && prio_le(tree.right, q),
        heap(subtree) ==> tree_height_of(Some(tree)) <= tree_height_of(subtree) + 1,
        heap(subtree) && (subtree is None || new_node.priority > subtree.unwrap().priority) ==> {
            &&& tree.insert_order == new_node.insert_order
            &&& tree.priority == new_node.priority
            &&& tree.message == new_node.message
            &&& tree_height_of(tree.left) <= tree_height_of(subtree)
            &&& tree_height_of(tree.right) <= tree_height_of(subtree)
        },
        heap(subtree) && subtree is Some && new_node.priority <= subtree.unwrap().priority ==> {
            &&& tree.insert_order == subtree.unwrap().insert_order
            &&& tree.priority == subtree.unwrap().priority
            &&& tree.message == subtree.unwrap().message
        },
        heap(subtree) && priorities_distinct(entries(Some(tree))) ==> strict_heap(Some(tree)),
        keys_increasing(entries(subtree)) && (forall|j: int|
            0 <= j < entries(subtree).len() ==> #[trigger] entries(subtree)[j].0
                != new_node.insert_order) ==> keys_increasing(entries(Some(tree))),
    decreases subtree,
{
    let ghost k = new_node.insert_order;
    let ghost x = (new_node.insert_order, new_node.priority, new_node.message);
    let ghost s = entries(subtree);
    let ghost new_priority = new_node.priority;
    let tree = match subtree {
        None => {
            proof {
                assert(splits_at(s, k, 0));
                assert(entries(Some(new_node)) =~= s.insert(0, x));
                assert(tree_height_of(new_node.left) == 0 && tree_height_of(new_node.right) == 0);
            }
            new_node
        },
        Some(node) => {
            let ghost t = node;
            proof {
                lemma_sorted_parts(node);
            }
            let ghost a = entries(t.left);
            let ghost b = entries(t.right);
            let ghost nx = (t.insert_order, t.priority, t.message);
            assert(s == a + seq![nx] + b);
            let mut node = node;
            if new_node.insert_order < node.insert_order {
                let left = node.left.take();
                let new_left = insert(left, new_node);
                let ghost nl = new_left;
                node.left = Some(new_left);
                proof {
                    let i = choose|i: int| splits_at(a, k, i) && entries(Some(nl)) == a.insert(i, x);
                    assert(splits_at(s, k, i)) by {
                        assert forall|j: int| i <= j < s.len() implies #[trigger] s[j].0 > k by {
                            if j < a.len() {
                                assert(s[j] == a[j]);
                            } else if j > a.len() {
                                assert(s[j] == b[j - a.len() - 1]);
                            }
                        }
                        assert forall|j: int| 0 <= j < i implies #[trigger] s[j].0 <= k by {
                            assert(s[j] == a[j]);
                        }
                    }
                    assert(entries(Some(node)) =~= s.insert(i, x));
                }
                if node.left.as_ref().unwrap().priority > node.priority {
                    let lifted = rotate_right(node);
                    proof {
                        let r = lifted.right.unwrap();
                        assert(lifted.left == nl.left);
                        if heap(subtree) {
                            lemma_prio_le_mono(t.right, t.priority, nl.priority);
                            assert(prio_le(r.left, t.priority));
                            assert(prio_le(Some(r), nl.priority));
                            assert(heap(Some(r)));
                        }
                        assert forall|q: u32| prio_le(subtree, q) implies prio_le(lifted.left, q)
                            && prio_le(lifted.right, q) by {
                            assert(prio_le(t.left, q));
                            assert(prio_le(r.left, q));
                        }
                        if heap(subtree) {
                            if t.left is Some && new_priority <= t.left.unwrap().priority {
                                assert(prio_le(t.left, t.priority));
                            }
                            lemma_height_parts(subtree);
                            lemma_height_parts(Some(nl));
                            lemma_height_parts(Some(r));
                            lemma_height_parts(Some(lifted));
                        }
                    }
                    lifted
                } else {
                    proof {
                        if heap(subtree) {
                            assert(prio_le(Some(nl), t.priority));
                        }
                        assert forall|q: u32| prio_le(subtree, q) implies prio_le(node.left, q)
                            && prio_le(node.right, q) by {
                            assert(prio_le(t.left, q));
                            assert(prio_le(nl.left, q) && prio_le(nl.right, q));
                        }
                        if heap(subtree) {
                            if t.left is Some {
                                assert(prio_le(t.left, t.priority));
                            }
                            lemma_height_parts(subtree);
                            lemma_height_parts(Some(nl));
                            lemma_height_parts(Some(node));
                        }
                    }
                    node
                }
            } else {
                let right = node.right.take();
                let new_right = insert(right, new_node);
                let ghost nr = new_right;
                node.right = Some(new_right);
                proof {
                    let i = choose|i: int| splits_at(b, k, i) && entries(Some(nr)) == b.insert(i, x);
                    let w = a.len() + 1 + i;
                    assert(splits_at(s, k, w)) by {
                        assert forall|j: int| 0 <= j < w implies #[trigger] s[j].0 <= k by {
                            if j < a.len() {
                                assert(s[j] == a[j]);
                            } else if j > a.len() {
                                assert(s[j] == b[j - a.len() - 1]);
                            }
                        }
                        assert forall|j: int| w <= j < s.len() implies #[trigger] s[j].0 > k by {
                            assert(s[j] == b[j - a.len() - 1]);
                        }
                    }
                    assert(entries(Some(node)) =~= s.insert(w, x));
                }
                if node.right.as_ref().unwrap().priority > node.priority {
                    let lifted = rotate_left(node);
                    proof {
                        let l = lifted.left.unwrap();
                        assert(lifted.right == nr.right);
                        if heap(subtree) {
                            lemma_prio_le_mono(t.left, t.priority, nr.priority);
                            assert(prio_le(l.right, t.priority));
                            assert(prio_le(Some(l), nr.priority));
                            assert(heap(Some(l)));
                        }
                        assert forall|q: u32| prio_le(subtree, q) implies prio_le(lifted.left, q)
                            && prio_le(lifted.right, q) by {
                            assert(prio_le(t.right, q));
                            assert(prio_le(l.right, q));
                        }
                        if heap(subtree) {
                            if t.right is Some && new_priority <= t.right.unwrap().priority {
                                assert(prio_le(t.right, t.priority));
                            }
                            lemma_height_parts(subtree);
                            lemma_height_parts(Some(nr));
                            lemma_height_parts(Some(l));
                            lemma_height_parts(Some(lifted));
                        }
                    }
                    lifted
                } else {
                    proof {
                        if heap(subtree) {
                            assert(prio_le(Some(nr), t.priority));
                        }
                        assert forall|q: u32| prio_le(subtree, q) implies prio_le(node.left, q)
                            && prio_le(node.right, q) by {
                            assert(prio_le(t.right, q));
                            assert(prio_le(nr.left, q) && prio_le(nr.right, q));
                        }
                        if heap(subtree) {
                            if t.right is Some {
                                assert(prio_le(t.right, t.priority));
                            }
                            lemma_height_parts(subtree);
                            lemma_height_parts(Some(nr));
                            lemma_height_parts(Some(node));
                        }
                    }
                    node
                }
            }
        },
    };
    proof {
        if heap(subtree) && priorities_distinct(entries(Some(tree))) {
            lemma_strict_heap(Some(tree));
        }
        if keys_increasing(s) && (forall|j: int| 0 <= j < s.len() ==> #[trigger] s[j].0 != k) {
            let i = choose|i: int| splits_at(s, k, i) && entries(Some(tree)) == s.insert(i, x);
            lemma_insert_increasing(s, x, i);
        }
    }
    tree
}

/// Dropping the first entry keeps keys strictly increasing.
proof fn lemma_drop_first_increasing(s: Seq<TreapEntry>)
    requires
        keys_increasing(s),
        s.len() > 0,
    ensures
        keys_increasing(s.drop_first()),
{
    let d = s.drop_first();
    assert forall|a: int, b: int| 0 <= a < b < d.len() implies #[trigger] d[a].0 < #[trigger] d[b].0 by {
        assert(d[a] == s[a + 1] && d[b] == s[b + 1]);
    }
}

/// Removes the node with the least key (the leftmost one) from the tree rooted
/// at `node`; returns what is left and the removed node, without children.
fn remove_min(node: Box<TreapNode>) -> (parts: (Option<Box<TreapNode>>, Box<TreapNode>))
    ensures
        entries(parts.0) == entries(Some(node)).drop_first(),
        (parts.1.insert_order, parts.1.priority, parts.1.message) == entries(Some(node))[0],
        parts.1.left.is_none(),
        parts.1.right.is_none(),
        heap(Some(node)) ==> heap(parts.0),
        forall|q: u32| prio_le(Some(node), q) ==> prio_le(parts.0, q),
        keys_increasing(entries(Some(node))) ==> keys_increasing(entries(parts.0)),
    decreases node,
{
    let ghost t = node;
    let mut node = node;
    if node.left.is_none() {
        let right = node.right.take();
        proof {
            assert(entries(t.left) =~= Seq::<TreapEntry>::empty());
            assert(entries(Some(t)) =~= seq![(t.insert_order, t.priority, t.message)] + entries(t.right));
            if keys_increasing(entries(Some(t))) {
                lemma_drop_first_increasing(entries(Some(t)));
            }
        }
        (right, node)
    } else {
        let left = node.left.take().unwrap();
        let (new_left, removed) = remove_min(left);
        node.left = new_left;
        proof {
            let l = t.left.unwrap();
            assert(entries(Some(t)) == entries(Some(l)) + seq![(t.insert_order, t.priority, t.message)]
                + entries(t.right));
            assert(entries(Some(node)) =~= entries(Some(t)).drop_first());
            assert forall|q: u32| prio_le(Some(t), q) implies prio_le(Some(node), q) by {
                assert(prio_le(Some(l), q));
            }
            if heap(Some(t)) {
                assert(prio_le(Some(l), t.priority));
            }
            if keys_increasing(entries(Some(t))) {
                lemma_drop_first_increasing(entries(Some(t)));
            }
        }
        (Some(node), removed)
    }
}

/// Appends the messages of `node`, in order, to `out`.
fn in_order(node: &Option<Box<TreapNode>>, out: &mut Vec<Messages>)
    ensures
        final(out)@ == old(out)@ + messages(*node),
    decreases *node,
{
    if let Some(n) = node {
        in_order(&n.left, out);
        out.push(n.message.duplicate());
        in_order(&n.right, out);
        proof {
            assert(messages(*node) == messages(n.left) + seq![n.message] + messages(n.right));
        }
    }
}

/// The height of the tree rooted at `node`.
fn height(node: &Option<Box<TreapNode>>) -> (h: usize)
    requires
        entries(*node).len() <= usize::MAX,
    ensures
        h == tree_height_of(*node),
    decreases *node,
{
    match node {
        None => 0,
        Some(n) => {
            proof {
                lemma_height_le_size(*node);
                lemma_height_le_size(n.left);
                lemma_height_le_size(n.right);
            }
            let l = height(&n.left);
            let r = height(&n.right);
            1 + if l >= r {
                l
            } else {
                r
            }
        },
    }
}

/// One step of the xorshift32 generator.
pub open spec fn xorshift32(x: u32) -> u32 {
    let a = x ^ (x << 13u32);
    let b = a ^ (a >> 17u32);
    b ^ (b << 5u32)
}

/// The number that `rand_u32` draws (and keeps as the next state) from the
/// state `state` and the varying input `salt`: a zero state is first seeded
/// from the salt. The memory uses the insertion number as the salt, a counter
/// mixed in so that draws do not repeat.
pub open spec fn next_random(state: u32, salt: u32) -> u32 {
    let seed = if state == 0 {
        ((salt as int + 2_463_534_242int) % 0x1_0000_0000int) as u32
    } else {
        state
    };
    xorshift32(seed ^ salt)
}

/// The priority drawn for the message with insertion number `k`: the
/// generator starts at state 0 and draws once per stored message, salted with
/// that message's insertion number.
pub open spec fn draw(k: nat) -> u32
    decreases k,
{
    let prev = if k == 0 {
        0u32
    } else {
        draw((k - 1) as nat)
    };
    next_random(prev, (k as u64) as u32)
}

/// The generator state after `n` draws.
pub open spec fn state_after(n: nat) -> u32 {
    if n == 0 {
        0u32
    } else {
        draw((n - 1) as nat)
    }
}

/// Draws a pseudo-random number from the generator state `state`, mixing in
/// `salt`, and keeps it as the next state. Not for cryptographic use.
pub fn rand_u32(state: &mut u32, salt: u32) -> (r: u32)
    ensures
        r == next_random(*old(state), salt),
        *final(state) == r,
{
    let prev = *state;
    let seed = if prev == 0 {
        salt.wrapping_add(2_463_534_242)
    } else {
        prev
    };
    let mut x = seed ^ salt;
    x ^= x << 13u32;
    x ^= x >> 17u32;
    x ^= x << 5u32;
    *state = x;
    x
}

/// Every priority in `t` is below `p`.
spec fn prio_lt(t: Option<Box<TreapNode>>, p: u32) -> bool
    decreases t,
{
    match t {
        None => true,
        Some(n) => n.priority < p && prio_lt(n.left, p) && prio_lt(n.right, p),
    }
}

/// Strict heap order: every node's priority is below its parent's.
spec fn strict_heap(t: Option<Box<TreapNode>>) -> bool
    decreases t,
{
    match t {
        None => true,
        Some(n) => prio_lt(n.left, n.priority) && prio_lt(n.right, n.priority) && strict_heap(n.left)
            && strict_heap(n.right),
    }
}

/// No two entries of `s` share a priority.
pub open spec fn priorities_distinct(s: Seq<TreapEntry>) -> bool {
    forall|i: int, j: int|
        0 <= i < s.len() && 0 <= j < s.len() && i != j ==> #[trigger] s[i].1 != #[trigger] s[j].1
}

/// The entries that stay when one more message arrives at a memory built with
/// `max_nodes`: all, or all but the oldest when it is full.
pub open spec fn kept_on_store(s: Seq<TreapEntry>, max_nodes: nat) -> Seq<TreapEntry> {
    if s.len() >= max_nodes && s.len() > 0 {
        s.drop_first()
    } else {
        s
    }
}

proof fn lemma_prio_le_distinct(t: Option<Box<TreapNode>>, p: u32)
    requires
        prio_le(t, p),
        forall|j: int| 0 <= j < entries(t).len() ==> #[trigger] entries(t)[j].1 != p,
    ensures
        prio_lt(t, p),
    decreases t,
{
    if let Some(n) = t {
        let a = entries(n.left);
        let b = entries(n.right);
        assert(entries(t) == a + seq![(n.insert_order, n.priority, n.message)] + b);
        assert(entries(t)[a.len() as int].1 == n.priority);
        assert forall|j: int| 0 <= j < a.len() implies #[trigger] a[j].1 != p by {
            assert(entries(t)[j] == a[j]);
        }
        assert forall|j: int| 0 <= j < b.len() implies #[trigger] b[j].1 != p by {
            assert(entries(t)[a.len() + 1 + j] == b[j]);
        }
        lemma_prio_le_distinct(n.left, p);
        lemma_prio_le_distinct(n.right, p);
    }
}

proof fn lemma_strict_heap(t: Option<Box<TreapNode>>)
    requires
        heap(t),
        priorities_distinct(entries(t)),
    ensures
        strict_heap(t),
    decreases t,
{
    if let Some(n) = t {
        let a = entries(n.left);
        let b = entries(n.right);
        let s = entries(t);
        let m = a.len() as int;
        assert(s == a + seq![(n.insert_order, n.priority, n.message)] + b);
        assert(s[m].1 == n.priority);
        assert forall|j: int| 0 <= j < a.len() implies #[trigger] a[j].1 != n.priority by {
            assert(s[j] == a[j]);
        }
        assert forall|j: int| 0 <= j < b.len() implies #[trigger] b[j].1 != n.priority by {
            assert(s[m + 1 + j] == b[j]);
        }
        assert forall|i: int, j: int|
            0 <= i < a.len() && 0 <= j < a.len() && i != j implies #[trigger] a[i].1
            != #[trigger] a[j].1 by {
            assert(s[i] == a[i] && s[j] == a[j]);
        }
        assert forall|i: int, j: int|
            0 <= i < b.len() && 0 <= j < b.len() && i != j implies #[trigger] b[i].1
            != #[trigger] b[j].1 by {
            assert(s[m + 1 + i] == b[i] && s[m + 1 + j] == b[j]);
        }
        lemma_prio_le_distinct(n.left, n.priority);
        lemma_prio_le_distinct(n.right, n.priority);
        lemma_strict_heap(n.left);
        lemma_strict_heap(n.right);
    }
}

/// A tree of height `h` holds fewer than `2^h` nodes, and none exactly when
/// its height is zero.
proof fn lemma_size_below_pow2(t: Option<Box<TreapNode>>)
    ensures
        entries(t).len() + 1 <= pow2(tree_height_of(t)),
        (tree_height_of(t) == 0) == (entries(t).len() == 0),
    decreases t,
{
    if let Some(n) = t {
        lemma_size_below_pow2(n.left);
        lemma_size_below_pow2(n.right);
        lemma_height_parts(t);
        let h = tree_height_of(t);
        let hl = tree_height_of(n.left);
        let hr = tree_height_of(n.right);
        lemma_pow2_unfold(h);
        if hl < (h - 1) as nat {
            lemma_pow2_strictly_increases(hl, (h - 1) as nat);
        }
        if hr < (h - 1) as nat {
            lemma_pow2_strictly_increases(hr, (h - 1) as nat);
        }
        assert(entries(t).len() == entries(n.left).len() + 1 + entries(n.right).len());
        assert(pow2(hl) <= pow2((h - 1) as nat));
        assert(pow2(hr) <= pow2((h - 1) as nat));
    } else {
        lemma2_to64();
    }
}

/// Drops the oldest node (the one with the least key) of a tree, if there is
/// one; the other nodes keep their keys, priorities and messages.
fn remove_oldest(root: Option<Box<TreapNode>>) -> (rest: Option<Box<TreapNode>>)
    ensures
        entries(rest) == if entries(root).len() > 0 {
            entries(root).drop_first()
        } else {
            entries(root)
        },
        heap(root) ==> heap(rest),
{
    match root {
        Some(r) => {
            let (new_root, _removed) = remove_min(r);
            new_root
        },
        None => None,
    }
}

/// The latest messages of a conversation, at most `max_nodes` of them (at
/// least one once anything was stored), in the order they were stored.
pub struct ShortTermMemory {
    root: Option<Box<TreapNode>>,
    max_nodes: usize,
    current_count: usize,
    next_order: u64,
    seed: u32,
    /// Every message stored since the memory was made or last cleared.
    stored: Ghost<Seq<Messages>>,
}

impl View for ShortTermMemory {
    type V = Seq<Messages>;

    /// The stored messages, oldest first.
    closed spec fn view(&self) -> Seq<Messages> {
        messages(self.root)
    }
}

impl ShortTermMemory {
    /// The invariant kept by every operation: keys strictly increase in order
    /// and lie below the next insertion number, priorities are in heap order,
    /// the count is the number of nodes, and the messages are the latest ones
    /// stored since the memory was made or last cleared.
    #[verifier::type_invariant]
    closed spec fn wf(&self) -> bool {
        &&& keys_increasing(entries(self.root))
        &&& forall|j: int|
            0 <= j < entries(self.root).len() ==> #[trigger] entries(self.root)[j].0
                < self.next_order
        &&& heap(self.root)
        &&& self.current_count == entries(self.root).len()
        &&& messages(self.root) == latest(self.stored@, window_capacity(self.max_nodes as nat))
        &&& self.seed == state_after(self.next_order as nat)
        &&& forall|j: int|
            0 <= j < entries(self.root).len() ==> #[trigger] entries(self.root)[j].1 == draw(
                entries(self.root)[j].0 as nat,
            )
    }

    /// The nodes, in order: insertion number, priority and message of each.
    pub closed spec fn nodes(&self) -> Seq<TreapEntry> {
        entries(self.root)
    }

    /// The state of the priority generator.
    pub closed spec fn seed(&self) -> u32 {
        self.seed
    }

    /// Every message stored since the memory was made or last cleared, in
    /// the order of storing.
    pub closed spec fn stored_since_clear(&self) -> Seq<Messages> {
        self.stored@
    }

    /// No node has a priority above its parent's.
    pub closed spec fn heap_ordered(&self) -> bool {
        heap(self.root)
    }

    /// Every node has a priority below its parent's.
    pub closed spec fn strictly_heap_ordered(&self) -> bool {
        strict_heap(self.root)
    }

    /// The `max_nodes` the memory was built with.
    pub closed spec fn max_nodes(&self) -> nat {
        self.max_nodes as nat
    }

    /// How many messages were stored so far; it numbers the next one.
    pub closed spec fn stored_so_far(&self) -> nat {
        self.next_order as nat
    }

    /// The height of the tree.
    pub closed spec fn height(&self) -> nat {
        tree_height_of(self.root)
    }

    /// What holds of every memory: it holds the latest
    /// `window_capacity(max_nodes)` messages stored since it was made or last
    /// cleared, oldest first; its nodes' keys strictly increase and lie below
    /// the next insertion number; its priorities are in heap order, strictly
    /// so when they are distinct.
    pub open spec fn well_kept(&self) -> bool {
        &&& self@ == latest(self.stored_since_clear(), window_capacity(self.max_nodes()))
        &&& self@.len() <= window_capacity(self.max_nodes())
        &&& self@ == self.nodes().map_values(|e: TreapEntry| e.2)
        &&& forall|i: int, j: int|
            0 <= i < j < self.nodes().len() ==> #[trigger] self.nodes()[i].0
                < #[trigger] self.nodes()[j].0
        &&& forall|j: int|
            0 <= j < self.nodes().len() ==> #[trigger] self.nodes()[j].0 < self.stored_so_far()
        &&& self.heap_ordered()
        &&& priorities_distinct(self.nodes()) ==> self.strictly_heap_ordered()
        &&& self.seed() == state_after(self.stored_so_far())
        &&& forall|j: int|
            0 <= j < self.nodes().len() ==> #[trigger] self.nodes()[j].1 == draw(
                self.nodes()[j].0 as nat,
            )
    }

    /// The facts of `well_kept`, from the invariant.
    proof fn lemma_well_kept(&self)
        requires
            self.wf(),
        ensures
            self.well_kept(),
    {
        lemma_messages_are_entries(self.root);
        lemma_latest_fits(self.stored@, window_capacity(self.max_nodes as nat));
        if priorities_distinct(entries(self.root)) {
            lemma_strict_heap(self.root);
        }
    }

    /// An empty memory that keeps at most `max_nodes` messages.
    pub fn new(max_nodes: usize) -> (memory: Self)
        ensures
            memory@ == Seq::<Messages>::empty(),
            memory.nodes() == Seq::<TreapEntry>::empty(),
            memory.stored_since_clear() == Seq::<Messages>::empty(),
            memory.max_nodes() == max_nodes,
            memory.stored_so_far() == 0,
            memory.seed() == 0,
            memory.well_kept(),
    {
        let memory = ShortTermMemory {
            root: None,
            max_nodes,
            current_count: 0,
            next_order: 0,
            seed: 0,
            stored: Ghost(Seq::empty()),
        };
        proof {
            memory.lemma_well_kept();
        }
        memory
    }

    /// Appends `message`; when the memory already holds `max_nodes` messages or
    /// more, the oldest one is dropped first. The new node gets the next
    /// insertion number and a priority drawn by `rand_u32` from the generator
    /// state, salted with that insertion number.
    pub fn store(&mut self, message: Messages)
        requires
            old(self).stored_so_far() < u64::MAX,
        ensures
            final(self)@ == slide(old(self)@, message, old(self).max_nodes()),
            final(self).nodes() == kept_on_store(old(self).nodes(), old(self).max_nodes()).push(
                (old(self).stored_so_far() as u64, final(self).seed(), message),
            ),
            final(self).seed() == next_random(
                old(self).seed(),
                (old(self).stored_so_far() as u64) as u32,
            ),
            final(self).stored_since_clear() == old(self).stored_since_clear().push(message),
            final(self).max_nodes() == old(self).max_nodes(),
            final(self).stored_so_far() == old(self).stored_so_far() + 1,
            final(self).well_kept(),
    {
        proof {
            use_type_invariant(&*self);
            lemma_messages_are_entries(self.root);
        }
        let mut taken = ShortTermMemory::new(self.max_nodes);
        std::mem::swap(&mut taken, self);
        proof {
            use_type_invariant(&taken);
        }
        let ShortTermMemory { root, max_nodes, current_count, next_order, mut seed, stored } = taken;
        let ghost before = entries(root);
        let (root, current_count) = if current_count >= max_nodes {
            let rest = remove_oldest(root);
            if current_count > 0 {
                (rest, current_count - 1)
            } else {
                (rest, current_count)
            }
        } else {
            (root, current_count)
        };
        let ghost kept = entries(root);
        let ghost old_seed = seed;
        let salt = next_order as u32;
        let priority = rand_u32(&mut seed, salt);
        let ghost m = message;
        let new_node = TreapNode::new(message, next_order, priority);
        let new_root = insert(root, new_node);
        proof {
            let x = (next_order, priority, m);
            let i = choose|i: int| splits_at(kept, next_order, i) && entries(Some(new_root)) == kept.insert(i, x);
            if i < kept.len() {
                assert(kept[i].0 < next_order);
            }
            assert(entries(Some(new_root)) =~= kept.push(x));
            assert forall|a: int, b: int| 0 <= a < b < kept.push(x).len() implies #[trigger] kept.push(x)[a].0
                < #[trigger] kept.push(x)[b].0 by {
                if b == kept.len() {
                    assert(kept[a].0 < next_order);
                }
            }
            assert forall|j: int| 0 <= j < kept.push(x).len() implies #[trigger] kept.push(x)[j].0
                < next_order + 1 by {
                if j < kept.len() {
                    assert(kept[j].0 < next_order);
                }
            }
            assert(kept == kept_on_store(before, max_nodes as nat));
            lemma_messages_are_entries(root);
            lemma_messages_are_entries(Some(new_root));
            assert(messages(Some(new_root)) =~= slide(
                before.map_values(|e: TreapEntry| e.2),
                m,
                max_nodes as nat,
            ));
            lemma_slide_latest(stored@, m, max_nodes as nat);
        }
        *self = ShortTermMemory {
            root: Some(new_root),
            max_nodes,
            current_count: current_count + 1,
            next_order: next_order + 1,
            seed,
            stored: Ghost(stored@.push(m)),
        };
        proof {
            assert(old_seed == old(self).seed);
            assert(self.seed() == next_random(old(self).seed(), (old(self).stored_so_far() as u64) as u32));
            use_type_invariant(&*self);
            self.lemma_well_kept();
        }
    }

    /// A copy of the stored messages, oldest first.
    pub fn get_ordered_history(&self) -> (history: Vec<Messages>)
        ensures
            history@ == self@,
            self.well_kept(),
    {
        proof {
            use_type_invariant(self);
            self.lemma_well_kept();
        }
        let mut history: Vec<Messages> = Vec::new();
        in_order(&self.root, &mut history);
        proof {
            assert(history@ =~= messages(self.root));
        }
        history
    }

    /// The number of stored messages.
    pub fn len(&self) -> (n: usize)
        ensures
            n == self@.len(),
            self.well_kept(),
    {
        proof {
            use_type_invariant(self);
            self.lemma_well_kept();
        }
        self.current_count
    }

    /// Whether nothing is stored.
    pub fn is_empty(&self) -> (empty: bool)
        ensures
            empty == (self@.len() == 0),
            self.well_kept(),
    {
        proof {
            use_type_invariant(self);
            self.lemma_well_kept();
        }
        self.current_count == 0
    }

    /// Forgets every stored message; the limit, the numbering and the
    /// generator state stay.
    pub fn clear(&mut self)
        ensures
            final(self)@ == Seq::<Messages>::empty(),
            final(self).nodes() == Seq::<TreapEntry>::empty(),
            final(self).stored_since_clear() == Seq::<Messages>::empty(),
            final(self).max_nodes() == old(self).max_nodes(),
            final(self).stored_so_far() == old(self).stored_so_far(),
            final(self).seed() == old(self).seed(),
            final(self).well_kept(),
    {
        proof {
            use_type_invariant(&*self);
        }
        *self = ShortTermMemory {
            root: None,
            max_nodes: self.max_nodes,
            current_count: 0,
            next_order: self.next_order,
            seed: self.seed,
            stored: Ghost(Seq::empty()),
        };
        proof {
            use_type_invariant(&*self);
            self.lemma_well_kept();
        }
    }

    /// The height of the tree: the number of nodes on its longest downward
    /// path. It is zero exactly when the memory is empty, never more than the
    /// number of stored messages, and at least `log2(len + 1)`.
    pub fn tree_height(&self) -> (h: usize)
        ensures
            h == self.height(),
            (h == 0) == (self@.len() == 0),
            h <= self@.len(),
            self@.len() + 1 <= pow2(h as nat),
    {
        proof {
            use_type_invariant(self);
            lemma_height_le_size(self.root);
            lemma_messages_are_entries(self.root);
            lemma_size_below_pow2(self.root);
        }
        height(&self.root)
    }
}

} // verus!
