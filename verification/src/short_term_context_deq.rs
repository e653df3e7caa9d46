//! Short-term memory kept in a double-ended queue: a window over the latest
//! messages, oldest first.

use std::collections::VecDeque;
use vstd::prelude::*;
use crate::client::Messages;
use crate::window::{latest, lemma_latest_fits, lemma_slide_latest, slide, window_capacity};

verus! {

/// The latest messages of a conversation, at most `max_nodes` of them (at
/// least one once anything was stored).
pub struct ShortTermMemory {
    history: VecDeque<Messages>,
    max_nodes: usize,
    /// Every message stored since the memory was made or last cleared.
    stored: Ghost<Seq<Messages>>,
}

impl View for ShortTermMemory {
    type V = Seq<Messages>;

    /// The stored messages, oldest first.
    closed spec fn view(&self) -> Seq<Messages> {
        self.history@
    }
}

impl ShortTermMemory {
    /// The `max_nodes` the memory was built with.
    pub closed spec fn max_nodes(&self) -> nat {
        self.max_nodes as nat
    }

    /// Every message stored since the memory was made or last cleared, in
    /// the order of storing.
    pub closed spec fn stored_since_clear(&self) -> Seq<Messages> {
        self.stored@
    }

    /// The memory holds the latest messages stored since it was made or last
    /// cleared, as many as the window holds.
    #[verifier::type_invariant]
    closed spec fn within_window(&self) -> bool {
        self.history@ == latest(self.stored@, window_capacity(self.max_nodes as nat))
    }

    /// What every memory holds: the latest `window_capacity(max_nodes)`
    /// messages stored since it was made or last cleared, oldest first.
    pub open spec fn holds_latest(&self) -> bool {
        &&& self@ == latest(self.stored_since_clear(), window_capacity(self.max_nodes()))
        &&& self@.len() <= window_capacity(self.max_nodes())
    }

    /// An empty memory that keeps at most `max_nodes` messages.
    pub fn new(max_nodes: usize) -> (memory: Self)
        ensures
            memory@ == Seq::<Messages>::empty(),
            memory.stored_since_clear() == Seq::<Messages>::empty(),
            memory.max_nodes() == max_nodes,
            memory.holds_latest(),
    {
        ShortTermMemory {
            history: VecDeque::with_capacity(max_nodes),
            max_nodes,
            stored: Ghost(Seq::empty()),
        }
    }

    /// Appends `message`; when the memory already holds `max_nodes` messages or
    /// more, the oldest one is dropped first.
    pub fn store(&mut self, message: Messages)
        ensures
            final(self)@ == slide(old(self)@, message, old(self).max_nodes()),
            final(self).max_nodes() == old(self).max_nodes(),
            final(self).stored_since_clear() == old(self).stored_since_clear().push(message),
            final(self).holds_latest(),
    {
        proof {
            use_type_invariant(&*self);
        }
        let mut taken = ShortTermMemory::new(self.max_nodes);
        std::mem::swap(&mut taken, self);
        proof {
            use_type_invariant(&taken);
        }
        let ShortTermMemory { history, max_nodes, stored } = taken;
        let mut history = history;
        if history.len() >= max_nodes {
            history.pop_front();
        }
        let ghost m = message;
        history.push_back(message);
        proof {
            lemma_slide_latest(stored@, m, max_nodes as nat);
            lemma_latest_fits(stored@.push(m), window_capacity(max_nodes as nat));
        }
        *self = ShortTermMemory { history, max_nodes, stored: Ghost(stored@.push(m)) };
    }

    /// A copy of the stored messages, oldest first.
    pub fn get_ordered_history(&self) -> (history: Vec<Messages>)
        ensures
            history@ == self@,
            self.holds_latest(),
    {
        proof {
            use_type_invariant(self);
            lemma_latest_fits(self.stored@, window_capacity(self.max_nodes as nat));
        }
        let mut history: Vec<Messages> = Vec::new();
        let n = self.history.len();
        let mut i: usize = 0;
        while i < n
            invariant
                n == self.history@.len(),
                i <= n,
                history@ == self.history@.subrange(0, i as int),
            decreases n - i,
        {
            history.push(self.history[i].duplicate());
            i = i + 1;
        }
        history
    }

    /// The number of stored messages.
    pub fn len(&self) -> (n: usize)
        ensures
            n == self@.len(),
            self.holds_latest(),
    {
        proof {
            use_type_invariant(self);
            lemma_latest_fits(self.stored@, window_capacity(self.max_nodes as nat));
        }
        self.history.len()
    }

    /// Whether nothing is stored.
    pub fn is_empty(&self) -> (empty: bool)
        ensures
            empty == (self@.len() == 0),
    {
        self.history.len() == 0
    }

    /// Forgets every stored message; the limit stays.
    pub fn clear(&mut self)
        ensures
            final(self)@ == Seq::<Messages>::empty(),
            final(self).stored_since_clear() == Seq::<Messages>::empty(),
            final(self).max_nodes() == old(self).max_nodes(),
            final(self).holds_latest(),
    {
        let mut taken = ShortTermMemory::new(self.max_nodes);
        std::mem::swap(&mut taken, self);
        let ShortTermMemory { history, max_nodes, stored: _ } = taken;
        let mut history = history;
        history.clear();
        *self = ShortTermMemory { history, max_nodes, stored: Ghost(Seq::empty()) };
    }
}

} // verus!
