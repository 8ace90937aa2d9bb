//! The identifiers of the gossip messages seen most recently.

use vstd::prelude::*;

verus! {

/// The number of identifiers that a history remembers.
pub const HISTORY_CAPACITY: usize = 1024;

/// The recent identifiers once `id` is recorded: `id` is appended, and the
/// oldest identifier forgotten where the history was full. An identifier that
/// is already remembered changes nothing.
pub open spec fn recorded(recent: Seq<u128>, id: u128) -> Seq<u128> {
    if recent.contains(id) {
        recent
    } else if recent.len() < HISTORY_CAPACITY {
        recent.push(id)
    } else {
        recent.subrange(1, recent.len() as int).push(id)
    }
}

/// A bounded record of message identifiers, oldest first.
#[derive(Debug)]
pub struct History {
    recent: Vec<u128>,
}

impl View for History {
    type V = Seq<u128>;

    closed spec fn view(&self) -> Seq<u128> {
        self.recent@
    }
}

impl History {
    /// The history remembers no more identifiers than its capacity.
    pub open spec fn wf(&self) -> bool {
        self@.len() <= HISTORY_CAPACITY
    }

    /// A history that remembers nothing.
    pub fn new() -> (r: History)
        ensures
            r@ == Seq::<u128>::empty(),
            r.wf(),
    {
        History { recent: Vec::new() }
    }

    /// Whether `id` is remembered.
    pub fn contains(&self, id: u128) -> (b: bool)
        ensures
            b == self@.contains(id),
    {
        let mut i: usize = 0;
        while i < self.recent.len()
            invariant
                i <= self.recent.len(),
                forall|k: int| 0 <= k < i ==> self.recent@[k] != id,
            decreases self.recent.len() - i,
        {
            if self.recent[i] == id {
                return true;
            }
            i += 1;
        }
        false
    }

    /// Records `id` and says whether it was new.
    pub fn insert(&mut self, id: u128) -> (novel: bool)
        requires
            old(self).wf(),
        ensures
            final(self).wf(),
            novel == !old(self)@.contains(id),
            final(self)@ == recorded(old(self)@, id),
            final(self)@.contains(id),
    {
        if self.contains(id) {
            return false;
        }
        if self.recent.len() >= HISTORY_CAPACITY {
            let _ = self.recent.remove(0);
            assert(self.recent@ =~= old(self)@.subrange(1, old(self)@.len() as int));
        }
        self.recent.push(id);
        assert(self.recent@[self.recent@.len() - 1] == id);
        true
    }
}

} // verus!
