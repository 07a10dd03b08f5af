use vstd::prelude::*;

verus! {

/// A queue entry: a cost and a cell.
pub type QueueEntry = (u32, (usize, usize));

/// `a` comes no later than `b`: by cost, then by the cell's first and
/// second coordinate.
pub open spec fn entry_le(a: QueueEntry, b: QueueEntry) -> bool {
    a.0 < b.0 || (a.0 == b.0 && (a.1.0 < b.1.0 || (a.1.0 == b.1.0 && a.1.1 <= b.1.1)))
}

/// A priority queue that hands out its smallest entry first.
pub struct MinQueue {
    items: Vec<QueueEntry>,
}

impl MinQueue {
    /// The entries, in no particular order.
    pub closed spec fn view(&self) -> Seq<QueueEntry> {
        self.items@
    }

    pub fn new() -> (q: MinQueue)
        ensures
            q.view() == Seq::<QueueEntry>::empty(),
    {
        MinQueue { items: Vec::new() }
    }

    pub fn push(&mut self, e: QueueEntry)
        ensures
            final(self).view() == old(self).view().push(e),
    {
        self.items.push(e);
    }

    /// Takes out a smallest entry; `None` when the queue is empty.
    pub fn pop(&mut self) -> (r: Option<QueueEntry>)
        ensures
            old(self).view().len() == 0 ==> r is None && final(self).view() == old(self).view(),
            old(self).view().len() > 0 ==> exists|k: int|
                0 <= k < old(self).view().len() && r == Some(#[trigger] old(self).view()[k])
                    && final(self).view() == old(self).view().remove(k) && forall|j: int|
                    0 <= j < old(self).view().len() ==> entry_le(
                        old(self).view()[k],
                        #[trigger] old(self).view()[j],
                    ),
    {
        if self.items.len() == 0 {
            return None;
        }
        let mut best: usize = 0;
        let mut i: usize = 1;
        while i < self.items.len()
            invariant
                0 < self.items@.len(),
                best < i <= self.items@.len(),
                forall|j: int| 0 <= j < i ==> entry_le(self.items@[best as int], #[trigger] self.items@[j]),
            decreases self.items@.len() - i,
        {
            let a = self.items[i];
            let b = self.items[best];
            if a.0 < b.0 || (a.0 == b.0 && (a.1.0 < b.1.0 || (a.1.0 == b.1.0 && a.1.1 < b.1.1))) {
                best = i;
            }
            i = i + 1;
        }
        let ghost before = self.items@;
        let e = self.items.remove(best);
        proof {
            assert(entry_le(before[best as int], before[best as int]));
        }
        Some(e)
    }
}

} // verus!
