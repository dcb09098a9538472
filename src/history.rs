//! A bounded record of the aggregate counts over time, for plotting.
use vstd::prelude::*;

use crate::sim::SirCounts;

verus! {

/// The most recent counts, oldest first, at most `max_len` of them.
pub struct SirGraph {
    history: Vec<SirCounts>,
    max_len: usize,
}

impl SirGraph {
    pub closed spec fn entries(&self) -> Seq<SirCounts> {
        self.history@
    }

    pub closed spec fn limit(&self) -> nat {
        self.max_len as nat
    }

    pub closed spec fn wf(&self) -> bool {
        0 < self.max_len && self.history.len() <= self.max_len
    }

    /// An empty record that keeps at most `max_len` entries.
    pub fn new(max_len: usize) -> (r: SirGraph)
        requires
            0 < max_len,
        ensures
            r.wf(),
            r.entries() == Seq::<SirCounts>::empty(),
            r.limit() == max_len,
    {
        SirGraph { history: Vec::new(), max_len }
    }

    /// Append `counts`, dropping the oldest entry when the record is full.
    pub fn push(&mut self, counts: SirCounts)
        requires
            old(self).wf(),
        ensures
            final(self).wf(),
            final(self).limit() == old(self).limit(),
            final(self).entries() == if old(self).entries().len() == old(self).limit() {
                old(self).entries().drop_first().push(counts)
            } else {
                old(self).entries().push(counts)
            },
    {
        if self.history.len() == self.max_len {
            self.history.remove(0);
        }
        self.history.push(counts);
    }

    /// The entries, oldest first.
    pub fn entries_vec(&self) -> (r: &Vec<SirCounts>)
        ensures
            r@ == self.entries(),
    {
        &self.history
    }
}

} // verus!
