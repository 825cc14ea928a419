use vstd::prelude::*;

verus! {

/// Identifier of an event node, handed out by a [`MasterNodeRecord`].
pub type NodeId = u64;

/// Blind record of an event from a specific node.
#[derive(Debug, Clone, Copy, PartialEq, Eq, Structural, PartialOrd, Ord, Hash)]
pub struct EventRecord {
    pub origin: NodeId,
}

/// Tracks event order of a singe multi-queue system.
/// You should realistically only have one instance for each thread.
#[derive(Debug, Clone, PartialEq, Eq, PartialOrd, Ord, Hash)]
pub struct MasterNodeRecord {
    emissions: Vec<EventRecord>,
    next_id: NodeId,
}

impl MasterNodeRecord {
    /// The emissions recorded so far, in the order in which they happened.
    pub closed spec fn emissions(&self) -> Seq<EventRecord> {
        self.emissions@
    }

    /// The identifier that the next node created with this record receives.
    pub closed spec fn next_node_id(&self) -> NodeId {
        self.next_id
    }

    /// A record holds at most `usize::MAX` emissions.
    pub proof fn lemma_emissions_fit(&self)
        ensures
            self.emissions().len() <= usize::MAX,
    {
        assert(self.emissions@.len() == self.emissions.len());
    }

    /// Creates a new `MasterNodeRecord`.
    pub fn new() -> (r: Self)
        ensures
            r.emissions() == Seq::<EventRecord>::empty(),
            r.next_node_id() == 0,
    {
        MasterNodeRecord { emissions: Vec::new(), next_id: 0 }
    }

    /// Returns the current event record.
    pub fn record(&self) -> (r: &[EventRecord])
        ensures
            r@ == self.emissions(),
    {
        self.emissions.as_slice()
    }

    /// The identifier that the next node created with this record receives.
    pub fn upcoming_id(&self) -> (id: NodeId)
        ensures
            id == self.next_node_id(),
    {
        self.next_id
    }

    /// Hands out a fresh node identifier.
    pub(crate) fn next_id(&mut self) -> (id: NodeId)
        requires
            old(self).next_node_id() < u64::MAX,
        ensures
            id == old(self).next_node_id(),
            final(self).next_node_id() == id + 1,
            final(self).emissions() == old(self).emissions(),
    {
        self.next_id = self.next_id + 1;
        self.next_id - 1
    }

    /// Records an emission of `origin` caused by the event recorded at `at`:
    /// it is placed directly after that event.
    pub(crate) fn notify(&mut self, at: usize, origin: NodeId)
        requires
            at < old(self).emissions().len(),
        ensures
            final(self).emissions() == old(self).emissions().insert(
                at + 1,
                EventRecord { origin },
            ),
            final(self).next_node_id() == old(self).next_node_id(),
    {
        assert(self.emissions@.len() == self.emissions.len());
        self.emissions.insert(at + 1, EventRecord { origin });
    }

    /// Records an emission of `origin` that no other event caused: it is placed last.
    pub(crate) fn notify_root(&mut self, origin: NodeId)
        ensures
            final(self).emissions() == old(self).emissions().push(EventRecord { origin }),
            final(self).next_node_id() == old(self).next_node_id(),
    {
        self.emissions.push(EventRecord { origin });
    }
}

impl Default for MasterNodeRecord {
    fn default() -> (r: Self)
        ensures
            r.emissions() == Seq::<EventRecord>::empty(),
            r.next_node_id() == 0,
    {
        MasterNodeRecord::new()
    }
}

} // verus!
