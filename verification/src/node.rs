use vstd::prelude::*;

use crate::graph::QueuedGraph;
use crate::record::{EventRecord, MasterNodeRecord, NodeId};

verus! {

/// An event node: the handlers of the events it listens to (a [`QueuedGraph`]),
/// and its place in the order of events that a [`MasterNodeRecord`] keeps.
/// Each instance is implicitly tied to a `MasterNodeRecord`.
#[verifier::reject_recursive_types(T)]
#[verifier::reject_recursive_types(A)]
pub struct EventNode<T, A> {
    graph: Option<QueuedGraph<T, A>>,
    id: NodeId,
    current_record: Option<usize>,
    final_record: usize,
}

/// `node` was created from the master record `rec`, which became `rec_after`.
pub open spec fn node_created<T, A>(
    rec: MasterNodeRecord,
    node: EventNode<T, A>,
    rec_after: MasterNodeRecord,
) -> bool {
    &&& node.node_id() == rec.next_node_id()
    &&& rec_after.next_node_id() == rec.next_node_id() + 1
    &&& rec_after.emissions() == rec.emissions()
}

/// `node` emitting an event takes it to `node_after`, and the master record
/// `rec` to `rec_after`: the event is recorded directly after the events already
/// recorded for the event being handled, if any, and last otherwise.
pub open spec fn emission_recorded<T, A>(
    node: EventNode<T, A>,
    rec: MasterNodeRecord,
    node_after: EventNode<T, A>,
    rec_after: MasterNodeRecord,
) -> bool {
    &&& match node.current_record_index() {
        Some(cr) => {
            &&& rec_after.emissions() == rec.emissions().insert(
                cr + 1,
                EventRecord { origin: node.node_id() },
            )
            &&& node_after.current_record_index() == Some((cr + 1) as usize)
        },
        None => {
            &&& rec_after.emissions() == rec.emissions().push(EventRecord { origin: node.node_id() })
            &&& node_after.current_record_index() is None
        },
    }
    &&& rec_after.next_node_id() == rec.next_node_id()
    &&& keeps_place(node, node_after)
    &&& node_after.graph_slot() == node.graph_slot()
}

/// `after` is `node` with the same ID and the same final record.
pub open spec fn keeps_place<T, A>(node: EventNode<T, A>, after: EventNode<T, A>) -> bool {
    &&& after.node_id() == node.node_id()
    &&& after.final_record_index() == node.final_record_index()
}

impl<T, A> EventNode<T, A> {
    /// The unique ID of this node.
    pub closed spec fn node_id(&self) -> NodeId {
        self.id
    }

    /// The inner graph, unless it has been taken.
    pub closed spec fn graph_slot(&self) -> Option<QueuedGraph<T, A>> {
        self.graph
    }

    /// The index in the master record of the event being handled, if any.
    pub closed spec fn current_record_index(&self) -> Option<usize> {
        self.current_record
    }

    /// The final record index reached by the latest update.
    pub closed spec fn final_record_index(&self) -> usize {
        self.final_record
    }

    /// Creates a new `EventNode`, with a fresh ID from `master_rec`.
    pub fn new(master_rec: &mut MasterNodeRecord) -> (node: Self)
        requires
            old(master_rec).next_node_id() < u64::MAX,
        ensures
            node_created(*old(master_rec), node, *final(master_rec)),
            node.graph_slot() matches Some(g) && g.subject_set().is_empty(),
            node.current_record_index() is None,
            node.final_record_index() == 0,
    {
        EventNode {
            graph: Some(QueuedGraph::new()),
            id: master_rec.next_id(),
            current_record: None,
            final_record: 0,
        }
    }

    /// The unique ID of this node.
    pub fn id(&self) -> (id: NodeId)
        ensures
            id == self.node_id(),
    {
        self.id
    }

    /// Notifies the master event record of an event that this node emits.
    ///
    /// While an event is being handled (`current_record` is set), the emitted
    /// event happened as a result of it, so it is recorded directly after it
    /// (after the events already emitted while handling it); otherwise it
    /// happened "in root" and is recorded last. The event itself goes to the
    /// node's outgoing queue.
    pub fn emit(&mut self, mnr: &mut MasterNodeRecord)
        requires
            old(self).current_record_index() matches Some(cr) ==> cr < old(
                mnr,
            ).emissions().len(),
        ensures
            emission_recorded(*old(self), *old(mnr), *final(self), *final(mnr)),
    {
        match self.current_record {
            Some(cr) => {
                proof {
                    mnr.lemma_emissions_fit();
                }
                // this event happened as a result of another, thus it must have happened *after* it.
                mnr.notify(cr, self.id);
                self.current_record = Some(cr + 1);
            },
            None => {
                // this event happened "in root": no event caused it.
                mnr.notify_root(self.id);
            },
        }
    }

    /// Removes the inner graph and returns it.
    /// This is necessary for handling ownership when updating.
    ///
    /// **Always** call `reset` when finished.
    pub fn take(&mut self) -> (graph: QueuedGraph<T, A>)
        requires
            old(self).graph_slot() is Some,
        ensures
            Some(graph) == old(self).graph_slot(),
            final(self).graph_slot() is None,
            keeps_place(*old(self), *final(self)),
            final(self).current_record_index() == old(self).current_record_index(),
    {
        self.graph.take().unwrap()
    }

    /// Resets the `graph` that was `taken`.
    ///
    /// Invoke responsibly; only reset what was returned from `take`.
    pub fn reset(&mut self, graph: QueuedGraph<T, A>)
        ensures
            final(self).graph_slot() == Some(graph),
            keeps_place(*old(self), *final(self)),
            final(self).current_record_index() == old(self).current_record_index(),
    {
        self.graph = Some(graph);
    }

    /// Whether the inner graph is in place (it is not while taken).
    pub fn has_graph(&self) -> (r: bool)
        ensures
            r == self.graph_slot() is Some,
    {
        self.graph.is_some()
    }

    /// The index in the master record of the event being handled, if any.
    pub fn current_record(&self) -> (r: Option<usize>)
        ensures
            r == self.current_record_index(),
    {
        self.current_record
    }

    /// The inner graph.
    pub fn graph(&self) -> (graph: &QueuedGraph<T, A>)
        requires
            self.graph_slot() is Some,
        ensures
            Some(*graph) == self.graph_slot(),
    {
        self.graph.as_ref().unwrap()
    }

    /// The inner graph, to be changed in place.
    pub fn graph_mut(&mut self) -> (graph: &mut QueuedGraph<T, A>)
        requires
            old(self).graph_slot() is Some,
        ensures
            Some(*graph) == old(self).graph_slot(),
            final(self).graph_slot() == Some(*final(graph)),
            keeps_place(*old(self), *final(self)),
            final(self).current_record_index() == old(self).current_record_index(),
    {
        self.graph.as_mut().unwrap()
    }

    /// Sets the current event record index, if any.
    ///
    /// The current event record keeps track of the current event
    /// being processed, so that if an event is emitted within a handler,
    /// the emitted event can be inserted into the master record after
    /// the handled event.
    pub fn set_record(&mut self, record: Option<usize>)
        ensures
            final(self).current_record_index() == record,
            keeps_place(*old(self), *final(self)),
            final(self).graph_slot() == old(self).graph_slot(),
    {
        self.current_record = record;
    }

    /// Sets the latest final record.
    pub fn set_final_record(&mut self, final_rec: usize)
        ensures
            final(self).final_record_index() == final_rec,
            final(self).node_id() == old(self).node_id(),
            final(self).graph_slot() == old(self).graph_slot(),
            final(self).current_record_index() == old(self).current_record_index(),
    {
        self.final_record = final_rec;
    }

    /// Returns the latest final record.
    ///
    /// The final record keeps track of the final index reached after `update` is finished.
    /// This is so that event records aren't reprocessed.
    pub fn final_record(&self) -> (r: usize)
        ensures
            r == self.final_record_index(),
    {
        self.final_record
    }
}

/// Nodes created one after the other from the same master record, with any
/// number of emissions in between (which leave the next ID as it is), never
/// share an ID: each later one has a higher ID.
pub proof fn lemma_node_ids_never_repeat<T, A>(
    befores: Seq<MasterNodeRecord>,
    nodes: Seq<EventNode<T, A>>,
    afters: Seq<MasterNodeRecord>,
    a: int,
    b: int,
)
    requires
        befores.len() == nodes.len(),
        afters.len() == nodes.len(),
        forall|i: int| 0 <= i < nodes.len() ==> #[trigger] node_created(befores[i], nodes[i], afters[i]),
        forall|i: int|
            0 <= i < nodes.len() - 1 ==> #[trigger] befores[i + 1].next_node_id()
                == afters[i].next_node_id(),
        0 <= a < b < nodes.len(),
    ensures
        nodes[a].node_id() < nodes[b].node_id(),
    decreases b - a,
{
    let i = b - 1;
    assert(node_created(befores[i], nodes[i], afters[i]));
    assert(node_created(befores[i + 1], nodes[i + 1], afters[i + 1]));
    assert(befores[i + 1].next_node_id() == afters[i].next_node_id());
    if a < i {
        lemma_node_ids_never_repeat(befores, nodes, afters, a, i);
    }
}

/// `nodes[i + 1]` and `recs[i + 1]` follow from `nodes[i]` and `recs[i]` by one
/// emission of the node, for each `i`.
pub open spec fn emissions_recorded<T, A>(
    nodes: Seq<EventNode<T, A>>,
    recs: Seq<MasterNodeRecord>,
) -> bool {
    &&& nodes.len() == recs.len()
    &&& nodes.len() > 0
    &&& forall|i: int|
        0 <= i < nodes.len() - 1 ==> #[trigger] emission_recorded(
            nodes[i],
            recs[i],
            nodes[i + 1],
            recs[i + 1],
        )
}

/// The events a node emits while the event recorded at `cause` is being
/// handled, however many, are recorded directly after it, in the order in
/// which they were emitted and ahead of every event recorded after it; the
/// events up to and including the cause keep their places.
pub proof fn lemma_responses_follow_cause<T, A>(
    nodes: Seq<EventNode<T, A>>,
    recs: Seq<MasterNodeRecord>,
    cause: usize,
)
    requires
        emissions_recorded(nodes, recs),
        nodes[0].current_record_index() == Some(cause),
        cause < recs[0].emissions().len(),
    ensures
        ({
            let n = nodes.len() - 1;
            let first = recs[0].emissions();
            let last = recs.last().emissions();
            &&& last.len() == first.len() + n
            &&& forall|k: int| 0 <= k <= cause ==> #[trigger] last[k] == first[k]
            &&& forall|j: int|
                1 <= j <= n ==> #[trigger] last[cause + j] == (EventRecord {
                    origin: nodes[0].node_id(),
                })
            &&& forall|k: int| cause < k < first.len() ==> #[trigger] last[k + n] == first[k]
            &&& nodes.last().current_record_index() == Some((cause + n) as usize)
            &&& nodes.last().node_id() == nodes[0].node_id()
        }),
    decreases nodes.len(),
{
    let n = nodes.len() - 1;
    if n > 0 {
        let ns = nodes.drop_last();
        let rs = recs.drop_last();
        assert forall|i: int| 0 <= i < ns.len() - 1 implies #[trigger] emission_recorded(
            ns[i],
            rs[i],
            ns[i + 1],
            rs[i + 1],
        ) by {
            assert(emission_recorded(nodes[i], recs[i], nodes[i + 1], recs[i + 1]));
        }
        lemma_responses_follow_cause(ns, rs, cause);
        let first = recs[0].emissions();
        let mid = rs.last().emissions();
        let i = n - 1;
        assert(emission_recorded(nodes[i], recs[i], nodes[i + 1], recs[i + 1]));
        assert(rs.last() == recs[i] && ns.last() == nodes[i]);
        rs.last().lemma_emissions_fit();
        let x = EventRecord { origin: nodes[0].node_id() };
        let last = recs.last().emissions();
        assert(last == mid.insert(cause + n, x));
        assert forall|k: int| 0 <= k <= cause implies #[trigger] last[k] == first[k] by {
            assert(last[k] == mid[k]);
        }
        assert forall|j: int| 1 <= j <= n implies #[trigger] last[cause + j] == x by {
            if j < n {
                assert(last[cause + j] == mid[cause + j]);
            }
        }
        assert forall|k: int| cause < k < first.len() implies #[trigger] last[k + n] == first[k] by {
            assert(mid[k + (n - 1)] == first[k]);
            assert(last[k + n] == mid[k + (n - 1)]);
        }
    }
}

/// A root event, emitted while no event is being handled, is recorded after
/// every event recorded so far, which keep their places.
pub proof fn lemma_root_emission_is_last<T, A>(
    node0: EventNode<T, A>,
    rec0: MasterNodeRecord,
    node1: EventNode<T, A>,
    rec1: MasterNodeRecord,
)
    requires
        (node0.current_record_index() is None),
        emission_recorded(node0, rec0, node1, rec1),
    ensures
        rec1.emissions().len() == rec0.emissions().len() + 1,
        rec1.emissions().last() == (EventRecord { origin: node0.node_id() }),
        rec1.emissions().drop_last() == rec0.emissions(),
{
    assert(rec1.emissions().drop_last() =~= rec0.emissions());
}

/// The final record of a node stays as it was set through any number of
/// emissions and of takings, resettings and changes of its graph or of its
/// current record, which each keep its place.
pub proof fn lemma_final_record_persists<T, A>(nodes: Seq<EventNode<T, A>>)
    requires
        nodes.len() > 0,
        forall|i: int| 0 <= i < nodes.len() - 1 ==> #[trigger] keeps_place(nodes[i], nodes[i + 1]),
    ensures
        nodes.last().final_record_index() == nodes[0].final_record_index(),
        nodes.last().node_id() == nodes[0].node_id(),
    decreases nodes.len(),
{
    if nodes.len() > 1 {
        let rest = nodes.drop_last();
        assert forall|i: int| 0 <= i < rest.len() - 1 implies #[trigger] keeps_place(
            rest[i],
            rest[i + 1],
        ) by {
            assert(keeps_place(nodes[i], nodes[i + 1]));
        }
        lemma_final_record_persists(rest);
        let i = nodes.len() - 2;
        assert(keeps_place(nodes[i], nodes[i + 1]));
    }
}

/// Taking the inner graph and resetting it afterwards leaves the node as it was.
pub proof fn lemma_take_reset_restores<T, A>(
    node0: EventNode<T, A>,
    graph: QueuedGraph<T, A>,
    node1: EventNode<T, A>,
    node2: EventNode<T, A>,
)
    requires
        Some(graph) == node0.graph_slot(),
        (node1.graph_slot() is None),
        keeps_place(node0, node1),
        node1.current_record_index() == node0.current_record_index(),
        node2.graph_slot() == Some(graph),
        keeps_place(node1, node2),
        node2.current_record_index() == node1.current_record_index(),
    ensures
        node2 == node0,
{
}

} // verus!
