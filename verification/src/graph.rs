use std::collections::hash_map::Entry;
use std::collections::HashMap;
use vstd::prelude::*;

use crate::record::NodeId;
use vstd::std_specs::hash::OccupiedEntrySpecFns;
use vstd::std_specs::iter::IteratorSpec;

verus! {

broadcast use vstd::std_specs::hash::group_hash_axioms;

/// `objs`, `adds`, `ts`, `as_` and `used` have the shape of a run of steps:
/// one more state than steps, and one mutable reference of each kind and one
/// flag per step.
pub open spec fn steps_shaped<T, A>(
    objs: Seq<T>,
    adds: Seq<A>,
    ts: Seq<&mut T>,
    as_: Seq<&mut A>,
    used: Seq<bool>,
) -> bool {
    &&& objs.len() == ts.len() + 1
    &&& adds.len() == objs.len()
    &&& as_.len() == ts.len()
    &&& used.len() == ts.len()
}

/// A queue handler that a [`QueuedGraph`] invokes for the node it handles.
pub trait AnyQueueHandler<T, A> {
    /// The possible outcomes of handling at most `n` pending events, as a run
    /// of steps: step `i` takes `obj` and `additional` from `objs[i]` and
    /// `adds[i]` to `objs[i + 1]` and `adds[i + 1]`, through the mutable
    /// references `ts[i]` and `as_[i]` where `used[i]`. Any outcome, unless an
    /// implementation says more.
    open spec fn behaviour(&self) -> spec_fn(
        usize,
        Seq<T>,
        Seq<A>,
        Seq<&mut T>,
        Seq<&mut A>,
        Seq<bool>,
    ) -> bool {
        |n: usize, objs: Seq<T>, adds: Seq<A>, ts: Seq<&mut T>, as_: Seq<&mut A>, used: Seq<bool>|
            true
    }

    /// Handles every pending event.
    fn update(&mut self, obj: &mut T, additional: &mut A)
        ensures
            exists|objs: Seq<T>, adds: Seq<A>, ts: Seq<&mut T>, as_: Seq<&mut A>, used: Seq<bool>|
                {
                    &&& steps_shaped(objs, adds, ts, as_, used)
                    &&& objs[0] == *old(obj)
                    &&& adds[0] == *old(additional)
                    &&& objs.last() == *final(obj)
                    &&& adds.last() == *final(additional)
                    &&& forall|i: int|
                        0 <= i < used.len() && used[i] ==> mut_ref_future(#[trigger] ts[i])
                            == objs[i + 1] && mut_ref_future(as_[i]) == adds[i + 1]
                    &&& #[trigger] (old(self).behaviour())(usize::MAX, objs, adds, ts, as_, used)
                },
    ;

    /// Handles at most `n` pending events.
    fn update_n(&mut self, n: usize, obj: &mut T, additional: &mut A)
        ensures
            exists|objs: Seq<T>, adds: Seq<A>, ts: Seq<&mut T>, as_: Seq<&mut A>, used: Seq<bool>|
                {
                    &&& steps_shaped(objs, adds, ts, as_, used)
                    &&& objs[0] == *old(obj)
                    &&& adds[0] == *old(additional)
                    &&& objs.last() == *final(obj)
                    &&& adds.last() == *final(additional)
                    &&& forall|i: int|
                        0 <= i < used.len() && used[i] ==> mut_ref_future(#[trigger] ts[i])
                            == objs[i + 1] && mut_ref_future(as_[i]) == adds[i + 1]
                    &&& #[trigger] (old(self).behaviour())(n, objs, adds, ts, as_, used)
                },
    ;
}

/// Stores a list of queue handlers tied to nodes.
#[verifier::reject_recursive_types(T)]
#[verifier::reject_recursive_types(A)]
pub struct QueuedGraph<T, A> {
    handlers: HashMap<NodeId, Box<dyn AnyQueueHandler<T, A>>>,
}

impl<T, A> Default for QueuedGraph<T, A> {
    fn default() -> (g: Self)
        ensures
            g.subject_set() == Set::<NodeId>::empty(),
    {
        QueuedGraph::new()
    }
}

impl<T, A> QueuedGraph<T, A> {
    /// The handler of each node that this graph has a handler for.
    pub closed spec fn handler_map(&self) -> Map<NodeId, Box<dyn AnyQueueHandler<T, A>>> {
        self.handlers@
    }

    /// The nodes that this graph has a handler for.
    pub open spec fn subject_set(&self) -> Set<NodeId> {
        self.handler_map().dom()
    }

    /// Creates a new, empty queued graph.
    pub fn new() -> (g: Self)
        ensures
            g.subject_set() == Set::<NodeId>::empty(),
    {
        QueuedGraph { handlers: HashMap::new() }
    }

    /// Adds the queue handler of `node`.
    ///
    /// If the node already has a handler, the old handler is replaced.
    pub fn add(&mut self, node: NodeId, handler: Box<dyn AnyQueueHandler<T, A>>) -> (r: &mut Self)
        ensures
            r.handler_map() == old(self).handler_map().insert(node, handler),
            r.subject_set() == old(self).subject_set().insert(node),
            // the handlers of other nodes are left as they were
            forall|n: NodeId|
                n != node ==> #[trigger] r.handler_map().contains_key(n) == old(
                    self,
                ).handler_map().contains_key(n) && (old(self).handler_map().contains_key(n)
                    ==> r.handler_map()[n] == old(self).handler_map()[n]),
            *final(self) == *final(r),
    {
        self.handlers.insert(node, handler);
        proof {
            vstd::map::axiom_map_insert_domain(old(self).handlers@, node, handler);
            assert forall|n: NodeId| n != node implies #[trigger] self.handlers@.contains_key(n)
                == old(self).handlers@.contains_key(n) && (old(self).handlers@.contains_key(n)
                ==> self.handlers@[n] == old(self).handlers@[n]) by {
                vstd::map::axiom_map_insert_different(old(self).handlers@, n, node, handler);
            }
        }
        self
    }

    /// Same as [`add`](QueuedGraph::add), however `self` is consumed and returned.
    pub fn and_add(self, node: NodeId, handler: Box<dyn AnyQueueHandler<T, A>>) -> (g: Self)
        ensures
            g.handler_map() == self.handler_map().insert(node, handler),
            g.subject_set() == self.subject_set().insert(node),
            // the handlers of other nodes are left as they were
            forall|n: NodeId|
                n != node ==> #[trigger] g.handler_map().contains_key(n)
                    == self.handler_map().contains_key(n) && (self.handler_map().contains_key(n)
                    ==> g.handler_map()[n] == self.handler_map()[n]),
    {
        let mut g = self;
        g.handlers.insert(node, handler);
        proof {
            vstd::map::axiom_map_insert_domain(self.handlers@, node, handler);
            assert forall|n: NodeId| n != node implies #[trigger] g.handlers@.contains_key(n)
                == self.handlers@.contains_key(n) && (self.handlers@.contains_key(n)
                ==> g.handlers@[n] == self.handlers@[n]) by {
                vstd::map::axiom_map_insert_different(self.handlers@, n, node, handler);
            }
        }
        g
    }

    /// Returns the queue handler of `node`, if any.
    pub fn get_handler(&self, node: NodeId) -> (h: Option<&Box<dyn AnyQueueHandler<T, A>>>)
        ensures
            h is Some <==> self.subject_set().contains(node),
            h matches Some(r) ==> *r == self.handler_map()[node],
    {
        self.handlers.get(&node)
    }

    /// Returns a mutable reference to the queue handler of `node`, if any.
    pub fn get_handler_mut(&mut self, node: NodeId) -> (h: Option<&mut Box<dyn AnyQueueHandler<T, A>>>)
        ensures
            h is Some <==> old(self).subject_set().contains(node),
            final(self).subject_set() == old(self).subject_set(),
            h matches Some(b) ==> *b == old(self).handler_map()[node],
            final(self).handler_map().remove(node) == old(self).handler_map().remove(node),
            h is None ==> final(self).handler_map() == old(self).handler_map(),
    {
        let ghost before = self.handlers@;
        match self.handlers.entry(node) {
            Entry::Occupied(e) => {
                assert(e.value() == before[node]);
                let b = e.into_mut();
                Some(b)
            },
            Entry::Vacant(_) => None,
        }
    }

    /// Invokes the queue handler of `node`, if any, for at most `length` events.
    pub fn update_node(&mut self, obj: &mut T, additional: &mut A, node: NodeId, length: usize)
        ensures
            final(self).subject_set() == old(self).subject_set(),
            final(self).handler_map().remove(node) == old(self).handler_map().remove(node),
            // the handler of the node handled at most `length` events, taking
            // `obj` and `additional` through the run of steps that its
            // behaviour allows
            old(self).subject_set().contains(node) ==> exists|
                objs: Seq<T>,
                adds: Seq<A>,
                ts: Seq<&mut T>,
                as_: Seq<&mut A>,
                used: Seq<bool>,
            |
                {
                    &&& steps_shaped(objs, adds, ts, as_, used)
                    &&& objs[0] == *old(obj)
                    &&& adds[0] == *old(additional)
                    &&& objs.last() == *final(obj)
                    &&& adds.last() == *final(additional)
                    &&& forall|i: int|
                        0 <= i < used.len() && used[i] ==> mut_ref_future(#[trigger] ts[i])
                            == objs[i + 1] && mut_ref_future(as_[i]) == adds[i + 1]
                    &&& #[trigger] (old(self).handler_map()[node].behaviour())(
                        length,
                        objs,
                        adds,
                        ts,
                        as_,
                        used,
                    )
                },
            // without a handler for the node, nothing happens
            !old(self).subject_set().contains(node) ==> *final(obj) == *old(obj)
                && *final(additional) == *old(additional),
    {
        if let Some(handler) = self.get_handler_mut(node) {
            handler.update_n(length, obj, additional);
        }
    }

    /// Returns a list of all the nodes that this graph is listening to.
    pub fn subjects(&self) -> (r: Vec<NodeId>)
        ensures
            r@.to_set() == self.subject_set(),
            r@.no_duplicates(),
    {
        let mut r: Vec<NodeId> = Vec::new();
        let keys = self.handlers.keys();
        let ghost all = vstd::std_specs::hash::spec_keys_iter(&self.handlers).remaining().unref();
        for k in iter: keys
            invariant
                iter.seq().unref() == all,
                r@ == all.take(iter.index() as int),
        {
            proof {
                assert(all.take(iter.index() + 1) == all.take(iter.index() as int).push(*k));
            }
            r.push(*k);
        }
        assert(r@ == all);
        r
    }
}

/// Adding a handler for a node that already has one, by [`QueuedGraph::add`] or
/// [`QueuedGraph::and_add`], leaves only the second one: the handlers are those
/// that adding the second one alone gives.
pub proof fn lemma_second_add_replaces<T, A>(
    g0: QueuedGraph<T, A>,
    g1: QueuedGraph<T, A>,
    g2: QueuedGraph<T, A>,
    node: NodeId,
    first: Box<dyn AnyQueueHandler<T, A>>,
    second: Box<dyn AnyQueueHandler<T, A>>,
)
    requires
        g1.handler_map() == g0.handler_map().insert(node, first),
        g2.handler_map() == g1.handler_map().insert(node, second),
    ensures
        g2.handler_map() == g0.handler_map().insert(node, second),
        g2.subject_set() == g0.subject_set().insert(node),
{
    let m = g0.handler_map();
    vstd::map::axiom_map_insert_domain(m, node, first);
    vstd::map::axiom_map_insert_domain(m.insert(node, first), node, second);
    vstd::map::axiom_map_insert_domain(m, node, second);
    assert forall|k: NodeId| #[trigger] m.insert(node, first).insert(node, second).contains_key(k)
        implies m.insert(node, first).insert(node, second)[k] == m.insert(node, second)[k] by {
        if k == node {
            vstd::map::axiom_map_insert_same(m.insert(node, first), node, second);
            vstd::map::axiom_map_insert_same(m, node, second);
        } else {
            vstd::map::axiom_map_insert_different(m.insert(node, first), k, node, second);
            vstd::map::axiom_map_insert_different(m, k, node, first);
            vstd::map::axiom_map_insert_different(m, k, node, second);
        }
    }
    assert(m.insert(node, first).insert(node, second).dom() =~= m.insert(node, second).dom());
    vstd::map::axiom_map_ext_equal(m.insert(node, first).insert(node, second), m.insert(node, second));
    assert(m.insert(node, first).insert(node, second) =~= m.insert(node, second));
}

} // verus!
