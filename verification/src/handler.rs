use vstd::prelude::*;

use crate::graph::{steps_shaped, AnyQueueHandler};
use crate::node::EventNode;
use crate::record::NodeId;

verus! {

broadcast use vstd::function::group_function_axioms;

/// Whether two event keys are the same string.
fn same_key(a: &str, b: &str) -> (r: bool)
    ensures
        r == (a@ == b@),
{
    let x = a.as_bytes();
    let y = b.as_bytes();
    proof {
        vstd::utf8::encode_utf8_decode_utf8(a@);
        vstd::utf8::encode_utf8_decode_utf8(b@);
    }
    if x.len() != y.len() {
        assert(x@ != y@);
        return false;
    }
    let mut i: usize = 0;
    while i < x.len()
        invariant
            x@ == vstd::utf8::encode_utf8(a@),
            y@ == vstd::utf8::encode_utf8(b@),
            x.len() == y.len(),
            0 <= i <= x.len(),
            forall|j: int| 0 <= j < i ==> x@[j] == y@[j],
        decreases x.len() - i,
    {
        if x[i] != y[i] {
            assert(x@[i as int] != y@[i as int]);
            assert(x@ != y@);
            return false;
        }
        i = i + 1;
    }
    assert(x@ =~= y@);
    true
}

/// The possible outcomes of calling `f` on an event.
pub open spec fn closure_behaviour<'a, T, A, E, F: FnMut(&mut T, &mut A, E)>(f: F) -> spec_fn(
    &'a mut T,
    &'a mut A,
    E,
) -> bool {
    |obj: &mut T, additional: &mut A, event: E| call_ensures(f, (obj, additional, event), ())
}

/// The character sequences of event keys.
pub open spec fn key_views(keys: Seq<&str>) -> Seq<Seq<char>> {
    keys.map_values(|k: &str| k@)
}

/// The events `originals`, with keys `keys`, were handled in turn: the `i`-th
/// as its clone `evs[i]`, taking `obj` and `additional` from `objs[i]` and
/// `adds[i]` to `objs[i + 1]` and `adds[i + 1]`, by the closure at `ks[i]` with
/// `ts[i]` and `as_[i]` as the mutable references (taking `objs[i]` and
/// `adds[i]`), where `handler_keys` has a closure for its key, and without
/// change otherwise.
pub open spec fn events_handled<T, A, E: Clone>(
    handler_keys: Seq<Seq<char>>,
    behaviours: Seq<spec_fn(&mut T, &mut A, E) -> bool>,
    keys: Seq<Seq<char>>,
    originals: Seq<E>,
    evs: Seq<E>,
    ks: Seq<int>,
    ts: Seq<&mut T>,
    as_: Seq<&mut A>,
    objs: Seq<T>,
    adds: Seq<A>,
) -> bool {
    &&& keys.len() == originals.len()
    &&& evs.len() == originals.len()
    &&& ks.len() == originals.len()
    &&& ts.len() == originals.len()
    &&& as_.len() == originals.len()
    &&& objs.len() == originals.len() + 1
    &&& adds.len() == originals.len() + 1
    &&& forall|i: int|
        0 <= i < originals.len() ==> {
            &&& cloned(originals[i], #[trigger] evs[i])
            &&& handler_keys.contains(keys[i]) ==> {
                &&& mut_ref_current(ts[i]) == objs[i]
                &&& mut_ref_current(as_[i]) == adds[i]
                &&& 0 <= ks[i] < handler_keys.len()
                &&& handler_keys[ks[i]] == keys[i]
                &&& (behaviours[ks[i]])(ts[i], as_[i], evs[i])
            }
            &&& !handler_keys.contains(keys[i]) ==> objs[i + 1] == objs[i] && adds[i + 1]
                == adds[i]
        }
}

proof fn lemma_events_handled_push<T, A, E: Clone>(
    handler_keys: Seq<Seq<char>>,
    behaviours: Seq<spec_fn(&mut T, &mut A, E) -> bool>,
    keys: Seq<Seq<char>>,
    originals: Seq<E>,
    evs: Seq<E>,
    ks: Seq<int>,
    ts: Seq<&mut T>,
    as_: Seq<&mut A>,
    objs: Seq<T>,
    adds: Seq<A>,
    key: Seq<char>,
    original: E,
    event: E,
    k: int,
    t: &mut T,
    a: &mut A,
    obj_after: T,
    add_after: A,
)
    requires
        events_handled(handler_keys, behaviours, keys, originals, evs, ks, ts, as_, objs, adds),
        cloned(original, event),
        handler_keys.contains(key) ==> {
            &&& mut_ref_current(t) == objs.last()
            &&& mut_ref_current(a) == adds.last()
            &&& 0 <= k < handler_keys.len()
            &&& handler_keys[k] == key
            &&& (behaviours[k])(t, a, event)
        },
        !handler_keys.contains(key) ==> obj_after == objs.last() && add_after == adds.last(),
    ensures
        events_handled(
            handler_keys,
            behaviours,
            keys.push(key),
            originals.push(original),
            evs.push(event),
            ks.push(k),
            ts.push(t),
            as_.push(a),
            objs.push(obj_after),
            adds.push(add_after),
        ),
{
    let n = originals.len() as int;
    assert forall|i: int| 0 <= i < n + 1 implies {
        &&& cloned(originals.push(original)[i], #[trigger] evs.push(event)[i])
        &&& handler_keys.contains(keys.push(key)[i]) ==> {
            &&& mut_ref_current(ts.push(t)[i]) == objs.push(obj_after)[i]
            &&& mut_ref_current(as_.push(a)[i]) == adds.push(add_after)[i]
            &&& 0 <= ks.push(k)[i] < handler_keys.len()
            &&& handler_keys[ks.push(k)[i]] == keys.push(key)[i]
            &&& (behaviours[ks.push(k)[i]])(ts.push(t)[i], as_.push(a)[i], evs.push(event)[i])
        }
        &&& !handler_keys.contains(keys.push(key)[i]) ==> objs.push(obj_after)[i + 1]
            == objs.push(obj_after)[i] && adds.push(add_after)[i + 1] == adds.push(add_after)[i]
    } by {
        if i < n {
            assert(evs[i] == evs.push(event)[i]);
        }
    }
}

/// A closure's outcomes are those of calling it.
pub proof fn lemma_closure_behaviour_is_call<T, A, E, F: FnMut(&mut T, &mut A, E)>(
    f: F,
    t: &mut T,
    a: &mut A,
    e: E,
)
    ensures
        (closure_behaviour(f))(t, a, e) <==> call_ensures(f, (t, a, e), ()),
{
}

/// In a run of handled events, each event whose key has a closure was handed,
/// as a clone, to a closure registered for that key (to the one closure for it
/// where keys do not repeat), with the state before it; each other event left
/// the state as it was. There is one state more than events.
pub proof fn lemma_each_event_reaches_its_closure<T, A, E: Clone>(
    handler_keys: Seq<Seq<char>>,
    behaviours: Seq<spec_fn(&mut T, &mut A, E) -> bool>,
    keys: Seq<Seq<char>>,
    originals: Seq<E>,
    evs: Seq<E>,
    ks: Seq<int>,
    ts: Seq<&mut T>,
    as_: Seq<&mut A>,
    objs: Seq<T>,
    adds: Seq<A>,
    i: int,
)
    requires
        events_handled(handler_keys, behaviours, keys, originals, evs, ks, ts, as_, objs, adds),
        0 <= i < originals.len(),
    ensures
        objs.len() == originals.len() + 1,
        adds.len() == originals.len() + 1,
        cloned(originals[i], evs[i]),
        handler_keys.contains(keys[i]) ==> {
            &&& mut_ref_current(ts[i]) == objs[i]
            &&& mut_ref_current(as_[i]) == adds[i]
            &&& exists|j: int|
                0 <= j < handler_keys.len() && handler_keys[j] == keys[i] && #[trigger] (behaviours[j])(
                    ts[i],
                    as_[i],
                    evs[i],
                )
        },
        handler_keys.contains(keys[i]) && handler_keys.no_duplicates() ==> forall|j: int|
            0 <= j < handler_keys.len() && handler_keys[j] == keys[i] ==> #[trigger] (behaviours[j])(
                ts[i],
                as_[i],
                evs[i],
            ),
        !handler_keys.contains(keys[i]) ==> objs[i + 1] == objs[i] && adds[i + 1] == adds[i],
{
    assert(cloned(originals[i], evs[i]));
    if handler_keys.contains(keys[i]) {
        let j = ks[i];
        assert((behaviours[j])(ts[i], as_[i], evs[i]));
    }
}

/// A handler for one kind of event.
trait EventHandler<T, A, E> {
    /// The possible outcomes of this handler: handling an event with `obj` and
    /// `additional` as the given mutable references.
    spec fn behaviour(&self) -> spec_fn(&mut T, &mut A, E) -> bool;

    /// Handles `event`.
    fn handle(&mut self, obj: &mut T, additional: &mut A, event: E)
        ensures
            final(self).behaviour() == old(self).behaviour(),
            exists|t: &mut T, a: &mut A|
                {
                    &&& mut_ref_current(t) == *old(obj)
                    &&& mut_ref_future(t) == *final(obj)
                    &&& mut_ref_current(a) == *old(additional)
                    &&& mut_ref_future(a) == *final(additional)
                    &&& #[trigger] (old(self).behaviour())(t, a, event)
                },
    ;
}

/// A closure that may be called on any input, used as an [`EventHandler`].
#[verifier::reject_recursive_types(T)]
#[verifier::reject_recursive_types(A)]
#[verifier::reject_recursive_types(E)]
struct ClosureHandler<T, A, E, F: FnMut(&mut T, &mut A, E)> {
    f: Option<F>,
    inputs: std::marker::PhantomData<(T, A, E)>,
}

impl<T, A, E, F: FnMut(&mut T, &mut A, E)> ClosureHandler<T, A, E, F> {
    /// The closure may be called on any input.
    #[verifier::type_invariant]
    closed spec fn callable(self) -> bool {
        self.f matches Some(f) ==> forall|t: &mut T, a: &mut A, e: E| call_requires(f, (t, a, e))
    }
}

impl<T, A, E, F: FnMut(&mut T, &mut A, E)> EventHandler<T, A, E> for ClosureHandler<T, A, E, F> {
    closed spec fn behaviour(&self) -> spec_fn(&mut T, &mut A, E) -> bool {
        |obj: &mut T, additional: &mut A, event: E|
            self.f matches Some(g) ==> call_ensures(g, (obj, additional, event), ())
    }

    fn handle(&mut self, obj: &mut T, additional: &mut A, event: E)
    {
        let ghost before = *self;
        let mut taken = ClosureHandler { f: None, inputs: std::marker::PhantomData };
        std::mem::swap(self, &mut taken);
        proof {
            use_type_invariant(&taken);
        }
        let ClosureHandler { f, inputs } = taken;
        if let Some(mut f) = f {
            let t = &mut *obj;
            let a = &mut *additional;
            f(t, a, event);
            *self = ClosureHandler { f: Some(f), inputs };
            proof {
                assert forall|t: &mut T, a: &mut A| #[trigger]
                    call_ensures(f, (t, a, event), ()) implies (before.behaviour())(t, a, event) by {}
            }
        } else {
            // without a closure nothing happens, which is a possible outcome
            let t = &mut *obj;
            let a = &mut *additional;
            proof {
                assert((before.behaviour())(t, a, event));
            }
        }
    }
}

/// The closure for one key.
#[verifier::reject_recursive_types(T)]
#[verifier::reject_recursive_types(A)]
#[verifier::reject_recursive_types(E)]
struct Slot<T, A, E> {
    key: &'static str,
    handler: Box<dyn EventHandler<T, A, E>>,
}

/// Handles a queue, routing events into closures based on their key.
#[verifier::reject_recursive_types(T)]
#[verifier::reject_recursive_types(A)]
#[verifier::reject_recursive_types(E)]
pub struct QueueHandler<T, A, E> {
    entries: Vec<Slot<T, A, E>>,
    pending: Vec<(&'static str, E)>,
    node_id: NodeId,
}

impl<T: 'static, A: 'static, E: 'static> QueueHandler<T, A, E> {
    /// The keys that have a closure, in the order they were first added.
    pub closed spec fn keys(&self) -> Seq<Seq<char>> {
        self.entries@.map_values(|s: Slot<T, A, E>| s.key@)
    }

    /// The possible outcomes of the closure for each key, in the order of `keys`.
    pub closed spec fn behaviours(&self) -> Seq<spec_fn(&mut T, &mut A, E) -> bool> {
        self.entries@.map_values(|s: Slot<T, A, E>| s.handler.behaviour())
    }

    /// The node whose event queue this handler listens to.
    pub closed spec fn listened_node(&self) -> NodeId {
        self.node_id
    }

    /// The keys of the events waiting to be handled, oldest first.
    pub closed spec fn pending_keys(&self) -> Seq<Seq<char>> {
        self.pending@.map_values(|p: (&'static str, E)| p.0@)
    }

    /// The events waiting to be handled, oldest first.
    pub closed spec fn pending_events(&self) -> Seq<E> {
        self.pending@.map_values(|p: (&'static str, E)| p.1)
    }

    /// No key has two closures.
    pub open spec fn wf(&self) -> bool {
        self.keys().no_duplicates()
    }

    /// Each key has one closure, and each pending event one key.
    pub proof fn lemma_one_per_key(&self)
        ensures
            self.behaviours().len() == self.keys().len(),
            self.pending_events().len() == self.pending_keys().len(),
    {
    }

    /// `after` is this handler with the closure of outcomes `b` for `key`: in
    /// place of the old one where the key had one, else added last. Nothing
    /// else changes.
    pub open spec fn sets_closure(
        self,
        key: Seq<char>,
        b: spec_fn(&mut T, &mut A, E) -> bool,
        after: Self,
    ) -> bool {
        &&& after.listened_node() == self.listened_node()
        &&& after.pending_keys() == self.pending_keys()
        &&& after.pending_events() == self.pending_events()
        &&& self.keys().contains(key) ==> exists|j: int|
            {
                &&& 0 <= j < self.keys().len()
                &&& #[trigger] self.keys()[j] == key
                &&& forall|k: int| 0 <= k < j ==> self.keys()[k] != key
                &&& after.keys() == self.keys()
                &&& after.behaviours() == self.behaviours().update(j, b)
            }
        &&& !self.keys().contains(key) ==> after.keys() == self.keys().push(key)
            && after.behaviours() == self.behaviours().push(b)
    }

    /// Setting a closure for `key` routes `key` to it and leaves every other
    /// key with its closure: `key` is now a key, every position holding `key`
    /// holds `b` where no key repeats (and no key repeats afterwards), and every
    /// position holding another key holds that key and its closure as before.
    pub proof fn lemma_sets_closure_routes(
        self,
        key: Seq<char>,
        b: spec_fn(&mut T, &mut A, E) -> bool,
        after: Self,
    )
        requires
            self.sets_closure(key, b, after),
        ensures
            after.keys().len() == after.behaviours().len(),
            exists|j: int|
                0 <= j < after.keys().len() && after.keys()[j] == key && #[trigger] after.behaviours()[j]
                    == b,
            forall|k: int|
                0 <= k < after.keys().len() && #[trigger] after.keys()[k] != key ==> {
                    &&& k < self.keys().len()
                    &&& self.keys()[k] == after.keys()[k]
                    &&& after.behaviours()[k] == self.behaviours()[k]
                },
            self.keys().len() <= after.keys().len() <= self.keys().len() + 1,
            self.wf() ==> after.wf(),
            self.wf() ==> forall|j: int|
                0 <= j < after.keys().len() && #[trigger] after.keys()[j] == key
                    ==> after.behaviours()[j] == b,
    {
        self.lemma_one_per_key();
        after.lemma_one_per_key();
        let ok = self.keys();
        let ob = self.behaviours();
        if ok.contains(key) {
            let j = choose|j: int|
                {
                    &&& 0 <= j < ok.len()
                    &&& #[trigger] ok[j] == key
                    &&& forall|k: int| 0 <= k < j ==> ok[k] != key
                    &&& after.keys() == ok
                    &&& after.behaviours() == ob.update(j, b)
                };
            assert(after.behaviours()[j] == b);
            assert forall|k: int|
                0 <= k < after.keys().len() && #[trigger] after.keys()[k] != key implies {
                    &&& k < ok.len()
                    &&& ok[k] == after.keys()[k]
                    &&& after.behaviours()[k] == ob[k]
                } by {
                assert(k != j);
            }
            if ok.no_duplicates() {
                assert forall|i: int|
                    0 <= i < after.keys().len() && #[trigger] after.keys()[i] == key implies after.behaviours()[i]
                        == b by {
                    if i != j {
                        assert(ok[i] == ok[j]);
                    }
                }
            }
        } else {
            let n = ok.len() as int;
            assert(after.keys()[n] == key);
            assert(after.behaviours()[n] == b);
            assert forall|k: int|
                0 <= k < after.keys().len() && #[trigger] after.keys()[k] != key implies {
                    &&& k < ok.len()
                    &&& ok[k] == after.keys()[k]
                    &&& after.behaviours()[k] == ob[k]
                } by {
                assert(k != n);
            }
            if ok.no_duplicates() {
                assert forall|x: int, y: int|
                    0 <= x < after.keys().len() && 0 <= y < after.keys().len() && x != y
                        implies after.keys()[x] != after.keys()[y] by {
                    if x == n {
                        assert(ok[y] == after.keys()[y]);
                    } else if y == n {
                        assert(ok[x] == after.keys()[x]);
                    }
                }
                assert forall|i: int|
                    0 <= i < after.keys().len() && #[trigger] after.keys()[i] == key implies after.behaviours()[i]
                        == b by {
                    if i != n {
                        assert(ok[i] == key);
                    }
                }
            }
        }
    }

    /// Creates a new queue handler, listening to a given node event queue.
    pub fn new<To, Ao>(node: &EventNode<To, Ao>) -> (h: Self)
        ensures
            h.wf(),
            h.keys() == Seq::<Seq<char>>::empty(),
            h.behaviours() == Seq::<spec_fn(&mut T, &mut A, E) -> bool>::empty(),
            h.pending_events() == Seq::<E>::empty(),
            h.pending_keys() == Seq::<Seq<char>>::empty(),
            h.listened_node() == node.node_id(),
    {
        let h = QueueHandler { entries: Vec::new(), pending: Vec::new(), node_id: node.id() };
        assert(h.keys() =~= Seq::<Seq<char>>::empty());
        assert(h.behaviours() =~= Seq::<spec_fn(&mut T, &mut A, E) -> bool>::empty());
        assert(h.pending_events() =~= Seq::<E>::empty());
        assert(h.pending_keys() =~= Seq::<Seq<char>>::empty());
        h
    }

    /// The node whose event queue this handler listens to.
    pub fn node_id(&self) -> (id: NodeId)
        ensures
            id == self.listened_node(),
    {
        self.node_id
    }

    /// The position of the closure for `key`, if any: the first one.
    fn position(&self, key: &str) -> (r: Option<usize>)
        ensures
            match r {
                Some(j) => {
                    &&& j < self.keys().len()
                    &&& self.keys()[j as int] == key@
                    &&& forall|k: int| 0 <= k < j ==> self.keys()[k] != key@
                },
                None => !self.keys().contains(key@),
            },
    {
        let mut j: usize = 0;
        while j < self.entries.len()
            invariant
                0 <= j <= self.entries.len(),
                forall|k: int| 0 <= k < j ==> self.keys()[k] != key@,
            decreases self.entries.len() - j,
        {
            if same_key(self.entries[j].key, key) {
                return Some(j);
            }
            j = j + 1;
        }
        None
    }

    /// Adds a closure to be executed when an event of a specific key is matched.
    ///
    /// If the key already has a closure, the old closure is replaced.
    pub fn on<F: FnMut(&mut T, &mut A, E) + 'static>(&mut self, ev: &'static str, handler: F) -> (r:
        &mut Self)
        requires
            forall|t: &mut T, a: &mut A, e: E| call_requires(handler, (t, a, e)),
        ensures
            old(self).sets_closure(ev@, closure_behaviour(handler), *r),
            old(self).wf() ==> r.wf(),
            *final(self) == *final(r),
    {
        let slot = Slot {
            key: ev,
            handler: Box::new(ClosureHandler { f: Some(handler), inputs: std::marker::PhantomData }),
        };
        assert(slot.handler.behaviour() == closure_behaviour::<T, A, E, F>(handler));
        let ghost before = self.entries@;
        let ghost nb = closure_behaviour::<T, A, E, F>(handler);
        let ghost ob = old(self).behaviours();
        let ghost ok = old(self).keys();
        match self.position(ev) {
            Some(j) => {
                self.entries.set(j, slot);
                proof {
                    assert(self.entries@ == before.update(j as int, slot));
                    vstd::seq::axiom_seq_update_len(before, j as int, slot);
                    assert forall|k: int|
                        #![trigger self.behaviours()[k]]
                        #![trigger self.keys()[k]]
                        0 <= k < before.len() implies self.behaviours()[k] == ob.update(
                            j as int,
                            nb,
                        )[k] && self.keys()[k] == ok[k] by {
                        assert(ob[k] == before[k].handler.behaviour());
                        assert(ok[k] == before[k].key@);
                        assert(self.behaviours()[k] == self.entries@[k].handler.behaviour());
                        assert(self.keys()[k] == self.entries@[k].key@);
                        if k == j {
                            vstd::seq::axiom_seq_update_same(before, j as int, slot);
                            vstd::seq::axiom_seq_update_same(ob, j as int, nb);
                        } else {
                            vstd::seq::axiom_seq_update_different(before, k, j as int, slot);
                            vstd::seq::axiom_seq_update_different(ob, k, j as int, nb);
                        }
                    }
                    assert(self.behaviours() =~= ob.update(j as int, nb));
                    assert(self.keys() =~= ok);
                    assert(self.pending_keys() =~= old(self).pending_keys());
                    assert(self.pending_events() =~= old(self).pending_events());
                }
            },
            None => {
                self.entries.push(slot);
                proof {
                    assert(self.entries@ == before.push(slot));
                    vstd::seq::axiom_seq_push_len(before, slot);
                    assert forall|k: int|
                        #![trigger self.behaviours()[k]]
                        #![trigger self.keys()[k]]
                        0 <= k < before.len() + 1 implies self.behaviours()[k] == ob.push(nb)[k]
                            && self.keys()[k] == ok.push(ev@)[k] by {
                        assert(self.behaviours()[k] == self.entries@[k].handler.behaviour());
                        assert(self.keys()[k] == self.entries@[k].key@);
                        if k == before.len() {
                            vstd::seq::axiom_seq_push_index_same(before, slot, k);
                            vstd::seq::axiom_seq_push_index_same(ob, nb, k);
                        } else {
                            assert(ob[k] == before[k].handler.behaviour());
                            assert(ok[k] == before[k].key@);
                            vstd::seq::axiom_seq_push_index_different(before, slot, k);
                            vstd::seq::axiom_seq_push_index_different(ob, nb, k);
                        }
                    }
                    assert(self.behaviours() =~= ob.push(nb));
                    assert(self.keys() =~= ok.push(ev@));
                    assert(self.pending_keys() =~= old(self).pending_keys());
                    assert(self.pending_events() =~= old(self).pending_events());
                    if ok.no_duplicates() {
                        assert forall|a: int, b: int|
                            0 <= a < self.keys().len() && 0 <= b < self.keys().len() && a != b
                                implies self.keys()[a] != self.keys()[b] by {
                            if a == ok.len() {
                                assert(ok[b] == self.keys()[b]);
                            } else if b == ok.len() {
                                assert(ok[a] == self.keys()[a]);
                            }
                        }
                    }
                }
            },
        }
        self
    }

    /// Same as [`on`](QueueHandler::on), however `self` is consumed and returned.
    pub fn and_on<F: FnMut(&mut T, &mut A, E) + 'static>(self, ev: &'static str, handler: F) -> (h:
        Self)
        requires
            forall|t: &mut T, a: &mut A, e: E| call_requires(handler, (t, a, e)),
        ensures
            self.sets_closure(ev@, closure_behaviour(handler), h),
            self.wf() ==> h.wf(),
    {
        let mut h = self;
        h.on(ev, handler);
        h
    }

    /// Adds an event with key `key` to the events waiting to be handled.
    pub fn push_event(&mut self, key: &'static str, event: E)
        ensures
            final(self).pending_keys() == old(self).pending_keys().push(key@),
            final(self).pending_events() == old(self).pending_events().push(event),
            final(self).keys() == old(self).keys(),
            final(self).behaviours() == old(self).behaviours(),
            final(self).listened_node() == old(self).listened_node(),
    {
        self.pending.push((key, event));
        assert(self.pending_keys() =~= old(self).pending_keys().push(key@));
        assert(self.pending_events() =~= old(self).pending_events().push(event));
    }

    /// Calls the closure for `key`, if any, with `event`.
    pub fn dispatch(&mut self, key: &str, event: E, obj: &mut T, additional: &mut A)
        ensures
            final(self).keys() == old(self).keys(),
            final(self).pending_keys() == old(self).pending_keys(),
            final(self).pending_events() == old(self).pending_events(),
            final(self).listened_node() == old(self).listened_node(),
            final(self).behaviours() == old(self).behaviours(),
            // the closure for the key, if any, handled the event with `t` and `a`
            // as `obj` and `additional`
            old(self).keys().contains(key@) ==> exists|j: int, t: &mut T, a: &mut A|
                {
                    &&& 0 <= j < old(self).keys().len()
                    &&& old(self).keys()[j] == key@
                    &&& mut_ref_current(t) == *old(obj)
                    &&& mut_ref_future(t) == *final(obj)
                    &&& mut_ref_current(a) == *old(additional)
                    &&& mut_ref_future(a) == *final(additional)
                    &&& #[trigger] (old(self).behaviours()[j])(t, a, event)
                },
            // without a closure for the key, nothing happens
            !old(self).keys().contains(key@) ==> *final(obj) == *old(obj) && *final(additional)
                == *old(additional),
    {
        let ghost before = self.entries@;
        if let Some(j) = self.position(key) {
            proof {
                assert(old(self).behaviours()[j as int] == before[j as int].handler.behaviour());
                assert forall|t: &mut T, a: &mut A| #[trigger]
                    (before[j as int].handler.behaviour())(t, a, event) implies (old(
                    self,
                ).behaviours()[j as int])(t, a, event) by {}
            }
            let handler = &mut self.entries[j].handler;
            handler.handle(obj, additional, event);
            proof {
                assert(self.behaviours() =~= old(self).behaviours()) by {
                    assert forall|k: int| 0 <= k < self.entries@.len() implies
                        #[trigger] self.entries@[k].handler.behaviour() == before[k].handler.behaviour() by {
                        if k != j {
                            vstd::seq::axiom_seq_update_different(before, k, j as int, self.entries@[j as int]);
                        }
                    }
                }
                assert(self.keys() =~= old(self).keys()) by {
                    assert forall|k: int| 0 <= k < self.entries@.len() implies
                        #[trigger] self.entries@[k].key == before[k].key by {
                        if k != j {
                            vstd::seq::axiom_seq_update_different(before, k, j as int, self.entries@[j as int]);
                        }
                    }
                }
            }
        }
    }

    /// Routes each of `events`, whose keys are `keys`, into the closure for its key, in order.
    #[verifier::spinoff_prover]
    pub fn handle_events(&mut self, keys: &[&str], events: &[E], obj: &mut T, additional: &mut A)
        where
            E: Clone,
        requires
            keys.len() == events.len(),
        ensures
            final(self).keys() == old(self).keys(),
            final(self).pending_keys() == old(self).pending_keys(),
            final(self).pending_events() == old(self).pending_events(),
            final(self).listened_node() == old(self).listened_node(),
            final(self).behaviours() == old(self).behaviours(),
            // the events were handled in turn, from `*old(obj)` to `*final(obj)`
            exists|
                evs: Seq<E>,
                ks: Seq<int>,
                ts: Seq<&mut T>,
                as_: Seq<&mut A>,
                objs: Seq<T>,
                adds: Seq<A>,
            |
                {
                    &&& #[trigger] events_handled(
                        old(self).keys(),
                        old(self).behaviours(),
                        key_views(keys@),
                        events@,
                        evs,
                        ks,
                        ts,
                        as_,
                        objs,
                        adds,
                    )
                    &&& objs[0] == *old(obj)
                    &&& adds[0] == *old(additional)
                    &&& objs.last() == *final(obj)
                    &&& adds.last() == *final(additional)
                    &&& forall|i: int|
                        0 <= i < events.len() && old(self).keys().contains(key_views(keys@)[i])
                            ==> mut_ref_future(#[trigger] ts[i]) == objs[i + 1] && mut_ref_future(
                            as_[i],
                        ) == adds[i + 1]
                },
    {
        let ghost key_seq = key_views(keys@);
        let mut j: usize = 0;
        assert(events_handled(
            old(self).keys(),
            old(self).behaviours(),
            key_seq.take(0),
            events@.take(0),
            Seq::empty(),
            Seq::empty(),
            Seq::empty(),
            Seq::empty(),
            seq![*obj],
            seq![*additional],
        ));
        while j < events.len()
            invariant
                self.keys() == old(self).keys(),
                self.pending_keys() == old(self).pending_keys(),
                self.pending_events() == old(self).pending_events(),
                self.listened_node() == old(self).listened_node(),
                self.behaviours() == old(self).behaviours(),
                keys.len() == events.len(),
                key_seq == key_views(keys@),
                j <= events.len(),
                exists|
                    evs: Seq<E>,
                    ks: Seq<int>,
                    ts: Seq<&mut T>,
                    as_: Seq<&mut A>,
                    objs: Seq<T>,
                    adds: Seq<A>,
                |
                    {
                        &&& #[trigger] events_handled(
                            old(self).keys(),
                            old(self).behaviours(),
                            key_seq.take(j as int),
                            events@.take(j as int),
                            evs,
                            ks,
                            ts,
                            as_,
                            objs,
                            adds,
                        )
                        &&& objs[0] == *old(obj)
                        &&& adds[0] == *old(additional)
                        &&& objs.last() == *obj
                        &&& adds.last() == *additional
                        &&& forall|i: int|
                            0 <= i < j && old(self).keys().contains(key_seq[i]) ==> mut_ref_future(
                                #[trigger] ts[i],
                            ) == objs[i + 1] && mut_ref_future(as_[i]) == adds[i + 1]
                    },
            decreases events.len() - j,
        {
            let event = events[j].clone();
            let ghost obj0 = *obj;
            let ghost add0 = *additional;
            self.dispatch(keys[j], event, obj, additional);
            proof {
                let (evs, ks, ts, as_, objs, adds) = choose|
                    evs: Seq<E>,
                    ks: Seq<int>,
                    ts: Seq<&mut T>,
                    as_: Seq<&mut A>,
                    objs: Seq<T>,
                    adds: Seq<A>,
                |
                    {
                        &&& #[trigger] events_handled(
                            old(self).keys(),
                            old(self).behaviours(),
                            key_seq.take(j as int),
                            events@.take(j as int),
                            evs,
                            ks,
                            ts,
                            as_,
                            objs,
                            adds,
                        )
                        &&& objs[0] == *old(obj)
                        &&& adds[0] == *old(additional)
                        &&& objs.last() == obj0
                        &&& adds.last() == add0
                        &&& forall|i: int|
                            0 <= i < j && old(self).keys().contains(key_seq[i]) ==> mut_ref_future(
                                #[trigger] ts[i],
                            ) == objs[i + 1] && mut_ref_future(as_[i]) == adds[i + 1]
                    };
                let key = keys@[j as int]@;
                let (k, t, a) = if old(self).keys().contains(key) {
                    choose|k: int, t: &mut T, a: &mut A|
                        {
                            &&& 0 <= k < old(self).keys().len()
                            &&& old(self).keys()[k] == key
                            &&& mut_ref_current(t) == obj0
                            &&& mut_ref_future(t) == *obj
                            &&& mut_ref_current(a) == add0
                            &&& mut_ref_future(a) == *additional
                            &&& #[trigger] (old(self).behaviours()[k])(t, a, event)
                        }
                } else {
                    (0int, arbitrary(), arbitrary())
                };
                assert(key_seq.take(j + 1) =~= key_seq.take(j as int).push(keys@[j as int]@));
                assert(events@.take(j + 1) =~= events@.take(j as int).push(events@[j as int]));
                lemma_events_handled_push(
                    old(self).keys(),
                    old(self).behaviours(),
                    key_seq.take(j as int),
                    events@.take(j as int),
                    evs,
                    ks,
                    ts,
                    as_,
                    objs,
                    adds,
                    keys@[j as int]@,
                    events@[j as int],
                    event,
                    k,
                    t,
                    a,
                    *obj,
                    *additional,
                );
                assert forall|i: int|
                    0 <= i < j + 1 && old(self).keys().contains(key_seq[i]) implies mut_ref_future(
                    #[trigger] ts.push(t)[i],
                ) == objs.push(*obj)[i + 1] && mut_ref_future(as_.push(a)[i]) == adds.push(
                    *additional,
                )[i + 1] by {
                    if i < j {
                        assert(ts.push(t)[i] == ts[i]);
                    }
                }
                assert(events_handled(
                    old(self).keys(),
                    old(self).behaviours(),
                    key_seq.take(j + 1),
                    events@.take(j + 1),
                    evs.push(event),
                    ks.push(k),
                    ts.push(t),
                    as_.push(a),
                    objs.push(*obj),
                    adds.push(*additional),
                ));
                assert(objs.push(*obj)[0] == *old(obj));
                assert(adds.push(*additional)[0] == *old(additional));
                assert(self.keys() == old(self).keys());
                assert(self.behaviours() == old(self).behaviours());
                assert(self.pending_keys() == old(self).pending_keys());
                assert(exists|
                    evs: Seq<E>,
                    ks: Seq<int>,
                    ts: Seq<&mut T>,
                    as_: Seq<&mut A>,
                    objs: Seq<T>,
                    adds: Seq<A>,
                |
                    {
                        &&& #[trigger] events_handled(
                            old(self).keys(),
                            old(self).behaviours(),
                            key_seq.take(j + 1),
                            events@.take(j + 1),
                            evs,
                            ks,
                            ts,
                            as_,
                            objs,
                            adds,
                        )
                        &&& objs[0] == *old(obj)
                        &&& adds[0] == *old(additional)
                        &&& objs.last() == *obj
                        &&& adds.last() == *additional
                        &&& forall|i: int|
                            0 <= i < j + 1 && old(self).keys().contains(key_seq[i])
                                ==> mut_ref_future(#[trigger] ts[i]) == objs[i + 1]
                                && mut_ref_future(as_[i]) == adds[i + 1]
                    });
            }
            j = j + 1;
        }
        assert(key_seq.take(events.len() as int) =~= key_seq);
        assert(events@.take(events.len() as int) =~= events@);
    }
}

impl<T: 'static, A: 'static, E: Clone + 'static> QueueHandler<T, A, E> {
    /// How many pending events handling at most `n` of them takes.
    pub open spec fn handled_count(&self, n: usize) -> int {
        if n < self.pending_events().len() {
            n as int
        } else {
            self.pending_events().len() as int
        }
    }

    /// Handling at most `n` pending events takes `n` of them where there are
    /// that many, and all of them otherwise.
    pub proof fn lemma_handled_count(&self, n: usize)
        ensures
            0 <= self.handled_count(n) <= n,
            self.handled_count(n) <= self.pending_events().len(),
            self.handled_count(n) == n || self.handled_count(n) == self.pending_events().len(),
    {
    }

    /// Handling at most `n` pending events runs as `objs`, `adds`, `ts`, `as_`
    /// and `used`: the first `handled_count(n)` pending events are handled in
    /// turn by the closures for their keys, a step using its references where
    /// its key has a closure.
    pub open spec fn handles(
        &self,
        n: usize,
        objs: Seq<T>,
        adds: Seq<A>,
        ts: Seq<&mut T>,
        as_: Seq<&mut A>,
        used: Seq<bool>,
    ) -> bool {
        let m = self.handled_count(n);
        &&& used == self.pending_keys().take(m).map_values(|k: Seq<char>| self.keys().contains(k))
        &&& exists|evs: Seq<E>, ks: Seq<int>|
            #[trigger] events_handled(
                self.keys(),
                self.behaviours(),
                self.pending_keys().take(m),
                self.pending_events().take(m),
                evs,
                ks,
                ts,
                as_,
                objs,
                adds,
            )
    }

    /// Handles at most `n` pending events, oldest first, each by the closure
    /// for its key; the others stay pending.
    #[verifier::spinoff_prover]
    pub fn handle_pending(&mut self, n: usize, obj: &mut T, additional: &mut A)
        ensures
            final(self).keys() == old(self).keys(),
            final(self).behaviours() == old(self).behaviours(),
            final(self).listened_node() == old(self).listened_node(),
            final(self).pending_keys() == old(self).pending_keys().skip(old(self).handled_count(n)),
            final(self).pending_events() == old(self).pending_events().skip(
                old(self).handled_count(n),
            ),
            exists|objs: Seq<T>, adds: Seq<A>, ts: Seq<&mut T>, as_: Seq<&mut A>, used: Seq<bool>|
                {
                    &&& #[trigger] old(self).handles(n, objs, adds, ts, as_, used)
                    &&& objs[0] == *old(obj)
                    &&& adds[0] == *old(additional)
                    &&& objs.last() == *final(obj)
                    &&& adds.last() == *final(additional)
                    &&& forall|i: int|
                        0 <= i < used.len() && used[i] ==> mut_ref_future(#[trigger] ts[i])
                            == objs[i + 1] && mut_ref_future(as_[i]) == adds[i + 1]
                },
    {
        let ghost p0 = self.pending@;
        let count = if n < self.pending.len() {
            n
        } else {
            self.pending.len()
        };
        let mut keys: Vec<&'static str> = Vec::new();
        let mut events: Vec<E> = Vec::new();
        let mut i: usize = 0;
        while i < count
            invariant
                count <= p0.len(),
                i <= count,
                p0 == old(self).pending@,
                self.pending@ == p0.skip(i as int),
                keys@ == p0.take(i as int).map_values(|p: (&'static str, E)| p.0),
                events@ == p0.take(i as int).map_values(|p: (&'static str, E)| p.1),
                self.entries@ == old(self).entries@,
                self.node_id == old(self).node_id,
            decreases count - i,
        {
            let (k, e) = self.pending.remove(0);
            keys.push(k);
            events.push(e);
            proof {
                assert(p0.skip(i as int).remove(0) =~= p0.skip(i + 1));
                assert(p0.take(i + 1).map_values(|p: (&'static str, E)| p.0) =~= p0.take(
                    i as int,
                ).map_values(|p: (&'static str, E)| p.0).push(k));
                assert(p0.take(i + 1).map_values(|p: (&'static str, E)| p.1) =~= p0.take(
                    i as int,
                ).map_values(|p: (&'static str, E)| p.1).push(e));
            }
            i = i + 1;
        }
        let ghost mid = *self;
        let ghost m = old(self).handled_count(n);
        proof {
            assert(self.keys() =~= old(self).keys());
            assert(self.behaviours() =~= old(self).behaviours());
            assert(key_views(keys@) =~= old(self).pending_keys().take(m));
            assert(events@ =~= old(self).pending_events().take(m));
            assert(self.pending_keys() =~= old(self).pending_keys().skip(m));
            assert(self.pending_events() =~= old(self).pending_events().skip(m));
        }
        self.handle_events(keys.as_slice(), events.as_slice(), obj, additional);
        proof {
            let (evs, ks, ts, as_, objs, adds) = choose|
                evs: Seq<E>,
                ks: Seq<int>,
                ts: Seq<&mut T>,
                as_: Seq<&mut A>,
                objs: Seq<T>,
                adds: Seq<A>,
            |
                {
                    &&& #[trigger] events_handled(
                        mid.keys(),
                        mid.behaviours(),
                        key_views(keys@),
                        events@,
                        evs,
                        ks,
                        ts,
                        as_,
                        objs,
                        adds,
                    )
                    &&& objs[0] == *old(obj)
                    &&& adds[0] == *old(additional)
                    &&& objs.last() == *obj
                    &&& adds.last() == *additional
                    &&& forall|i: int|
                        0 <= i < events@.len() && mid.keys().contains(key_views(keys@)[i])
                            ==> mut_ref_future(#[trigger] ts[i]) == objs[i + 1] && mut_ref_future(
                            as_[i],
                        ) == adds[i + 1]
                };
            let used = old(self).pending_keys().take(m).map_values(
                |k: Seq<char>| old(self).keys().contains(k),
            );
            assert(old(self).handles(n, objs, adds, ts, as_, used));
            assert forall|i: int|
                0 <= i < used.len() && used[i] implies mut_ref_future(#[trigger] ts[i]) == objs[i
                + 1] && mut_ref_future(as_[i]) == adds[i + 1] by {
                assert(used[i] == mid.keys().contains(key_views(keys@)[i]));
            }
            assert(exists|
                objs: Seq<T>,
                adds: Seq<A>,
                ts: Seq<&mut T>,
                as_: Seq<&mut A>,
                used: Seq<bool>,
            |
                {
                    &&& #[trigger] old(self).handles(n, objs, adds, ts, as_, used)
                    &&& objs[0] == *old(obj)
                    &&& adds[0] == *old(additional)
                    &&& objs.last() == *obj
                    &&& adds.last() == *additional
                    &&& forall|i: int|
                        0 <= i < used.len() && used[i] ==> mut_ref_future(#[trigger] ts[i])
                            == objs[i + 1] && mut_ref_future(as_[i]) == adds[i + 1]
                });
        }
    }

    /// Handling at most `n` pending events and then at most `k` of those left
    /// handles, in the same order, the events that handling at most `n + k` at
    /// once would, and leaves the same events pending; handling none leaves
    /// every event pending.
    pub proof fn lemma_handling_splits(self, mid: Self, last: Self, n: usize, k: usize)
        requires
            mid.pending_keys() == self.pending_keys().skip(self.handled_count(n)),
            mid.pending_events() == self.pending_events().skip(self.handled_count(n)),
            last.pending_keys() == mid.pending_keys().skip(mid.handled_count(k)),
            last.pending_events() == mid.pending_events().skip(mid.handled_count(k)),
            n + k <= usize::MAX,
        ensures
            self.handled_count((n + k) as usize) == self.handled_count(n) + mid.handled_count(k),
            self.pending_events().take(self.handled_count((n + k) as usize))
                == self.pending_events().take(self.handled_count(n)) + mid.pending_events().take(
                mid.handled_count(k),
            ),
            self.pending_keys().take(self.handled_count((n + k) as usize))
                == self.pending_keys().take(self.handled_count(n)) + mid.pending_keys().take(
                mid.handled_count(k),
            ),
            last.pending_events() == self.pending_events().skip(
                self.handled_count((n + k) as usize),
            ),
            last.pending_keys() == self.pending_keys().skip(self.handled_count((n + k) as usize)),
            self.handled_count(0) == 0,
    {
        self.lemma_one_per_key();
        let a = self.handled_count(n);
        let b = mid.handled_count(k);
        let e = self.pending_events();
        let ks = self.pending_keys();
        assert(e.take(a + b) =~= e.take(a) + e.skip(a).take(b));
        assert(ks.take(a + b) =~= ks.take(a) + ks.skip(a).take(b));
        assert(e.skip(a).skip(b) =~= e.skip(a + b));
        assert(ks.skip(a).skip(b) =~= ks.skip(a + b));
    }

    /// Handling at most `n` pending events hands the first `handled_count(n)`
    /// of them, oldest first and each as a clone, to the closure for its key,
    /// with the state left by the one before; an event whose key has no closure
    /// changes nothing.
    pub proof fn lemma_handles_pending_in_order(
        &self,
        n: usize,
        objs: Seq<T>,
        adds: Seq<A>,
        ts: Seq<&mut T>,
        as_: Seq<&mut A>,
        used: Seq<bool>,
    )
        requires
            self.handles(n, objs, adds, ts, as_, used),
        ensures
            objs.len() == self.handled_count(n) + 1,
            used.len() == self.handled_count(n),
            exists|evs: Seq<E>|
                #[trigger] evs.len() == self.handled_count(n) && forall|i: int|
                    0 <= i < self.handled_count(n) ==> {
                        &&& cloned(self.pending_events()[i], #[trigger] evs[i])
                        &&& used[i] == self.keys().contains(self.pending_keys()[i])
                        &&& used[i] ==> {
                            &&& mut_ref_current(ts[i]) == objs[i]
                            &&& mut_ref_current(as_[i]) == adds[i]
                            &&& exists|j: int|
                                0 <= j < self.keys().len() && self.keys()[j]
                                    == self.pending_keys()[i] && #[trigger] (self.behaviours()[j])(
                                    ts[i],
                                    as_[i],
                                    evs[i],
                                )
                        }
                        &&& !used[i] ==> objs[i + 1] == objs[i] && adds[i + 1] == adds[i]
                    },
    {
        self.lemma_one_per_key();
        let m = self.handled_count(n);
        let pk = self.pending_keys().take(m);
        let pe = self.pending_events().take(m);
        let (evs, ks) = choose|evs: Seq<E>, ks: Seq<int>|
            #[trigger] events_handled(
                self.keys(),
                self.behaviours(),
                pk,
                pe,
                evs,
                ks,
                ts,
                as_,
                objs,
                adds,
            );
        assert forall|i: int| 0 <= i < m implies {
            &&& cloned(self.pending_events()[i], #[trigger] evs[i])
            &&& used[i] == self.keys().contains(self.pending_keys()[i])
            &&& used[i] ==> {
                &&& mut_ref_current(ts[i]) == objs[i]
                &&& mut_ref_current(as_[i]) == adds[i]
                &&& exists|j: int|
                    0 <= j < self.keys().len() && self.keys()[j] == self.pending_keys()[i]
                        && #[trigger] (self.behaviours()[j])(ts[i], as_[i], evs[i])
            }
            &&& !used[i] ==> objs[i + 1] == objs[i] && adds[i + 1] == adds[i]
        } by {
            assert(pk[i] == self.pending_keys()[i]);
            assert(pe[i] == self.pending_events()[i]);
            lemma_each_event_reaches_its_closure(
                self.keys(),
                self.behaviours(),
                pk,
                pe,
                evs,
                ks,
                ts,
                as_,
                objs,
                adds,
                i,
            );
        }
    }

    /// A run that handling allows has the shape of a run of steps.
    pub proof fn lemma_handles_shaped(
        &self,
        n: usize,
        objs: Seq<T>,
        adds: Seq<A>,
        ts: Seq<&mut T>,
        as_: Seq<&mut A>,
        used: Seq<bool>,
    )
        requires
            self.handles(n, objs, adds, ts, as_, used),
        ensures
            steps_shaped(objs, adds, ts, as_, used),
    {
    }
}

impl<T: 'static, A: 'static, E: Clone + 'static> AnyQueueHandler<T, A> for QueueHandler<T, A, E> {
    open spec fn behaviour(&self) -> spec_fn(
        usize,
        Seq<T>,
        Seq<A>,
        Seq<&mut T>,
        Seq<&mut A>,
        Seq<bool>,
    ) -> bool {
        |n: usize, objs: Seq<T>, adds: Seq<A>, ts: Seq<&mut T>, as_: Seq<&mut A>, used: Seq<bool>|
            self.handles(n, objs, adds, ts, as_, used)
    }

    fn update(&mut self, obj: &mut T, additional: &mut A) {
        let n = self.pending.len();
        proof {
            assert(old(self).handled_count(n) == old(self).handled_count(usize::MAX));
        }
        self.handle_pending(n, obj, additional);
        proof {
            let (objs, adds, ts, as_, used) = choose|
                objs: Seq<T>,
                adds: Seq<A>,
                ts: Seq<&mut T>,
                as_: Seq<&mut A>,
                used: Seq<bool>,
            |
                {
                    &&& #[trigger] old(self).handles(n, objs, adds, ts, as_, used)
                    &&& objs[0] == *old(obj)
                    &&& adds[0] == *old(additional)
                    &&& objs.last() == *obj
                    &&& adds.last() == *additional
                    &&& forall|i: int|
                        0 <= i < used.len() && used[i] ==> mut_ref_future(#[trigger] ts[i])
                            == objs[i + 1] && mut_ref_future(as_[i]) == adds[i + 1]
                };
            old(self).lemma_handles_shaped(n, objs, adds, ts, as_, used);
            assert(old(self).handles(usize::MAX, objs, adds, ts, as_, used));
            assert((old(self).behaviour())(usize::MAX, objs, adds, ts, as_, used));
        }
    }

    fn update_n(&mut self, n: usize, obj: &mut T, additional: &mut A) {
        self.handle_pending(n, obj, additional);
        proof {
            let (objs, adds, ts, as_, used) = choose|
                objs: Seq<T>,
                adds: Seq<A>,
                ts: Seq<&mut T>,
                as_: Seq<&mut A>,
                used: Seq<bool>,
            |
                {
                    &&& #[trigger] old(self).handles(n, objs, adds, ts, as_, used)
                    &&& objs[0] == *old(obj)
                    &&& adds[0] == *old(additional)
                    &&& objs.last() == *obj
                    &&& adds.last() == *additional
                    &&& forall|i: int|
                        0 <= i < used.len() && used[i] ==> mut_ref_future(#[trigger] ts[i])
                            == objs[i + 1] && mut_ref_future(as_[i]) == adds[i + 1]
                };
            old(self).lemma_handles_shaped(n, objs, adds, ts, as_, used);
            assert((old(self).behaviour())(n, objs, adds, ts, as_, used));
        }
    }
}

} // verus!
