use std::collections::HashMap;
use vstd::prelude::*;

use crate::record::{EventRecord, NodeId};

verus! {

broadcast use {vstd::std_specs::hash::group_hash_axioms, vstd::function::group_function_axioms};

/// Every subscription of every item, in item order: `(node, item)` once for
/// each time `node` occurs in the subjects of `item`.
pub open spec fn subscriptions(subjects: Seq<Seq<NodeId>>) -> Seq<(NodeId, usize)>
    decreases subjects.len(),
{
    if subjects.len() == 0 {
        Seq::empty()
    } else {
        let last = (subjects.len() - 1) as usize;
        subscriptions(subjects.drop_last()) + subjects.last().map_values(
            |n: NodeId| (n, last),
        )
    }
}

/// The items of the subscriptions `subs` that are to `node`, in order.
pub open spec fn listeners_in(subs: Seq<(NodeId, usize)>, node: NodeId) -> Seq<usize>
    decreases subs.len(),
{
    if subs.len() == 0 {
        Seq::empty()
    } else {
        let rest = listeners_in(subs.drop_last(), node);
        if subs.last().0 == node {
            rest.push(subs.last().1)
        } else {
            rest
        }
    }
}

/// The items listening to `node`, in item order, once per subscription.
pub open spec fn listeners(subjects: Seq<Seq<NodeId>>, node: NodeId) -> Seq<usize> {
    listeners_in(subscriptions(subjects), node)
}

/// The smallest of the final records, or `usize::MAX` where there are none.
pub open spec fn min_record(finals: Seq<usize>) -> usize
    decreases finals.len(),
{
    if finals.len() == 0 {
        usize::MAX
    } else {
        let rest = min_record(finals.drop_last());
        if finals.last() < rest {
            finals.last()
        } else {
            rest
        }
    }
}

/// Index of node listeners: `index@[n]@` is `listeners(subjects, n)` for every
/// node `n` that some item listens to, and no other node is a key.
pub open spec fn is_listener_index(
    index: Map<NodeId, Vec<usize>>,
    subjects: Seq<Seq<NodeId>>,
) -> bool {
    &&& forall|n: NodeId| #[trigger]
        index.contains_key(n) <==> listeners(subjects, n).len() > 0
    &&& forall|n: NodeId| #[trigger]
        index.contains_key(n) ==> index[n]@ == listeners(subjects, n)
}

proof fn lemma_listeners_in_push(subs: Seq<(NodeId, usize)>, p: (NodeId, usize), node: NodeId)
    ensures
        listeners_in(subs.push(p), node) == if p.0 == node {
            listeners_in(subs, node).push(p.1)
        } else {
            listeners_in(subs, node)
        },
{
    assert(subs.push(p).drop_last() =~= subs);
}

proof fn lemma_listeners_in_bound(subs: Seq<(NodeId, usize)>, node: NodeId, bound: usize)
    requires
        forall|j: int| 0 <= j < subs.len() ==> #[trigger] subs[j].1 < bound,
    ensures
        forall|j: int|
            0 <= j < listeners_in(subs, node).len() ==> #[trigger] listeners_in(subs, node)[j]
                < bound,
    decreases subs.len(),
{
    if subs.len() > 0 {
        let rest = subs.drop_last();
        assert forall|j: int| 0 <= j < rest.len() implies #[trigger] rest[j].1 < bound by {
            assert(rest[j] == subs[j]);
        }
        lemma_listeners_in_bound(rest, node, bound);
        assert(subs.last() == subs[subs.len() - 1]);
        let l = listeners_in(subs, node);
        let lr = listeners_in(rest, node);
        assert forall|j: int| 0 <= j < l.len() implies #[trigger] l[j] < bound by {
            if j < lr.len() {
                assert(l[j] == lr[j]);
            }
        }
    }
}

proof fn lemma_subscriptions_bound(subjects: Seq<Seq<NodeId>>)
    ensures
        forall|j: int|
            0 <= j < subscriptions(subjects).len() ==> #[trigger] subscriptions(subjects)[j].1
                < subjects.len(),
    decreases subjects.len(),
{
    if subjects.len() > 0 {
        let rest = subjects.drop_last();
        let last = (subjects.len() - 1) as usize;
        lemma_subscriptions_bound(rest);
        let tail = subjects.last().map_values(|n: NodeId| (n, last));
        assert forall|j: int| 0 <= j < subscriptions(subjects).len() implies
            #[trigger] subscriptions(subjects)[j].1 < subjects.len() by {
            if j < subscriptions(rest).len() {
                assert(subscriptions(subjects)[j] == subscriptions(rest)[j]);
            } else {
                assert(subscriptions(subjects)[j] == tail[j - subscriptions(rest).len()]);
            }
        }
    }
}

/// Every item that an index names is an item of `subjects`.
pub proof fn lemma_listeners_are_items(subjects: Seq<Seq<NodeId>>, node: NodeId)
    requires
        subjects.len() <= usize::MAX,
    ensures
        forall|j: int|
            0 <= j < listeners(subjects, node).len() ==> #[trigger] listeners(subjects, node)[j]
                < subjects.len(),
{
    lemma_subscriptions_bound(subjects);
    lemma_listeners_in_bound(subscriptions(subjects), node, subjects.len() as usize);
}

proof fn lemma_listeners_in_append(a: Seq<(NodeId, usize)>, b: Seq<(NodeId, usize)>, node: NodeId)
    ensures
        listeners_in(a + b, node) == listeners_in(a, node) + listeners_in(b, node),
    decreases b.len(),
{
    if b.len() == 0 {
        assert(a + b =~= a);
        assert(listeners_in(b, node) =~= Seq::<usize>::empty());
        assert(listeners_in(a, node) + listeners_in(b, node) =~= listeners_in(a, node));
    } else {
        let bl = b.drop_last();
        lemma_listeners_in_append(a, bl, node);
        assert((a + b).drop_last() =~= a + bl);
        assert((a + b).last() == b.last());
        if b.last().0 == node {
            assert(listeners_in(a, node) + listeners_in(b, node) =~= (listeners_in(a, node)
                + listeners_in(bl, node)).push(b.last().1));
        } else {
            assert(listeners_in(a, node) + listeners_in(b, node) =~= listeners_in(a, node)
                + listeners_in(bl, node));
        }
    }
}

proof fn lemma_listeners_of_one_item(
    nodes: Seq<NodeId>,
    item: usize,
    node: NodeId,
    subs: Seq<(NodeId, usize)>,
)
    requires
        subs == nodes.map_values(|g: NodeId| (g, item)),
    ensures
        forall|j: int|
            0 <= j < listeners_in(subs, node).len() ==> #[trigger] listeners_in(subs, node)[j]
                == item,
        listeners_in(subs, node).len() > 0 <==> nodes.contains(node),
    decreases nodes.len(),
{
    if nodes.len() > 0 {
        let rest = nodes.drop_last();
        let rsubs = rest.map_values(|g: NodeId| (g, item));
        lemma_listeners_of_one_item(rest, item, node, rsubs);
        assert(subs.drop_last() =~= rsubs);
        assert(subs.last() == (nodes.last(), item));
        let l = listeners_in(subs, node);
        let lr = listeners_in(rsubs, node);
        assert forall|j: int| 0 <= j < l.len() implies #[trigger] l[j] == item by {
            if j < lr.len() {
                assert(l[j] == lr[j]);
            }
        }
        if nodes.contains(node) {
            let p = choose|p: int| 0 <= p < nodes.len() && nodes[p] == node;
            if p < rest.len() {
                assert(rest[p] == node);
            }
        }
        if rest.contains(node) {
            let p = choose|p: int| 0 <= p < rest.len() && rest[p] == node;
            assert(nodes[p] == node);
        }
        if nodes.last() == node {
            assert(nodes[nodes.len() - 1] == node);
        }
    } else {
        assert(!nodes.contains(node));
    }
}

/// The items listening to a node are exactly the items that list it, in item
/// order: each listener is an item that lists the node, later listeners are
/// never earlier items, and every item that lists the node is a listener.
pub proof fn lemma_listeners_exact(subjects: Seq<Seq<NodeId>>, node: NodeId)
    requires
        subjects.len() <= usize::MAX,
    ensures
        forall|j: int|
            0 <= j < listeners(subjects, node).len() ==> {
                &&& #[trigger] listeners(subjects, node)[j] < subjects.len()
                &&& subjects[listeners(subjects, node)[j] as int].contains(node)
            },
        forall|i: int, j: int|
            0 <= i <= j < listeners(subjects, node).len() ==> #[trigger] listeners(
                subjects,
                node,
            )[i] <= #[trigger] listeners(subjects, node)[j],
        forall|k: int|
            0 <= k < subjects.len() && #[trigger] subjects[k].contains(node) ==> listeners(
                subjects,
                node,
            ).contains(k as usize),
    decreases subjects.len(),
{
    if subjects.len() > 0 {
        let rest = subjects.drop_last();
        let last = (subjects.len() - 1) as usize;
        lemma_listeners_exact(rest, node);
        let tail = subjects.last().map_values(|g: NodeId| (g, last));
        lemma_listeners_in_append(subscriptions(rest), tail, node);
        lemma_listeners_of_one_item(subjects.last(), last, node, tail);
        lemma_listeners_are_items(rest, node);
        let l = listeners(subjects, node);
        let lr = listeners(rest, node);
        let lt = listeners_in(tail, node);
        assert(l == lr + lt);
        assert(subjects.last() == subjects[last as int]);
        assert forall|j: int| 0 <= j < l.len() implies {
            &&& #[trigger] l[j] < subjects.len()
            &&& subjects[l[j] as int].contains(node)
        } by {
            if j < lr.len() {
                assert(l[j] == lr[j]);
                assert(rest[lr[j] as int] == subjects[lr[j] as int]);
            } else {
                assert(l[j] == lt[j - lr.len()]);
            }
        }
        assert forall|i: int, j: int| 0 <= i <= j < l.len() implies #[trigger] l[i] <= #[trigger] l[j] by {
            if j < lr.len() {
                assert(l[i] == lr[i] && l[j] == lr[j]);
            } else if i < lr.len() {
                assert(l[i] == lr[i]);
                assert(l[j] == lt[j - lr.len()]);
            } else {
                assert(l[i] == lt[i - lr.len()]);
                assert(l[j] == lt[j - lr.len()]);
            }
        }
        assert forall|k: int| 0 <= k < subjects.len() && #[trigger] subjects[k].contains(node) implies l.contains(
            k as usize,
        ) by {
            if k < rest.len() {
                assert(rest[k] == subjects[k]);
                let p = choose|p: int| 0 <= p < lr.len() && lr[p] == k as usize;
                assert(l[p] == lr[p]);
            } else {
                assert(lt.len() > 0);
                assert(lt[0] == last);
                assert(l[lr.len() as int] == lt[0]);
            }
        }
    }
}

proof fn lemma_min_record_constant(finals: Seq<usize>, x: usize)
    requires
        finals.len() > 0,
        forall|k: int| 0 <= k < finals.len() ==> #[trigger] finals[k] == x,
    ensures
        min_record(finals) == x,
    decreases finals.len(),
{
    if finals.len() > 1 {
        let rest = finals.drop_last();
        assert forall|k: int| 0 <= k < rest.len() implies #[trigger] rest[k] == x by {
            assert(rest[k] == finals[k]);
        }
        lemma_min_record_constant(rest, x);
    } else {
        assert(finals.drop_last().len() == 0);
        assert(min_record(finals.drop_last()) == usize::MAX);
    }
    assert(finals.last() == finals[finals.len() - 1]);
}

/// Builds the index from each node to the items listening to it, in item order.
pub fn build_index(subjects: &Vec<Vec<NodeId>>) -> (index: HashMap<NodeId, Vec<usize>>)
    ensures
        is_listener_index(index@, subjects.deep_view()),
{
    let ghost subj = subjects.deep_view();
    let mut index: HashMap<NodeId, Vec<usize>> = HashMap::new();
    let mut i: usize = 0;
    while i < subjects.len()
        invariant
            subj == subjects.deep_view(),
            0 <= i <= subjects.len(),
            is_listener_index(index@, subj.take(i as int)),
        decreases subjects.len() - i,
    {
        let graphs = &subjects[i];
        let ghost done = subscriptions(subj.take(i as int));
        let mut k: usize = 0;
        while k < graphs.len()
            invariant
                subj == subjects.deep_view(),
                0 <= i < subjects.len(),
                graphs@ == subj[i as int],
                0 <= k <= graphs.len(),
                forall|n: NodeId| #[trigger]
                    index@.contains_key(n) <==> listeners_in(
                        done + graphs@.take(k as int).map_values(|g: NodeId| (g, i)),
                        n,
                    ).len() > 0,
                forall|n: NodeId| #[trigger]
                    index@.contains_key(n) ==> index@[n]@ == listeners_in(
                        done + graphs@.take(k as int).map_values(|g: NodeId| (g, i)),
                        n,
                    ),
            decreases graphs.len() - k,
        {
            let graph = graphs[k];
            let ghost before = done + graphs@.take(k as int).map_values(|g: NodeId| (g, i));
            assert(done + graphs@.take(k + 1).map_values(|g: NodeId| (g, i)) =~= before.push(
                (graph, i),
            ));
            proof {
                assert forall|n: NodeId| true implies listeners_in(before.push((graph, i)), n)
                    == (if graph == n {
                    listeners_in(before, n).push(i)
                } else {
                    listeners_in(before, n)
                }) by {
                    lemma_listeners_in_push(before, (graph, i), n);
                }
            }
            let mut items = match index.remove(&graph) {
                Some(v) => v,
                None => Vec::new(),
            };
            items.push(i);
            index.insert(graph, items);
            k = k + 1;
        }
        proof {
            assert(subj.take(i + 1).drop_last() =~= subj.take(i as int));
            assert(subj.take(i + 1).last() == graphs@);
            assert(graphs@.take(graphs@.len() as int) =~= graphs@);
        }
        i = i + 1;
    }
    assert(subj.take(subjects.len() as int) =~= subj);
    index
}

/// The highest record that every item has already reached.
pub fn highest_common_record(finals: &Vec<usize>) -> (r: usize)
    ensures
        r == min_record(finals@),
{
    let mut r = usize::MAX;
    let mut i: usize = 0;
    while i < finals.len()
        invariant
            0 <= i <= finals.len(),
            r == min_record(finals@.take(i as int)),
        decreases finals.len() - i,
    {
        proof {
            assert(finals@.take(i + 1).drop_last() =~= finals@.take(i as int));
        }
        if finals[i] < r {
            r = finals[i];
        }
        i = i + 1;
    }
    assert(finals@.take(finals.len() as int) =~= finals@);
    r
}

/// The first position from `i` on whose origin has listeners, with that origin.
pub open spec fn seek(
    subjects: Seq<Seq<NodeId>>,
    record: Seq<EventRecord>,
    i: int,
) -> Option<(int, NodeId)>
    decreases record.len() - i,
{
    if i < 0 || i >= record.len() {
        None
    } else if listeners(subjects, record[i].origin).len() > 0 {
        Some((i, record[i].origin))
    } else {
        seek(subjects, record, i + 1)
    }
}

/// Where the walk goes on from position `i` of `record`: position, origin and
/// the number of its first listener, or `None` once the record is walked.
pub open spec fn enter(
    subjects: Seq<Seq<NodeId>>,
    record: Seq<EventRecord>,
    i: int,
) -> Option<(int, NodeId, int)> {
    match seek(subjects, record, i) {
        Some(p) => Some((p.0, p.1, 0)),
        None => None,
    }
}

/// Where the walk goes after visiting `cur`, `record` being the master record
/// after the visit: the next listener of the same origin, else the next position.
pub open spec fn advance(
    subjects: Seq<Seq<NodeId>>,
    record: Seq<EventRecord>,
    cur: (int, NodeId, int),
) -> Option<(int, NodeId, int)> {
    if cur.2 + 1 < listeners(subjects, cur.1).len() {
        Some((cur.0, cur.1, cur.2 + 1))
    } else {
        enter(subjects, record, cur.0 + 1)
    }
}

/// The item that a visit at `cur` is for.
pub open spec fn visit_item(subjects: Seq<Seq<NodeId>>, cur: Option<(int, NodeId, int)>) -> int {
    listeners(subjects, cur->Some_0.1)[cur->Some_0.2] as int
}

/// A visit at `cur` invokes its item: the final record read of it does not
/// pass the position.
pub open spec fn invoked(cur: Option<(int, NodeId, int)>, reading: usize) -> bool {
    reading as int <= cur->Some_0.0
}

/// One visit of the walk, from `items` and `record` at `cur` to `next_items`,
/// `next_record` and `next`: the final record of the visited item is read as
/// `reading`; where it does not pass the position, the invoker is called on the
/// item (as `t`) for the one event at that position and hands back the new
/// record, else nothing changes; then the walk advances.
pub open spec fn visited<T, I: FnMut(&mut T, NodeId, usize, usize) -> Vec<EventRecord>, R: Fn(
    &T,
) -> usize>(
    subjects: Seq<Seq<NodeId>>,
    invoker: I,
    recorder: R,
    cur: Option<(int, NodeId, int)>,
    reading: usize,
    t: &mut T,
    items: Seq<T>,
    record: Vec<EventRecord>,
    next: Option<(int, NodeId, int)>,
    next_items: Seq<T>,
    next_record: Vec<EventRecord>,
) -> bool {
    let item = visit_item(subjects, cur);
    &&& cur is Some
    &&& 0 <= cur->Some_0.0 < record.len()
    &&& 0 <= cur->Some_0.2 < listeners(subjects, cur->Some_0.1).len()
    &&& 0 <= item < items.len()
    &&& call_ensures(recorder, (&items[item],), reading)
    &&& if invoked(cur, reading) {
        &&& mut_ref_current(t) == items[item]
        &&& call_ensures(
            invoker,
            (t, record@[cur->Some_0.0].origin, cur->Some_0.0 as usize, 1usize),
            next_record,
        )
        &&& next_items == items.update(item, next_items[item])
    } else {
        next_items == items && next_record == record
    }
    &&& next == advance(subjects, next_record@, cur->Some_0)
}

/// `curs`, `readings`, `ts`, `items` and `records` are the successive visits of
/// the walk, with the items and the master record before and after each.
pub open spec fn walked<T, I: FnMut(&mut T, NodeId, usize, usize) -> Vec<EventRecord>, R: Fn(
    &T,
) -> usize>(
    subjects: Seq<Seq<NodeId>>,
    invoker: I,
    recorder: R,
    curs: Seq<Option<(int, NodeId, int)>>,
    readings: Seq<usize>,
    ts: Seq<&mut T>,
    items: Seq<Seq<T>>,
    records: Seq<Vec<EventRecord>>,
) -> bool {
    let m = readings.len();
    &&& curs.len() == m + 1
    &&& ts.len() == m
    &&& items.len() == m + 1
    &&& records.len() == m + 1
    &&& forall|c: int|
        0 <= c < m ==> #[trigger] visited(
            subjects,
            invoker,
            recorder,
            curs[c],
            readings[c],
            ts[c],
            items[c],
            records[c],
            curs[c + 1],
            items[c + 1],
            records[c + 1],
        )
}

/// `ts` are the items `items` as handed to `finalizer`, one call each, with
/// the record length `len`.
pub open spec fn finalized<T, F: Fn(&mut T, usize)>(
    finalizer: F,
    items: Seq<T>,
    len: usize,
    ts: Seq<&mut T>,
) -> bool {
    &&& ts.len() == items.len()
    &&& forall|k: int|
        0 <= k < items.len() ==> mut_ref_current(#[trigger] ts[k]) == items[k] && call_ensures(
            finalizer,
            (ts[k], len),
            (),
        )
}

/// The views of the node lists.
pub open spec fn node_views(lists: Seq<Vec<NodeId>>) -> Seq<Seq<NodeId>> {
    lists.map_values(|v: Vec<NodeId>| v@)
}

/// `subjects` and `finals` are what `indexer` and `recorder` read of `items`.
pub open spec fn items_read<T, X: Fn(&T) -> Vec<NodeId>, R: Fn(&T) -> usize>(
    indexer: X,
    recorder: R,
    items: Seq<T>,
    subjects: Seq<Vec<NodeId>>,
    finals: Seq<usize>,
) -> bool {
    &&& subjects.len() == items.len()
    &&& finals.len() == items.len()
    &&& forall|k: int| 0 <= k < items.len() ==> #[trigger] call_ensures(indexer, (&items[k],), subjects[k])
    &&& forall|k: int| 0 <= k < items.len() ==> #[trigger] call_ensures(recorder, (&items[k],), finals[k])
}

proof fn lemma_walked_push<T, I: FnMut(&mut T, NodeId, usize, usize) -> Vec<EventRecord>, R: Fn(
    &T,
) -> usize>(
    subjects: Seq<Seq<NodeId>>,
    invoker: I,
    recorder: R,
    curs: Seq<Option<(int, NodeId, int)>>,
    readings: Seq<usize>,
    ts: Seq<&mut T>,
    items: Seq<Seq<T>>,
    records: Seq<Vec<EventRecord>>,
    reading: usize,
    t: &mut T,
    next: Option<(int, NodeId, int)>,
    next_items: Seq<T>,
    next_record: Vec<EventRecord>,
)
    requires
        walked(subjects, invoker, recorder, curs, readings, ts, items, records),
        visited(
            subjects,
            invoker,
            recorder,
            curs.last(),
            reading,
            t,
            items.last(),
            records.last(),
            next,
            next_items,
            next_record,
        ),
    ensures
        walked(
            subjects,
            invoker,
            recorder,
            curs.push(next),
            readings.push(reading),
            ts.push(t),
            items.push(next_items),
            records.push(next_record),
        ),
{
    let m = readings.len() as int;
    let curs2 = curs.push(next);
    let readings2 = readings.push(reading);
    let ts2 = ts.push(t);
    let items2 = items.push(next_items);
    let records2 = records.push(next_record);
    assert forall|c: int| 0 <= c < m + 1 implies #[trigger] visited(
        subjects,
        invoker,
        recorder,
        curs2[c],
        readings2[c],
        ts2[c],
        items2[c],
        records2[c],
        curs2[c + 1],
        items2[c + 1],
        records2[c + 1],
    ) by {
        assert(curs2[c] == curs[c]);
        assert(items2[c] == items[c]);
        assert(records2[c] == records[c]);
        if c < m {
            assert(readings2[c] == readings[c]);
            assert(ts2[c] == ts[c]);
            assert(curs2[c + 1] == curs[c + 1]);
            assert(items2[c + 1] == items[c + 1]);
            assert(records2[c + 1] == records[c + 1]);
        }
    }
}

proof fn lemma_deep_view_nodes(lists: Vec<Vec<NodeId>>)
    ensures
        lists.deep_view() == node_views(lists@),
{
    assert forall|k: int| 0 <= k < lists@.len() implies lists.deep_view()[k] == node_views(
        lists@,
    )[k] by {
        assert(lists@[k].deep_view() =~= lists@[k]@);
    }
    assert(lists.deep_view() =~= node_views(lists@));
}

proof fn lemma_seek_forward(subjects: Seq<Seq<NodeId>>, record: Seq<EventRecord>, i: int)
    ensures
        seek(subjects, record, i) matches Some(p) ==> i <= p.0 < record.len(),
    decreases record.len() - i,
{
    if 0 <= i < record.len() && listeners(subjects, record[i].origin).len() == 0 {
        lemma_seek_forward(subjects, record, i + 1);
    }
}

/// The walk goes through the master record front to back: a later visit is at
/// a later position, or at the same position and origin for a later listener,
/// so that no listener is visited twice for one record.
pub proof fn lemma_walk_in_record_order<T, I: FnMut(&mut T, NodeId, usize, usize) -> Vec<
    EventRecord,
>, R: Fn(&T) -> usize>(
    subjects: Seq<Seq<NodeId>>,
    invoker: I,
    recorder: R,
    curs: Seq<Option<(int, NodeId, int)>>,
    readings: Seq<usize>,
    ts: Seq<&mut T>,
    states: Seq<Seq<T>>,
    records: Seq<Vec<EventRecord>>,
    a: int,
    b: int,
)
    requires
        walked(subjects, invoker, recorder, curs, readings, ts, states, records),
        0 <= a < b < readings.len(),
    ensures
        curs[a]->Some_0.0 < curs[b]->Some_0.0 || (curs[a]->Some_0.0 == curs[b]->Some_0.0
            && curs[a]->Some_0.1 == curs[b]->Some_0.1 && curs[a]->Some_0.2 < curs[b]->Some_0.2),
    decreases b - a,
{
    let c = b - 1;
    assert(visited(
        subjects,
        invoker,
        recorder,
        curs[c],
        readings[c],
        ts[c],
        states[c],
        records[c],
        curs[c + 1],
        states[c + 1],
        records[c + 1],
    ));
    assert(visited(
        subjects,
        invoker,
        recorder,
        curs[b],
        readings[b],
        ts[b],
        states[b],
        records[b],
        curs[b + 1],
        states[b + 1],
        records[b + 1],
    ));
    lemma_seek_forward(subjects, records[b]@, curs[c]->Some_0.0 + 1);
    if a < c {
        lemma_walk_in_record_order(
            subjects,
            invoker,
            recorder,
            curs,
            readings,
            ts,
            states,
            records,
            a,
            c,
        );
    }
}

/// Of two visits at different positions of the master record, the one at the
/// earlier position comes first: events are handed out in the order in which
/// they stand in the record, which items listen to them and in which order the
/// items are given.
pub proof fn lemma_earlier_record_first<T, I: FnMut(&mut T, NodeId, usize, usize) -> Vec<
    EventRecord,
>, R: Fn(&T) -> usize>(
    subjects: Seq<Seq<NodeId>>,
    invoker: I,
    recorder: R,
    curs: Seq<Option<(int, NodeId, int)>>,
    readings: Seq<usize>,
    ts: Seq<&mut T>,
    states: Seq<Seq<T>>,
    records: Seq<Vec<EventRecord>>,
    a: int,
    b: int,
)
    requires
        walked(subjects, invoker, recorder, curs, readings, ts, states, records),
        0 <= a < readings.len(),
        0 <= b < readings.len(),
        curs[a]->Some_0.0 < curs[b]->Some_0.0,
    ensures
        a < b,
{
    if b < a {
        lemma_walk_in_record_order(subjects, invoker, recorder, curs, readings, ts, states, records, b, a);
    }
}

proof fn lemma_listeners_in_len(subs: Seq<(NodeId, usize)>, node: NodeId)
    ensures
        listeners_in(subs, node).len() <= subs.len(),
    decreases subs.len(),
{
    if subs.len() > 0 {
        lemma_listeners_in_len(subs.drop_last(), node);
    }
}

/// The place of a visit in the order of the walk: its position, then the
/// number of its listener.
spec fn visit_rank(subjects: Seq<Seq<NodeId>>, cur: Option<(int, NodeId, int)>) -> int {
    cur->Some_0.0 * subscriptions(subjects).len() + cur->Some_0.2
}

proof fn lemma_visit_rank_bounds<T, I: FnMut(&mut T, NodeId, usize, usize) -> Vec<EventRecord>, R: Fn(
    &T,
) -> usize>(
    subjects: Seq<Seq<NodeId>>,
    invoker: I,
    recorder: R,
    curs: Seq<Option<(int, NodeId, int)>>,
    readings: Seq<usize>,
    ts: Seq<&mut T>,
    states: Seq<Seq<T>>,
    records: Seq<Vec<EventRecord>>,
    c: int,
)
    requires
        walked(subjects, invoker, recorder, curs, readings, ts, states, records),
        0 <= c < readings.len(),
    ensures
        c <= visit_rank(subjects, curs[c]),
        visit_rank(subjects, curs[c]) < (curs[c]->Some_0.0 + 1) * subscriptions(subjects).len(),
    decreases c,
{
    let s = subscriptions(subjects).len() as int;
    assert(visited(
        subjects,
        invoker,
        recorder,
        curs[c],
        readings[c],
        ts[c],
        states[c],
        records[c],
        curs[c + 1],
        states[c + 1],
        records[c + 1],
    ));
    let p = curs[c]->Some_0;
    lemma_listeners_in_len(subscriptions(subjects), p.1);
    assert((p.0 + 1) * s == p.0 * s + s) by (nonlinear_arith);
    assert(0 <= p.0 * s) by (nonlinear_arith)
        requires
            0 <= p.0,
            0 <= s,
    ;
    if c > 0 {
        lemma_visit_rank_bounds(
            subjects,
            invoker,
            recorder,
            curs,
            readings,
            ts,
            states,
            records,
            c - 1,
        );
        lemma_walk_in_record_order(
            subjects,
            invoker,
            recorder,
            curs,
            readings,
            ts,
            states,
            records,
            c - 1,
            c,
        );
        let q = curs[c - 1]->Some_0;
        if q.0 < p.0 {
            assert((q.0 + 1) * s <= p.0 * s) by (nonlinear_arith)
                requires
                    q.0 + 1 <= p.0,
                    0 <= s,
            ;
        }
    }
}

/// Where no master record along the walk is longer than `bound`, the walk
/// makes at most `bound` visits for each subscription of an item, and so at
/// most that many invoker calls.
pub proof fn lemma_walk_bounded<T, I: FnMut(&mut T, NodeId, usize, usize) -> Vec<EventRecord>, R: Fn(
    &T,
) -> usize>(
    subjects: Seq<Seq<NodeId>>,
    invoker: I,
    recorder: R,
    curs: Seq<Option<(int, NodeId, int)>>,
    readings: Seq<usize>,
    ts: Seq<&mut T>,
    states: Seq<Seq<T>>,
    records: Seq<Vec<EventRecord>>,
    bound: int,
)
    requires
        walked(subjects, invoker, recorder, curs, readings, ts, states, records),
        forall|c: int| 0 <= c < records.len() ==> #[trigger] records[c].len() <= bound,
    ensures
        readings.len() <= bound * subscriptions(subjects).len(),
{
    let m = readings.len() as int;
    let s = subscriptions(subjects).len() as int;
    if m > 0 {
        let c = m - 1;
        lemma_visit_rank_bounds(subjects, invoker, recorder, curs, readings, ts, states, records, c);
        assert(visited(
            subjects,
            invoker,
            recorder,
            curs[c],
            readings[c],
            ts[c],
            states[c],
            records[c],
            curs[c + 1],
            states[c + 1],
            records[c + 1],
        ));
        assert(records[c].len() <= bound);
        let p = curs[c]->Some_0.0;
        assert((p + 1) * s <= bound * s) by (nonlinear_arith)
            requires
                p + 1 <= bound,
                0 <= s,
        ;
    } else {
        assert(records[0].len() <= bound);
        assert(0 <= bound * s) by (nonlinear_arith)
            requires
                0 <= bound,
                0 <= s,
        ;
    }
}

/// A walk that starts past the end of the master record makes no visit.
pub proof fn lemma_walk_past_end<T, I: FnMut(&mut T, NodeId, usize, usize) -> Vec<EventRecord>, R: Fn(
    &T,
) -> usize>(
    subjects: Seq<Seq<NodeId>>,
    invoker: I,
    recorder: R,
    curs: Seq<Option<(int, NodeId, int)>>,
    readings: Seq<usize>,
    ts: Seq<&mut T>,
    states: Seq<Seq<T>>,
    records: Seq<Vec<EventRecord>>,
    start: int,
)
    requires
        walked(subjects, invoker, recorder, curs, readings, ts, states, records),
        curs[0] == enter(subjects, records[0]@, start),
        start >= records[0]@.len(),
    ensures
        readings.len() == 0,
        states.last() == states[0],
        records.last() == records[0],
{
    if readings.len() > 0 {
        let c: int = 0;
        assert(visited(
            subjects,
            invoker,
            recorder,
            curs[c],
            readings[c],
            ts[c],
            states[c],
            records[c],
            curs[c + 1],
            states[c + 1],
            records[c + 1],
        ));
        assert(curs[0] is None);
    }
}

/// The highest common record is the smallest of the final records: no final
/// record is below it, and it is one of them (`usize::MAX` where there are none).
pub proof fn lemma_min_record_is_minimum(finals: Seq<usize>)
    ensures
        forall|k: int| 0 <= k < finals.len() ==> min_record(finals) <= #[trigger] finals[k],
        finals.len() > 0 ==> exists|k: int| 0 <= k < finals.len() && min_record(finals) == finals[k],
        finals.len() == 0 ==> min_record(finals) == usize::MAX,
    decreases finals.len(),
{
    if finals.len() > 0 {
        let rest = finals.drop_last();
        lemma_min_record_is_minimum(rest);
        let last = finals.len() - 1;
        assert(finals.last() == finals[last]);
        assert forall|k: int| 0 <= k < finals.len() implies min_record(finals) <= #[trigger] finals[k] by {
            if k < last {
                assert(rest[k] == finals[k]);
            }
        }
        if rest.len() > 0 {
            let k = choose|k: int| 0 <= k < rest.len() && min_record(rest) == rest[k];
            assert(rest[k] == finals[k]);
        }
    }
}

/// Seeking from position `i` finds the first position from `i` on whose origin
/// has listeners, skipping every position before it; it finds none only where
/// no position from `i` to the end of the record has an origin with listeners.
pub proof fn lemma_seek_finds_first(subjects: Seq<Seq<NodeId>>, record: Seq<EventRecord>, i: int)
    requires
        0 <= i,
    ensures
        seek(subjects, record, i) is None ==> forall|p: int|
            i <= p < record.len() ==> #[trigger] listeners(subjects, record[p].origin).len() == 0,
        seek(subjects, record, i) matches Some(q) ==> {
            &&& i <= q.0 < record.len()
            &&& q.1 == record[q.0].origin
            &&& listeners(subjects, q.1).len() > 0
            &&& forall|p: int|
                i <= p < q.0 ==> #[trigger] listeners(subjects, record[p].origin).len() == 0
        },
    decreases record.len() - i,
{
    if i < record.len() && listeners(subjects, record[i].origin).len() == 0 {
        lemma_seek_finds_first(subjects, record, i + 1);
    }
}

/// A walk that has come to its end has left no event with listeners behind:
/// without a visit, no position from the start on has an origin with
/// listeners; otherwise the last visit was to the last listener of its
/// position, and no later position of the last record has an origin with
/// listeners.
pub proof fn lemma_walk_complete<T, I: FnMut(&mut T, NodeId, usize, usize) -> Vec<EventRecord>, R: Fn(
    &T,
) -> usize>(
    subjects: Seq<Seq<NodeId>>,
    invoker: I,
    recorder: R,
    curs: Seq<Option<(int, NodeId, int)>>,
    readings: Seq<usize>,
    ts: Seq<&mut T>,
    states: Seq<Seq<T>>,
    records: Seq<Vec<EventRecord>>,
    start: int,
)
    requires
        walked(subjects, invoker, recorder, curs, readings, ts, states, records),
        curs[0] == enter(subjects, records[0]@, start),
        curs.last() is None,
        0 <= start,
    ensures
        readings.len() == 0 ==> forall|p: int|
            start <= p < records[0]@.len() ==> #[trigger] listeners(
                subjects,
                records[0]@[p].origin,
            ).len() == 0,
        readings.len() > 0 ==> {
            let cur = curs[readings.len() - 1]->Some_0;
            &&& cur.2 + 1 == listeners(subjects, cur.1).len()
            &&& forall|p: int|
                cur.0 < p < records.last()@.len() ==> #[trigger] listeners(
                    subjects,
                    records.last()@[p].origin,
                ).len() == 0
        },
{
    let m = readings.len() as int;
    if m == 0 {
        lemma_seek_finds_first(subjects, records[0]@, start);
    } else {
        let c = m - 1;
        assert(visited(
            subjects,
            invoker,
            recorder,
            curs[c],
            readings[c],
            ts[c],
            states[c],
            records[c],
            curs[c + 1],
            states[c + 1],
            records[c + 1],
        ));
        let cur = curs[c]->Some_0;
        assert(records.last() == records[c + 1]);
        lemma_seek_finds_first(subjects, records[c + 1]@, cur.0 + 1);
    }
}

/// Each visit of the walk reads the final record of the item that is the
/// visited listener; where that record does not pass the position, the invoker
/// is called on that item, as it stands, for the one event at that position of
/// the current record, and only that item can change; otherwise neither the
/// items nor the record change.
pub proof fn lemma_walk_visit<T, I: FnMut(&mut T, NodeId, usize, usize) -> Vec<EventRecord>, R: Fn(
    &T,
) -> usize>(
    subjects: Seq<Seq<NodeId>>,
    invoker: I,
    recorder: R,
    curs: Seq<Option<(int, NodeId, int)>>,
    readings: Seq<usize>,
    ts: Seq<&mut T>,
    states: Seq<Seq<T>>,
    records: Seq<Vec<EventRecord>>,
    c: int,
)
    requires
        walked(subjects, invoker, recorder, curs, readings, ts, states, records),
        0 <= c < readings.len(),
    ensures
        curs[c] is Some,
        ({
            let cur = curs[c]->Some_0;
            let item = listeners(subjects, cur.1)[cur.2] as int;
            &&& 0 <= cur.2 < listeners(subjects, cur.1).len()
            &&& 0 <= cur.0 < records[c]@.len()
            &&& 0 <= item < states[c].len()
            &&& call_ensures(recorder, (&states[c][item],), readings[c])
            &&& readings[c] <= cur.0 ==> {
                &&& mut_ref_current(ts[c]) == states[c][item]
                &&& call_ensures(
                    invoker,
                    (ts[c], records[c]@[cur.0].origin, cur.0 as usize, 1usize),
                    records[c + 1],
                )
                &&& states[c + 1].len() == states[c].len()
                &&& forall|x: int|
                    0 <= x < states[c].len() && x != item ==> #[trigger] states[c + 1][x]
                        == states[c][x]
            }
            &&& readings[c] > cur.0 ==> states[c + 1] == states[c] && records[c + 1]
                == records[c]
        }),
{
    assert(visited(
        subjects,
        invoker,
        recorder,
        curs[c],
        readings[c],
        ts[c],
        states[c],
        records[c],
        curs[c + 1],
        states[c + 1],
        records[c + 1],
    ));
}

/// The walk starts at the first position from `start` whose origin has
/// listeners, with its first listener, skipping only positions without
/// listeners.
pub proof fn lemma_walk_first<T, I: FnMut(&mut T, NodeId, usize, usize) -> Vec<EventRecord>, R: Fn(
    &T,
) -> usize>(
    subjects: Seq<Seq<NodeId>>,
    invoker: I,
    recorder: R,
    curs: Seq<Option<(int, NodeId, int)>>,
    readings: Seq<usize>,
    ts: Seq<&mut T>,
    states: Seq<Seq<T>>,
    records: Seq<Vec<EventRecord>>,
    start: int,
)
    requires
        walked(subjects, invoker, recorder, curs, readings, ts, states, records),
        curs[0] == enter(subjects, records[0]@, start),
        0 <= start,
        readings.len() > 0,
    ensures
        ({
            let b = curs[0]->Some_0;
            &&& b.2 == 0
            &&& start <= b.0
            &&& b.1 == records[0]@[b.0].origin
            &&& forall|p: int|
                start <= p < b.0 ==> #[trigger] listeners(subjects, records[0]@[p].origin).len()
                    == 0
        }),
{
    lemma_walk_visit(subjects, invoker, recorder, curs, readings, ts, states, records, 0);
    lemma_seek_finds_first(subjects, records[0]@, start);
}

/// From one visit to the next the walk either goes on to the next listener of
/// the same position, or, after the last listener of its position, to the first
/// listener of the next position of the current record whose origin has
/// listeners, skipping only positions without listeners.
pub proof fn lemma_walk_step<T, I: FnMut(&mut T, NodeId, usize, usize) -> Vec<EventRecord>, R: Fn(
    &T,
) -> usize>(
    subjects: Seq<Seq<NodeId>>,
    invoker: I,
    recorder: R,
    curs: Seq<Option<(int, NodeId, int)>>,
    readings: Seq<usize>,
    ts: Seq<&mut T>,
    states: Seq<Seq<T>>,
    records: Seq<Vec<EventRecord>>,
    c: int,
)
    requires
        walked(subjects, invoker, recorder, curs, readings, ts, states, records),
        0 <= c,
        c + 1 < readings.len(),
    ensures
        ({
            let a = curs[c]->Some_0;
            let b = curs[c + 1]->Some_0;
            ||| b.0 == a.0 && b.1 == a.1 && b.2 == a.2 + 1
            ||| {
                &&& a.2 + 1 == listeners(subjects, a.1).len()
                &&& a.0 < b.0
                &&& b.2 == 0
                &&& b.1 == records[c + 1]@[b.0].origin
                &&& forall|p: int|
                    a.0 < p < b.0 ==> #[trigger] listeners(
                        subjects,
                        records[c + 1]@[p].origin,
                    ).len() == 0
            }
        }),
{
    lemma_walk_visit(subjects, invoker, recorder, curs, readings, ts, states, records, c);
    lemma_walk_visit(subjects, invoker, recorder, curs, readings, ts, states, records, c + 1);
    assert(visited(
        subjects,
        invoker,
        recorder,
        curs[c],
        readings[c],
        ts[c],
        states[c],
        records[c],
        curs[c + 1],
        states[c + 1],
        records[c + 1],
    ));
    let a = curs[c]->Some_0;
    lemma_seek_finds_first(subjects, records[c + 1]@, a.0 + 1);
}

/// A listener index has a key for exactly the nodes that some item lists, and
/// holds for each the items that list it, in item order.
pub proof fn lemma_listener_index_lists_listeners(
    index: Map<NodeId, Vec<usize>>,
    subjects: Seq<Seq<NodeId>>,
    node: NodeId,
)
    requires
        is_listener_index(index, subjects),
        subjects.len() <= usize::MAX,
    ensures
        index.contains_key(node) <==> exists|k: int|
            0 <= k < subjects.len() && #[trigger] subjects[k].contains(node),
        index.contains_key(node) ==> index[node]@ == listeners(subjects, node),
{
    lemma_listeners_exact(subjects, node);
    if index.contains_key(node) {
        let l = listeners(subjects, node);
        assert(subjects[l[0] as int].contains(node));
    }
    if exists|k: int| 0 <= k < subjects.len() && #[trigger] subjects[k].contains(node) {
        let k = choose|k: int| 0 <= k < subjects.len() && #[trigger] subjects[k].contains(node);
        assert(listeners(subjects, node).contains(k as usize));
    }
}

/// What `update` reads of the items at the start: for each item, the nodes
/// it lists as `indexer` gives them, and its final record as `recorder` gives it.
pub proof fn lemma_items_read_per_item<T, X: Fn(&T) -> Vec<NodeId>, R: Fn(&T) -> usize>(
    indexer: X,
    recorder: R,
    items: Seq<T>,
    subjects: Seq<Vec<NodeId>>,
    finals: Seq<usize>,
    k: int,
)
    requires
        items_read(indexer, recorder, items, subjects, finals),
        0 <= k < items.len(),
    ensures
        subjects.len() == items.len(),
        finals.len() == items.len(),
        call_ensures(indexer, (&items[k],), subjects[k]),
        call_ensures(recorder, (&items[k],), finals[k]),
{
}

/// Finalizing hands each item, as it stands, to the finalizer once, with the
/// given record length.
pub proof fn lemma_finalized_per_item<T, F: Fn(&mut T, usize)>(
    finalizer: F,
    items: Seq<T>,
    len: usize,
    ts: Seq<&mut T>,
    k: int,
)
    requires
        finalized(finalizer, items, len, ts),
        0 <= k < items.len(),
    ensures
        ts.len() == items.len(),
        mut_ref_current(ts[k]) == items[k],
        call_ensures(finalizer, (ts[k], len), ()),
{
}

/// Genericized updater which follows the master event order.
///
/// `invoker(item, origin, current_record, length)` invokes the handlers of
/// `item` for `length` events from `origin`, the event being handled standing
/// at `current_record` of the master record, and returns the new master record.
/// `indexer` returns the nodes an item listens to, `recorder` its final record,
/// and `finalizer` updates its final record.
///
/// The master record is walked once, front to back, from the highest record
/// that every item has reached, records that the invoker adds included. At
/// each position the items listening to its origin are visited in item order;
/// an item is invoked for the one event there unless its final record shows
/// that it has already processed it. When the record has been walked to its
/// end, every item is finalized with its length.
#[verifier::spinoff_prover]
pub fn update<T>(
    items: &mut [T],
    rec: Vec<EventRecord>,
    mut invoker: impl FnMut(&mut T, NodeId, usize, usize) -> Vec<EventRecord>,
    indexer: impl Fn(&T) -> Vec<NodeId>,
    recorder: impl Fn(&T) -> usize,
    finalizer: impl Fn(&mut T, usize),
)
    requires
        forall|t: &T| call_requires(indexer, (t,)),
        forall|t: &T| call_requires(recorder, (t,)),
        forall|t: &mut T, n: usize| call_requires(finalizer, (t, n)),
        // the invoker is only ever called for one event at a time, on an event
        // the item has not yet processed
        forall|t: &mut T, origin: NodeId, current: usize, length: usize|
            length == 1 && (exists|fr: usize| #[trigger]
                call_ensures(recorder, (&*t,), fr) && fr <= current) ==> call_requires(
                invoker,
                (t, origin, current, length),
            ),
        // the record handed back still holds the event being handled
        forall|t: &mut T, origin: NodeId, current: usize, length: usize, r: Vec<EventRecord>|
            #[trigger] call_ensures(invoker, (t, origin, current, length), r) ==> current
                < r.len(),
    ensures
        final(items)@.len() == old(items)@.len(),
        // `subjects` and `finals` are the nodes and final records read of the
        // items at the start
        exists|subjects: Seq<Vec<NodeId>>, finals: Seq<usize>|
            {
                &&& #[trigger] items_read(indexer, recorder, old(items)@, subjects, finals)
                // without items, or where every item has processed the whole
                // record, nothing happens
                &&& (old(items)@.len() == 0 || min_record(finals) == rec.len()) ==> final(items)@
                    == old(items)@
                // else the record is walked from the highest common record to
                // its end, and every item is then finalized with the length of
                // the last record
                &&& (old(items)@.len() > 0 && min_record(finals) != rec.len()) ==> exists|
                    curs: Seq<Option<(int, NodeId, int)>>,
                    readings: Seq<usize>,
                    ts: Seq<&mut T>,
                    states: Seq<Seq<T>>,
                    records: Seq<Vec<EventRecord>>,
                    fts: Seq<&mut T>,
                |
                    {
                        &&& #[trigger] walked(
                            node_views(subjects),
                            invoker,
                            recorder,
                            curs,
                            readings,
                            ts,
                            states,
                            records,
                        )
                        &&& states[0] == old(items)@
                        &&& records[0] == rec
                        &&& curs[0] == enter(node_views(subjects), rec@, min_record(finals) as int)
                        &&& curs.last() is None
                        &&& forall|c: int|
                            0 <= c < readings.len() && invoked(curs[c], readings[c])
                                ==> mut_ref_future(#[trigger] ts[c]) == states[c + 1][visit_item(
                                node_views(subjects),
                                curs[c],
                            )]
                        &&& #[trigger] finalized(
                            finalizer,
                            states.last(),
                            records.last().len(),
                            fts,
                        )
                        &&& forall|k: int|
                            0 <= k < fts.len() ==> mut_ref_future(#[trigger] fts[k])
                                == final(items)@[k]
                    }
            },
{
    let ghost invoker0 = invoker;
    let ghost rec0 = rec;
    let mut record = rec;
    if items.len() == 0 {
        assert(items_read(indexer, recorder, old(items)@, Seq::empty(), Seq::empty()));
        return;
    }
    let n = items.len();
    let mut subjects: Vec<Vec<NodeId>> = Vec::new();
    let mut finals: Vec<usize> = Vec::new();
    let mut j: usize = 0;
    while j < n
        invariant
            n == items.len(),
            j <= n,
            subjects.len() == j,
            finals.len() == j,
            items@ == old(items)@,
            forall|k: int| 0 <= k < j ==> #[trigger] call_ensures(indexer, (&items@[k],), subjects@[k]),
            forall|k: int| 0 <= k < j ==> #[trigger] call_ensures(recorder, (&items@[k],), finals@[k]),
            forall|t: &T| call_requires(indexer, (t,)),
            forall|t: &T| call_requires(recorder, (t,)),
        decreases n - j,
    {
        subjects.push(indexer(&items[j]));
        finals.push(recorder(&items[j]));
        j = j + 1;
    }
    assert(items_read(indexer, recorder, old(items)@, subjects@, finals@));
    let highest_common_rec = highest_common_record(&finals);
    let index = build_index(&subjects);
    let ghost subj = subjects.deep_view();
    proof {
        lemma_deep_view_nodes(subjects);
    }
    if highest_common_rec == record.len() {
        return;
    }
    let mut i = highest_common_rec;
    let mut emit_count = record.len();
    let ghost start = enter(subj, rec0@, i as int);
    assert(walked(
        subj,
        invoker,
        recorder,
        seq![start],
        Seq::empty(),
        Seq::empty(),
        seq![items@],
        seq![record],
    ));
    while i < emit_count
        invariant
            n == items.len(),
            n == old(items)@.len(),
            invoker == invoker0,
            emit_count == record.len(),
            subj == subjects.deep_view(),
            subj == node_views(subjects@),
            start == enter(subj, rec0@, highest_common_rec as int),
            highest_common_rec == min_record(finals@),
            highest_common_rec != rec0.len(),
            items_read(indexer, recorder, old(items)@, subjects@, finals@),
            is_listener_index(index@, subj),
            subjects.len() == n,
            forall|t: &T| call_requires(recorder, (t,)),
            forall|t: &mut T, origin: NodeId, current: usize, length: usize|
                length == 1 && (exists|fr: usize| #[trigger]
                    call_ensures(recorder, (&*t,), fr) && fr <= current) ==> call_requires(
                    invoker,
                    (t, origin, current, length),
                ),
            forall|t: &mut T, origin: NodeId, current: usize, length: usize, r: Vec<EventRecord>|
                #[trigger] call_ensures(invoker, (t, origin, current, length), r) ==> current
                    < r.len(),
            exists|
                curs: Seq<Option<(int, NodeId, int)>>,
                readings: Seq<usize>,
                ts: Seq<&mut T>,
                states: Seq<Seq<T>>,
                records: Seq<Vec<EventRecord>>,
            |
                {
                    &&& #[trigger] walked(subj, invoker, recorder, curs, readings, ts, states, records)
                    &&& states[0] == old(items)@
                    &&& records[0] == rec0
                    &&& curs[0] == start
                    &&& states.last() == items@
                    &&& records.last() == record
                    &&& curs.last() == enter(subj, record@, i as int)
                    &&& forall|c: int|
                        0 <= c < readings.len() && invoked(curs[c], readings[c]) ==> mut_ref_future(
                            #[trigger] ts[c],
                        ) == states[c + 1][visit_item(subj, curs[c])]
                },
        decreases usize::MAX - i,
    {
        let origin = record[i].origin;
        if let Some(indices) = index.get(&origin) {
            proof {
                lemma_listeners_are_items(subj, origin);
            }
            let mut k: usize = 0;
            while k < indices.len()
                invariant
                    n == items.len(),
                    n == old(items)@.len(),
                    invoker == invoker0,
                    i < record.len(),
                    emit_count == record.len(),
                    subj == subjects.deep_view(),
                    start == enter(subj, rec0@, highest_common_rec as int),
                    highest_common_rec == min_record(finals@),
                    highest_common_rec != rec0.len(),
                    items_read(indexer, recorder, old(items)@, subjects@, finals@),
                    subj == node_views(subjects@),
                    indices@ == listeners(subj, origin),
                    indices@.len() > 0,
                    forall|j: int| 0 <= j < indices@.len() ==> #[trigger] indices@[j] < n,
                    forall|t: &T| call_requires(recorder, (t,)),
                    forall|t: &mut T, origin: NodeId, current: usize, length: usize|
                        length == 1 && (exists|fr: usize| #[trigger]
                            call_ensures(recorder, (&*t,), fr) && fr <= current)
                            ==> call_requires(invoker, (t, origin, current, length)),
                    forall|
                        t: &mut T,
                        origin: NodeId,
                        current: usize,
                        length: usize,
                        r: Vec<EventRecord>,
                    |
                        #[trigger] call_ensures(invoker, (t, origin, current, length), r)
                            ==> current < r.len(),
                    exists|
                        curs: Seq<Option<(int, NodeId, int)>>,
                        readings: Seq<usize>,
                        ts: Seq<&mut T>,
                        states: Seq<Seq<T>>,
                        records: Seq<Vec<EventRecord>>,
                    |
                        {
                            &&& #[trigger] walked(
                                subj,
                                invoker,
                                recorder,
                                curs,
                                readings,
                                ts,
                                states,
                                records,
                            )
                            &&& states[0] == old(items)@
                            &&& records[0] == rec0
                            &&& curs[0] == start
                            &&& states.last() == items@
                            &&& records.last() == record
                            &&& curs.last() == if k < indices.len() {
                                Some((i as int, origin, k as int))
                            } else {
                                enter(subj, record@, i + 1)
                            }
                            &&& forall|c: int|
                                0 <= c < readings.len() && invoked(curs[c], readings[c])
                                    ==> mut_ref_future(#[trigger] ts[c]) == states[c + 1][visit_item(
                                    subj,
                                    curs[c],
                                )]
                        },
                decreases indices.len() - k,
            {
                let idx = indices[k];
                let final_rec = recorder(&items[idx]);
                let ghost items_before = items@;
                let ghost record_before = record;
                if final_rec <= i {
                    // this item has not yet processed this event
                    let new_rec = invoker(&mut items[idx], record[i].origin, i, 1);
                    assert(exists|t: &mut T|
                        mut_ref_current(t) == items_before[idx as int] && mut_ref_future(t)
                            == items@[idx as int] && #[trigger] call_ensures(
                            invoker,
                            (t, record_before@[i as int].origin, i, 1usize),
                            new_rec,
                        ));
                    record = new_rec;
                    emit_count = record.len();
                }
                proof {
                    let (curs, readings, ts, states, records) = choose|
                        curs: Seq<Option<(int, NodeId, int)>>,
                        readings: Seq<usize>,
                        ts: Seq<&mut T>,
                        states: Seq<Seq<T>>,
                        records: Seq<Vec<EventRecord>>,
                    |
                        {
                            &&& #[trigger] walked(
                                subj,
                                invoker,
                                recorder,
                                curs,
                                readings,
                                ts,
                                states,
                                records,
                            )
                            &&& states[0] == old(items)@
                            &&& records[0] == rec0
                            &&& curs[0] == start
                            &&& states.last() == items_before
                            &&& records.last() == record_before
                            &&& curs.last() == Some((i as int, origin, k as int))
                            &&& forall|c: int|
                                0 <= c < readings.len() && invoked(curs[c], readings[c])
                                    ==> mut_ref_future(#[trigger] ts[c]) == states[c + 1][visit_item(
                                    subj,
                                    curs[c],
                                )]
                        };
                    let next = advance(subj, record@, (i as int, origin, k as int));
                    let t = if final_rec <= i {
                        choose|t: &mut T|
                            mut_ref_current(t) == items_before[idx as int] && mut_ref_future(t)
                                == items@[idx as int] && #[trigger] call_ensures(
                                invoker,
                                (t, record_before@[i as int].origin, i, 1usize),
                                record,
                            )
                    } else {
                        arbitrary()
                    };
                    if final_rec <= i {
                        assert(items@ == items_before.update(idx as int, items@[idx as int]));
                    }
                    assert(visited(
                        subj,
                        invoker,
                        recorder,
                        curs.last(),
                        final_rec,
                        t,
                        states.last(),
                        records.last(),
                        next,
                        items@,
                        record,
                    ));
                    lemma_walked_push(
                        subj,
                        invoker,
                        recorder,
                        curs,
                        readings,
                        ts,
                        states,
                        records,
                        final_rec,
                        t,
                        next,
                        items@,
                        record,
                    );
                    let m = readings.len() as int;
                    assert forall|c: int|
                        0 <= c < m + 1 && invoked(
                            curs.push(next)[c],
                            readings.push(final_rec)[c],
                        ) implies mut_ref_future(#[trigger] ts.push(t)[c]) == states.push(
                        items@,
                    )[c + 1][visit_item(subj, curs.push(next)[c])] by {
                        if c < m {
                            assert(ts.push(t)[c] == ts[c]);
                            assert(curs.push(next)[c] == curs[c]);
                            assert(readings.push(final_rec)[c] == readings[c]);
                            assert(states.push(items@)[c + 1] == states[c + 1]);
                        }
                    }
                }
                k = k + 1;
            }
        }
        i = i + 1;
    }
    let ghost last_items = items@;
    let mut j: usize = 0;
    while j < n
        invariant
            n == items.len(),
            n == old(items)@.len(),
            n == last_items.len(),
            j <= n,
            invoker == invoker0,
            emit_count == record.len(),
            subj == node_views(subjects@),
            start == enter(subj, rec0@, highest_common_rec as int),
            highest_common_rec == min_record(finals@),
            highest_common_rec != rec0.len(),
            items_read(indexer, recorder, old(items)@, subjects@, finals@),
            forall|t: &mut T, n: usize| call_requires(finalizer, (t, n)),
            forall|k: int| j <= k < n ==> items@[k] == last_items[k],
            exists|fts: Seq<&mut T>|
                fts.len() == j && forall|k: int|
                    0 <= k < j ==> mut_ref_current(#[trigger] fts[k]) == last_items[k]
                        && mut_ref_future(fts[k]) == items@[k] && call_ensures(
                        finalizer,
                        (fts[k], emit_count),
                        (),
                    ),
            exists|
                curs: Seq<Option<(int, NodeId, int)>>,
                readings: Seq<usize>,
                ts: Seq<&mut T>,
                states: Seq<Seq<T>>,
                records: Seq<Vec<EventRecord>>,
            |
                {
                    &&& #[trigger] walked(subj, invoker, recorder, curs, readings, ts, states, records)
                    &&& states[0] == old(items)@
                    &&& records[0] == rec0
                    &&& curs[0] == start
                    &&& states.last() == last_items
                    &&& records.last() == record
                    &&& curs.last() is None
                    &&& forall|c: int|
                        0 <= c < readings.len() && invoked(curs[c], readings[c]) ==> mut_ref_future(
                            #[trigger] ts[c],
                        ) == states[c + 1][visit_item(subj, curs[c])]
                },
        decreases n - j,
    {
        let ghost before = items@;
        finalizer(&mut items[j], emit_count);
        proof {
            let fts = choose|fts: Seq<&mut T>|
                fts.len() == j && forall|k: int|
                    0 <= k < j ==> mut_ref_current(#[trigger] fts[k]) == last_items[k]
                        && mut_ref_future(fts[k]) == before[k] && call_ensures(
                        finalizer,
                        (fts[k], emit_count),
                        (),
                    );
            assert(exists|t: &mut T|
                mut_ref_current(t) == before[j as int] && mut_ref_future(t) == items@[j as int]
                    && #[trigger] call_ensures(finalizer, (t, emit_count), ()));
            let t = choose|t: &mut T|
                mut_ref_current(t) == before[j as int] && mut_ref_future(t) == items@[j as int]
                    && #[trigger] call_ensures(finalizer, (t, emit_count), ());
            assert(items@ == before.update(j as int, items@[j as int]));
            assert forall|k: int|
                0 <= k < j + 1 implies mut_ref_current(#[trigger] fts.push(t)[k]) == last_items[k]
                    && mut_ref_future(fts.push(t)[k]) == items@[k] && call_ensures(
                    finalizer,
                    (fts.push(t)[k], emit_count),
                    (),
                ) by {
                if k < j {
                    assert(fts.push(t)[k] == fts[k]);
                }
            }
            assert(fts.push(t).len() == j + 1);
        }
        j = j + 1;
    }
    proof {
        let (curs, readings, ts, states, records) = choose|
            curs: Seq<Option<(int, NodeId, int)>>,
            readings: Seq<usize>,
            ts: Seq<&mut T>,
            states: Seq<Seq<T>>,
            records: Seq<Vec<EventRecord>>,
        |
            {
                &&& #[trigger] walked(subj, invoker, recorder, curs, readings, ts, states, records)
                &&& states[0] == old(items)@
                &&& records[0] == rec0
                &&& curs[0] == start
                &&& states.last() == last_items
                &&& records.last() == record
                &&& curs.last() is None
                &&& forall|c: int|
                    0 <= c < readings.len() && invoked(curs[c], readings[c]) ==> mut_ref_future(
                        #[trigger] ts[c],
                    ) == states[c + 1][visit_item(subj, curs[c])]
            };
        let fts = choose|fts: Seq<&mut T>|
            fts.len() == n && forall|k: int|
                0 <= k < n ==> mut_ref_current(#[trigger] fts[k]) == last_items[k]
                    && mut_ref_future(fts[k]) == items@[k] && call_ensures(
                    finalizer,
                    (fts[k], emit_count),
                    (),
                );
        assert(finalized(finalizer, states.last(), records.last().len(), fts));
        assert(forall|k: int| 0 <= k < fts.len() ==> mut_ref_future(#[trigger] fts[k]) == items@[k]);
        assert(walked(
            node_views(subjects@),
            invoker,
            recorder,
            curs,
            readings,
            ts,
            states,
            records,
        ));
        assert(items_read(indexer, recorder, old(items)@, subjects@, finals@));
    }
}

} // verus!
