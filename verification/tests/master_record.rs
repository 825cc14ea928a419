use std::cell::RefCell;
use std::rc::Rc;

use sinq::{update, AnyQueueHandler, EventNode, EventRecord, MasterNodeRecord, NodeId, QueueHandler};

/// An outgoing event queue shared with its listeners.
type Queue<E> = Rc<RefCell<Vec<E>>>;

/// Events that know their routing key.
trait Keyed: Clone {
    fn key(&self) -> &'static str;
}

/// A queue handler listening to one node's outgoing queue.
struct Listening<T, A, E> {
    handler: QueueHandler<T, A, E>,
    queue: Queue<E>,
    seen: usize,
}

impl<T: 'static, A: 'static, E: Keyed + 'static> Listening<T, A, E> {
    fn new(handler: QueueHandler<T, A, E>, queue: &Queue<E>) -> Self {
        let seen = queue.borrow().len();
        Listening { handler, queue: queue.clone(), seen }
    }

    fn pending(&mut self, n: usize) -> Vec<E> {
        let queue = self.queue.borrow();
        let end = (self.seen + n).min(queue.len());
        let events = queue[self.seen..end].to_vec();
        self.seen = end;
        events
    }
}

impl<T: 'static, A: 'static, E: Keyed + 'static> AnyQueueHandler<T, A> for Listening<T, A, E> {
    fn update(&mut self, obj: &mut T, additional: &mut A) {
        self.update_n(usize::MAX, obj, additional);
    }

    fn update_n(&mut self, n: usize, obj: &mut T, additional: &mut A) {
        for event in self.pending(n) {
            self.handler.push_event(event.key(), event);
        }
        AnyQueueHandler::update_n(&mut self.handler, n, obj, additional);
    }
}

trait ObjectNode {
    fn node_subjects(&self) -> Vec<NodeId>;
    fn update(
        &mut self,
        master: &mut MasterNodeRecord,
        node: NodeId,
        current_rec: usize,
        length: usize,
    ) -> Vec<EventRecord>;
    fn node_final(&self) -> usize;
    fn node_set_final(&mut self, fr: usize);
}

struct Object<E> {
    node: EventNode<Object<E>, MasterNodeRecord>,
    log: Vec<&'static str>,
    queue: Queue<E>,
}

impl<E: 'static> Object<E> {
    fn new(master: &mut MasterNodeRecord) -> Self {
        Object { node: EventNode::new(master), log: Vec::new(), queue: Rc::new(RefCell::new(Vec::new())) }
    }

    fn emit_owned(&mut self, event: E, master: &mut MasterNodeRecord) {
        self.node.emit(master);
        self.queue.borrow_mut().push(event);
    }
}

impl<E: 'static> ObjectNode for Object<E> {
    fn node_subjects(&self) -> Vec<NodeId> {
        self.node.graph().subjects()
    }

    fn update(
        &mut self,
        master: &mut MasterNodeRecord,
        node: NodeId,
        current_rec: usize,
        length: usize,
    ) -> Vec<EventRecord> {
        self.node.set_record(Some(current_rec));
        let mut graph = self.node.take();
        graph.update_node(self, master, node, length);
        self.node.reset(graph);
        self.node.set_record(None);
        master.record().to_vec()
    }

    fn node_final(&self) -> usize {
        self.node.final_record()
    }

    fn node_set_final(&mut self, fr: usize) {
        self.node.set_final_record(fr);
    }
}

#[derive(Clone)]
enum EventA {
    A,
    B,
}

impl Keyed for EventA {
    fn key(&self) -> &'static str {
        match self {
            EventA::A => "aa",
            EventA::B => "ab",
        }
    }
}

#[derive(Clone)]
struct EventB;

impl Keyed for EventB {
    fn key(&self) -> &'static str {
        "b"
    }
}

#[derive(Clone)]
struct NoEvent;

impl Keyed for NoEvent {
    fn key(&self) -> &'static str {
        "none"
    }
}

fn listen<T: 'static, A: 'static, E: Keyed + 'static, To: 'static>(
    target: &mut EventNode<T, A>,
    source: &Object<To>,
    handler: QueueHandler<T, A, E>,
) where
    Object<To>: HasQueue<E>,
{
    let node = handler.node_id();
    target.graph_mut().add(node, Box::new(Listening::new(handler, source.queue_of())));
}

trait HasQueue<E> {
    fn queue_of(&self) -> &Queue<E>;
}

impl<E> HasQueue<E> for Object<E> {
    fn queue_of(&self) -> &Queue<E> {
        &self.queue
    }
}

#[test]
fn test_master_record() {
    let mut master = MasterNodeRecord::new();

    let mut obj_0 = Object::<EventA>::new(&mut master);
    let mut obj_1 = Object::<NoEvent>::new(&mut master);
    let mut obj_2 = Object::<EventB>::new(&mut master);
    let mut obj_3 = Object::<EventB>::new(&mut master);

    listen(
        &mut obj_2.node,
        &obj_0,
        QueueHandler::new(&obj_0.node).and_on(
            "aa",
            |o: &mut Object<EventB>, mnr: &mut MasterNodeRecord, _: EventA| {
                o.emit_owned(EventB, mnr);
            },
        ),
    );

    listen(
        &mut obj_3.node,
        &obj_0,
        QueueHandler::new(&obj_0.node).and_on(
            "ab",
            |o: &mut Object<EventB>, mnr: &mut MasterNodeRecord, _: EventA| {
                o.emit_owned(EventB, mnr);
            },
        ),
    );

    listen(
        &mut obj_1.node,
        &obj_2,
        QueueHandler::new(&obj_2.node).and_on(
            "b",
            |o: &mut Object<NoEvent>, _: &mut MasterNodeRecord, _: EventB| {
                o.log.push("obj_2");
            },
        ),
    );

    listen(
        &mut obj_1.node,
        &obj_3,
        QueueHandler::new(&obj_3.node).and_on(
            "b",
            |o: &mut Object<NoEvent>, _: &mut MasterNodeRecord, _: EventB| {
                o.log.push("obj_3");
            },
        ),
    );

    // the order of events emitted should be the only deciding factor of the final order of events received by obj_1.
    obj_0.emit_owned(EventA::B, &mut master);
    obj_0.emit_owned(EventA::A, &mut master);
    obj_0.emit_owned(EventA::A, &mut master);
    obj_0.emit_owned(EventA::B, &mut master);
    obj_0.emit_owned(EventA::A, &mut master);

    // object list put in "worst-case" order.
    // obj_1 should be checked after obj_2 and obj_3.
    // obj_3 should be checked before obj_2.
    // if implemented correctly, none of this will matter, it'll sort it correctly.
    let objs: &mut [&mut dyn ObjectNode] = &mut [&mut obj_1, &mut obj_2, &mut obj_3];
    let record = master.record().to_vec();

    update(
        objs,
        record,
        |obj: &mut &mut dyn ObjectNode, node, current_rec, length| -> Vec<EventRecord> {
            obj.update(&mut master, node, current_rec, length)
        },
        |obj| obj.node_subjects(),
        |obj| obj.node_final(),
        |obj, fr| obj.node_set_final(fr),
    );

    assert_eq!(&obj_1.log, &["obj_3", "obj_2", "obj_2", "obj_3", "obj_2"]);
}

/// Runs the emissions of `test_master_record` with the listening objects
/// handed to `update` in the given order, and returns what obj_1 received.
fn received_in_order(order: [usize; 3]) -> Vec<&'static str> {
    let mut master = MasterNodeRecord::new();

    let mut obj_0 = Object::<EventA>::new(&mut master);
    let mut obj_1 = Object::<NoEvent>::new(&mut master);
    let mut obj_2 = Object::<EventB>::new(&mut master);
    let mut obj_3 = Object::<EventB>::new(&mut master);

    listen(
        &mut obj_2.node,
        &obj_0,
        QueueHandler::new(&obj_0.node).and_on(
            "aa",
            |o: &mut Object<EventB>, mnr: &mut MasterNodeRecord, _: EventA| o.emit_owned(EventB, mnr),
        ),
    );
    listen(
        &mut obj_3.node,
        &obj_0,
        QueueHandler::new(&obj_0.node).and_on(
            "ab",
            |o: &mut Object<EventB>, mnr: &mut MasterNodeRecord, _: EventA| o.emit_owned(EventB, mnr),
        ),
    );
    listen(
        &mut obj_1.node,
        &obj_2,
        QueueHandler::new(&obj_2.node).and_on(
            "b",
            |o: &mut Object<NoEvent>, _: &mut MasterNodeRecord, _: EventB| o.log.push("obj_2"),
        ),
    );
    listen(
        &mut obj_1.node,
        &obj_3,
        QueueHandler::new(&obj_3.node).and_on(
            "b",
            |o: &mut Object<NoEvent>, _: &mut MasterNodeRecord, _: EventB| o.log.push("obj_3"),
        ),
    );

    for event in [EventA::B, EventA::A, EventA::A, EventA::B, EventA::A] {
        obj_0.emit_owned(event, &mut master);
    }

    {
        let mut slots: [Option<&mut dyn ObjectNode>; 3] = [Some(&mut obj_1), Some(&mut obj_2), Some(&mut obj_3)];
        let mut objs: Vec<&mut dyn ObjectNode> = order.iter().map(|&k| slots[k].take().unwrap()).collect();
        let record = master.record().to_vec();
        update(
            &mut objs,
            record,
            |obj: &mut &mut dyn ObjectNode, node, current_rec, length| -> Vec<EventRecord> {
                obj.update(&mut master, node, current_rec, length)
            },
            |obj| obj.node_subjects(),
            |obj| obj.node_final(),
            |obj, fr| obj.node_set_final(fr),
        );
    }
    assert_eq!(obj_1.node.final_record(), 10);
    obj_1.log
}

#[test]
fn received_order_does_not_depend_on_item_order() {
    let expected = vec!["obj_3", "obj_2", "obj_2", "obj_3", "obj_2"];
    for order in [[0, 1, 2], [0, 2, 1], [1, 0, 2], [1, 2, 0], [2, 0, 1], [2, 1, 0]] {
        assert_eq!(received_in_order(order), expected);
    }
}
