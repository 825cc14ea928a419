use std::cell::RefCell;
use std::rc::Rc;

use sinq::{AnyQueueHandler, EventNode, MasterNodeRecord, QueueHandler, QueuedGraph};

/// Counts the events it is asked to handle, tagging them with its name.
struct Counter {
    name: &'static str,
    log: Rc<RefCell<Vec<(&'static str, usize)>>>,
}

impl AnyQueueHandler<u32, u32> for Counter {
    fn update(&mut self, obj: &mut u32, additional: &mut u32) {
        self.update_n(usize::MAX, obj, additional);
    }

    fn update_n(&mut self, n: usize, obj: &mut u32, _additional: &mut u32) {
        *obj += 1;
        self.log.borrow_mut().push((self.name, n));
    }
}

fn sorted(mut v: Vec<u64>) -> Vec<u64> {
    v.sort();
    v
}

#[test]
fn new_graph_has_no_subjects() {
    let graph: QueuedGraph<u32, u32> = QueuedGraph::new();
    assert!(graph.subjects().is_empty());
    assert!(graph.get_handler(0).is_none());
    let graph: QueuedGraph<u32, u32> = QueuedGraph::default();
    assert!(graph.subjects().is_empty());
}

#[test]
fn subjects_are_the_added_nodes() {
    let log = Rc::new(RefCell::new(Vec::new()));
    let graph = QueuedGraph::new()
        .and_add(3, Box::new(Counter { name: "a", log: log.clone() }))
        .and_add(9, Box::new(Counter { name: "b", log: log.clone() }))
        .and_add(3, Box::new(Counter { name: "c", log: log.clone() }));
    assert_eq!(sorted(graph.subjects()), vec![3, 9]);
    assert!(graph.get_handler(3).is_some());
    assert!(graph.get_handler(9).is_some());
    assert!(graph.get_handler(4).is_none());
}

#[test]
fn adding_a_handled_node_replaces_its_handler() {
    let log = Rc::new(RefCell::new(Vec::new()));
    let mut graph = QueuedGraph::new();
    graph.add(5, Box::new(Counter { name: "old", log: log.clone() }));
    graph.add(5, Box::new(Counter { name: "new", log: log.clone() }));
    let (mut obj, mut add) = (0u32, 0u32);
    graph.update_node(&mut obj, &mut add, 5, 2);
    assert_eq!(*log.borrow(), vec![("new", 2)]);
    assert_eq!(obj, 1);
}

#[test]
fn updating_an_unhandled_node_does_nothing() {
    let log = Rc::new(RefCell::new(Vec::new()));
    let mut graph = QueuedGraph::new();
    graph.add(1, Box::new(Counter { name: "a", log: log.clone() }));
    let (mut obj, mut add) = (0u32, 0u32);
    graph.update_node(&mut obj, &mut add, 2, 1);
    assert!(log.borrow().is_empty());
    assert_eq!(obj, 0);
    assert_eq!(graph.subjects(), vec![1]);
}

#[test]
fn handler_is_reached_mutably() {
    let log = Rc::new(RefCell::new(Vec::new()));
    let mut graph = QueuedGraph::new();
    graph.add(1, Box::new(Counter { name: "a", log: log.clone() }));
    let (mut obj, mut add) = (0u32, 0u32);
    graph.get_handler_mut(1).unwrap().update(&mut obj, &mut add);
    assert!(graph.get_handler_mut(2).is_none());
    assert_eq!(*log.borrow(), vec![("a", usize::MAX)]);
    assert_eq!(graph.subjects(), vec![1]);
}

#[test]
fn queue_handler_listens_to_the_node() {
    let mut master = MasterNodeRecord::new();
    let _first: EventNode<(), ()> = EventNode::new(&mut master);
    let second: EventNode<(), ()> = EventNode::new(&mut master);
    let handler: QueueHandler<Vec<u32>, u32, u32> = QueueHandler::new(&second);
    assert_eq!(handler.node_id(), 1);
}

#[test]
fn events_are_routed_by_key_in_order() {
    let mut master = MasterNodeRecord::new();
    let source: EventNode<(), ()> = EventNode::new(&mut master);
    let mut handler = QueueHandler::new(&source)
        .and_on("add", |o: &mut Vec<u32>, a: &mut u32, e: u32| {
            o.push(e);
            *a += 1;
        })
        .and_on("double", |o: &mut Vec<u32>, _: &mut u32, e: u32| o.push(2 * e));
    let (mut obj, mut count) = (Vec::new(), 0u32);
    handler.handle_events(&["add", "other", "double", "add"], &[1, 2, 3, 4], &mut obj, &mut count);
    assert_eq!(obj, vec![1, 6, 4]);
    assert_eq!(count, 2);
}

#[test]
fn adding_a_closure_for_a_key_replaces_the_old_one() {
    let mut master = MasterNodeRecord::new();
    let source: EventNode<(), ()> = EventNode::new(&mut master);
    let mut handler: QueueHandler<Vec<u32>, (), u32> = QueueHandler::new(&source);
    handler.on("k", |o: &mut Vec<u32>, _: &mut (), e: u32| o.push(e));
    handler.on("k", |o: &mut Vec<u32>, _: &mut (), e: u32| o.push(e + 100));
    let mut obj = Vec::new();
    handler.dispatch("k", 1, &mut obj, &mut ());
    handler.dispatch("kk", 2, &mut obj, &mut ());
    assert_eq!(obj, vec![101]);
}

#[test]
fn keys_are_compared_whole() {
    let mut master = MasterNodeRecord::new();
    let source: EventNode<(), ()> = EventNode::new(&mut master);
    let mut handler: QueueHandler<Vec<&'static str>, (), ()> = QueueHandler::new(&source)
        .and_on("ab", |o: &mut Vec<&'static str>, _: &mut (), _: ()| o.push("ab"))
        .and_on("aé", |o: &mut Vec<&'static str>, _: &mut (), _: ()| o.push("aé"));
    let mut obj = Vec::new();
    handler.handle_events(&["a", "abc", "aé", "ab", ""], &[(), (), (), (), ()], &mut obj, &mut ());
    assert_eq!(obj, vec!["aé", "ab"]);
}

#[test]
fn and_add_has_the_effect_of_add() {
    let log = Rc::new(RefCell::new(Vec::new()));
    let mut by_add = QueuedGraph::new();
    by_add.add(4, Box::new(Counter { name: "first", log: log.clone() }));
    by_add.add(4, Box::new(Counter { name: "second", log: log.clone() }));
    by_add.add(6, Box::new(Counter { name: "other", log: log.clone() }));
    let mut by_and_add = QueuedGraph::new()
        .and_add(4, Box::new(Counter { name: "first", log: log.clone() }))
        .and_add(4, Box::new(Counter { name: "second", log: log.clone() }))
        .and_add(6, Box::new(Counter { name: "other", log: log.clone() }));
    assert_eq!(sorted(by_add.subjects()), sorted(by_and_add.subjects()));
    let (mut obj, mut add) = (0u32, 0u32);
    by_add.update_node(&mut obj, &mut add, 4, 1);
    by_and_add.update_node(&mut obj, &mut add, 4, 1);
    by_add.update_node(&mut obj, &mut add, 6, 3);
    by_and_add.update_node(&mut obj, &mut add, 6, 3);
    assert_eq!(
        *log.borrow(),
        vec![("second", 1), ("second", 1), ("other", 3), ("other", 3)]
    );
    assert_eq!(obj, 4);
}

fn pushing_handler(source: &EventNode<(), ()>) -> QueueHandler<Vec<u32>, u32, u32> {
    QueueHandler::new(source)
        .and_on("add", |o: &mut Vec<u32>, a: &mut u32, e: u32| {
            o.push(e);
            *a += 1;
        })
        .and_on("double", |o: &mut Vec<u32>, _: &mut u32, e: u32| o.push(2 * e))
}

#[test]
fn update_n_handles_at_most_n_pending_events_in_order() {
    let mut master = MasterNodeRecord::new();
    let source: EventNode<(), ()> = EventNode::new(&mut master);
    let mut handler = pushing_handler(&source);
    handler.push_event("add", 1);
    handler.push_event("other", 2);
    handler.push_event("double", 3);
    handler.push_event("add", 4);
    let (mut obj, mut count) = (Vec::new(), 0u32);
    handler.update_n(0, &mut obj, &mut count);
    assert!(obj.is_empty());
    handler.update_n(3, &mut obj, &mut count);
    assert_eq!(obj, vec![1, 6]);
    assert_eq!(count, 1);
    handler.update_n(5, &mut obj, &mut count);
    assert_eq!(obj, vec![1, 6, 4]);
    assert_eq!(count, 2);
    handler.update_n(5, &mut obj, &mut count);
    assert_eq!(obj, vec![1, 6, 4]);
}

#[test]
fn update_handles_every_pending_event() {
    let mut master = MasterNodeRecord::new();
    let source: EventNode<(), ()> = EventNode::new(&mut master);
    let mut handler = pushing_handler(&source);
    handler.push_event("double", 5);
    handler.push_event("add", 7);
    let (mut obj, mut count) = (Vec::new(), 0u32);
    AnyQueueHandler::update(&mut handler, &mut obj, &mut count);
    assert_eq!(obj, vec![10, 7]);
    handler.update_n(1, &mut obj, &mut count);
    assert_eq!(obj, vec![10, 7]);
}

#[test]
fn graph_runs_a_queue_handler_for_its_node() {
    let mut master = MasterNodeRecord::new();
    let source: EventNode<(), ()> = EventNode::new(&mut master);
    let mut handler = pushing_handler(&source);
    handler.push_event("add", 1);
    handler.push_event("add", 2);
    let mut graph = QueuedGraph::new();
    graph.add(source.id(), Box::new(handler));
    let (mut obj, mut count) = (Vec::new(), 0u32);
    graph.update_node(&mut obj, &mut count, source.id(), 1);
    assert_eq!(obj, vec![1]);
    graph.update_node(&mut obj, &mut count, source.id(), 1);
    assert_eq!(obj, vec![1, 2]);
    assert_eq!(count, 2);
}
