use sinq::{EventNode, EventRecord, MasterNodeRecord, QueuedGraph};

fn origins(master: &MasterNodeRecord) -> Vec<u64> {
    master.record().iter().map(|r| r.origin).collect()
}

#[test]
fn new_master_record_is_empty() {
    let master = MasterNodeRecord::new();
    assert!(master.record().is_empty());
    assert_eq!(master.upcoming_id(), 0);
    let default = MasterNodeRecord::default();
    assert!(default.record().is_empty());
    assert_eq!(default.upcoming_id(), 0);
}

#[test]
fn nodes_get_increasing_ids() {
    let mut master = MasterNodeRecord::new();
    let a: EventNode<(), ()> = EventNode::new(&mut master);
    let b: EventNode<(), ()> = EventNode::new(&mut master);
    let c: EventNode<u8, u8> = EventNode::new(&mut master);
    assert_eq!((a.id(), b.id(), c.id()), (0, 1, 2));
    assert_eq!(master.upcoming_id(), 3);
    assert!(master.record().is_empty());
}

#[test]
fn new_node_starts_clean() {
    let mut master = MasterNodeRecord::new();
    let node: EventNode<(), ()> = EventNode::new(&mut master);
    assert!(node.has_graph());
    assert!(node.graph().subjects().is_empty());
    assert_eq!(node.current_record(), None);
    assert_eq!(node.final_record(), 0);
}

#[test]
fn root_emissions_are_recorded_last() {
    let mut master = MasterNodeRecord::new();
    let mut a: EventNode<(), ()> = EventNode::new(&mut master);
    let mut b: EventNode<(), ()> = EventNode::new(&mut master);
    a.emit(&mut master);
    b.emit(&mut master);
    a.emit(&mut master);
    assert_eq!(origins(&master), vec![0, 1, 0]);
    assert_eq!(a.current_record(), None);
}

#[test]
fn responses_follow_their_cause_in_order() {
    let mut master = MasterNodeRecord::new();
    let mut a: EventNode<(), ()> = EventNode::new(&mut master);
    let mut b: EventNode<(), ()> = EventNode::new(&mut master);
    a.emit(&mut master);
    a.emit(&mut master);
    a.emit(&mut master);
    // b handles the event at index 1 and emits twice
    b.set_record(Some(1));
    b.emit(&mut master);
    b.emit(&mut master);
    assert_eq!(b.current_record(), Some(3));
    assert_eq!(origins(&master), vec![0, 0, 1, 1, 0]);
    assert_eq!(master.record()[2], EventRecord { origin: 1 });
}

#[test]
fn responses_to_the_last_event_are_appended() {
    let mut master = MasterNodeRecord::new();
    let mut a: EventNode<(), ()> = EventNode::new(&mut master);
    let mut b: EventNode<(), ()> = EventNode::new(&mut master);
    a.emit(&mut master);
    b.set_record(Some(0));
    b.emit(&mut master);
    assert_eq!(origins(&master), vec![0, 1]);
    assert_eq!(b.current_record(), Some(1));
}

#[test]
fn take_then_reset_restores_the_node() {
    let mut master = MasterNodeRecord::new();
    let mut node: EventNode<(), ()> = EventNode::new(&mut master);
    node.set_record(Some(4));
    node.set_final_record(7);
    let graph = node.take();
    assert!(!node.has_graph());
    assert_eq!(node.current_record(), Some(4));
    node.reset(graph);
    assert!(node.has_graph());
    assert_eq!(node.id(), 0);
    assert_eq!(node.current_record(), Some(4));
    assert_eq!(node.final_record(), 7);
}

#[test]
fn reset_puts_in_any_graph() {
    let mut master = MasterNodeRecord::new();
    let mut node: EventNode<(), ()> = EventNode::new(&mut master);
    let _ = node.take();
    node.reset(QueuedGraph::new());
    assert!(node.graph().subjects().is_empty());
}

#[test]
fn records_are_set_and_read_back() {
    let mut master = MasterNodeRecord::new();
    let mut node: EventNode<(), ()> = EventNode::new(&mut master);
    node.set_final_record(12);
    assert_eq!(node.final_record(), 12);
    node.set_record(Some(3));
    assert_eq!(node.current_record(), Some(3));
    node.set_record(None);
    assert_eq!(node.current_record(), None);
    assert_eq!(node.final_record(), 12);
}

#[test]
fn many_responses_stay_together_after_their_cause() {
    let mut master = MasterNodeRecord::new();
    let mut a: EventNode<(), ()> = EventNode::new(&mut master);
    let mut b: EventNode<(), ()> = EventNode::new(&mut master);
    a.emit(&mut master);
    a.emit(&mut master);
    b.set_record(Some(0));
    for _ in 0..4 {
        b.emit(&mut master);
    }
    assert_eq!(b.current_record(), Some(4));
    assert_eq!(origins(&master), vec![0, 1, 1, 1, 1, 0]);
}

#[test]
fn node_ids_never_repeat() {
    let mut master = MasterNodeRecord::new();
    let mut ids = Vec::new();
    for k in 0..5 {
        let mut node: EventNode<(), ()> = EventNode::new(&mut master);
        for _ in 0..k {
            node.emit(&mut master);
        }
        ids.push(node.id());
    }
    assert_eq!(ids, vec![0, 1, 2, 3, 4]);
}
