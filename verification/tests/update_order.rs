use sinq::{build_index, highest_common_record, update, EventRecord, NodeId};

#[test]
fn index_lists_listeners_in_item_order() {
    let subjects: Vec<Vec<NodeId>> = vec![vec![1, 2], vec![2], vec![2, 2, 5], vec![]];
    let index = build_index(&subjects);
    assert_eq!(index.len(), 3);
    assert_eq!(index[&1], vec![0]);
    assert_eq!(index[&2], vec![0, 1, 2, 2]);
    assert_eq!(index[&5], vec![2]);
    assert!(!index.contains_key(&3));
}

#[test]
fn index_of_nothing_is_empty() {
    let index = build_index(&Vec::new());
    assert!(index.is_empty());
}

#[test]
fn highest_common_record_is_the_minimum() {
    assert_eq!(highest_common_record(&vec![3, 1, 2]), 1);
    assert_eq!(highest_common_record(&vec![4]), 4);
    assert_eq!(highest_common_record(&vec![]), usize::MAX);
}

/// An item: the nodes it listens to, its final record, and the calls it got.
#[derive(Debug, Clone, PartialEq)]
struct Item {
    subjects: Vec<NodeId>,
    final_rec: usize,
    calls: Vec<(NodeId, usize, usize)>,
}

fn item(subjects: Vec<NodeId>, final_rec: usize) -> Item {
    Item { subjects, final_rec, calls: Vec::new() }
}

fn records(origins: &[NodeId]) -> Vec<EventRecord> {
    origins.iter().map(|&origin| EventRecord { origin }).collect()
}

fn run(items: &mut [Item], rec: Vec<EventRecord>) {
    let fixed = rec.clone();
    update(
        items,
        rec,
        |it: &mut Item, origin, current, length| {
            it.calls.push((origin, current, length));
            fixed.clone()
        },
        |it| it.subjects.clone(),
        |it| it.final_rec,
        |it, fr| it.final_rec = fr,
    );
}

#[test]
fn update_without_items_does_nothing() {
    let mut items: Vec<Item> = Vec::new();
    run(&mut items, records(&[1, 2]));
    assert!(items.is_empty());
}

#[test]
fn update_when_every_item_is_up_to_date_does_nothing() {
    let mut items = vec![item(vec![1], 2), item(vec![2], 2)];
    let before = items.clone();
    run(&mut items, records(&[1, 2]));
    assert_eq!(items, before);
}

#[test]
fn update_invokes_listeners_in_record_order_and_finalizes() {
    let mut items = vec![item(vec![2], 0), item(vec![1, 2], 0), item(vec![3], 0)];
    run(&mut items, records(&[1, 2, 1]));
    assert_eq!(items[0].calls, vec![(2, 1, 1)]);
    assert_eq!(items[1].calls, vec![(1, 0, 1), (2, 1, 1), (1, 2, 1)]);
    assert!(items[2].calls.is_empty());
    assert!(items.iter().all(|it| it.final_rec == 3));
}

#[test]
fn update_skips_events_an_item_has_processed() {
    let mut items = vec![item(vec![1], 2), item(vec![1], 1)];
    run(&mut items, records(&[1, 1, 1]));
    assert_eq!(items[0].calls, vec![(1, 2, 1)]);
    assert_eq!(items[1].calls, vec![(1, 1, 1), (1, 2, 1)]);
    assert!(items.iter().all(|it| it.final_rec == 3));
}

#[test]
fn update_follows_records_added_while_handling() {
    // item 0 answers each event from node 1 with one from node 7, right after it
    let mut items = vec![item(vec![1], 0), item(vec![7], 0)];
    let mut rec = records(&[1, 1]);
    let shared = std::cell::RefCell::new(rec.clone());
    rec = shared.borrow().clone();
    update(
        &mut items,
        rec,
        |it: &mut Item, origin, current, length| {
            it.calls.push((origin, current, length));
            if origin == 1 {
                shared.borrow_mut().insert(current + 1, EventRecord { origin: 7 });
            }
            shared.borrow().clone()
        },
        |it| it.subjects.clone(),
        |it| it.final_rec,
        |it, fr| it.final_rec = fr,
    );
    assert_eq!(items[0].calls, vec![(1, 0, 1), (1, 2, 1)]);
    assert_eq!(items[1].calls, vec![(7, 1, 1), (7, 3, 1)]);
    assert!(items.iter().all(|it| it.final_rec == 4));
}

#[test]
fn item_listening_twice_is_invoked_twice() {
    let mut items = vec![item(vec![4, 4], 0)];
    run(&mut items, records(&[4]));
    assert_eq!(items[0].calls, vec![(4, 0, 1), (4, 0, 1)]);
    assert_eq!(items[0].final_rec, 1);
}

#[test]
fn update_with_every_item_ahead_only_finalizes() {
    let mut items = vec![item(vec![1], 5), item(vec![2], 4)];
    run(&mut items, records(&[1, 2]));
    assert!(items.iter().all(|it| it.calls.is_empty()));
    assert!(items.iter().all(|it| it.final_rec == 2));
}

#[test]
fn update_starts_at_the_highest_common_record() {
    let mut items = vec![item(vec![1], 2), item(vec![1, 2], 1)];
    run(&mut items, records(&[1, 2, 1, 2]));
    assert_eq!(items[0].calls, vec![(1, 2, 1)]);
    assert_eq!(items[1].calls, vec![(2, 1, 1), (1, 2, 1), (2, 3, 1)]);
    assert!(items.iter().all(|it| it.final_rec == 4));
}
