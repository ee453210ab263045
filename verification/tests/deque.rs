use relm4::{Change, ChangeType, FactoryVecDeque, IndexKey, OutOfRange};

fn filled(items: &[&'static str]) -> FactoryVecDeque<&'static str> {
    let mut deque = FactoryVecDeque::new();
    for item in items {
        deque.push_back(*item);
    }
    deque
}

fn contents(deque: &FactoryVecDeque<&'static str>) -> Vec<&'static str> {
    (0..deque.len()).map(|i| *deque.get(i).unwrap()).collect()
}

fn pending(deque: &FactoryVecDeque<&'static str>) -> Vec<Change> {
    let log = deque.pending();
    (0..log.len()).map(|k| log.get(k).unwrap()).collect()
}

fn reads(deque: &FactoryVecDeque<&'static str>, key: IndexKey) -> usize {
    deque.dynamic_index(key).unwrap().current_index()
}

fn assert_positions(deque: &FactoryVecDeque<&'static str>) {
    for slot in 0..deque.len() {
        let key = deque.key(slot).unwrap();
        assert_eq!(reads(deque, key), slot);
    }
}

#[test]
fn new_deque_is_empty() {
    let deque: FactoryVecDeque<&'static str> = FactoryVecDeque::new();
    assert_eq!(deque.len(), 0);
    assert_eq!(deque.views_len(), 0);
    assert_eq!(deque.pending().len(), 0);
    assert_eq!(deque.key(0), None);
}

#[test]
fn default_deque_is_empty() {
    let deque: FactoryVecDeque<&'static str> = Default::default();
    assert_eq!(deque.len(), 0);
    assert_eq!(deque.views_len(), 0);
    assert_eq!(deque.pending().len(), 0);
}

#[test]
fn push_back_appends_and_records_add_at_the_old_length() {
    let mut deque = filled(&["a", "b"]);
    deque.reconcile().unwrap();
    deque.push_back("c");
    assert_eq!(contents(&deque), vec!["a", "b", "c"]);
    assert_eq!(pending(&deque), vec![Change::new(2, ChangeType::Add)]);
    assert_eq!(reads(&deque, deque.key(2).unwrap()), 2);
    assert_positions(&deque);
}

#[test]
fn pop_back_takes_the_last_and_records_remove_at_the_new_length() {
    let mut deque = filled(&["a", "b", "c"]);
    deque.reconcile().unwrap();
    assert_eq!(deque.pop_back(), Some("c"));
    assert_eq!(contents(&deque), vec!["a", "b"]);
    assert_eq!(pending(&deque), vec![Change::new(2, ChangeType::Remove)]);
    assert_positions(&deque);
}

#[test]
fn pop_back_on_empty_changes_nothing() {
    let mut deque: FactoryVecDeque<&'static str> = FactoryVecDeque::new();
    assert_eq!(deque.pop_back(), None);
    assert_eq!(deque.len(), 0);
    assert_eq!(deque.pending().len(), 0);
}

#[test]
fn push_front_advances_every_handle_and_records_add_at_zero() {
    let mut deque = filled(&["a", "b"]);
    deque.reconcile().unwrap();
    let a = deque.key(0).unwrap();
    let b = deque.key(1).unwrap();
    deque.push_front("z");
    assert_eq!(contents(&deque), vec!["z", "a", "b"]);
    assert_eq!(reads(&deque, a), 1);
    assert_eq!(reads(&deque, b), 2);
    assert_eq!(reads(&deque, deque.key(0).unwrap()), 0);
    assert_eq!(pending(&deque), vec![Change::new(0, ChangeType::Add)]);
}

#[test]
fn pop_front_retreats_every_remaining_handle_and_records_remove_at_zero() {
    let mut deque = filled(&["a", "b", "c"]);
    deque.reconcile().unwrap();
    let b = deque.key(1).unwrap();
    let c = deque.key(2).unwrap();
    assert_eq!(deque.pop_front(), Some("a"));
    assert_eq!(contents(&deque), vec!["b", "c"]);
    assert_eq!(reads(&deque, b), 0);
    assert_eq!(reads(&deque, c), 1);
    assert_eq!(pending(&deque), vec![Change::new(0, ChangeType::Remove)]);
}

#[test]
fn pop_front_on_empty_changes_nothing() {
    let mut deque: FactoryVecDeque<&'static str> = FactoryVecDeque::new();
    assert_eq!(deque.pop_front(), None);
    assert_eq!(deque.len(), 0);
    assert_eq!(deque.pending().len(), 0);
}

#[test]
fn insert_advances_the_handles_at_and_behind_the_index() {
    let mut deque = filled(&["a", "b", "c"]);
    deque.reconcile().unwrap();
    let a = deque.key(0).unwrap();
    let b = deque.key(1).unwrap();
    let c = deque.key(2).unwrap();
    assert_eq!(deque.insert(1, "x"), Ok(()));
    assert_eq!(contents(&deque), vec!["a", "x", "b", "c"]);
    assert_eq!(reads(&deque, a), 0);
    assert_eq!(reads(&deque, deque.key(1).unwrap()), 1);
    assert_eq!(reads(&deque, b), 2);
    assert_eq!(reads(&deque, c), 3);
    assert_eq!(pending(&deque), vec![Change::new(1, ChangeType::Add)]);
}

#[test]
fn insert_at_the_length_appends() {
    let mut deque = filled(&["a", "b"]);
    assert_eq!(deque.insert(2, "c"), Ok(()));
    assert_eq!(contents(&deque), vec!["a", "b", "c"]);
    assert_positions(&deque);
}

#[test]
fn insert_behind_the_length_is_refused_and_changes_nothing() {
    let mut deque = filled(&["a", "b"]);
    deque.reconcile().unwrap();
    let b = deque.key(1).unwrap();
    assert_eq!(deque.insert(3, "x"), Err(OutOfRange { index: 3, len: 2 }));
    assert_eq!(contents(&deque), vec!["a", "b"]);
    assert_eq!(deque.pending().len(), 0);
    assert_eq!(reads(&deque, b), 1);
    assert_eq!(deque.dynamic_index(IndexKey { id: 2 }), None);
}

#[test]
fn remove_retreats_the_handles_behind_the_index() {
    let mut deque = filled(&["a", "b", "c", "d"]);
    deque.reconcile().unwrap();
    let a = deque.key(0).unwrap();
    let c = deque.key(2).unwrap();
    let d = deque.key(3).unwrap();
    assert_eq!(deque.remove(1), Some("b"));
    assert_eq!(contents(&deque), vec!["a", "c", "d"]);
    assert_eq!(reads(&deque, a), 0);
    assert_eq!(reads(&deque, c), 1);
    assert_eq!(reads(&deque, d), 2);
    assert_eq!(pending(&deque), vec![Change::new(1, ChangeType::Remove)]);
}

#[test]
fn remove_out_of_range_returns_none_and_changes_nothing() {
    let mut deque = filled(&["a", "b"]);
    deque.reconcile().unwrap();
    assert_eq!(deque.remove(2), None);
    assert_eq!(deque.remove(usize::MAX), None);
    assert_eq!(contents(&deque), vec!["a", "b"]);
    assert_eq!(deque.pending().len(), 0);
    assert_positions(&deque);
}

#[test]
fn handle_of_a_removed_element_keeps_what_it_read_last() {
    let mut deque = filled(&["a", "b", "c"]);
    let b = deque.key(1).unwrap();
    assert_eq!(deque.remove(1), Some("b"));
    assert_eq!(reads(&deque, b), 1);
    deque.push_front("z");
    deque.push_front("y");
    assert_eq!(deque.pop_back(), Some("c"));
    assert_eq!(reads(&deque, b), 1);
    assert_positions(&deque);
}

#[test]
fn keys_are_never_handed_out_twice() {
    let mut deque = filled(&["a", "b"]);
    let a = deque.key(0).unwrap();
    let b = deque.key(1).unwrap();
    assert_ne!(a, b);
    assert_eq!(deque.pop_back(), Some("b"));
    deque.push_back("c");
    let c = deque.key(1).unwrap();
    assert_ne!(c, a);
    assert_ne!(c, b);
    assert_eq!(reads(&deque, c), 1);
}

#[test]
fn unknown_key_names_no_handle() {
    let deque = filled(&["a"]);
    assert!(deque.dynamic_index(IndexKey { id: 0 }).is_some());
    assert_eq!(deque.dynamic_index(IndexKey { id: 1 }), None);
    assert_eq!(deque.key(1), None);
}

#[test]
fn get_reads_without_recording() {
    let mut deque = filled(&["a", "b"]);
    deque.reconcile().unwrap();
    assert_eq!(deque.get(0), Ok(&"a"));
    assert_eq!(deque.get(1), Ok(&"b"));
    assert_eq!(deque.get(2), Err(OutOfRange { index: 2, len: 2 }));
    assert_eq!(deque.pending().len(), 0);
}

#[test]
fn get_mut_hands_out_the_element_and_records_update() {
    let mut deque = filled(&["a", "b"]);
    deque.reconcile().unwrap();
    *deque.get_mut(1).unwrap() = "q";
    assert_eq!(contents(&deque), vec!["a", "q"]);
    assert_eq!(pending(&deque), vec![Change::new(1, ChangeType::Update)]);
    assert_positions(&deque);
}

#[test]
fn get_mut_out_of_range_is_refused_and_records_nothing() {
    let mut deque = filled(&["a", "b"]);
    deque.reconcile().unwrap();
    assert_eq!(deque.get_mut(2).err(), Some(OutOfRange { index: 2, len: 2 }));
    assert_eq!(deque.pending().len(), 0);
    assert_eq!(contents(&deque), vec!["a", "b"]);
}

#[test]
fn mutations_renumber_the_records_queued_before() {
    let mut deque = filled(&["a", "b", "c", "d"]);
    deque.reconcile().unwrap();
    *deque.get_mut(3).unwrap() = "D";
    assert_eq!(deque.insert(1, "x"), Ok(()));
    assert_eq!(
        pending(&deque),
        vec![Change::new(4, ChangeType::Update), Change::new(1, ChangeType::Add)]
    );
    assert_eq!(deque.remove(0), Some("a"));
    assert_eq!(
        pending(&deque),
        vec![
            Change::new(3, ChangeType::Update),
            Change::new(0, ChangeType::Add),
            Change::new(0, ChangeType::Remove),
        ]
    );
}

#[test]
fn every_handle_reads_its_slot_after_each_of_many_mutations() {
    let mut deque: FactoryVecDeque<&'static str> = FactoryVecDeque::new();
    let mut mirror: Vec<(&'static str, IndexKey)> = Vec::new();
    let names = ["a", "b", "c", "d", "e", "f", "g", "h"];
    let mut seed: usize = 12345;
    for step in 0..400 {
        seed = seed.wrapping_mul(6364136223846793005).wrapping_add(1442695040888963407);
        let pick = (seed >> 33) % 6;
        let at = if mirror.is_empty() { 0 } else { (seed >> 17) % (mirror.len() + 1) };
        let name = names[step % names.len()];
        match pick {
            0 => {
                deque.push_back(name);
                mirror.push((name, deque.key(deque.len() - 1).unwrap()));
            }
            1 => {
                deque.push_front(name);
                mirror.insert(0, (name, deque.key(0).unwrap()));
            }
            2 => {
                assert_eq!(deque.insert(at, name), Ok(()));
                mirror.insert(at, (name, deque.key(at).unwrap()));
            }
            3 => {
                assert_eq!(deque.pop_back(), mirror.pop().map(|e| e.0));
            }
            4 => {
                let expected = if mirror.is_empty() { None } else { Some(mirror.remove(0).0) };
                assert_eq!(deque.pop_front(), expected);
            }
            _ => {
                let expected = if at < mirror.len() { Some(mirror.remove(at).0) } else { None };
                assert_eq!(deque.remove(at), expected);
            }
        }
        assert_eq!(deque.len(), mirror.len());
        for (slot, (name, key)) in mirror.iter().enumerate() {
            assert_eq!(deque.get(slot), Ok(name));
            assert_eq!(deque.key(slot), Some(*key));
            assert_eq!(reads(&deque, *key), slot);
        }
        if step % 7 == 0 {
            let _ = deque.reconcile();
        }
    }
}
