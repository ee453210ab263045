use relm4::{Change, ChangeType, FactoryVecDeque, IndexKey, LogicError, ViewOp};

/// A view object of the stand-in toolkit: what it shows, and a serial number
/// that tells two objects showing the same apart.
#[derive(Debug, Clone, PartialEq, Eq)]
struct Widget {
    label: String,
    serial: usize,
}

/// The stand-in toolkit: the external view, the materialized views beside
/// it, and a count of every call that reached the view.
struct Screen {
    nodes: Vec<Widget>,
    widgets: Vec<Widget>,
    built: usize,
    calls: usize,
}

impl Screen {
    fn new() -> Self {
        Screen { nodes: Vec::new(), widgets: Vec::new(), built: 0, calls: 0 }
    }

    fn build(&mut self, label: &str) -> Widget {
        self.built += 1;
        Widget { label: label.to_string(), serial: self.built }
    }

    fn place(&self, widget: &Widget) -> usize {
        self.nodes.iter().position(|node| node.serial == widget.serial).unwrap()
    }

    fn carry_out(&mut self, deque: &FactoryVecDeque<String>, ops: &[ViewOp]) {
        for op in ops {
            self.calls += 1;
            match *op {
                ViewOp::PushFront { slot } => {
                    let widget = self.build(deque.get(slot).unwrap());
                    self.nodes.insert(0, widget.clone());
                    self.widgets.insert(slot, widget);
                }
                ViewOp::InsertAfter { slot } => {
                    let widget = self.build(deque.get(slot).unwrap());
                    let anchor = self.place(&self.widgets[slot - 1]);
                    self.nodes.insert(anchor + 1, widget.clone());
                    self.widgets.insert(slot, widget);
                }
                ViewOp::Update { slot } => {
                    let at = self.place(&self.widgets[slot]);
                    let label = deque.get(slot).unwrap().clone();
                    self.nodes[at].label = label.clone();
                    self.widgets[slot].label = label;
                }
                ViewOp::Remove { slot } => {
                    let widget = self.widgets.remove(slot);
                    let at = self.place(&widget);
                    self.nodes.remove(at);
                }
            }
        }
    }

    fn order(&self) -> Vec<String> {
        self.nodes.iter().map(|node| node.label.clone()).collect()
    }

    fn serials(&self) -> Vec<usize> {
        self.nodes.iter().map(|node| node.serial).collect()
    }
}

fn reconcile(deque: &mut FactoryVecDeque<String>, screen: &mut Screen) -> Vec<ViewOp> {
    let ops = deque.reconcile().unwrap();
    screen.carry_out(deque, &ops);
    ops
}

fn filled(items: &[&str]) -> (FactoryVecDeque<String>, Screen) {
    let mut deque = FactoryVecDeque::new();
    for item in items {
        deque.push_back(item.to_string());
    }
    let mut screen = Screen::new();
    reconcile(&mut deque, &mut screen);
    (deque, screen)
}

fn contents(deque: &FactoryVecDeque<String>) -> Vec<String> {
    (0..deque.len()).map(|i| deque.get(i).unwrap().clone()).collect()
}

fn pending(deque: &FactoryVecDeque<String>) -> Vec<Change> {
    let log = deque.pending();
    (0..log.len()).map(|k| log.get(k).unwrap()).collect()
}

fn reads(deque: &FactoryVecDeque<String>, key: IndexKey) -> usize {
    deque.dynamic_index(key).unwrap().current_index()
}

fn assert_in_line(deque: &FactoryVecDeque<String>, screen: &Screen) {
    assert_eq!(deque.views_len(), deque.len());
    assert_eq!(deque.pending().len(), 0);
    for slot in 0..deque.len() {
        assert_eq!(deque.view_key(slot), deque.key(slot));
    }
    assert_eq!(screen.order(), contents(deque));
    assert_eq!(screen.widgets, screen.nodes);
}

#[test]
fn first_reconcile_builds_every_view_in_order() {
    let mut deque = FactoryVecDeque::new();
    deque.push_back("A".to_string());
    deque.push_back("B".to_string());
    deque.push_back("C".to_string());
    let mut screen = Screen::new();
    let ops = reconcile(&mut deque, &mut screen);
    assert_eq!(
        ops,
        vec![
            ViewOp::PushFront { slot: 0 },
            ViewOp::InsertAfter { slot: 1 },
            ViewOp::InsertAfter { slot: 2 },
        ]
    );
    assert_eq!(screen.order(), vec!["A", "B", "C"]);
    assert_in_line(&deque, &screen);
}

#[test]
fn end_to_end_push_insert_remove() {
    let mut deque = FactoryVecDeque::new();
    let mut screen = Screen::new();
    deque.push_back("A".to_string());
    deque.push_back("B".to_string());
    deque.push_back("C".to_string());
    reconcile(&mut deque, &mut screen);
    assert_eq!(screen.order(), vec!["A", "B", "C"]);

    let b = deque.key(1).unwrap();
    let c = deque.key(2).unwrap();
    assert_eq!(deque.insert(1, "X".to_string()), Ok(()));
    let x = deque.key(1).unwrap();
    let ops = reconcile(&mut deque, &mut screen);
    assert_eq!(ops, vec![ViewOp::InsertAfter { slot: 1 }]);
    assert_eq!(screen.order(), vec!["A", "X", "B", "C"]);
    assert_eq!(reads(&deque, b), 2);
    assert_eq!(reads(&deque, c), 3);

    assert_eq!(deque.remove(0), Some("A".to_string()));
    let ops = reconcile(&mut deque, &mut screen);
    assert_eq!(ops, vec![ViewOp::Remove { slot: 0 }]);
    assert_eq!(screen.order(), vec!["X", "B", "C"]);
    assert_eq!(reads(&deque, x), 0);
    assert_in_line(&deque, &screen);
}

#[test]
fn second_reconcile_without_mutation_takes_no_operation() {
    let (mut deque, mut screen) = filled(&["A", "B", "C"]);
    let calls = screen.calls;
    let ops = reconcile(&mut deque, &mut screen);
    assert_eq!(ops, vec![]);
    assert_eq!(screen.calls, calls);
    assert_in_line(&deque, &screen);
}

#[test]
fn reconcile_of_an_empty_deque_takes_no_operation() {
    let mut deque: FactoryVecDeque<String> = FactoryVecDeque::new();
    assert_eq!(deque.reconcile(), Ok(vec![]));
    assert_eq!(deque.reconcile(), Ok(vec![]));
    assert_eq!(deque.views_len(), 0);
}

#[test]
fn reconcile_clears_the_log() {
    let (mut deque, mut screen) = filled(&["A"]);
    deque.push_back("B".to_string());
    *deque.get_mut(0).unwrap() = "a".to_string();
    assert_eq!(deque.pending().len(), 2);
    reconcile(&mut deque, &mut screen);
    assert_eq!(deque.pending().len(), 0);
}

#[test]
fn update_refreshes_the_view_in_place() {
    let (mut deque, mut screen) = filled(&["A", "B", "C"]);
    let serials = screen.serials();
    *deque.get_mut(1).unwrap() = "b".to_string();
    let ops = reconcile(&mut deque, &mut screen);
    assert_eq!(ops, vec![ViewOp::Update { slot: 1 }]);
    assert_eq!(screen.order(), vec!["A", "b", "C"]);
    assert_eq!(screen.serials(), serials);
    assert_in_line(&deque, &screen);
}

#[test]
fn update_of_a_slot_marked_remove_is_reported_before_any_view_call() {
    let (mut deque, mut screen) = filled(&["A", "B"]);
    let calls = screen.calls;
    assert_eq!(deque.remove(0), Some("A".to_string()));
    *deque.get_mut(0).unwrap() = "b".to_string();
    let log = pending(&deque);
    assert_eq!(
        log,
        vec![Change::new(0, ChangeType::Remove), Change::new(0, ChangeType::Update)]
    );
    let expected = LogicError::UnexpectedChange {
        current: ChangeType::Remove,
        incoming: ChangeType::Update,
    };
    assert_eq!(deque.compile_changes(), Err(expected));
    assert_eq!(deque.reconcile(), Err(expected));
    assert_eq!(screen.calls, calls);
    assert_eq!(pending(&deque), log);
    assert_eq!(deque.views_len(), 2);
    assert_eq!(contents(&deque), vec!["b"]);
    assert_eq!(screen.order(), vec!["A", "B"]);
}

#[test]
fn removing_twice_at_one_slot_is_reported() {
    let (mut deque, _screen) = filled(&["A", "B", "C"]);
    assert_eq!(deque.pop_front(), Some("A".to_string()));
    assert_eq!(deque.pop_front(), Some("B".to_string()));
    assert_eq!(
        deque.reconcile(),
        Err(LogicError::UnexpectedChange {
            current: ChangeType::Remove,
            incoming: ChangeType::Remove
        })
    );
    assert_eq!(deque.views_len(), 3);
}

#[test]
fn push_then_pop_in_one_batch_compiles_to_remove_and_reaches_no_view() {
    let (mut deque, mut screen) = filled(&["A", "B"]);
    let calls = screen.calls;
    deque.push_back("C".to_string());
    assert_eq!(deque.pop_back(), Some("C".to_string()));
    assert_eq!(
        pending(&deque),
        vec![Change::new(2, ChangeType::Add), Change::new(2, ChangeType::Remove)]
    );
    assert_eq!(
        deque.compile_changes(),
        Ok(vec![ChangeType::Unchanged, ChangeType::Unchanged, ChangeType::Remove])
    );
    assert_eq!(deque.reconcile(), Err(LogicError::MissingView { slot: 2 }));
    assert_eq!(screen.calls, calls);
    assert_eq!(deque.views_len(), 2);
    assert_eq!(deque.pending().len(), 2);
    assert_eq!(screen.order(), vec!["A", "B"]);
    let _ = &mut screen;
}

#[test]
fn mixed_batch_brings_views_in_line() {
    let (mut deque, mut screen) = filled(&["A", "B", "C", "D"]);
    deque.push_front("Z".to_string());
    *deque.get_mut(2).unwrap() = "b".to_string();
    assert_eq!(deque.insert(3, "X".to_string()), Ok(()));
    deque.push_back("E".to_string());
    *deque.get_mut(6).unwrap() = "e".to_string();
    assert_eq!(contents(&deque), vec!["Z", "A", "b", "X", "C", "D", "e"]);
    let ops = reconcile(&mut deque, &mut screen);
    assert_eq!(
        ops,
        vec![
            ViewOp::PushFront { slot: 0 },
            ViewOp::Update { slot: 2 },
            ViewOp::InsertAfter { slot: 3 },
            ViewOp::InsertAfter { slot: 6 },
        ]
    );
    assert_eq!(screen.order(), vec!["Z", "A", "b", "X", "C", "D", "e"]);
    assert_in_line(&deque, &screen);
}

#[test]
fn removal_and_insertion_in_one_batch_bring_views_in_line() {
    let (mut deque, mut screen) = filled(&["A", "B", "C"]);
    assert_eq!(deque.remove(1), Some("B".to_string()));
    deque.push_front("X".to_string());
    assert_eq!(
        pending(&deque),
        vec![Change::new(2, ChangeType::Remove), Change::new(0, ChangeType::Add)]
    );
    let ops = reconcile(&mut deque, &mut screen);
    assert_eq!(ops, vec![ViewOp::PushFront { slot: 0 }, ViewOp::Remove { slot: 2 }]);
    assert_eq!(screen.order(), vec!["X", "A", "C"]);
    assert_in_line(&deque, &screen);
}

#[test]
fn pop_back_then_push_back_bring_views_in_line() {
    let (mut deque, mut screen) = filled(&["A", "B"]);
    assert_eq!(deque.pop_back(), Some("B".to_string()));
    deque.push_back("C".to_string());
    assert_eq!(
        deque.compile_changes(),
        Ok(vec![ChangeType::Unchanged, ChangeType::Add, ChangeType::Remove])
    );
    let ops = reconcile(&mut deque, &mut screen);
    assert_eq!(ops, vec![ViewOp::InsertAfter { slot: 1 }, ViewOp::Remove { slot: 2 }]);
    assert_eq!(screen.order(), vec!["A", "C"]);
    assert_in_line(&deque, &screen);
}

#[test]
fn insert_then_remove_at_one_slot_is_reported_before_any_view_call() {
    let (mut deque, screen) = filled(&["A", "B", "C"]);
    deque.push_front("X".to_string());
    assert_eq!(deque.pop_front(), Some("X".to_string()));
    assert_eq!(
        deque.compile_changes(),
        Ok(vec![
            ChangeType::Remove,
            ChangeType::Unchanged,
            ChangeType::Unchanged,
            ChangeType::Unchanged,
        ])
    );
    assert_eq!(deque.reconcile(), Err(LogicError::OutOfLine { views: 2, entries: 3 }));
    assert_eq!(contents(&deque), vec!["A", "B", "C"]);
    assert_eq!(deque.views_len(), 3);
    assert_eq!(deque.pending().len(), 2);
    assert_eq!(screen.order(), vec!["A", "B", "C"]);
}

#[test]
fn update_behind_a_removed_element_is_merged_into_the_removal() {
    let (mut deque, mut screen) = filled(&["A", "B"]);
    *deque.get_mut(1).unwrap() = "b".to_string();
    assert_eq!(deque.remove(0), Some("A".to_string()));
    assert_eq!(
        pending(&deque),
        vec![Change::new(0, ChangeType::Update), Change::new(0, ChangeType::Remove)]
    );
    assert_eq!(deque.compile_changes(), Ok(vec![ChangeType::Remove, ChangeType::Unchanged]));
    let ops = reconcile(&mut deque, &mut screen);
    assert_eq!(ops, vec![ViewOp::Remove { slot: 0 }]);
    assert_eq!(contents(&deque), vec!["b"]);
    assert_eq!(screen.order(), vec!["B"]);
    assert_eq!(deque.views_len(), 1);
    assert_eq!(deque.view_key(0), deque.key(0));
}

#[test]
fn successful_reconcile_leaves_one_view_for_each_element() {
    let mut deque: FactoryVecDeque<String> = FactoryVecDeque::new();
    let mut seed: usize = 7;
    for step in 0..500 {
        seed = seed.wrapping_mul(6364136223846793005).wrapping_add(1442695040888963407);
        let pick = (seed >> 33) % 8;
        let at = if deque.len() == 0 { 0 } else { (seed >> 17) % deque.len() };
        let name = format!("n{}", step);
        match pick {
            0 => deque.push_back(name),
            1 => deque.push_front(name),
            2 => assert_eq!(deque.insert(at, name), Ok(())),
            3 => {
                let _ = deque.pop_back();
            }
            4 => {
                let _ = deque.remove(at);
            }
            5 => {
                if let Ok(element) = deque.get_mut(at) {
                    *element = name;
                }
            }
            _ => {
                let before = deque.views_len();
                match deque.reconcile() {
                    Ok(_) => {
                        assert_eq!(deque.views_len(), deque.len());
                        assert_eq!(deque.pending().len(), 0);
                    }
                    Err(_) => {
                        assert_eq!(deque.views_len(), before);
                        assert_ne!(deque.pending().len(), 0);
                        deque = FactoryVecDeque::new();
                    }
                }
            }
        }
    }
}

#[test]
fn recreate_replaces_the_view_of_its_own_slot() {
    let (mut deque, mut screen) = filled(&["A", "B", "C"]);
    let serials = screen.serials();
    let plan = vec![
        ChangeType::Unchanged,
        ChangeType::Recreate,
        ChangeType::Unchanged,
        ChangeType::Unchanged,
    ];
    let ops = deque.replay(&plan).unwrap();
    assert_eq!(ops, vec![ViewOp::Remove { slot: 1 }, ViewOp::InsertAfter { slot: 1 }]);
    screen.carry_out(&deque, &ops);
    assert_eq!(screen.order(), vec!["A", "B", "C"]);
    let after = screen.serials();
    assert_eq!(after[0], serials[0]);
    assert_ne!(after[1], serials[1]);
    assert_eq!(after[2], serials[2]);
    assert_in_line(&deque, &screen);
}

#[test]
fn recreate_at_the_front_puts_the_new_view_at_the_front() {
    let (mut deque, mut screen) = filled(&["A", "B"]);
    let ops = deque.replay(&vec![ChangeType::Recreate]).unwrap();
    assert_eq!(ops, vec![ViewOp::Remove { slot: 0 }, ViewOp::PushFront { slot: 0 }]);
    screen.carry_out(&deque, &ops);
    assert_eq!(screen.order(), vec!["A", "B"]);
    assert_in_line(&deque, &screen);
}

#[test]
fn replay_keeps_the_log() {
    let (mut deque, _screen) = filled(&["A", "B"]);
    *deque.get_mut(0).unwrap() = "a".to_string();
    let ops = deque.replay(&vec![ChangeType::Update]).unwrap();
    assert_eq!(ops, vec![ViewOp::Update { slot: 0 }]);
    assert_eq!(pending(&deque), vec![Change::new(0, ChangeType::Update)]);
}

#[test]
fn new_view_goes_to_the_front_when_no_view_stands_or_the_slot_is_first() {
    let mut deque = FactoryVecDeque::new();
    deque.push_back("A".to_string());
    assert_eq!(deque.replay(&vec![ChangeType::Add]), Ok(vec![ViewOp::PushFront { slot: 0 }]));
    deque.push_back("B".to_string());
    assert_eq!(
        deque.replay(&vec![ChangeType::Unchanged, ChangeType::Add]),
        Ok(vec![ViewOp::InsertAfter { slot: 1 }])
    );
    deque.push_front("Z".to_string());
    assert_eq!(deque.replay(&vec![ChangeType::Add]), Ok(vec![ViewOp::PushFront { slot: 0 }]));
    assert_eq!(deque.views_len(), 3);
}

#[test]
fn replay_reports_a_missing_entry() {
    let (mut deque, _screen) = filled(&["A"]);
    let beyond = vec![ChangeType::Unchanged, ChangeType::Update];
    assert_eq!(deque.replay(&beyond), Err(LogicError::MissingEntry { slot: 1 }));
    let beyond = vec![ChangeType::Unchanged, ChangeType::Add];
    assert_eq!(deque.replay(&beyond), Err(LogicError::MissingEntry { slot: 1 }));
    let beyond = vec![ChangeType::Remove, ChangeType::Recreate];
    assert_eq!(deque.replay(&beyond), Err(LogicError::MissingView { slot: 1 }));
    assert_eq!(deque.views_len(), 1);
}

#[test]
fn replay_reports_a_missing_view() {
    let mut deque = FactoryVecDeque::new();
    deque.push_back("A".to_string());
    deque.push_back("B".to_string());
    deque.push_back("C".to_string());
    let plan = vec![ChangeType::Unchanged, ChangeType::Unchanged, ChangeType::Add];
    assert_eq!(deque.replay(&plan), Err(LogicError::MissingView { slot: 1 }));
    assert_eq!(deque.replay(&vec![ChangeType::Update]), Err(LogicError::MissingView { slot: 0 }));
    assert_eq!(deque.replay(&vec![ChangeType::Remove]), Err(LogicError::MissingView { slot: 0 }));
    assert_eq!(
        deque.replay(&vec![ChangeType::Recreate]),
        Err(LogicError::MissingView { slot: 0 })
    );
    assert_eq!(deque.views_len(), 0);
}

#[test]
fn failed_replay_changes_nothing_even_after_steps_that_could_be_taken() {
    let (mut deque, _screen) = filled(&["A", "B", "C"]);
    let keys: Vec<Option<IndexKey>> = (0..3).map(|slot| deque.view_key(slot)).collect();
    let plan = vec![
        ChangeType::Remove,
        ChangeType::Update,
        ChangeType::Unchanged,
        ChangeType::Remove,
    ];
    assert_eq!(deque.replay(&plan), Err(LogicError::MissingView { slot: 3 }));
    assert_eq!(deque.views_len(), 3);
    for slot in 0..3 {
        assert_eq!(deque.view_key(slot), keys[slot]);
    }
}

#[test]
fn compile_changes_gives_one_decision_per_slot_and_one_more() {
    let (mut deque, _screen) = filled(&["A", "B", "C"]);
    assert_eq!(deque.compile_changes(), Ok(vec![ChangeType::Unchanged; 4]));
    *deque.get_mut(0).unwrap() = "a".to_string();
    deque.push_back("D".to_string());
    *deque.get_mut(3).unwrap() = "d".to_string();
    assert_eq!(deque.pop_front(), Some("a".to_string()));
    assert_eq!(
        deque.compile_changes(),
        Ok(vec![
            ChangeType::Remove,
            ChangeType::Unchanged,
            ChangeType::Add,
            ChangeType::Unchanged,
        ])
    );
}

#[test]
fn views_follow_a_long_run_of_single_mutations() {
    let (mut deque, mut screen) = filled(&[]);
    let mut seed: usize = 99;
    for step in 0..300 {
        seed = seed.wrapping_mul(6364136223846793005).wrapping_add(1442695040888963407);
        let pick = (seed >> 33) % 7;
        let at = if deque.len() == 0 { 0 } else { (seed >> 17) % deque.len() };
        let name = format!("n{}", step);
        match pick {
            0 => deque.push_back(name),
            1 => deque.push_front(name),
            2 => assert_eq!(deque.insert(at, name), Ok(())),
            3 => {
                let _ = deque.pop_back();
            }
            4 => {
                let _ = deque.pop_front();
            }
            5 => {
                let _ = deque.remove(at);
            }
            _ => {
                if let Ok(element) = deque.get_mut(at) {
                    *element = name;
                }
            }
        }
        reconcile(&mut deque, &mut screen);
        assert_in_line(&deque, &screen);
    }
}
