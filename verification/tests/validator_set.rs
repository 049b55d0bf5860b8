use mesh_security::crdt::{CrdtState, ValState, ValUpdate};

fn update(key: &str, height: u64) -> ValUpdate {
    ValUpdate {
        pub_key: key.to_owned(),
        start_height: height,
        start_time: height * 10,
    }
}

#[derive(Clone)]
enum Op {
    Add(&'static str, &'static str, u64),
    Remove(&'static str),
}

fn run(ops: &[Op]) -> CrdtState {
    let mut set = CrdtState::new();
    for op in ops {
        match op {
            Op::Add(valoper, key, height) => set.add_validator(valoper, update(key, *height)),
            Op::Remove(valoper) => set.remove_validator(valoper),
        }
    }
    set
}

fn snapshot(set: &CrdtState, valopers: &[&str]) -> Vec<Option<ValState>> {
    valopers.iter().map(|v| set.validator(v).cloned()).collect()
}

#[test]
fn new_set_knows_nobody() {
    let set = CrdtState::new();
    assert_eq!(set.validator("alice"), None);
    assert!(!set.is_active_validator("alice"));
}

#[test]
fn add_makes_active() {
    let mut set = CrdtState::new();
    set.add_validator("alice", update("key-a", 5));
    assert_eq!(set.validator("alice"), Some(&ValState::Active(update("key-a", 5))));
    assert!(set.is_active_validator("alice"));
    assert!(!set.is_active_validator("bob"));
}

#[test]
fn first_addition_wins() {
    let mut set = CrdtState::new();
    set.add_validator("alice", update("key-a", 5));
    set.add_validator("alice", update("key-other", 9));
    assert_eq!(set.validator("alice"), Some(&ValState::Active(update("key-a", 5))));
}

#[test]
fn remove_leaves_a_tombstone_for_good() {
    let mut set = CrdtState::new();
    set.add_validator("alice", update("key-a", 5));
    set.remove_validator("alice");
    assert_eq!(set.validator("alice"), Some(&ValState::Tombstoned));
    assert!(!set.is_active_validator("alice"));
    // Neither a removal nor an addition brings it back.
    set.remove_validator("alice");
    set.add_validator("alice", update("key-a", 5));
    assert_eq!(set.validator("alice"), Some(&ValState::Tombstoned));
}

#[test]
fn remove_of_unknown_validator_is_absorbed() {
    let mut set = CrdtState::new();
    set.remove_validator("alice");
    assert_eq!(set.validator("alice"), None);
    // The set has not heard of it, so a later addition counts.
    set.add_validator("alice", update("key-a", 5));
    assert!(set.is_active_validator("alice"));
}

#[test]
fn updates_apply_twice_as_once() {
    let once = run(&[Op::Add("alice", "key-a", 1), Op::Remove("bob"), Op::Add("bob", "key-b", 2)]);
    let twice = run(&[
        Op::Add("alice", "key-a", 1),
        Op::Add("alice", "key-a", 1),
        Op::Remove("bob"),
        Op::Remove("bob"),
        Op::Add("bob", "key-b", 2),
        Op::Add("bob", "key-b", 2),
    ]);
    let names = ["alice", "bob", "carol"];
    assert_eq!(snapshot(&once, &names), snapshot(&twice, &names));

    let mut set = run(&[Op::Add("alice", "key-a", 1)]);
    set.remove_validator("alice");
    let after_one = snapshot(&set, &names);
    set.remove_validator("alice");
    assert_eq!(snapshot(&set, &names), after_one);
}

#[test]
fn every_order_of_compatible_updates_converges() {
    // Updates on different validators, a repeated addition, and removals of
    // a validator that nobody adds.
    let ops = [
        Op::Add("alice", "key-a", 1),
        Op::Add("bob", "key-b", 2),
        Op::Add("alice", "key-a", 1),
        Op::Remove("carol"),
    ];
    let names = ["alice", "bob", "carol", "dave"];
    let expected = vec![
        Some(ValState::Active(update("key-a", 1))),
        Some(ValState::Active(update("key-b", 2))),
        None,
        None,
    ];
    let mut order = [0usize, 1, 2, 3];
    let mut seen = 0;
    // Heap's algorithm over the 24 orders.
    let mut c = [0usize; 4];
    let check = |order: &[usize; 4]| {
        let seq: Vec<Op> = order.iter().map(|i| ops[*i].clone()).collect();
        assert_eq!(snapshot(&run(&seq), &names), expected);
    };
    check(&order);
    seen += 1;
    let mut i = 0;
    while i < 4 {
        if c[i] < i {
            if i % 2 == 0 {
                order.swap(0, i);
            } else {
                order.swap(c[i], i);
            }
            check(&order);
            seen += 1;
            c[i] += 1;
            i = 0;
        } else {
            c[i] = 0;
            i += 1;
        }
    }
    assert_eq!(seen, 24);
}

#[test]
fn addition_and_removal_of_a_new_validator_depend_on_order() {
    let names = ["alice"];
    let add_first = run(&[Op::Add("alice", "key-a", 1), Op::Remove("alice")]);
    let remove_first = run(&[Op::Remove("alice"), Op::Add("alice", "key-a", 1)]);
    assert_eq!(snapshot(&add_first, &names), vec![Some(ValState::Tombstoned)]);
    assert_eq!(
        snapshot(&remove_first, &names),
        vec![Some(ValState::Active(update("key-a", 1)))]
    );
}

#[test]
fn many_validators_keep_their_own_state() {
    let mut set = CrdtState::new();
    let names: Vec<String> = (0..50).map(|i| format!("val{:02}", (i * 37) % 50)).collect();
    for (i, name) in names.iter().enumerate() {
        set.add_validator(name, update(name, i as u64));
    }
    for name in names.iter().step_by(3) {
        set.remove_validator(name);
    }
    for (i, name) in names.iter().enumerate() {
        if i % 3 == 0 {
            assert_eq!(set.validator(name), Some(&ValState::Tombstoned));
        } else {
            assert_eq!(set.validator(name), Some(&ValState::Active(update(name, i as u64))));
        }
    }
}

#[test]
fn restore_puts_a_state_back() {
    let mut set = CrdtState::new();
    set.restore("alice", ValState::Tombstoned);
    set.restore("bob", ValState::Active(update("key-b", 2)));
    assert_eq!(set.validator("alice"), Some(&ValState::Tombstoned));
    assert_eq!(set.validator("bob"), Some(&ValState::Active(update("key-b", 2))));
    // Updates go on from what was put back.
    set.add_validator("alice", update("key-a", 1));
    set.remove_validator("bob");
    assert_eq!(set.validator("alice"), Some(&ValState::Tombstoned));
    assert_eq!(set.validator("bob"), Some(&ValState::Tombstoned));
    set.restore("bob", ValState::Active(update("key-b", 3)));
    assert_eq!(set.validator("bob"), Some(&ValState::Active(update("key-b", 3))));
}
