use stacked_borrows::branches::Branches;
use stacked_borrows::monitor::DemonicState;
use stacked_borrows::reduction::explore;
use stacked_borrows::replay::Op;
use stacked_borrows::stack::PermissionStack;
use stacked_borrows::tracker::SState;
use stacked_borrows::{BorrowError, Place, PointerKind, StackItem, RAW_TAG, STACK_DEPTH};

const LOCAL: Place = Place { object: 3, offset: 0, size: 4 };
const OTHER: Place = Place { object: 7, offset: 2, size: 8 };

#[test]
fn stack_push_and_access() {
    let mut s = PermissionStack::new();
    assert_eq!(s.len(), 0);
    assert_eq!(s.push(StackItem::Unique(4)), Ok(()));
    assert_eq!(s.push(StackItem::SharedReadWrite), Ok(()));
    assert_eq!(s.push(StackItem::Unique(9)), Ok(()));
    assert_eq!(s.access(PointerKind::Anonymous, 0), Ok(()));
    assert_eq!(s.items(), &vec![StackItem::Unique(4), StackItem::SharedReadWrite]);
    assert_eq!(s.access(PointerKind::Identified, 9), Err(BorrowError::StackViolated));
    assert_eq!(s.items(), &vec![StackItem::Unique(4), StackItem::SharedReadWrite]);
    assert_eq!(s.access(PointerKind::Identified, 4), Ok(()));
    assert_eq!(s.items(), &vec![StackItem::Unique(4)]);
}

#[test]
fn stack_access_takes_topmost_shared() {
    let mut s = PermissionStack::new();
    s.push(StackItem::SharedReadWrite).unwrap();
    s.push(StackItem::Unique(1)).unwrap();
    s.push(StackItem::SharedReadWrite).unwrap();
    s.push(StackItem::Unique(2)).unwrap();
    assert_eq!(s.access(PointerKind::Anonymous, 77), Ok(()));
    assert_eq!(s.len(), 3);
}

#[test]
fn stack_bound() {
    let mut s = PermissionStack::new();
    for _ in 0..STACK_DEPTH {
        assert_eq!(s.push(StackItem::SharedReadWrite), Ok(()));
    }
    assert_eq!(s.push(StackItem::SharedReadWrite), Err(BorrowError::BoundExceeded));
    assert_eq!(s.len(), STACK_DEPTH);
}

#[test]
fn full_bound_on_one_location() {
    let mut st = SState::new();
    for i in 0..STACK_DEPTH {
        if i % 2 == 0 {
            assert!(st.push_unique(LOCAL).is_ok());
        } else {
            assert_eq!(st.push_shared(LOCAL), Ok(()));
        }
        assert_eq!(st.stack_len(LOCAL), i + 1);
    }
    assert_eq!(st.push_shared(LOCAL), Err(BorrowError::BoundExceeded));
    assert_eq!(st.push_unique(LOCAL), Err(BorrowError::BoundExceeded));
    assert_eq!(st.stack_len(LOCAL), STACK_DEPTH);
    // other locations have stacks of their own
    assert_eq!(st.push_shared(OTHER), Ok(()));
}

#[test]
fn demonic_bound_on_watched_location() {
    let mut d = DemonicState::new();
    for _ in 0..STACK_DEPTH {
        assert!(d.push_unique(LOCAL, true).is_ok());
    }
    assert_eq!(d.push_unique(LOCAL, true), Err(BorrowError::BoundExceeded));
    assert_eq!(d.push_shared(LOCAL, false), Err(BorrowError::BoundExceeded));
    assert_eq!(d.stack_items().len(), STACK_DEPTH);
    // an unwatched location is not bounded
    for _ in 0..(2 * STACK_DEPTH) {
        assert_eq!(d.push_shared(OTHER, false), Ok(()));
    }
}

#[test]
fn tags_are_never_reused() {
    let mut st = SState::new();
    let mut seen = Vec::new();
    let t0 = st.push_unique(LOCAL).unwrap();
    seen.push(t0);
    let t1 = st.new_mutable_ref(LOCAL, PointerKind::Identified, t0).unwrap();
    seen.push(t1);
    let t2 = st.push_unique(OTHER).unwrap();
    seen.push(t2);
    st.use_2(LOCAL, PointerKind::Identified, t0).unwrap();
    let t3 = st.new_mutable_ref(LOCAL, PointerKind::Identified, t0).unwrap();
    seen.push(t3);
    assert_eq!(seen, vec![0, 1, 2, 3]);
    assert_eq!(st.next_tag(), 4);

    let mut d = DemonicState::new();
    let a = d.push_unique(LOCAL, false).unwrap();
    let b = d.push_unique(OTHER, true).unwrap();
    let c = d.push_unique(LOCAL, false).unwrap();
    let e = d.push_unique(OTHER, false).unwrap();
    assert_eq!(vec![a, b, c, e], vec![0, 1, 2, 3]);
}

#[test]
fn fresh_tag_is_usable_at_once() {
    let mut st = SState::new();
    st.push_shared(LOCAL).unwrap();
    let t = st.push_unique(LOCAL).unwrap();
    let before = st.stack_items(LOCAL);
    assert_eq!(st.use_2(LOCAL, PointerKind::Identified, t), Ok(()));
    assert_eq!(st.stack_items(LOCAL), before);
    assert_eq!(st.stack_len(LOCAL), 2);

    let mut d = DemonicState::new();
    let t = d.push_unique(LOCAL, true).unwrap();
    assert_eq!(d.use_2(LOCAL, PointerKind::Identified, t), Ok(()));
    assert_eq!(d.stack_items(), &vec![StackItem::Unique(t)]);
}

#[test]
fn older_use_invalidates_newer() {
    let mut st = SState::new();
    let t1 = st.push_unique(LOCAL).unwrap();
    let t2 = st.push_unique(LOCAL).unwrap();
    assert_eq!(st.stack_items(LOCAL), vec![StackItem::Unique(t1), StackItem::Unique(t2)]);
    assert_eq!(st.use_2(LOCAL, PointerKind::Identified, t1), Ok(()));
    assert_eq!(st.stack_items(LOCAL), vec![StackItem::Unique(t1)]);
    assert_eq!(st.use_2(LOCAL, PointerKind::Identified, t2), Err(BorrowError::StackViolated));
}

#[test]
fn shared_reborrows_coexist() {
    let mut st = SState::new();
    let t = st.push_unique(LOCAL).unwrap();
    assert_eq!(st.new_mutable_raw(LOCAL, PointerKind::Identified, t), Ok(RAW_TAG));
    assert_eq!(st.push_shared(LOCAL), Ok(()));
    let before = st.stack_items(LOCAL);
    for _ in 0..5 {
        assert_eq!(st.use_2(LOCAL, PointerKind::Anonymous, RAW_TAG), Ok(()));
        assert_eq!(st.use_2(LOCAL, PointerKind::Anonymous, 12345), Ok(()));
    }
    assert_eq!(st.stack_items(LOCAL), before);
    assert_eq!(before, vec![StackItem::Unique(t), StackItem::SharedReadWrite, StackItem::SharedReadWrite]);
}

#[test]
fn default_checkers_start_empty() {
    let st = SState::default();
    assert_eq!(st.next_tag(), 0);
    assert_eq!(st.stack_len(LOCAL), 0);
    let d = DemonicState::default();
    assert_eq!(d.watched(), None);
    assert!(d.stack_items().is_empty());
}

#[test]
fn out_of_range_place() {
    let bad = Place { object: 1, offset: 4, size: 4 };
    let mut st = SState::new();
    assert_eq!(st.push_shared(bad), Err(BorrowError::OutOfRange));
    assert_eq!(st.push_unique(bad), Err(BorrowError::OutOfRange));
    assert_eq!(st.use_2(bad, PointerKind::Anonymous, 0), Err(BorrowError::OutOfRange));
    assert_eq!(st.next_tag(), 0);
    let mut d = DemonicState::new();
    assert_eq!(d.push_unique(bad, true), Err(BorrowError::OutOfRange));
    assert_eq!(d.watched(), None);
    assert_eq!(d.next_tag(), 0);
}

#[test]
fn use_of_unknown_location_is_a_violation() {
    let mut st = SState::new();
    assert_eq!(st.use_2(LOCAL, PointerKind::Anonymous, 0), Err(BorrowError::StackViolated));
    // the monitor does not check what it does not watch
    let mut d = DemonicState::new();
    assert_eq!(d.use_2(LOCAL, PointerKind::Anonymous, 0), Ok(()));
}

#[test]
fn monitor_moves_only_when_rearmed() {
    let mut d = DemonicState::new();
    assert_eq!(d.watched(), None);
    d.push_unique(LOCAL, false).unwrap();
    assert_eq!(d.watched(), None);
    let t = d.push_unique(LOCAL, true).unwrap();
    assert_eq!(d.watched(), Some((3, 0)));
    d.push_shared(LOCAL, true).unwrap();
    // re-arming on the watched location keeps its stack
    assert_eq!(d.stack_items(), &vec![StackItem::Unique(t), StackItem::SharedReadWrite]);
    d.push_shared(OTHER, false).unwrap();
    assert_eq!(d.watched(), Some((3, 0)));
    d.push_shared(OTHER, true).unwrap();
    assert_eq!(d.watched(), Some((7, 2)));
    assert_eq!(d.stack_items(), &vec![StackItem::SharedReadWrite]);
}

fn paper_ops(violating: bool) -> Vec<Op> {
    // local: tag 0; temporary reference: tag 1; raw pointer; x: tag 2; y: tag 3
    let mut ops = vec![
        Op::PushUnique(LOCAL),
        Op::NewMutableRef(LOCAL, PointerKind::Identified, 0),
        Op::NewMutableRaw(LOCAL, PointerKind::Identified, 1),
        Op::NewMutableRef(LOCAL, PointerKind::Anonymous, RAW_TAG),
    ];
    if violating {
        ops.push(Op::NewMutableRef(LOCAL, PointerKind::Anonymous, RAW_TAG));
        ops.push(Op::Use(LOCAL, PointerKind::Identified, 2));
        ops.push(Op::Use(LOCAL, PointerKind::Identified, 3));
    } else {
        ops.push(Op::Use(LOCAL, PointerKind::Identified, 2));
        ops.push(Op::NewMutableRef(LOCAL, PointerKind::Anonymous, RAW_TAG));
        ops.push(Op::Use(LOCAL, PointerKind::Identified, 3));
    }
    ops.push(Op::Use(LOCAL, PointerKind::Anonymous, RAW_TAG));
    ops
}

#[test]
fn replay_agrees_when_oracle_always_rearms() {
    let seqs = vec![
        paper_ops(false),
        paper_ops(true),
        vec![Op::PushShared(LOCAL); STACK_DEPTH + 1],
        vec![
            Op::PushUnique(LOCAL),
            Op::PushUnique(LOCAL),
            Op::Use(LOCAL, PointerKind::Identified, 0),
            Op::Use(LOCAL, PointerKind::Identified, 1),
        ],
        vec![Op::PushShared(LOCAL), Op::Use(LOCAL, PointerKind::Identified, 0)],
    ];
    for ops in seqs {
        let arms = vec![true; ops.len()];
        let full = SState::new().replay(&ops);
        let demonic = DemonicState::new().replay(&ops, &arms);
        assert_eq!(full, demonic);
    }
    assert_eq!(
        SState::new().replay(&vec![Op::PushShared(LOCAL); STACK_DEPTH + 1]),
        Err(BorrowError::BoundExceeded)
    );
}

#[test]
fn paper_scenario_without_violation() {
    let mut st = SState::new();
    let local = std::cell::Cell::new(5);
    let t0 = st.push_unique(LOCAL).unwrap();
    let temp = st.new_mutable_ref(LOCAL, PointerKind::Identified, t0).unwrap();
    let raw = st.new_mutable_raw(LOCAL, PointerKind::Identified, temp).unwrap();
    assert_eq!(raw, RAW_TAG);
    let t1 = st.new_mutable_ref(LOCAL, PointerKind::Anonymous, raw).unwrap();
    st.use_2(LOCAL, PointerKind::Identified, t1).unwrap();
    local.set(42);
    let t2 = st.new_mutable_ref(LOCAL, PointerKind::Anonymous, raw).unwrap();
    st.use_2(LOCAL, PointerKind::Identified, t2).unwrap();
    local.set(13);
    assert_eq!(st.use_2(LOCAL, PointerKind::Anonymous, raw), Ok(()));
    assert_eq!(local.get(), 13);
    assert_eq!((t0, temp, t1, t2), (0, 1, 2, 3));
    assert_eq!(SState::new().replay(&paper_ops(false)), Ok(vec![0, 1, 2, 3]));
    assert_eq!(explore(&paper_ops(false)), Ok(vec![0, 1, 2, 3]));
}

#[test]
fn paper_scenario_interleaved_writes_violate() {
    // both reborrows made first, then written through in turn
    let mut st = SState::new();
    let t0 = st.push_unique(LOCAL).unwrap();
    let temp = st.new_mutable_ref(LOCAL, PointerKind::Identified, t0).unwrap();
    let raw = st.new_mutable_raw(LOCAL, PointerKind::Identified, temp).unwrap();
    let t1 = st.new_mutable_ref(LOCAL, PointerKind::Anonymous, raw).unwrap();
    let t2 = st.new_mutable_ref(LOCAL, PointerKind::Anonymous, raw).unwrap();
    assert_ne!(t1, t2);
    assert_eq!(st.use_2(LOCAL, PointerKind::Identified, t1), Err(BorrowError::StackViolated));
    assert_eq!(SState::new().replay(&paper_ops(true)), Err(BorrowError::StackViolated));
}

#[test]
fn derived_references_invalidate_each_other() {
    let mut st = SState::new();
    let t1 = st.push_unique(LOCAL).unwrap();
    let t2 = st.new_mutable_ref(LOCAL, PointerKind::Identified, t1).unwrap();
    assert_eq!(st.use_2(LOCAL, PointerKind::Identified, t2), Ok(()));
    // a sibling derived from t1 pops t2
    st.new_mutable_ref(LOCAL, PointerKind::Identified, t1).unwrap();
    assert_eq!(st.use_2(LOCAL, PointerKind::Identified, t2), Err(BorrowError::StackViolated));
    // with t2 derived from t1, using t1 pops t2
    let mut st = SState::new();
    let t1 = st.push_unique(LOCAL).unwrap();
    let t2 = st.new_mutable_ref(LOCAL, PointerKind::Identified, t1).unwrap();
    assert_eq!(st.use_2(LOCAL, PointerKind::Identified, t1), Ok(()));
    assert_eq!(st.use_2(LOCAL, PointerKind::Identified, t2), Err(BorrowError::StackViolated));
}

#[test]
fn violation_found_by_exhaustive_search() {
    let ops = vec![
        Op::PushUnique(OTHER),
        Op::PushUnique(LOCAL),
        Op::NewMutableRef(LOCAL, PointerKind::Identified, 1),
        Op::PushShared(OTHER),
        Op::Use(LOCAL, PointerKind::Identified, 1),
        Op::Use(LOCAL, PointerKind::Identified, 2),
    ];
    assert_eq!(SState::new().replay(&ops), Err(BorrowError::StackViolated));
    assert_eq!(explore(&ops), Err(BorrowError::StackViolated));

    let mut oracle = Branches::new();
    let mut runs = 0;
    let mut failing = 0;
    loop {
        let mut d = DemonicState::new();
        let mut outcome = Ok(None);
        for op in &ops {
            let rearm = match op {
                Op::PushShared(_) | Op::PushUnique(_) | Op::NewMutableRef(..) | Op::NewMutableRaw(..) => {
                    oracle.next_bool()
                }
                Op::Use(..) => false,
            };
            outcome = d.apply(*op, rearm);
            if outcome.is_err() {
                break;
            }
        }
        runs += 1;
        if outcome == Err(BorrowError::StackViolated) {
            failing += 1;
        }
        if !oracle.next_run() {
            break;
        }
    }
    // four oracle calls: every branch was taken once
    assert_eq!(runs, 16);
    assert!(failing > 0);
    assert!(failing < runs);
}

#[test]
fn branches_enumerate_depth_first() {
    let mut b = Branches::new();
    let mut seen = Vec::new();
    loop {
        let x = b.next_bool();
        let y = b.next_bool();
        seen.push((x, y));
        if !b.next_run() {
            break;
        }
    }
    assert_eq!(seen, vec![(false, false), (false, true), (true, false), (true, true)]);
    assert!(b.path().is_empty());
}

#[test]
fn branches_replay_recorded_answers() {
    let mut b = Branches::new();
    assert!(!b.next_bool());
    assert!(!b.next_bool());
    assert!(!b.next_bool());
    assert_eq!(b.path(), &vec![false, false, false]);
    assert!(b.next_run());
    assert_eq!(b.path(), &vec![false, false, true]);
    assert!(!b.next_bool());
    assert!(!b.next_bool());
    assert!(b.next_bool());
    assert!(b.next_run());
    assert_eq!(b.path(), &vec![false, true]);
}

#[test]
fn explore_accepts_what_full_tracking_accepts() {
    let ops = vec![
        Op::PushUnique(LOCAL),
        Op::PushShared(OTHER),
        Op::NewMutableRaw(LOCAL, PointerKind::Identified, 0),
        Op::Use(OTHER, PointerKind::Anonymous, RAW_TAG),
        Op::NewMutableRef(LOCAL, PointerKind::Anonymous, RAW_TAG),
        Op::Use(LOCAL, PointerKind::Identified, 1),
    ];
    assert_eq!(SState::new().replay(&ops), Ok(vec![0, 1]));
    assert_eq!(explore(&ops), Ok(vec![0, 1]));
    assert_eq!(explore(&vec![]), Ok(vec![]));
}

#[test]
fn use_before_any_push_escapes_the_monitor() {
    // no permission was ever created at LOCAL: full tracking rejects, while
    // no branch of the monitor watches a location before its first push
    let ops = vec![Op::PushUnique(OTHER), Op::Use(LOCAL, PointerKind::Identified, 0)];
    assert_eq!(SState::new().replay(&ops), Err(BorrowError::StackViolated));
    assert_eq!(explore(&ops), Ok(vec![0]));
}
