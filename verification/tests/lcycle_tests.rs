use puremagic::circuit::{lines_loadable, Circuit};
use puremagic::lcycle::LcycleState;

fn load(lines: &[&str]) -> Circuit {
    let lines: Vec<String> = lines.iter().map(|s| s.to_string()).collect();
    let mut c = Circuit::new(&"test.trans".to_string());
    assert!(lines_loadable(&lines));
    c.load_circuit(&lines).unwrap();
    c
}

/// Runs the lcycle loop, routing every ready product at once, with the T
/// injection outcomes taken in turn from `outcomes`.
fn run(c: &Circuit, outcomes: &[bool]) -> LcycleState {
    let mut st = LcycleState::new(c);
    let mut next = 0usize;
    let mut guard = 0;
    while !st.is_finished() {
        guard += 1;
        assert!(guard < 100, "lcycle loop does not end");
        let mut pp = st.begin_lcycle();
        for &id in &st.to_schedule {
            pp.push(id);
        }
        let mut ok = Vec::new();
        for _ in 0..pp.len() {
            ok.push(outcomes[next % outcomes.len()]);
            next += 1;
        }
        st.complete_lcycle(c, &pp, &ok);
    }
    st
}

fn appearances(st: &LcycleState, id: usize) -> usize {
    st.lcycle_scheduled.iter().map(|(_, ids)| ids.iter().filter(|&&x| x == id).count()).sum()
}

#[test]
fn new_readies_products_without_parents() {
    let c = load(&["+X_<T>", "+_X<T>", "+XX<CX>"]);
    let st = LcycleState::new(&c);
    assert_eq!(st.to_schedule, vec![0, 1]);
    assert_eq!(st.remaining_parents, vec![0, 0, 2]);
    assert_eq!(st.t_products_remaining, 2);
    assert_eq!(st.t_gate_failures, 0);
    assert_eq!(st.current_lcycle, 0);
    assert!(!st.is_finished());
}

#[test]
fn begin_lcycle_counts_up_and_carries_nothing_at_first() {
    let c = load(&["+X_<T>"]);
    let mut st = LcycleState::new(&c);
    let carried = st.begin_lcycle();
    assert!(carried.is_empty());
    assert_eq!(st.current_lcycle, 1);
}

#[test]
fn independent_t_products_each_recorded_once() {
    let c = load(&["+X___<T>", "-_X__<T>", "+__X_<T>", "-___X<T>"]);
    let st = run(&c, &[true, false]);
    assert_eq!(st.t_gate_failures, 2);
    assert_eq!(st.lcycle_scheduled.len(), 2);
    assert_eq!(st.lcycle_scheduled[0], (1, vec![0, 2]));
    assert_eq!(st.lcycle_scheduled[1], (2, vec![1, 3]));
    for id in 0..4 {
        assert_eq!(appearances(&st, id), 1);
    }
    let total: usize = st.lcycle_scheduled.iter().map(|(_, ids)| ids.len()).sum();
    assert_eq!(total, 4);
    assert!(st.failed_t_paths.is_empty());
    assert!(st.lcycle_scheduled.len() <= 4 + st.t_gate_failures);
    assert_eq!(st.t_products_remaining, 0);
}

#[test]
fn failed_t_product_retries_once_and_succeeds() {
    let c = load(&["+X<T>"]);
    let mut st = LcycleState::new(&c);
    let pp = st.begin_lcycle();
    assert!(pp.is_empty());
    let pp = vec![0];
    st.complete_lcycle(&c, &pp, &vec![false]);
    assert_eq!(st.failed_t_paths, vec![0]);
    assert_eq!(st.t_gate_failures, 1);
    assert_eq!(st.lcycle_scheduled[0], (1, vec![]));
    assert!(st.scheduled_products.is_empty());
    let carried = st.begin_lcycle();
    assert_eq!(carried, vec![0]);
    // a retry succeeds whatever the coin says
    st.complete_lcycle(&c, &carried, &vec![false]);
    assert!(st.failed_t_paths.is_empty());
    assert_eq!(st.t_gate_failures, 1);
    assert_eq!(st.scheduled_products, vec![0]);
    assert_eq!(st.lcycle_scheduled[1], (2, vec![0]));
    assert!(st.is_finished());
}

#[test]
fn cx_runs_two_lcycles_before_its_child_is_ready() {
    let c = load(&["+XX<CX>", "+X_<T>"]);
    let st = run(&c, &[true]);
    assert_eq!(st.lcycle_scheduled, vec![(1, vec![0]), (2, vec![0]), (3, vec![1])]);
    assert_eq!(st.scheduled_products, vec![0, 1]);
    assert_eq!(st.remaining_parents, vec![0, 0]);
}

#[test]
fn s_gate_runs_three_lcycles_before_its_child_is_ready() {
    let c = load(&["+X<S>", "+X<T>"]);
    let mut st = LcycleState::new(&c);
    assert_eq!(st.to_schedule, vec![0]);
    let mut pp = st.begin_lcycle();
    pp.push(0);
    st.complete_lcycle(&c, &pp, &vec![true]);
    assert_eq!(st.clifford_paths, vec![(0, 2)]);
    assert!(st.to_schedule.is_empty());
    let pp = st.begin_lcycle();
    assert_eq!(pp, vec![0]);
    st.complete_lcycle(&c, &pp, &vec![true]);
    assert_eq!(st.clifford_paths, vec![(0, 1)]);
    assert!(st.to_schedule.is_empty());
    let pp = st.begin_lcycle();
    st.complete_lcycle(&c, &pp, &vec![true]);
    assert!(st.clifford_paths.is_empty());
    assert_eq!(st.to_schedule, vec![1]);
    let mut pp = st.begin_lcycle();
    pp.push(1);
    st.complete_lcycle(&c, &pp, &vec![true]);
    assert!(st.is_finished());
    assert_eq!(st.current_lcycle, 4);
    assert_eq!(st.scheduled_products, vec![0, 1]);
}

#[test]
fn unrouted_ready_product_stays_ready() {
    let c = load(&["+X_<T>", "+_X<T>"]);
    let mut st = LcycleState::new(&c);
    let mut pp = st.begin_lcycle();
    pp.push(1);
    st.complete_lcycle(&c, &pp, &vec![true]);
    assert_eq!(st.to_schedule, vec![0]);
    assert_eq!(st.scheduled_products, vec![1]);
    assert_eq!(st.t_products_remaining, 1);
}

#[test]
fn every_product_is_scheduled_when_the_loop_ends() {
    let c = load(&["+XX_<CX>", "+X__<T>", "+_X_<S>", "+__X<T>", "+XXX<T>", "+X__<M>"]);
    let st = run(&c, &[false, true, true]);
    let mut ids = st.scheduled_products.clone();
    ids.sort();
    assert_eq!(ids, vec![0, 1, 2, 3, 4, 5]);
    assert!(st.t_gate_failures <= 3);
    // products other than Cliffords run without failing exactly once
    for id in [1usize, 3, 4, 5] {
        assert_eq!(appearances(&st, id), 1);
    }
    assert_eq!(appearances(&st, 0), 2);
    assert_eq!(appearances(&st, 2), 3);
}

#[test]
fn schedule_totals_report_lcycles_and_runs() {
    let c = load(&["+X_<T>", "+_X<T>", "+XX<CX>"]);
    let st = LcycleState::new(&c);
    assert_eq!(st.schedule_totals(&c), None);
    let st = run(&c, &[true, false, true]);
    let (lcycles, runs) = st.schedule_totals(&c).unwrap();
    assert_eq!(lcycles, st.current_lcycle);
    assert_eq!(runs, 3 + st.t_gate_failures);
    assert_eq!(appearances(&st, 2), 2);
}
