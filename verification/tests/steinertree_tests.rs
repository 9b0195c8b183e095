use puremagic::pauliproduct::GateType;
use puremagic::steinertree::{is_cultivator_candidate, SteinerTreeComputation};

#[test]
fn steinertree_new_initialises_with_zero_calls() {
    let stree = SteinerTreeComputation::new(10);
    assert_eq!(stree.num_calls, 0);
}

#[test]
fn steinertree_clear_keeps_call_count() {
    let mut stree = SteinerTreeComputation::new(5);
    stree.clear();
    assert_eq!(stree.num_calls, 0);
}

#[test]
fn cultivator_candidate_needs_t_gate_no_cultivator_and_ready_state() {
    assert!(is_cultivator_candidate(GateType::T, None, 0));
    assert!(!is_cultivator_candidate(GateType::CX, None, 0));
    assert!(!is_cultivator_candidate(GateType::T, Some(3), 0));
    assert!(!is_cultivator_candidate(GateType::T, None, 2));
}
