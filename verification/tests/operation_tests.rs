use puremagic::operation::{operation_would_panic, products_from_operation, OperationError};
use puremagic::transpile::{Angle, PauliTerm};

fn term(basis: char, phase: i32, qubit: i32) -> PauliTerm {
    PauliTerm { basis, phase, qubit }
}

fn angle(numerator: i32, denominator: i32, is_clifford: bool) -> Angle {
    Angle { numerator, denominator, is_clifford }
}

#[test]
fn hadamard_is_three_quarter_turns() {
    let ps = products_from_operation("HGate([])@(0,)", None).ok().unwrap();
    assert_eq!(ps.len(), 3);
    assert_eq!(ps[0].terms, vec![term('Z', 0, 0)]);
    assert_eq!(ps[1].terms, vec![term('X', 0, 0)]);
    assert_eq!(ps[2].terms, vec![term('Z', 0, 0)]);
    for p in &ps {
        assert_eq!(p.angle, angle(1, 4, true));
    }
}

#[test]
fn cnot_orders_terms_by_qubit() {
    let ps = products_from_operation("CNOTGate([])@(1, 0)", None).ok().unwrap();
    assert_eq!(ps.len(), 3);
    assert_eq!(ps[0].terms, vec![term('X', 0, 0), term('Z', 0, 1)]);
    assert_eq!(ps[1].terms, vec![term('Z', 0, 1)]);
    assert_eq!(ps[1].angle, angle(7, 4, true));
    assert_eq!(ps[2].terms, vec![term('X', 0, 0)]);
}

#[test]
fn sdg_has_negative_phase_and_dagger_angle() {
    let ps = products_from_operation("SdgGate([])@(2,)", None).ok().unwrap();
    assert_eq!(ps.len(), 1);
    assert_eq!(ps[0].terms, vec![term('Z', -1, 2)]);
    assert_eq!(ps[0].angle, angle(7, 4, true));
    let ps = products_from_operation("SGate([])@(2,)", None).ok().unwrap();
    assert_eq!(ps[0].terms, vec![term('Z', 1, 2)]);
    assert_eq!(ps[0].angle, angle(1, 4, true));
}

#[test]
fn t_gate_is_not_clifford() {
    let ps = products_from_operation("TGate([])@(3,)", None).ok().unwrap();
    assert_eq!(ps[0].angle, angle(1, 8, false));
    assert!(!ps[0].is_clifford());
    let ps = products_from_operation("TdgGate([])@(3,)", None).ok().unwrap();
    assert_eq!(ps[0].angle, angle(15, 8, false));
}

#[test]
fn rotation_uses_given_angle() {
    let ps = products_from_operation("RYGate([0.5])@(4,)", Some(angle(1, 6, false))).ok().unwrap();
    assert_eq!(ps[0].terms, vec![term('Y', 0, 4)]);
    assert_eq!(ps[0].angle, angle(1, 6, false));
}

#[test]
fn barrier_gives_nothing() {
    let ps = products_from_operation("barGate([])@(0, 1)", None).ok().unwrap();
    assert!(ps.is_empty());
}

#[test]
fn bad_location_entry_is_reported() {
    match products_from_operation("XGate([])@( a ,)", None) {
        Err(OperationError::LocationNumber(p)) => assert_eq!(p, vec!['a']),
        _ => panic!("expected a location error"),
    }
}

#[test]
fn empty_location_is_missing_qubit() {
    assert!(matches!(products_from_operation("XGate([])@()", None), Err(OperationError::MissingFirstLocation)));
}

#[test]
fn unknown_gates_and_missing_angles_panic() {
    assert!(operation_would_panic("FooGate([])@(0,)", &None));
    assert!(operation_would_panic("RZGate([1.0])@(0,)", &None));
    assert!(operation_would_panic("XGate", &None));
    assert!(!operation_would_panic("RZGate([1.0])@(0,)", &Some(angle(1, 2, true))));
    assert!(!operation_would_panic("FooGate([])@(x,)", &None));
}
