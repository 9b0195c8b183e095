use puremagic::qasm_gates::{push_gate, push_toffoli, GateError, HALF_PI_BITS, NEG_HALF_PI_BITS};
use puremagic::qgate::{Circuit, Gate};

#[test]
fn toffoli_gate_name_alias_is_accepted() {
    let mut c = Circuit::new(3);
    push_gate(&mut c, "toffoli", &vec![], &vec![0, 1, 2], 0).unwrap();
    assert_eq!(c.ops.len(), 15);
}

#[test]
fn fredkin_gate_name_alias_is_accepted() {
    let mut c = Circuit::new(3);
    push_gate(&mut c, "fredkin", &vec![], &vec![0, 1, 2], 0).unwrap();
    assert_eq!(c.ops.len(), 17);
}

#[test]
fn toffoli_uses_seven_t_gates() {
    let mut c = Circuit::new(3);
    push_toffoli(&mut c, 0, 1, 2);
    let t = c.ops.iter().filter(|o| matches!(o.gate, Gate::T | Gate::Tdg)).count();
    assert_eq!(t, 7);
    assert_eq!(c.ops[0].qubits, vec![2]);
    assert_eq!(c.ops[14].qubits, vec![0, 1]);
}

#[test]
fn rx_is_u3_with_quarter_turn_phases() {
    let mut c = Circuit::new(1);
    let theta = 0.3f64.to_bits();
    push_gate(&mut c, "rx", &vec![theta], &vec![0], 0).unwrap();
    assert!(matches!(c.ops[0].gate, Gate::U3(a, b, d) if a == theta && b == NEG_HALF_PI_BITS && d == HALF_PI_BITS));
    assert_eq!(f64::from_bits(HALF_PI_BITS), std::f64::consts::FRAC_PI_2);
    assert_eq!(f64::from_bits(NEG_HALF_PI_BITS), -std::f64::consts::FRAC_PI_2);
}

#[test]
fn crz_uses_the_half_angle_both_ways() {
    let mut c = Circuit::new(2);
    let lambda = 0.5f64;
    push_gate(&mut c, "crz", &vec![lambda.to_bits()], &vec![0, 1], (lambda / 2.0).to_bits()).unwrap();
    assert_eq!(c.ops.len(), 4);
    assert!(matches!(c.ops[0].gate, Gate::Rz(h) if f64::from_bits(h) == 0.25));
    assert!(matches!(c.ops[2].gate, Gate::Rz(h) if f64::from_bits(h) == -0.25));
    assert_eq!(c.ops[1].qubits, vec![0, 1]);
}

#[test]
fn errors_leave_the_circuit_alone() {
    let mut c = Circuit::new(2);
    assert_eq!(push_gate(&mut c, "u3", &vec![1, 2], &vec![0], 0), Err(GateError::Parameters { needed: 3, got: 2 }));
    assert_eq!(push_gate(&mut c, "cx", &vec![], &vec![0], 0), Err(GateError::Qubits { needed: 2 }));
    assert_eq!(push_gate(&mut c, "ccx", &vec![], &vec![0, 1], 0), Err(GateError::Qubits { needed: 3 }));
    assert_eq!(push_gate(&mut c, "foo", &vec![], &vec![0], 0), Err(GateError::Unsupported));
    assert_eq!(push_gate(&mut c, "rz", &vec![], &vec![0], 0), Err(GateError::Parameters { needed: 1, got: 0 }));
    assert!(c.ops.is_empty());
}
