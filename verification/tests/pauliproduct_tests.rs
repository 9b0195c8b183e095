use puremagic::pauliproduct::{line_fits, line_parses, GateType, Operator, PauliProduct, ProductParseError};

#[test]
fn gate_type_is_t() {
    assert!(GateType::T.is_t());
    assert!(!GateType::S.is_t());
    assert!(!GateType::SX.is_t());
    assert!(!GateType::CX.is_t());
    assert!(!GateType::M.is_t());
    assert!(!GateType::Z.is_t());
    assert!(!GateType::X.is_t());
}

#[test]
fn gate_type_is_s() {
    assert!(GateType::S.is_s());
    assert!(!GateType::T.is_s());
    assert!(!GateType::SX.is_s());
}

#[test]
fn gate_type_is_sx() {
    assert!(GateType::SX.is_sx());
    assert!(!GateType::S.is_sx());
    assert!(!GateType::T.is_sx());
}

#[test]
fn gate_type_is_cx() {
    assert!(GateType::CX.is_cx());
    assert!(!GateType::T.is_cx());
    assert!(!GateType::S.is_cx());
}

#[test]
fn gate_type_is_m() {
    assert!(GateType::M.is_m());
    assert!(!GateType::T.is_m());
}

#[test]
fn gate_type_is_x() {
    assert!(GateType::X.is_x());
    assert!(!GateType::T.is_x());
    assert!(!GateType::Z.is_x());
}

#[test]
fn gate_type_is_z() {
    assert!(GateType::Z.is_z());
    assert!(!GateType::T.is_z());
    assert!(!GateType::X.is_z());
}

#[test]
fn gate_type_is_clifford() {
    assert!(GateType::CX.is_clifford());
    assert!(GateType::S.is_clifford());
    assert!(GateType::SX.is_clifford());
    assert!(!GateType::T.is_clifford());
    assert!(!GateType::M.is_clifford());
    assert!(!GateType::Z.is_clifford());
    assert!(!GateType::X.is_clifford());
}

#[test]
fn gate_type_display() {
    assert_eq!(GateType::T.to_display_string(), "T");
    assert_eq!(GateType::S.to_display_string(), "S");
    assert_eq!(GateType::CX.to_display_string(), "CX");
    assert_eq!(GateType::M.to_display_string(), "M");
}

#[test]
fn gate_type_display_remaining_names() {
    assert_eq!(GateType::SX.to_display_string(), "SX");
    assert_eq!(GateType::Z.to_display_string(), "Z");
    assert_eq!(GateType::X.to_display_string(), "X");
}

#[test]
fn operator_display() {
    let op = Operator { qubit: 3, basis: 'X' };
    assert_eq!(op.to_display_string(), "3X");
}

#[test]
fn operator_display_z_basis() {
    let op = Operator { qubit: 0, basis: 'Z' };
    assert_eq!(op.to_display_string(), "0Z");
}

#[test]
fn operator_display_multi_digit_qubit() {
    let op = Operator { qubit: 1205, basis: 'Y' };
    assert_eq!(op.to_display_string(), "1205Y");
}

#[test]
fn pauli_product_new_defaults() {
    let pp = PauliProduct::new();
    assert_eq!(pp.id, -1);
    assert!(pp.operators.is_empty());
    assert!(pp.parents.is_empty());
    assert!(pp.children.is_empty());
    assert_eq!(pp.max_qubit, 0);
    assert!(pp.gate_type.is_t());
}

#[test]
fn set_from_str_t_gate_single_x() {
    let mut pp = PauliProduct::new();
    pp.set_from_str(0, "+_X______<T>").unwrap();
    assert_eq!(pp.id, 0);
    assert!(pp.gate_type.is_t());
    assert_eq!(pp.operators.len(), 1);
    assert_eq!(pp.operators[0].qubit, 1);
    assert_eq!(pp.operators[0].basis, 'X');
    assert_eq!(pp.max_qubit, 1);
}

#[test]
fn set_from_str_t_gate_multi_operator() {
    let mut pp = PauliProduct::new();
    pp.set_from_str(1, "-ZY______<T>").unwrap();
    assert_eq!(pp.id, 1);
    assert!(pp.gate_type.is_t());
    assert_eq!(pp.operators.len(), 2);
    assert_eq!(pp.operators[0].qubit, 0);
    assert_eq!(pp.operators[0].basis, 'Z');
    assert_eq!(pp.operators[1].qubit, 1);
    assert_eq!(pp.operators[1].basis, 'Y');
    assert_eq!(pp.max_qubit, 1);
}

#[test]
fn set_from_str_m_gate() {
    let mut pp = PauliProduct::new();
    pp.set_from_str(2, "+X_<M>").unwrap();
    assert!(pp.gate_type.is_m());
    assert_eq!(pp.operators.len(), 1);
    assert_eq!(pp.operators[0].qubit, 0);
}

#[test]
fn set_from_str_s_gate() {
    let mut pp = PauliProduct::new();
    pp.set_from_str(3, "+_Z<S>").unwrap();
    assert!(pp.gate_type.is_s());
    assert_eq!(pp.operators.len(), 1);
}

#[test]
fn set_from_str_sdg_gate() {
    let mut pp = PauliProduct::new();
    pp.set_from_str(4, "+_Z<Sdg>").unwrap();
    assert!(pp.gate_type.is_s(), "Sdg should map to S gate type");
}

#[test]
fn set_from_str_sx_gate() {
    let mut pp = PauliProduct::new();
    pp.set_from_str(5, "+X_<SX>").unwrap();
    assert!(pp.gate_type.is_sx());
}

#[test]
fn set_from_str_sxdg_gate() {
    let mut pp = PauliProduct::new();
    pp.set_from_str(6, "+X_<SXdg>").unwrap();
    assert!(pp.gate_type.is_sx(), "SXdg should map to SX gate type");
}

#[test]
fn set_from_str_cx_gate() {
    let mut pp = PauliProduct::new();
    pp.set_from_str(7, "+XZ<CX>").unwrap();
    assert!(pp.gate_type.is_cx());
    assert_eq!(pp.operators.len(), 2);
}

#[test]
fn set_from_str_z_gate() {
    let mut pp = PauliProduct::new();
    pp.set_from_str(8, "+Z_<Z>").unwrap();
    assert!(pp.gate_type.is_z());
}

#[test]
fn set_from_str_x_gate() {
    let mut pp = PauliProduct::new();
    pp.set_from_str(9, "+X_<X>").unwrap();
    assert!(pp.gate_type.is_x());
}

#[test]
fn set_from_str_unknown_gate_returns_error() {
    let mut pp = PauliProduct::new();
    let result = pp.set_from_str(0, "+X_<UNKNOWN>");
    assert!(result.is_err());
}

#[test]
fn set_from_str_unknown_gate_error_holds_suffix() {
    let mut pp = PauliProduct::new();
    let result = pp.set_from_str(0, "+X_<UNKNOWN>");
    assert_eq!(result, Err(ProductParseError::UnknownGate("<UNKNOWN>".to_string())));
    // The operators read before the error stay.
    assert_eq!(pp.operators.len(), 1);
}

#[test]
fn set_from_str_illegal_char_returns_error() {
    let mut pp = PauliProduct::new();
    let result = pp.set_from_str(0, "+A_<T>");
    assert!(result.is_err());
}

#[test]
fn set_from_str_illegal_char_error_holds_char_and_position() {
    let mut pp = PauliProduct::new();
    let result = pp.set_from_str(0, "+XA_<T>");
    assert_eq!(result, Err(ProductParseError::IllegalCharacter('A', 2)));
}

#[test]
fn set_from_str_max_qubit_computed_correctly() {
    let mut pp = PauliProduct::new();
    pp.set_from_str(0, "+__X__Z_Z<T>").unwrap();
    assert_eq!(pp.max_qubit, 7);
}

#[test]
fn set_from_str_without_suffix_keeps_gate_type() {
    let mut pp = PauliProduct::new();
    pp.set_from_str(0, "+X_Z").unwrap();
    assert!(pp.gate_type.is_t());
    assert_eq!(pp.operators.len(), 2);
    assert_eq!(pp.max_qubit, 2);
}

#[test]
fn get_qubits_returns_all_qubit_indices() {
    let mut pp = PauliProduct::new();
    pp.set_from_str(0, "+XZ_<T>").unwrap();
    let qubits = pp.get_qubits();
    assert_eq!(qubits, vec![0, 1]);
}

#[test]
fn get_qubits_empty_when_no_operators() {
    let pp = PauliProduct::new();
    assert!(pp.get_qubits().is_empty());
}

#[test]
fn to_operator_str_format() {
    let mut pp = PauliProduct::new();
    pp.set_from_str(0, "+X_<T>").unwrap();
    let s = pp.to_operator_str();
    assert!(s.contains("0X"), "should contain qubit-basis pair");
    assert!(s.contains("T"), "should contain gate type");
}

#[test]
fn to_operator_str_exact_text() {
    let mut pp = PauliProduct::new();
    pp.set_from_str(0, "+X_Z<CX>").unwrap();
    assert_eq!(pp.to_operator_str(), "0X2Z<CX>");
}

#[test]
fn line_fits_checks_arity_and_sign() {
    assert!(line_fits("+XZ<CX>"));
    assert!(!line_fits("+X_<CX>"));
    assert!(!line_fits("+XZ<S>"));
    assert!(line_fits("+_Z<S>"));
    assert!(line_fits("+X_<UNKNOWN>"));
    assert!(line_fits(""));
    assert!(!line_fits("éX<T>"));
}

#[test]
fn line_parses_tells_parsed_lines_apart() {
    assert!(line_parses("+X_<T>"));
    assert!(line_parses("+X_"));
    assert!(line_parses(""));
    assert!(!line_parses("+X_<UNKNOWN>"));
    assert!(!line_parses("+A_<T>"));
}

#[test]
fn pauli_product_display_contains_id_and_gate() {
    let mut pp = PauliProduct::new();
    pp.set_from_str(42, "+X_<M>").unwrap();
    let s = pp.to_display_string();
    assert!(s.contains("42"));
    assert!(s.contains("M"));
}

#[test]
fn pauli_product_display_lists_relatives() {
    let mut pp = PauliProduct::new();
    pp.set_from_str(3, "+X_Z<CX>").unwrap();
    pp.children = vec![5, 7];
    pp.parents = vec![-1];
    assert_eq!(pp.to_display_string(), "3 0X2Z <CX> children [5, 7] parents [-1]");
}

#[test]
fn pauli_product_display_empty_lists() {
    let mut pp = PauliProduct::new();
    pp.set_from_str(0, "+_Y<T>").unwrap();
    assert_eq!(pp.to_display_string(), "0 1Y <T> children [] parents []");
}
