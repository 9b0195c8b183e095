use puremagic::transpile::{add_phase, basis_commutes_with, gcd, multiply_pauli_ops, Angle, PauliProduct, PauliTerm};

#[test]
fn add_phase_wraps_modulo_four() {
    assert_eq!(add_phase(3, 2), 1);
    assert_eq!(add_phase(1, 1), 2);
    assert_eq!(add_phase(0, 0), 0);
    // Rust's remainder keeps the sign of a negative sum.
    assert_eq!(add_phase(-1, 0), -1);
    assert_eq!(add_phase(-3, -3), -2);
}

#[test]
fn pauli_multiplication_table() {
    assert_eq!(multiply_pauli_ops('X', 'Y'), ('Z', 1));
    assert_eq!(multiply_pauli_ops('Y', 'X'), ('Z', 3));
    assert_eq!(multiply_pauli_ops('Y', 'Z'), ('X', 1));
    assert_eq!(multiply_pauli_ops('Z', 'Y'), ('X', 3));
    assert_eq!(multiply_pauli_ops('Z', 'X'), ('Y', 1));
    assert_eq!(multiply_pauli_ops('X', 'Z'), ('Y', 3));
    assert_eq!(multiply_pauli_ops('X', 'X'), ('I', 0));
    assert_eq!(multiply_pauli_ops('I', 'Z'), ('Z', 0));
    assert_eq!(multiply_pauli_ops('Y', 'I'), ('Y', 0));
}

#[test]
fn bases_commute_only_when_equal_or_identity() {
    assert!(basis_commutes_with('I', 'X'));
    assert!(basis_commutes_with('Z', 'Z'));
    assert!(!basis_commutes_with('X', 'Z'));
}

#[test]
fn gcd_is_non_negative() {
    assert_eq!(gcd(12, 18), 6);
    assert_eq!(gcd(-12, 18), 6);
    assert_eq!(gcd(0, -7), 7);
    assert_eq!(gcd(0, 0), 0);
}

#[test]
fn angle_is_reduced_and_classified() {
    let a = Angle::new(2, 4);
    assert_eq!((a.numerator, a.denominator, a.is_clifford), (1, 2, true));
    let t = Angle::new(3, 24);
    assert_eq!((t.numerator, t.denominator, t.is_clifford), (1, 8, false));
    let z = Angle::new(0, 0);
    assert_eq!((z.numerator, z.denominator, z.is_clifford), (0, 0, false));
    let n = Angle::new(-6, 8);
    assert_eq!((n.numerator, n.denominator, n.is_clifford), (-3, 4, true));
}

#[test]
fn term_commute_right_conjugates_anticommuting_terms() {
    let z = PauliTerm::new('Z', 0, 2);
    let x = PauliTerm::new('X', 0, 2);
    let quarter = Angle::new(1, 4);
    // Z*X = iY, plus one more power of i.
    assert_eq!(z.commute_right(&x, &quarter), PauliTerm::new('Y', 2, 2));
    let seven_quarters = Angle::new(7, 4);
    assert_eq!(z.commute_right(&x, &seven_quarters), PauliTerm::new('Y', 0, 2));
    // Commuting terms pass unchanged.
    assert_eq!(z.commute_right(&z, &quarter), z);
}

#[test]
fn products_commute_when_an_even_number_of_qubits_anticommute() {
    let zz = PauliProduct::new(vec![PauliTerm::new('Z', 0, 0), PauliTerm::new('Z', 0, 1)], Angle::new(1, 4));
    let xx = PauliProduct::new(vec![PauliTerm::new('X', 0, 0), PauliTerm::new('X', 0, 1)], Angle::new(1, 8));
    let x0 = PauliProduct::new(vec![PauliTerm::new('X', 0, 0)], Angle::new(1, 8));
    assert!(zz.commutes_with(&xx));
    assert!(xx.commutes_with(&zz));
    assert!(!zz.commutes_with(&x0));
    assert!(!x0.commutes_with(&zz));
}

#[test]
fn product_commute_right_merges_terms_by_qubit() {
    let left = PauliProduct::new(vec![PauliTerm::new('Z', 0, 1), PauliTerm::new('Z', 0, 3)], Angle::new(1, 4));
    let right = PauliProduct::new(vec![PauliTerm::new('X', 0, 0), PauliTerm::new('X', 0, 1)], Angle::new(1, 8));
    let p = left.commute_right(&right);
    assert_eq!(
        p.terms,
        vec![PauliTerm::new('X', 0, 0), PauliTerm::new('Y', 2, 1), PauliTerm::new('Z', 0, 3)]
    );
    assert_eq!(p.angle, Angle::new(1, 8));
    // A commuting product is returned as it is.
    let x3 = PauliProduct::new(vec![PauliTerm::new('X', 0, 5)], Angle::new(1, 8));
    let q = left.commute_right(&x3);
    assert_eq!(q.terms, x3.terms);
}
