use puremagic::basis_index::{bit, local_index};

#[test]
fn bit_reads_qubit_zero_as_most_significant() {
    // 0b101 on 3 qubits: qubit 0 = 1, qubit 1 = 0, qubit 2 = 1.
    assert_eq!(bit(0b101, 0, 3), 1);
    assert_eq!(bit(0b101, 1, 3), 0);
    assert_eq!(bit(0b101, 2, 3), 1);
}

#[test]
fn local_index_reads_bits_in_given_order() {
    // x = 0b0110 on 4 qubits: q0=0, q1=1, q2=1, q3=0.
    assert_eq!(local_index(0b0110, &[1, 3], 4), 0b10);
    assert_eq!(local_index(0b0110, &[3, 1], 4), 0b01);
    assert_eq!(local_index(0b0110, &[0, 1, 2, 3], 4), 0b0110);
    assert_eq!(local_index(0b0110, &[], 4), 0);
}
