use puremagic::qasm_loader::{LineEvent, QasmLoader};

#[test]
fn loader_reads_registers_definitions_and_calls() {
    let mut l = QasmLoader::new();
    assert!(matches!(l.read_line("OPENQASM 2.0;"), Ok(LineEvent::Nothing)));
    assert!(matches!(l.read_line("include \"qelib1.inc\";"), Ok(LineEvent::Nothing)));
    assert!(matches!(l.read_line("qreg q[2]; // data"), Ok(LineEvent::Resize(2))));
    assert!(matches!(l.read_line("creg c[2];"), Ok(LineEvent::Nothing)));
    assert!(matches!(l.read_line("qreg a[3];"), Ok(LineEvent::Resize(5))));
    assert_eq!(l.register_offset("q"), Some(0));
    assert_eq!(l.register_offset("a"), Some(2));
    assert_eq!(l.register_offset("zz"), None);
    assert!(matches!(l.read_line("gate my(theta) x, y {"), Ok(LineEvent::Nothing)));
    assert!(l.defining.is_some());
    assert!(matches!(l.read_line("  cx x, y;"), Ok(LineEvent::Nothing)));
    assert!(matches!(l.read_line(""), Ok(LineEvent::Nothing)));
    assert!(matches!(l.read_line("}"), Ok(LineEvent::Nothing)));
    assert!(l.defining.is_none());
    let d = l.find_def("my").unwrap();
    assert_eq!(d.body.len(), 1);
    assert_eq!(d.qubit_formals, vec!["x".to_string(), "y".to_string()]);
    match l.read_line("  h q[0]; // go") {
        Ok(LineEvent::Call(t)) => assert_eq!(t, "h q[0];"),
        _ => panic!("expected a call"),
    }
    assert!(matches!(l.read_line("measure q[0] -> c[0];"), Ok(LineEvent::Nothing)));
    assert!(matches!(l.read_line("c[0] = measure q[0];"), Ok(LineEvent::Nothing)));
    assert!(l.read_line("qreg nosize;").is_err());
    assert_eq!(l.total_qubits, 5);
}
