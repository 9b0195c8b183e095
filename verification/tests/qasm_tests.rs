use puremagic::qasm::{
    named_qubit_refs, parse_body_op, parse_error, parse_gate_header, parse_register_decl, resolve_body_qubits,
    strip_comment, BodyOp, GateDef,
};

fn strings(v: &[&str]) -> Vec<String> {
    v.iter().map(|s| s.to_string()).collect()
}

#[test]
fn strip_comment_cuts_at_first_double_slash() {
    assert_eq!(strip_comment("h q[0]; // hadamard"), "h q[0]; ");
    assert_eq!(strip_comment("x q[1];"), "x q[1];");
    assert_eq!(strip_comment("// only a comment"), "");
    assert_eq!(strip_comment("a / b // c // d"), "a / b ");
}

#[test]
fn register_decl_in_both_spellings() {
    assert_eq!(parse_register_decl("qreg q[5];"), Ok(("q".to_string(), 5)));
    assert_eq!(parse_register_decl("qubit[3] anc;"), Ok(("anc".to_string(), 3)));
    assert_eq!(parse_register_decl("  qreg  data[12] ;;  "), Ok(("data".to_string(), 12)));
}

#[test]
fn register_decl_errors() {
    assert_eq!(
        parse_register_decl("qreg q;"),
        Err("expected '[' in register declaration 'qreg q'".to_string())
    );
    assert_eq!(
        parse_register_decl("qreg q[4;"),
        Err("expected ']' in register declaration 'qreg q[4'".to_string())
    );
    assert_eq!(
        parse_register_decl("qreg q[x];"),
        Err("could not parse register size in 'qreg q[x]'".to_string())
    );
    assert_eq!(
        parse_register_decl("qubit[2];"),
        Err("register declaration 'qubit[2]' has no name".to_string())
    );
}

#[test]
fn named_qubit_refs_reads_each_reference() {
    assert_eq!(
        named_qubit_refs("a[0], b[0], cin[0]"),
        vec![("a".to_string(), 0), ("b".to_string(), 0), ("cin".to_string(), 0)]
    );
    assert_eq!(named_qubit_refs(" q[3],q_2[10];"), vec![("q".to_string(), 3), ("q_2".to_string(), 10)]);
    // An unparseable index is skipped, a missing `]` ends the list.
    assert_eq!(named_qubit_refs("q[x], r[1], s[2"), vec![("r".to_string(), 1)]);
    assert!(named_qubit_refs("no refs here").is_empty());
}

#[test]
fn gate_header_with_parameters() {
    assert_eq!(
        parse_gate_header("gate CRY(lambda) a, b {"),
        Ok(("cry".to_string(), strings(&["lambda"]), strings(&["a", "b"])))
    );
    assert_eq!(
        parse_gate_header("gate u2(phi, lam) q"),
        Ok(("u2".to_string(), strings(&["phi", "lam"]), strings(&["q"])))
    );
}

#[test]
fn gate_header_without_parameters() {
    assert_eq!(
        parse_gate_header("gate majority a,b,c"),
        Ok(("majority".to_string(), Vec::new(), strings(&["a", "b", "c"])))
    );
}

#[test]
fn gate_header_errors() {
    assert_eq!(parse_gate_header("gate bad(x a"), Err("unmatched '(' in gate definition".to_string()));
    assert_eq!(
        parse_gate_header("gate lonely"),
        Err("expected qubit arguments in gate definition 'gate lonely'".to_string())
    );
    assert_eq!(
        parse_gate_header("gate g(x) {"),
        Err("gate definition 'g' declares no qubit arguments".to_string())
    );
}

#[test]
fn body_op_keeps_raw_parameter_text() {
    let op = parse_body_op("U(theta/2, 0, -lambda) q0;").unwrap();
    assert_eq!(op.name, "u");
    assert_eq!(op.param_exprs, strings(&["theta/2", "0", "-lambda"]));
    assert_eq!(op.qubit_formals, strings(&["q0"]));
    let op = parse_body_op("cx a, b;").unwrap();
    assert_eq!(op.name, "cx");
    assert!(op.param_exprs.is_empty());
    assert_eq!(op.qubit_formals, strings(&["a", "b"]));
}

#[test]
fn body_op_errors() {
    assert_eq!(parse_body_op(";;").unwrap_err(), "empty statement in gate body");
    // Only trailing semicolons are cut before trimming.
    assert_eq!(parse_body_op(" ; ").unwrap_err(), "expected a qubit argument after gate name in ';'");
    assert_eq!(parse_body_op("rz(x q;").unwrap_err(), "unmatched '(' in gate body statement");
    assert_eq!(parse_body_op("h;").unwrap_err(), "expected a qubit argument after gate name in 'h'");
    assert_eq!(parse_body_op("rz(x);").unwrap_err(), "no qubit operand found in gate body statement for 'rz'");
}

#[test]
fn resolve_body_qubits_maps_formals_by_position() {
    let def = GateDef {
        param_formals: Vec::new(),
        qubit_formals: strings(&["a", "b", "c"]),
        body: vec![BodyOp { name: "cx".to_string(), param_exprs: Vec::new(), qubit_formals: strings(&["c", "a"]) }],
    };
    assert_eq!(resolve_body_qubits(&def, &strings(&["c", "a"]), &[7, 8, 9]), Ok(vec![9, 7]));
    assert_eq!(
        resolve_body_qubits(&def, &strings(&["a", "z"]), &[7, 8, 9]),
        Err("gate body references unknown qubit 'z'".to_string())
    );
}

#[test]
fn parse_error_names_the_line() {
    assert_eq!(parse_error(4, "foo q[0];", "unsupported gate 'foo'"), "line 5: unsupported gate 'foo' (in \"foo q[0];\")");
}

#[test]
fn register_declarations_read_back() {
    for (name, n) in [("q", 0usize), ("anc_1", 12), ("Reg9", 4096)] {
        assert_eq!(parse_register_decl(&format!("qreg {name}[{n}];")), Ok((name.to_string(), n)));
        assert_eq!(parse_register_decl(&format!("qubit[{n}] {name};")), Ok((name.to_string(), n)));
    }
}

#[test]
fn named_qubit_refs_accepts_non_ascii_name_letters() {
    assert_eq!(named_qubit_refs("qé[1]"), vec![("qé".to_string(), 1)]);
}
