use puremagic::circuit::Circuit;
use puremagic::paths::{output_path, output_path_from, stem_or};
use puremagic::scheduler::SchedulerInput;
use puremagic::topograph::TopoGraph;

#[test]
fn bare_filename_writes_next_to_current_directory_not_filesystem_root() {
    let path = output_path("dnn_n8.qasm", &None, false);
    assert_eq!(path, "./dnn_n8.cliffordt.qasm");
}

#[test]
fn filename_with_directory_writes_alongside_input() {
    let path = output_path("data/all_compiled/dnn_n8.qasm", &None, false);
    assert_eq!(path, "data/all_compiled/dnn_n8.cliffordt.qasm");
}

#[test]
fn explicit_output_overrides_default_for_single_input() {
    let path = output_path("dnn_n8.qasm", &Some("out.qasm".to_string()), false);
    assert_eq!(path, "out.qasm");
}

#[test]
fn explicit_output_directory_used_for_multiple_inputs() {
    let path = output_path("data/dnn_n8.qasm", &Some("outdir".to_string()), true);
    assert_eq!(path, "outdir/dnn_n8.cliffordt.qasm");
}

#[test]
fn output_directory_loses_its_trailing_slashes() {
    let path = output_path("data/dnn_n8.qasm", &Some("outdir//".to_string()), true);
    assert_eq!(path, "outdir/dnn_n8.cliffordt.qasm");
}

#[test]
fn output_path_from_uses_defaults_for_missing_parts() {
    assert_eq!(output_path_from(None, None, &None, false), "./out.cliffordt.qasm");
    assert_eq!(output_path_from(Some("c".to_string()), Some(String::new()), &None, false), "./c.cliffordt.qasm");
    assert_eq!(output_path_from(Some("c".to_string()), Some("d".to_string()), &None, true), "d/c.cliffordt.qasm");
}

#[test]
fn stem_or_falls_back_to_default() {
    assert_eq!(stem_or(None, "circuit"), "circuit");
    assert_eq!(stem_or(Some("x".to_string()), "circuit"), "x");
}

#[test]
fn circuit_stem_strips_directory_and_extension() {
    let input = SchedulerInput { circuit: Circuit::new(&"data/qft_n4.trans".to_string()), topo: TopoGraph::new(false) };
    assert_eq!(input.circuit_stem(), "qft_n4");
    let input = SchedulerInput { circuit: Circuit::new(&"".to_string()), topo: TopoGraph::new(false) };
    assert_eq!(input.circuit_stem(), "circuit");
}
