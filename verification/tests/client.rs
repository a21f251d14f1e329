use at_runner::client::{outputs_by_name, run_sync_inputs, Step};
use at_runner::pipeline::InputFile;

#[test]
fn step_builder() {
    let s = Step::new("f1", "field", "freq1").with_input("freq1.flp", b"flp").depends_on(&["k1", "k2"]);
    assert_eq!(s.id, "f1");
    assert_eq!(s.model, "field");
    assert_eq!(s.file_root, "freq1");
    assert_eq!(s.inputs, vec![("freq1.flp".to_string(), b"flp".to_vec())]);
    assert_eq!(s.depends_on, vec!["k1", "k2"]);
    assert_eq!(s.timeout, None);
    // depending again replaces the list
    let s = s.depends_on(&["k3"]);
    assert_eq!(s.depends_on, vec!["k3"]);
    let p = s.to_pipeline_step();
    assert_eq!(p.id, "f1");
    assert_eq!(p.inputs.len(), 1);
    assert_eq!(p.inputs[0].name, "freq1.flp");
    assert_eq!(p.inputs[0].content, b"flp");
    assert_eq!(p.depends_on, vec!["k3"]);
    assert_eq!(p.timeout_seconds, None);
}

#[test]
fn run_sync_request_inputs() {
    let files = run_sync_inputs(&[("pekeris.env", b"abc".as_slice()), ("x", b"".as_slice())]);
    assert_eq!(files.len(), 2);
    assert_eq!(files[0].name, "pekeris.env");
    assert_eq!(files[0].content, b"abc");
}

#[test]
fn run_sync_outputs_by_name() {
    let m = outputs_by_name(vec![
        InputFile { name: "a".into(), content: b"1".to_vec() },
        InputFile { name: "b".into(), content: b"2".to_vec() },
        InputFile { name: "a".into(), content: b"3".to_vec() },
    ]);
    assert_eq!(m.get("a"), Some(&b"3".to_vec()));
    assert_eq!(m.get("b"), Some(&b"2".to_vec()));
    assert_eq!(m.key_list(), vec!["b", "a"]);
}
