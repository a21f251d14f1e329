use at_runner::assemble::{
    PipelineAssembler, PipelineCompleted, PipelineMessage, RunAssembler, RunMessage, RunStarted, StepDetail,
};
use at_runner::chunks::FileChunk;
use at_runner::executor::OutputChunk;
use at_runner::status::RunCompleted;

fn file(name: &str, data: &[u8]) -> FileChunk {
    FileChunk { name: name.to_string(), data: data.to_vec() }
}

fn completed(status: i32, exit_code: i32) -> RunCompleted {
    RunCompleted { status, exit_code, elapsed_nanos: 1_500_000_000, output_files: vec![] }
}

#[test]
fn a_run_stream_is_gathered() {
    let mut a = RunAssembler::new();
    a.on_message(RunMessage::Started(RunStarted { model: "kraken".into(), file_root: "pekeris".into() }));
    a.on_message(RunMessage::Output(OutputChunk { stream: 1, data: b"he".to_vec() }));
    a.on_message(RunMessage::Output(OutputChunk { stream: 2, data: b"warn".to_vec() }));
    a.on_message(RunMessage::Output(OutputChunk { stream: 1, data: b"llo".to_vec() }));
    a.on_message(RunMessage::Completed(completed(1, 0)));
    a.on_message(RunMessage::File(file("pekeris.prt", b"ab")));
    a.on_message(RunMessage::File(file("", b"cd")));
    a.on_message(RunMessage::File(file("pekeris.mod", b"")));
    let r = a.finish();
    assert_eq!(r.status, "completed");
    assert_eq!(r.exit_code, 0);
    assert_eq!(r.stdout, b"hello");
    assert_eq!(r.stderr, b"warn");
    assert_eq!(r.elapsed_nanos, 1_500_000_000);
    assert_eq!(r.files.get("pekeris.prt"), Some(&b"abcd".to_vec()));
    assert_eq!(r.files.get("pekeris.mod"), Some(&vec![]));
    assert_eq!(r.files.get("pekeris.env"), None);
}

#[test]
fn a_run_without_completion_keeps_its_defaults() {
    let r = RunAssembler::new().finish();
    assert_eq!(r.status, "unspecified");
    assert_eq!(r.exit_code, -1);
    assert!(r.stdout.is_empty());
}

fn step(sid: &str, d: StepDetail) -> PipelineMessage {
    PipelineMessage::Step(sid.to_string(), d)
}

#[test]
fn a_pipeline_stream_is_gathered_by_step() {
    let mut a = PipelineAssembler::new();
    a.on_message(PipelineMessage::Started(vec!["k1".into(), "f1".into()]));
    a.on_message(step("k1", StepDetail::Started(RunStarted { model: "kraken".into(), file_root: "freq1".into() })));
    a.on_message(step("k1", StepDetail::Output(OutputChunk { stream: 1, data: b"x".to_vec() })));
    a.on_message(step("k1", StepDetail::Completed(completed(1, 0))));
    a.on_message(step("k1", StepDetail::File(file("freq1.mod", b"12"))));
    a.on_message(step("k1", StepDetail::File(file("", b"34"))));
    a.on_message(step("f1", StepDetail::Started(RunStarted { model: "field".into(), file_root: "freq1".into() })));
    a.on_message(step("f1", StepDetail::Completed(completed(1, 2))));
    a.on_message(step("f1", StepDetail::File(file("freq1.shd", b"s"))));
    a.on_message(step("k1", StepDetail::File(file("freq1.prt", b"p"))));
    a.on_message(PipelineMessage::Completed(PipelineCompleted {
        all_succeeded: false,
        elapsed_nanos: 3_500_000_000,
        skipped_steps: vec![],
    }));
    assert!(!a.all_succeeded);
    assert_eq!(a.elapsed_nanos, 3_500_000_000);
    let k1 = a.steps.get("k1").unwrap();
    assert_eq!(k1.status(), "completed");
    assert_eq!(k1.exit_code(), 0);
    assert_eq!(k1.files().get("freq1.mod"), Some(&b"1234".to_vec()));
    assert_eq!(k1.files().get("freq1.prt"), Some(&b"p".to_vec()));
    let f1 = a.steps.get("f1").unwrap();
    assert_eq!(f1.exit_code(), 2);
    assert_eq!(f1.files().get("freq1.shd"), Some(&b"s".to_vec()));
}

#[test]
fn skipped_steps_are_reported_without_start() {
    let mut a = PipelineAssembler::new();
    a.on_message(step("f1", StepDetail::Completed(completed(4, -1))));
    a.on_message(PipelineMessage::Completed(PipelineCompleted {
        all_succeeded: false,
        elapsed_nanos: 0,
        skipped_steps: vec!["f1".to_string()],
    }));
    let f1 = a.steps.get("f1").unwrap();
    assert_eq!(f1.status(), "skipped");
    assert_eq!(f1.exit_code(), -1);
    assert_eq!(a.skipped_steps, vec!["f1".to_string()]);
    // an unnamed chunk with no file open is dropped
    let mut b = PipelineAssembler::new();
    b.on_message(step("k1", StepDetail::File(file("", b"zz"))));
    assert!(b.steps.get("k1").is_none());
}
