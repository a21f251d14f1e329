use at_runner::error::StatusCode;
use at_runner::executor::{
    detect_outputs, output_file_infos, sort_names, BufferedResult, DirEntryMeta, ExecRequest, OutputBudget,
    OutputStream, ReadOutcome, Snapshot, StreamingRun, WaitOutcome,
};
use at_runner::status::RunStatus;

fn entry(name: &str, is_file: bool, mtime: Option<i128>) -> DirEntryMeta {
    DirEntryMeta { name: Some(name.to_string()), is_file, modified: mtime }
}

#[test]
fn outputs_are_new_or_changed_files_sorted_by_name() {
    let before = Snapshot::of_entries(&vec![
        entry("pekeris.env", true, Some(10)),
        entry("pekeris.prt", true, Some(10)),
        entry("old.mod", true, Some(10)),
        entry("rewound.shd", true, Some(10)),
    ]);
    assert_eq!(before.lookup(&"pekeris.env".to_string()), Some(10));
    assert_eq!(before.lookup(&"none".to_string()), None);
    let after = vec![
        entry("pekeris.prt", true, Some(20)),
        entry("pekeris.env", true, Some(10)),
        entry("pekeris.mod", true, Some(20)),
        entry("old.mod", true, None),
        entry("subdir", false, Some(20)),
        DirEntryMeta { name: None, is_file: true, modified: Some(20) },
        entry("a.shd", true, None),
        entry("rewound.shd", true, Some(5)),
    ];
    assert_eq!(detect_outputs(&after, &before), vec!["a.shd", "pekeris.mod", "pekeris.prt", "rewound.shd"]);
}

#[test]
fn names_sort_by_code_point() {
    let v = sort_names(vec!["b".into(), "B".into(), "a".into(), "ab".into(), "".into()]);
    assert_eq!(v, vec!["", "B", "a", "ab", "b"]);
}

#[test]
fn output_infos_leave_out_unknown_sizes() {
    let infos = output_file_infos(&vec![("a".to_string(), Some(3)), ("b".to_string(), None), ("c".to_string(), Some(0))]);
    assert_eq!(infos.len(), 2);
    assert_eq!((infos[0].name.as_str(), infos[0].size_bytes), ("a", 3));
    assert_eq!((infos[1].name.as_str(), infos[1].size_bytes), ("c", 0));
}

#[test]
fn run_sync_answers_have_a_size_limit() {
    let mut b = OutputBudget::new();
    b.add_file(200 * 1024 * 1024).unwrap();
    b.add_file(56 * 1024 * 1024).unwrap();
    assert_eq!(b.total, 268435456);
    let e = b.add_file(1).unwrap_err();
    assert_eq!(e.code, StatusCode::OutOfRange);
    assert_eq!(e.message, "RunSync output too large (268435457 bytes). Use Run (Tier 2) for large outputs.");
}

#[test]
fn streaming_run_decisions() {
    let mut r = StreamingRun::new();
    assert!(!r.pipes_closed());
    let c = r.on_read(OutputStream::Stdout, ReadOutcome::Bytes(b"abc".to_vec())).unwrap();
    assert_eq!(c.stream, 1);
    assert_eq!(c.data, b"abc");
    let c = r.on_read(OutputStream::Stderr, ReadOutcome::Bytes(b"e".to_vec())).unwrap();
    assert_eq!(c.stream, 2);
    assert!(r.on_read(OutputStream::Stdout, ReadOutcome::Bytes(vec![])).is_none());
    assert!(!r.pipes_closed());
    assert!(r.on_read(OutputStream::Stderr, ReadOutcome::Failed).is_none());
    assert!(r.pipes_closed());
    assert_eq!(r.on_wait(WaitOutcome::Exited(Some(0))), (RunStatus::Completed, 0));
    assert_eq!(r.on_wait(WaitOutcome::Exited(None)), (RunStatus::Signaled, -1));
    assert_eq!(r.on_wait(WaitOutcome::Failed), (RunStatus::Signaled, -1));
    assert_eq!(r.on_wait(WaitOutcome::DeadlinePassed), (RunStatus::TimedOut, -1));
    assert_eq!(r.on_deadline(), (RunStatus::TimedOut, -1));
}

#[test]
fn buffered_results() {
    let r = BufferedResult::finished(Some(7), b"o".to_vec(), b"e".to_vec(), 5, vec!["x.prt".into()]);
    assert_eq!((r.status, r.exit_code), (RunStatus::Completed, 7));
    assert_eq!(r.stdout, b"o");
    let r = BufferedResult::finished(None, vec![], vec![], 5, vec![]);
    assert_eq!((r.status, r.exit_code), (RunStatus::Signaled, -1));
    let r = BufferedResult::timed_out(9, vec![]);
    assert_eq!((r.status, r.exit_code), (RunStatus::TimedOut, -1));
    assert!(r.stdout.is_empty() && r.stderr.is_empty());
}

#[test]
fn step_runs_are_tagged_with_the_pipeline() {
    let r = ExecRequest::for_step("p-1", "k1", "kraken.exe".into(), "freq1".into(), "/tmp/x/k1".into(), 60);
    assert_eq!(r.session_id, "p-1:step:k1");
    assert_eq!(r.timeout_secs, 60);
}

#[test]
fn snapshots_keep_the_last_time_of_a_name() {
    let s = Snapshot::of_entries(&vec![
        entry("a", true, Some(1)),
        entry("a", true, Some(5)),
        entry("b", true, None),
        DirEntryMeta { name: None, is_file: true, modified: Some(3) },
    ]);
    assert_eq!(s.lookup(&"a".to_string()), Some(5));
    assert_eq!(s.lookup(&"b".to_string()), None);
}
