use at_runner::assemble::{RunMessage, StepDetail};
use at_runner::error::StatusCode;
use at_runner::executor::{OutputChunk, StreamEvent};
use at_runner::pipeline::InputFile;
use at_runner::service::{dependency_files, run_dir_plan, DirAction, RunRelay, StepOutcome};
use at_runner::session::new_session_id;
use at_runner::status::RunCompleted;
use at_runner::workspace::{list_workspace, require_existing, WorkspaceEntry};

fn completed(status: i32, exit_code: i32) -> RunCompleted {
    RunCompleted { status, exit_code, elapsed_nanos: 0, output_files: vec![] }
}

#[test]
fn step_outcome_success_is_completed_with_exit_zero() {
    let mut o = StepOutcome::new();
    assert!(!o.success && !o.completed_sent && o.files.is_empty());
    let (d, files) = o.on_event(StreamEvent::Output(OutputChunk { stream: 1, data: b"x".to_vec() }));
    assert!(matches!(d, StepDetail::Output(_)));
    assert!(files.is_empty());
    assert!(!o.completed_sent);
    let (d, files) = o.on_event(StreamEvent::Completed(completed(1, 0), vec!["a.mod".into()]));
    assert!(matches!(d, StepDetail::Completed(_)));
    assert_eq!(files, vec!["a.mod"]);
    assert!(o.success && o.completed_sent);
    assert!(o.on_cancel().is_none());
    let done = o.into_done("k1".to_string());
    assert_eq!(done.id, "k1");
    assert!(done.success);
    assert_eq!(done.files, vec!["a.mod"]);

    for (status, code) in [(1, 3), (2, -1), (3, -1)] {
        let mut o = StepOutcome::new();
        o.on_event(StreamEvent::Completed(completed(status, code), vec![]));
        assert!(!o.success);
    }
}

#[test]
fn a_cancelled_step_is_reported_timed_out() {
    let o = StepOutcome::new();
    let c = o.on_cancel().unwrap();
    assert_eq!((c.status, c.exit_code, c.elapsed_nanos), (2, -1, 0));
    let done = o.into_done("f1".to_string());
    assert!(!done.success);
    assert!(done.files.is_empty());
}

#[test]
fn run_relay_forwards_events() {
    let mut r = RunRelay::new();
    let m = r.on_event(StreamEvent::Output(OutputChunk { stream: 2, data: b"e".to_vec() }));
    assert!(matches!(m, RunMessage::Output(OutputChunk { stream: 2, .. })));
    assert!(!r.completed);
    let m = r.on_event(StreamEvent::Completed(completed(1, 0), vec!["p.prt".into(), "p.mod".into()]));
    assert!(matches!(m, RunMessage::Completed(RunCompleted { status: 1, exit_code: 0, .. })));
    assert!(r.completed);
    assert_eq!(r.output_files, vec!["p.prt", "p.mod"]);
}

#[test]
fn dependency_outputs_are_copied_in_dependency_order() {
    let outputs = vec![Some(vec!["a.mod".to_string(), "a.prt".to_string()]), None, Some(vec!["c.mod".to_string()])];
    let copies = dependency_files(&vec![2, 1, 0], &outputs);
    assert_eq!(
        copies,
        vec![(2, "c.mod".to_string()), (0, "a.mod".to_string()), (0, "a.prt".to_string())]
    );
    assert!(dependency_files(&vec![], &outputs).is_empty());
}

#[test]
fn workspace_listing_keeps_regular_files_sorted() {
    let entries = vec![
        WorkspaceEntry { name: Some("b.env".into()), is_file: true, size_bytes: 3 },
        WorkspaceEntry { name: Some("dir".into()), is_file: false, size_bytes: 0 },
        WorkspaceEntry { name: None, is_file: true, size_bytes: 9 },
        WorkspaceEntry { name: Some("a.bty".into()), is_file: true, size_bytes: 7 },
    ];
    let files = list_workspace(&entries);
    let got: Vec<(String, u64)> = files.into_iter().map(|f| (f.name, f.size_bytes)).collect();
    assert_eq!(got, vec![("a.bty".to_string(), 7), ("b.env".to_string(), 3)]);
    assert!(list_workspace(&vec![]).is_empty());
}

#[test]
fn missing_files_are_not_found() {
    require_existing("x.env", true).unwrap();
    let e = require_existing("x.env", false).unwrap_err();
    assert_eq!(e.code, StatusCode::NotFound);
    assert_eq!(e.message, "file not found: x.env");
}

#[test]
fn session_ids_are_random_uuids() {
    let a = new_session_id();
    let b = new_session_id();
    assert_ne!(a, b);
    for id in [a, b] {
        let cs: Vec<char> = id.chars().collect();
        assert_eq!(cs.len(), 36);
        for (i, c) in cs.iter().enumerate() {
            if [8, 13, 18, 23].contains(&i) {
                assert_eq!(*c, '-');
            } else {
                assert!(c.is_ascii_digit() || ('a'..='f').contains(c));
            }
        }
        assert_eq!(cs[14], '4');
        assert!(['8', '9', 'a', 'b'].contains(&cs[19]));
    }
}

#[test]
fn run_directories_are_laid_workspace_then_outputs_then_inputs() {
    let plan = run_dir_plan(
        &vec!["Munk.bty".to_string(), "freq1.flp".to_string()],
        &vec![(0, "freq1.mod".to_string()), (0, "freq1.flp".to_string())],
        &vec![InputFile { name: "freq1.flp".to_string(), content: b"mine".to_vec() }],
    );
    let described: Vec<String> = plan
        .iter()
        .map(|a| match a {
            DirAction::Workspace(n) => format!("workspace {n}"),
            DirAction::Output(d, n) => format!("output {d} {n}"),
            DirAction::Input(i, n) => format!("input {i} {n}"),
        })
        .collect();
    assert_eq!(
        described,
        vec![
            "workspace Munk.bty",
            "workspace freq1.flp",
            "output 0 freq1.mod",
            "output 0 freq1.flp",
            "input 0 freq1.flp",
        ]
    );
    // the last writer of a name decides its content: the inline input here
    let last_flp = described.iter().rev().find(|d| d.ends_with("freq1.flp")).unwrap();
    assert_eq!(last_flp, "input 0 freq1.flp");
}
