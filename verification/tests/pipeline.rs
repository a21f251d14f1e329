use at_runner::config::Allowlist;
use at_runner::error::StatusCode;
use at_runner::pipeline::{build_dependency_graph, ensure_acyclic, validate_pipeline, InputFile, PipelineStep};
use at_runner::scheduler::{ReadyStep, SchedulerState};

fn allow() -> Allowlist {
    Allowlist::from_file_names(&vec!["kraken.exe".to_string(), "field.exe".to_string()])
}

fn step(id: &str, model: &str, deps: &[&str]) -> PipelineStep {
    PipelineStep {
        id: id.to_string(),
        model: model.to_string(),
        file_root: "freq".to_string(),
        inputs: vec![],
        depends_on: deps.iter().map(|d| d.to_string()).collect(),
        timeout_seconds: None,
    }
}

#[test]
fn empty_pipeline_is_refused() {
    let e = validate_pipeline(&allow(), vec![]).unwrap_err();
    assert_eq!(e.code, StatusCode::InvalidArgument);
    assert_eq!(e.message, "pipeline must have at least one step");
}

#[test]
fn duplicate_ids_are_refused() {
    let e = validate_pipeline(&allow(), vec![step("k1", "kraken", &[]), step("k1", "field", &[])]).unwrap_err();
    assert_eq!(e.code, StatusCode::InvalidArgument);
    assert_eq!(e.message, "duplicate step id: \"k1\"");
}

#[test]
fn missing_dependencies_are_refused() {
    let e = validate_pipeline(&allow(), vec![step("k1", "kraken", &[]), step("f1", "field", &["k1", "zz"])])
        .unwrap_err();
    assert_eq!(e.code, StatusCode::InvalidArgument);
    assert_eq!(e.message, "step \"f1\" depends on nonexistent step \"zz\"");
}

#[test]
fn cycles_are_refused() {
    let e = validate_pipeline(
        &allow(),
        vec![step("a", "kraken", &["c"]), step("b", "kraken", &["a"]), step("c", "field", &["b"])],
    )
    .unwrap_err();
    assert_eq!(e.code, StatusCode::InvalidArgument);
    assert_eq!(e.message, "cycle in dependency graph");

    let e = validate_pipeline(&allow(), vec![step("a", "kraken", &["a"])]).unwrap_err();
    assert_eq!(e.message, "cycle in dependency graph");
}

#[test]
fn step_checks_come_in_order() {
    let e = validate_pipeline(&allow(), vec![step("../a", "nope", &[])]).unwrap_err();
    assert_eq!(e.message, "step id must be a single path component");
    let e = validate_pipeline(&allow(), vec![step("a", "nope", &[])]).unwrap_err();
    assert_eq!(e.message, "unknown model: nope");
    let mut s = step("a", "kraken", &[]);
    s.inputs.push(InputFile { name: "x..y".to_string(), content: vec![] });
    let e = validate_pipeline(&allow(), vec![s]).unwrap_err();
    assert_eq!(e.message, "filename must not contain '..'");
    let mut s = step("a", "kraken", &[]);
    s.file_root = "".to_string();
    let e = validate_pipeline(&allow(), vec![s]).unwrap_err();
    assert_eq!(e.message, "file_root must not be empty");
}

#[test]
fn valid_dag_builds_its_graph() {
    let g = validate_pipeline(
        &allow(),
        vec![
            step("k1", "kraken", &[]),
            step("k2", "kraken", &[]),
            step("f1", "field", &["k1"]),
            step("f2", "field", &["k2", "k1"]),
        ],
    )
    .unwrap();
    assert_eq!(g.step_ids, vec!["k1", "k2", "f1", "f2"]);
    assert_eq!(g.deps, vec![vec![], vec![], vec![0], vec![1, 0]]);
    assert_eq!(g.rev_dep, vec![vec![2, 3], vec![3], vec![], vec![]]);
    assert_eq!(g.remaining_deps, vec![0, 0, 1, 2]);
    assert_eq!(g.initial_ready().into_iter().collect::<Vec<_>>(), vec![0, 1]);
    assert!(ensure_acyclic(&g).is_ok());
}

#[test]
fn repeated_dependencies_count_twice() {
    let g = build_dependency_graph(vec![step("a", "kraken", &[]), step("b", "kraken", &["a", "a"])]);
    assert_eq!(g.remaining_deps, vec![0, 2]);
    assert_eq!(g.rev_dep, vec![vec![1, 1], vec![]]);
    assert!(ensure_acyclic(&g).is_ok());
}

/// Runs the scheduler with the given outcome per step, launching in the
/// order the ready queue gives and finishing launched steps first in, first
/// out; returns the launch order and the skip order.
fn simulate(steps: Vec<PipelineStep>, succeeds: &[bool]) -> (Vec<usize>, Vec<usize>, SchedulerState, usize) {
    let g = validate_pipeline(&allow(), steps).unwrap();
    let mut s = SchedulerState::new(&g);
    let mut launched = vec![];
    let mut skipped = vec![];
    let mut running: std::collections::VecDeque<usize> = Default::default();
    loop {
        while let Some(r) = s.next_ready(&g) {
            match r {
                ReadyStep::Skip(u) => skipped.push(u),
                ReadyStep::Launch(u) => {
                    launched.push(u);
                    running.push_back(u);
                }
            }
        }
        if !s.has_active() {
            break;
        }
        let u = running.pop_front().unwrap();
        s.record_step_done(&g, u, succeeds[u]);
    }
    let n = g.step_ids.len();
    (launched, skipped, s, n)
}

#[test]
fn a_pipeline_runs_in_dependency_order() {
    let (launched, skipped, s, n) = simulate(
        vec![
            step("k1", "kraken", &[]),
            step("k2", "kraken", &[]),
            step("f1", "field", &["k1"]),
            step("f2", "field", &["k2"]),
        ],
        &[true, true, true, true],
    );
    assert_eq!(launched, vec![0, 1, 2, 3]);
    assert!(skipped.is_empty());
    assert!(s.all_succeeded(n));
    assert!(s.skipped_steps().is_empty());
    assert!(s.failed_steps().is_empty());
}

#[test]
fn a_failed_step_skips_its_dependents_transitively() {
    let (launched, skipped, s, n) = simulate(
        vec![
            step("k1", "kraken", &[]),
            step("f1", "field", &["k1"]),
            step("g1", "field", &["f1"]),
            step("k2", "kraken", &[]),
        ],
        &[false, true, true, true],
    );
    assert_eq!(launched, vec![0, 3]);
    assert_eq!(skipped, vec![1, 2]);
    assert!(!s.all_succeeded(n));
    assert_eq!(s.skipped_steps(), vec![1, 2]);
    assert_eq!(s.failed_steps(), vec![0]);
}

#[test]
fn deadline_marks_unfinished_steps_timed_out() {
    let g = validate_pipeline(&allow(), vec![step("k1", "kraken", &[]), step("f1", "field", &["k1"])]).unwrap();
    let mut s = SchedulerState::new(&g);
    assert_eq!(s.next_ready(&g), Some(ReadyStep::Launch(0)));
    assert_eq!(s.next_ready(&g), None);
    // the deadline passes while k1 runs: it is cancelled and reports back
    s.record_cancelled_step(0);
    let unfinished = s.mark_unfinished_timed_out();
    assert_eq!(unfinished, vec![1]);
    assert_eq!(s.failed_steps(), vec![0, 1]);
    assert!(!s.all_succeeded(2));
}
