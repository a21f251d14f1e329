use at_runner::config::{executable_stem, stem_for_extension, Allowlist, ServiceConfig};
use at_runner::error::StatusCode;
use at_runner::service::{check_run, check_run_sync, exec_busy, pipeline_timeout};
use at_runner::pipeline::InputFile;
use at_runner::status::{status_completion, status_from_exit, status_str, RunStatus};

fn names(v: &[&str]) -> Vec<String> {
    v.iter().map(|s| s.to_string()).collect()
}

fn config() -> ServiceConfig {
    ServiceConfig {
        allowlist: Allowlist::from_file_names(&names(&["kraken.exe", "field.exe", "notes.txt"])),
        default_timeout: 3600,
        chunk_size: 65536,
    }
}

#[test]
fn allowlist_takes_exe_stems_once() {
    let a = Allowlist::from_file_names(&names(&[
        "kraken.exe",
        "bellhop.exe",
        "kraken.exe",
        "readme.md",
        ".exe",
        "field.exe.bak",
        "a.b.exe",
    ]));
    assert_eq!(a.len(), 3);
    assert!(a.contains("kraken"));
    assert!(a.contains("bellhop"));
    assert!(a.contains("a.b"));
    assert!(!a.contains("readme"));
    assert!(!a.contains(""));
    assert!(!a.contains("field"));
}

#[test]
fn executable_stems() {
    assert_eq!(executable_stem("kraken.exe"), Some("kraken".to_string()));
    assert_eq!(executable_stem("kraken.EXE"), None);
    assert_eq!(executable_stem("kraken"), None);
    assert_eq!(executable_stem(".exe"), None);
    assert_eq!(executable_stem("x.exe.old"), None);
    assert_eq!(stem_for_extension("pekeris.env", "env"), Some("pekeris".to_string()));
    assert_eq!(stem_for_extension("..env", "env"), Some(".".to_string()));
    assert_eq!(stem_for_extension("a.", ""), Some("a".to_string()));
}

#[test]
fn resolve_executable_known_and_unknown() {
    let cfg = config();
    assert_eq!(cfg.allowlist.resolve_executable("kraken").unwrap(), "kraken.exe");
    let e = cfg.allowlist.resolve_executable("bellhop").unwrap_err();
    assert_eq!(e.code, StatusCode::InvalidArgument);
    assert_eq!(e.message, "unknown model: bellhop");
}

#[test]
fn timeouts() {
    let cfg = config();
    assert_eq!(cfg.timeout_or_default(Some(5)), 5);
    assert_eq!(cfg.timeout_or_default(None), 3600);
    assert_eq!(pipeline_timeout(&cfg, Some(7), 4), 7);
    assert_eq!(pipeline_timeout(&cfg, None, 4), 14400);
    assert_eq!(pipeline_timeout(&cfg, None, 0), 0);
}

#[test]
fn run_requests_are_checked_model_first() {
    let cfg = config();
    assert_eq!(check_run(&cfg, "kraken", "pekeris").unwrap(), "kraken.exe");
    let e = check_run(&cfg, "nope", "../x").unwrap_err();
    assert_eq!(e.message, "unknown model: nope");
    let e = check_run(&cfg, "kraken", "../x").unwrap_err();
    assert_eq!(e.message, "file_root must be a single path component");

    let inputs = vec![
        InputFile { name: "pekeris.env".to_string(), content: b"x".to_vec() },
        InputFile { name: "a/b".to_string(), content: vec![] },
        InputFile { name: "".to_string(), content: vec![] },
    ];
    let e = check_run_sync(&cfg, "kraken", "pekeris", &inputs).unwrap_err();
    assert_eq!(e.code, StatusCode::InvalidArgument);
    assert_eq!(e.message, "filename must be a single path component");
    assert_eq!(check_run_sync(&cfg, "field", "pekeris", &inputs[..1].iter().map(|f| InputFile { name: f.name.clone(), content: f.content.clone() }).collect()).unwrap(), "field.exe");
    let e = check_run_sync(&cfg, "field", "", &inputs).unwrap_err();
    assert_eq!(e.message, "file_root must not be empty");
}

#[test]
fn busy_answer() {
    let e = exec_busy();
    assert_eq!(e.code, StatusCode::FailedPrecondition);
    assert_eq!(e.message, "another Run or RunPipeline is active");
}

#[test]
fn status_names_and_codes() {
    assert_eq!(status_str(0), "unspecified");
    assert_eq!(status_str(1), "completed");
    assert_eq!(status_str(2), "timed_out");
    assert_eq!(status_str(3), "signaled");
    assert_eq!(status_str(4), "skipped");
    assert_eq!(status_str(5), "unknown");
    assert_eq!(status_str(-1), "unknown");
    assert_eq!(RunStatus::Skipped.code(), 4);
    assert_eq!(status_from_exit(Some(0)), (RunStatus::Completed, 0));
    assert_eq!(status_from_exit(Some(3)), (RunStatus::Completed, 3));
    assert_eq!(status_from_exit(None), (RunStatus::Signaled, -1));
    let c = status_completion(RunStatus::TimedOut);
    assert_eq!(c.status, 2);
    assert_eq!(c.exit_code, -1);
    assert_eq!(c.elapsed_nanos, 0);
    assert!(c.output_files.is_empty());
}
