use vstd::prelude::*;

verus! {

/// How a run ended, as the wire protocol numbers it.
#[derive(Clone, Copy, Debug, PartialEq, Eq, Structural)]
pub enum RunStatus {
    Unspecified,
    Completed,
    TimedOut,
    Signaled,
    Skipped,
}

impl RunStatus {
    pub open spec fn spec_code(self) -> i32 {
        match self {
            RunStatus::Unspecified => 0,
            RunStatus::Completed => 1,
            RunStatus::TimedOut => 2,
            RunStatus::Signaled => 3,
            RunStatus::Skipped => 4,
        }
    }

    /// The wire number of the status.
    pub fn code(&self) -> (c: i32)
        ensures
            c == self.spec_code(),
    {
        match self {
            RunStatus::Unspecified => 0,
            RunStatus::Completed => 1,
            RunStatus::TimedOut => 2,
            RunStatus::Signaled => 3,
            RunStatus::Skipped => 4,
        }
    }
}

/// The client-side name of a wire status number.
pub open spec fn status_name(code: i32) -> Seq<char> {
    if code == 0 {
        "unspecified"@
    } else if code == 1 {
        "completed"@
    } else if code == 2 {
        "timed_out"@
    } else if code == 3 {
        "signaled"@
    } else if code == 4 {
        "skipped"@
    } else {
        "unknown"@
    }
}

/// Names a wire status number as the client reports it.
pub fn status_str(code: i32) -> (s: String)
    ensures
        s@ == status_name(code),
{
    let name = match code {
        0 => "unspecified",
        1 => "completed",
        2 => "timed_out",
        3 => "signaled",
        4 => "skipped",
        _ => "unknown",
    };
    name.to_owned()
}

/// The status and exit code of a process that exited: `code` is its exit
/// code, absent when a signal ended it.
pub fn status_from_exit(code: Option<i32>) -> (r: (RunStatus, i32))
    ensures
        r == match code {
            Some(c) => (RunStatus::Completed, c),
            None => (RunStatus::Signaled, -1i32),
        },
{
    match code {
        Some(c) => (RunStatus::Completed, c),
        None => (RunStatus::Signaled, -1),
    }
}

/// A file that a run produced: its name and size.
#[derive(Debug)]
pub struct FileInfo {
    pub name: String,
    pub size_bytes: u64,
}

/// The end of a run as reported to the client. The elapsed time is kept in
/// nanoseconds; the wire carries it as seconds.
#[derive(Debug)]
pub struct RunCompleted {
    pub status: i32,
    pub exit_code: i32,
    pub elapsed_nanos: u64,
    pub output_files: Vec<FileInfo>,
}

/// The report of a step that did not run to its end (skipped or cut short):
/// exit code -1, no time, no files.
pub fn status_completion(status: RunStatus) -> (c: RunCompleted)
    ensures
        c.status == status.spec_code(),
        c.exit_code == -1,
        c.elapsed_nanos == 0,
        c.output_files@.len() == 0,
{
    RunCompleted { status: status.code(), exit_code: -1, elapsed_nanos: 0, output_files: Vec::new() }
}

} // verus!
