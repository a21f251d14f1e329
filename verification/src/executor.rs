use vstd::prelude::*;

use crate::error::{ErrorView, RunnerError, StatusCode};
use crate::status::{status_from_exit, FileInfo, RunCompleted, RunStatus};
use crate::text::{decimal, is_stable_name_order, stable_name_order, u64_to_string};

verus! {

/// A model run to perform: the executable, the file root it gets as its
/// first argument, the directory it runs in, and its timeout. The session
/// id tags the run's log lines.
#[derive(Debug)]
pub struct ExecRequest {
    pub session_id: String,
    pub executable: String,
    pub file_root: String,
    pub run_dir: String,
    pub timeout_secs: u64,
}

impl ExecRequest {
    /// The run of a pipeline step, tagged `<pipeline id>:step:<step id>`.
    pub fn for_step(
        pipeline_id: &str,
        step_id: &str,
        executable: String,
        file_root: String,
        run_dir: String,
        timeout_secs: u64,
    ) -> (r: ExecRequest)
        ensures
            r.session_id@ == pipeline_id@ + ":step:"@ + step_id@,
            r.executable@ == executable@,
            r.file_root@ == file_root@,
            r.run_dir@ == run_dir@,
            r.timeout_secs == timeout_secs,
    {
        let session_id = pipeline_id.to_owned().concat(":step:").concat(step_id);
        ExecRequest { session_id, executable, file_root, run_dir, timeout_secs }
    }
}

/// The outcome of a run whose output was buffered (the `RunSync` path).
#[derive(Debug)]
pub struct BufferedResult {
    pub status: RunStatus,
    pub exit_code: i32,
    pub stdout: Vec<u8>,
    pub stderr: Vec<u8>,
    pub elapsed_nanos: u64,
    pub output_files: Vec<String>,
}

impl BufferedResult {
    /// A run whose process ended: `code` is its exit code, absent when a
    /// signal ended it.
    pub fn finished(code: Option<i32>, stdout: Vec<u8>, stderr: Vec<u8>, elapsed_nanos: u64, output_files: Vec<String>) -> (r: BufferedResult)
        ensures
            (r.status, r.exit_code) == match code {
                Some(c) => (RunStatus::Completed, c),
                None => (RunStatus::Signaled, -1i32),
            },
            r.stdout@ == stdout@,
            r.stderr@ == stderr@,
            r.elapsed_nanos == elapsed_nanos,
            r.output_files@ == output_files@,
    {
        let (status, exit_code) = status_from_exit(code);
        BufferedResult { status, exit_code, stdout, stderr, elapsed_nanos, output_files }
    }

    /// A run that hit its timeout: no output is kept and the exit code is -1.
    pub fn timed_out(elapsed_nanos: u64, output_files: Vec<String>) -> (r: BufferedResult)
        ensures
            r.status == RunStatus::TimedOut,
            r.exit_code == -1,
            r.stdout@.len() == 0,
            r.stderr@.len() == 0,
            r.elapsed_nanos == elapsed_nanos,
            r.output_files@ == output_files@,
    {
        BufferedResult { status: RunStatus::TimedOut, exit_code: -1, stdout: Vec::new(), stderr: Vec::new(), elapsed_nanos, output_files }
    }
}

/// Which pipe a piece of output came from, as the wire numbers it.
#[derive(Clone, Copy, Debug, PartialEq, Eq, Structural)]
pub enum OutputStream {
    Unspecified,
    Stdout,
    Stderr,
}

impl OutputStream {
    pub open spec fn spec_code(self) -> i32 {
        match self {
            OutputStream::Unspecified => 0,
            OutputStream::Stdout => 1,
            OutputStream::Stderr => 2,
        }
    }

    pub fn code(&self) -> (c: i32)
        ensures
            c == self.spec_code(),
    {
        match self {
            OutputStream::Unspecified => 0,
            OutputStream::Stdout => 1,
            OutputStream::Stderr => 2,
        }
    }
}

/// A piece of a process's output.
#[derive(Debug)]
pub struct OutputChunk {
    pub stream: i32,
    pub data: Vec<u8>,
}

/// What a streaming run reports: a piece of output, or its end with the
/// files it produced.
#[derive(Debug)]
pub enum StreamEvent {
    Output(OutputChunk),
    Completed(RunCompleted, Vec<String>),
}

/// What one read of a pipe gave: some bytes (none at end of file), or an
/// error.
pub enum ReadOutcome {
    Bytes(Vec<u8>),
    Failed,
}

/// What waiting for the process gave, once both pipes closed.
pub enum WaitOutcome {
    Exited(Option<i32>),
    Failed,
    DeadlinePassed,
}

/// The decisions of a streaming run: which pipes are still open, what to
/// send for a read, and how the run ended.
pub struct StreamingRun {
    pub stdout_done: bool,
    pub stderr_done: bool,
}

impl StreamingRun {
    pub fn new() -> (r: StreamingRun)
        ensures
            !r.stdout_done && !r.stderr_done,
    {
        StreamingRun { stdout_done: false, stderr_done: false }
    }

    /// Both pipes are closed: the run waits for the process to exit.
    pub fn pipes_closed(&self) -> (b: bool)
        ensures
            b == (self.stdout_done && self.stderr_done),
    {
        self.stdout_done && self.stderr_done
    }

    /// A read of `stream` gave `outcome`: bytes are sent on; the end of the
    /// pipe or a read error closes it.
    pub fn on_read(&mut self, stream: OutputStream, outcome: ReadOutcome) -> (chunk: Option<OutputChunk>)
        requires
            stream == OutputStream::Stdout || stream == OutputStream::Stderr,
        ensures
            match outcome {
                ReadOutcome::Bytes(data) if data@.len() > 0 => {
                    &&& chunk matches Some(c) && c.stream == stream.spec_code() && c.data@ == data@
                    &&& final(self).stdout_done == old(self).stdout_done
                    &&& final(self).stderr_done == old(self).stderr_done
                },
                _ => {
                    &&& chunk is None
                    &&& final(self).stdout_done == (old(self).stdout_done || stream == OutputStream::Stdout)
                    &&& final(self).stderr_done == (old(self).stderr_done || stream == OutputStream::Stderr)
                },
            },
    {
        match outcome {
            ReadOutcome::Bytes(data) => {
                if data.len() > 0 {
                    return Some(OutputChunk { stream: stream.code(), data });
                }
            },
            ReadOutcome::Failed => {},
        }
        match stream {
            OutputStream::Stdout => {
                self.stdout_done = true;
            },
            _ => {
                self.stderr_done = true;
            },
        }
        None
    }

    /// How the run ended, from the wait for the process: its exit, a
    /// failed wait (counted as a signal), or the deadline (the process is
    /// killed).
    pub fn on_wait(&self, outcome: WaitOutcome) -> (r: (RunStatus, i32))
        ensures
            r == match outcome {
                WaitOutcome::Exited(Some(c)) => (RunStatus::Completed, c),
                WaitOutcome::Exited(None) => (RunStatus::Signaled, -1i32),
                WaitOutcome::Failed => (RunStatus::Signaled, -1i32),
                WaitOutcome::DeadlinePassed => (RunStatus::TimedOut, -1i32),
            },
    {
        match outcome {
            WaitOutcome::Exited(code) => status_from_exit(code),
            WaitOutcome::Failed => (RunStatus::Signaled, -1),
            WaitOutcome::DeadlinePassed => (RunStatus::TimedOut, -1),
        }
    }

    /// The deadline passed while output was still being read: the process
    /// is killed and the run timed out.
    pub fn on_deadline(&self) -> (r: (RunStatus, i32))
        ensures
            r == (RunStatus::TimedOut, -1i32),
    {
        (RunStatus::TimedOut, -1)
    }
}

/// What a listing of a directory tells of one entry: its name when it is
/// valid UTF-8, whether it is a regular file, and its modification time in
/// nanoseconds since the epoch when it could be read.
pub struct DirEntryMeta {
    pub name: Option<String>,
    pub is_file: bool,
    pub modified: Option<i128>,
}

/// The modification times of a directory's entries before a run.
pub struct Snapshot {
    entries: Vec<(String, i128)>,
}

impl Snapshot {
    pub closed spec fn names(&self) -> Seq<Seq<char>> {
        self.entries@.map_values(|e: (String, i128)| e.0@)
    }

    /// The snapshot as a map from name to modification time.
    pub closed spec fn view_map(&self) -> Map<Seq<char>, i128> {
        Map::new(
            |k: Seq<char>| self.names().contains(k),
            |k: Seq<char>| self.entries@[self.names().index_of(k)].1,
        )
    }

    pub closed spec fn wf(&self) -> bool {
        self.names().no_duplicates()
    }

    pub fn new() -> (s: Snapshot)
        ensures
            s.wf(),
            s.view_map() == Map::<Seq<char>, i128>::empty(),
    {
        let s = Snapshot { entries: Vec::new() };
        proof {
            assert(s.view_map() =~= Map::<Seq<char>, i128>::empty());
        }
        s
    }

    /// The position of `name`, if recorded.
    fn position(&self, name: &String) -> (r: Option<usize>)
        ensures
            r matches Some(i) ==> i < self.entries@.len() && self.names()[i as int] == name@,
            r is None ==> !self.names().contains(name@),
    {
        let mut i: usize = 0;
        while i < self.entries.len()
            invariant
                i <= self.entries@.len(),
                forall|k: int| 0 <= k < i ==> self.names()[k] != name@,
            decreases self.entries@.len() - i,
        {
            if self.entries[i].0 == *name {
                return Some(i);
            }
            i = i + 1;
        }
        None
    }

    /// Records the time of `name`, replacing an earlier one.
    pub fn record(&mut self, name: String, mtime: i128)
        requires
            old(self).wf(),
        ensures
            final(self).wf(),
            final(self).view_map() == old(self).view_map().insert(name@, mtime),
    {
        let ghost before = self.names();
        let ghost old_map = self.view_map();
        match self.position(&name) {
            Some(i) => {
                let ghost nm = name@;
                self.entries.set(i, (name, mtime));
                proof {
                    assert(self.names() =~= before.update(i as int, nm));
                    assert(self.names() =~= before);
                    assert forall|k: Seq<char>| self.names().contains(k) implies self.names().index_of(k)
                        == before.index_of(k) by {
                    }
                    assert(self.view_map() =~= old_map.insert(nm, mtime)) by {
                        assert forall|k: Seq<char>| #[trigger] self.view_map().contains_key(k) implies
                            self.view_map()[k] == old_map.insert(nm, mtime)[k] by {
                            let idx = self.names().index_of(k);
                            assert(self.names()[idx] == k);
                            if k == nm {
                                assert(idx == i);
                            }
                        }
                    }
                }
            },
            None => {
                let ghost nm = name@;
                self.entries.push((name, mtime));
                proof {
                    assert(self.names() =~= before.push(nm));
                    assert(self.view_map() =~= old_map.insert(nm, mtime)) by {
                        assert forall|k: Seq<char>| #[trigger] self.view_map().contains_key(k) implies
                            self.view_map()[k] == old_map.insert(nm, mtime)[k] by {
                            let idx = self.names().index_of(k);
                            if k == nm {
                                assert(self.names()[before.len() as int] == nm);
                                assert(idx == before.len());
                            } else {
                                assert(before.contains(k)) by {
                                    assert(self.names()[idx] == k);
                                    assert(before[idx] == k);
                                }
                                let bidx = before.index_of(k);
                                assert(self.names()[bidx] == k);
                            }
                        }
                        assert forall|k: Seq<char>| self.view_map().contains_key(k) <==> #[trigger] old_map.insert(nm, mtime).contains_key(k) by {
                            if before.contains(k) {
                                let j = choose|j: int| 0 <= j < before.len() && before[j] == k;
                                assert(self.names()[j] == k);
                            }
                            if self.names().contains(k) && k != nm {
                                let j = choose|j: int| 0 <= j < self.names().len() && self.names()[j] == k;
                                assert(before[j] == k);
                            }
                            if k == nm {
                                assert(self.names()[before.len() as int] == nm);
                            }
                        }
                    }
                }
            },
        }
    }

    /// The recorded time of `name`.
    pub fn lookup(&self, name: &String) -> (r: Option<i128>)
        requires
            self.wf(),
        ensures
            r matches Some(t) ==> self.view_map().contains_key(name@) && self.view_map()[name@] == t,
            r is None ==> !self.view_map().contains_key(name@),
    {
        match self.position(name) {
            Some(i) => {
                proof {
                    assert(self.names().contains(name@));
                    assert(self.names()[self.names().index_of(name@)] == name@);
                }
                Some(self.entries[i].1)
            },
            None => None,
        }
    }

    /// The snapshot of a directory listing: each entry with a UTF-8 name and
    /// a readable modification time.
    pub fn of_entries(entries: &Vec<DirEntryMeta>) -> (s: Snapshot)
        ensures
            s.wf(),
            s.view_map() == snapshot_of(entries@),
    {
        let mut s = Snapshot::new();
        let mut i: usize = 0;
        while i < entries.len()
            invariant
                i <= entries@.len(),
                s.wf(),
                s.view_map() == snapshot_of(entries@.take(i as int)),
            decreases entries@.len() - i,
        {
            proof {
                assert(entries@.take(i + 1 as int).drop_last() =~= entries@.take(i as int));
                assert(entries@.take(i + 1 as int).last() == entries@[i as int]);
            }
            let e = &entries[i];
            match (&e.name, e.modified) {
                (Some(n), Some(t)) => {
                    s.record(n.clone(), t);
                },
                _ => {},
            }
            i = i + 1;
        }
        proof {
            assert(entries@.take(entries@.len() as int) =~= entries@);
        }
        s
    }
}

/// The modification times that a listing records: each entry with a UTF-8
/// name and a readable time, a later entry of the same name replacing an
/// earlier one.
pub open spec fn snapshot_of(entries: Seq<DirEntryMeta>) -> Map<Seq<char>, i128>
    decreases entries.len(),
{
    if entries.len() == 0 {
        Map::empty()
    } else {
        let m = snapshot_of(entries.drop_last());
        let e = entries.last();
        match (e.name, e.modified) {
            (Some(n), Some(t)) => m.insert(n@, t),
            _ => m,
        }
    }
}

/// An entry counts as output of a run when it is a regular file with a
/// UTF-8 name that is new since the snapshot, or whose modification time
/// changed.
pub open spec fn is_output(e: DirEntryMeta, before: Map<Seq<char>, i128>) -> bool {
    &&& e.is_file
    &&& e.name is Some
    &&& (!before.contains_key(e.name->0@) || (e.modified is Some && e.modified->0 != before[e.name->0@]))
}

/// The names of the output entries, in listing order.
pub open spec fn output_names(entries: Seq<DirEntryMeta>, before: Map<Seq<char>, i128>) -> Seq<Seq<char>>
    decreases entries.len(),
{
    if entries.len() == 0 {
        Seq::empty()
    } else {
        let r = output_names(entries.drop_last(), before);
        if is_output(entries.last(), before) {
            r.push(entries.last().name->0@)
        } else {
            r
        }
    }
}

/// `out` is `sel` sorted by a stable sort by name.
pub open spec fn sorted_by_name(sel: Seq<Seq<char>>, out: Seq<Seq<char>>) -> bool {
    exists|order: Seq<usize>|
        #[trigger] is_stable_name_order(sel, order) && out == order.map_values(|k: usize| sel[k as int])
}

/// Reorders `items` by a stable sort by name.
pub fn sort_names(items: Vec<String>) -> (out: Vec<String>)
    ensures
        sorted_by_name(items@.map_values(|s: String| s@), out@.map_values(|s: String| s@)),
{
    let ghost sel = items@.map_values(|s: String| s@);
    let order = stable_name_order(&items);
    let mut out: Vec<String> = Vec::new();
    let mut k: usize = 0;
    while k < order.len()
        invariant
            sel == items@.map_values(|s: String| s@),
            is_stable_name_order(sel, order@),
            k <= order@.len(),
            out@.len() == k,
            forall|j: int| 0 <= j < k ==> (#[trigger] out@[j])@ == sel[order@[j] as int],
        decreases order@.len() - k,
    {
        out.push(items[order[k]].clone());
        k = k + 1;
    }
    proof {
        assert(out@.map_values(|s: String| s@) =~= order@.map_values(|k: usize| sel[k as int]));
    }
    out
}

/// The output files of a run: the entries of its directory that are new or
/// changed since `before`, by name, sorted by name.
pub fn detect_outputs(entries: &Vec<DirEntryMeta>, before: &Snapshot) -> (names: Vec<String>)
    requires
        before.wf(),
    ensures
        sorted_by_name(output_names(entries@, before.view_map()), names@.map_values(|s: String| s@)),
{
    let mut chosen: Vec<String> = Vec::new();
    let mut i: usize = 0;
    while i < entries.len()
        invariant
            before.wf(),
            i <= entries@.len(),
            chosen@.map_values(|s: String| s@) == output_names(entries@.take(i as int), before.view_map()),
        decreases entries@.len() - i,
    {
        let e = &entries[i];
        let ghost prev = chosen@;
        proof {
            assert(entries@.take(i + 1 as int).drop_last() =~= entries@.take(i as int));
            assert(entries@.take(i + 1 as int).last() == entries@[i as int]);
        }
        if e.is_file {
            match &e.name {
                Some(n) => {
                    let is_out = match before.lookup(n) {
                        None => true,
                        Some(old_mtime) => match e.modified {
                            Some(new_mtime) => new_mtime != old_mtime,
                            None => false,
                        },
                    };
                    if is_out {
                        chosen.push(n.clone());
                        proof {
                            assert(chosen@.map_values(|s: String| s@) =~= prev.map_values(|s: String| s@).push(n@));
                        }
                    }
                },
                None => {},
            }
        }
        i = i + 1;
    }
    proof {
        assert(entries@.take(entries@.len() as int) =~= entries@);
    }
    sort_names(chosen)
}

/// The files whose size is known, with their sizes, in order.
pub open spec fn known_sizes(files: Seq<(String, Option<u64>)>) -> Seq<(Seq<char>, u64)>
    decreases files.len(),
{
    if files.len() == 0 {
        Seq::empty()
    } else {
        let r = known_sizes(files.drop_last());
        match files.last().1 {
            Some(sz) => r.push((files.last().0@, sz)),
            None => r,
        }
    }
}

/// The names and sizes of output files, leaving out those whose size could
/// not be read.
pub fn output_file_infos(files: &Vec<(String, Option<u64>)>) -> (infos: Vec<FileInfo>)
    ensures
        infos@.map_values(|f: FileInfo| (f.name@, f.size_bytes)) == known_sizes(files@),
{
    let mut infos: Vec<FileInfo> = Vec::new();
    let mut i: usize = 0;
    while i < files.len()
        invariant
            i <= files@.len(),
            infos@.map_values(|f: FileInfo| (f.name@, f.size_bytes)) == known_sizes(files@.take(i as int)),
        decreases files@.len() - i,
    {
        let ghost prev = infos@;
        proof {
            assert(files@.take(i + 1 as int).drop_last() =~= files@.take(i as int));
            assert(files@.take(i + 1 as int).last() == files@[i as int]);
        }
        match files[i].1 {
            Some(size) => {
                infos.push(FileInfo { name: files[i].0.clone(), size_bytes: size });
                proof {
                    assert(infos@.map_values(|f: FileInfo| (f.name@, f.size_bytes)) =~= prev.map_values(
                        |f: FileInfo| (f.name@, f.size_bytes),
                    ).push((files@[i as int].0@, size)));
                }
            },
            None => {},
        }
        i = i + 1;
    }
    proof {
        assert(files@.take(files@.len() as int) =~= files@);
    }
    infos
}

/// The largest total size of the files that one `RunSync` answer carries.
pub const MAX_RUN_SYNC_OUTPUT: u64 = 268435456u64;

/// The error of a `RunSync` whose outputs outgrow one answer.
pub open spec fn output_too_large(total: u64) -> ErrorView {
    ErrorView {
        code: StatusCode::OutOfRange,
        message: "RunSync output too large ("@ + decimal(total as nat)
            + " bytes). Use Run (Tier 2) for large outputs."@,
    }
}

/// Counts the bytes of the output files of a `RunSync` as they are read.
pub struct OutputBudget {
    pub total: u64,
}

impl OutputBudget {
    pub fn new() -> (b: OutputBudget)
        ensures
            b.total == 0,
    {
        OutputBudget { total: 0 }
    }

    /// Adds a file of `size` bytes; an answer over the limit is refused.
    pub fn add_file(&mut self, size: u64) -> (res: Result<(), RunnerError>)
        requires
            old(self).total + size <= u64::MAX,
        ensures
            final(self).total == old(self).total + size,
            res is Ok <==> final(self).total <= MAX_RUN_SYNC_OUTPUT,
            res matches Err(e) ==> e@ == output_too_large(final(self).total),
    {
        self.total = self.total + size;
        if self.total > MAX_RUN_SYNC_OUTPUT {
            let msg = "RunSync output too large (".to_owned().concat(u64_to_string(self.total).as_str()).concat(
                " bytes). Use Run (Tier 2) for large outputs.",
            );
            return Err(RunnerError::new(StatusCode::OutOfRange, msg));
        }
        Ok(())
    }
}

} // verus!
