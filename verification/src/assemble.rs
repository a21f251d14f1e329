use vstd::prelude::*;

use crate::chunks::{chunker_run, joined, lemma_file_stream_chunks, sent_pieces, FileChunk};
use crate::client::extend_bytes;
use crate::executor::OutputChunk;
use crate::status::{status_name, status_str, RunCompleted};
use crate::strmap::StrMap;

verus! {

/// The start of a run as reported to the client.
#[derive(Debug)]
pub struct RunStarted {
    pub model: String,
    pub file_root: String,
}

/// One message of the `Run` stream.
#[derive(Debug)]
pub enum RunMessage {
    Started(RunStarted),
    Output(OutputChunk),
    Completed(RunCompleted),
    File(FileChunk),
}

/// What the client has gathered of a run so far.
pub struct RunAssemblyView {
    pub stdout: Seq<u8>,
    pub stderr: Seq<u8>,
    pub status: Seq<char>,
    pub exit_code: i32,
    pub files: Map<Seq<char>, Seq<u8>>,
    pub current_file: Option<Seq<char>>,
    pub current_data: Seq<u8>,
}

/// The state before any message.
pub open spec fn run_start_view() -> RunAssemblyView {
    RunAssemblyView {
        stdout: Seq::empty(),
        stderr: Seq::empty(),
        status: "unspecified"@,
        exit_code: -1i32,
        files: Map::empty(),
        current_file: None,
        current_data: Seq::empty(),
    }
}

/// A file chunk: a named one closes the file being gathered and opens its
/// own; an unnamed one adds its bytes to the current file.
pub open spec fn file_chunk_step(s: RunAssemblyView, name: Seq<char>, data: Seq<u8>) -> RunAssemblyView {
    if name.len() > 0 {
        RunAssemblyView {
            files: match s.current_file {
                Some(n) => s.files.insert(n, s.current_data),
                None => s.files,
            },
            current_file: Some(name),
            current_data: match s.current_file {
                Some(_) => data,
                None => s.current_data + data,
            },
            ..s
        }
    } else {
        RunAssemblyView { current_data: s.current_data + data, ..s }
    }
}

/// How one message changes what the client has gathered.
pub open spec fn run_step(s: RunAssemblyView, m: RunMessage) -> RunAssemblyView {
    match m {
        RunMessage::Started(_) => s,
        RunMessage::Output(c) => if c.stream == 1 {
            RunAssemblyView { stdout: s.stdout + c.data@, ..s }
        } else {
            RunAssemblyView { stderr: s.stderr + c.data@, ..s }
        },
        RunMessage::Completed(c) => RunAssemblyView { status: status_name(c.status), exit_code: c.exit_code, ..s },
        RunMessage::File(fc) => file_chunk_step(s, fc.name@, fc.data@),
    }
}

/// The files gathered once the stream has ended: the current file closes.
pub open spec fn finished_files(s: RunAssemblyView) -> Map<Seq<char>, Seq<u8>> {
    match s.current_file {
        Some(n) => s.files.insert(n, s.current_data),
        None => s.files,
    }
}

/// Gathers the `Run` stream into a result: output by pipe, the final
/// status, and the files sent after it.
pub struct RunAssembler {
    pub stdout: Vec<u8>,
    pub stderr: Vec<u8>,
    pub status: String,
    pub exit_code: i32,
    pub elapsed_nanos: u64,
    pub files: StrMap<Vec<u8>>,
    pub current_file: Option<String>,
    pub current_data: Vec<u8>,
}

/// The result of a run, gathered.
pub struct AssembledRun {
    pub status: String,
    pub exit_code: i32,
    pub stdout: Vec<u8>,
    pub stderr: Vec<u8>,
    pub elapsed_nanos: u64,
    pub files: StrMap<Vec<u8>>,
}

impl RunAssembler {
    pub open spec fn view_state(&self) -> RunAssemblyView {
        RunAssemblyView {
            stdout: self.stdout@,
            stderr: self.stderr@,
            status: self.status@,
            exit_code: self.exit_code,
            files: self.files.map(),
            current_file: match self.current_file {
                Some(n) => Some(n@),
                None => None,
            },
            current_data: self.current_data@,
        }
    }

    pub open spec fn wf(&self) -> bool {
        self.files.wf()
    }

    pub fn new() -> (a: RunAssembler)
        ensures
            a.wf(),
            a.view_state() == run_start_view(),
            a.elapsed_nanos == 0,
    {
        let a = RunAssembler {
            stdout: Vec::new(),
            stderr: Vec::new(),
            status: status_str(0),
            exit_code: -1,
            elapsed_nanos: 0,
            files: StrMap::new(),
            current_file: None,
            current_data: Vec::new(),
        };
        proof {
            assert(a.view_state().stdout =~= Seq::<u8>::empty());
        }
        a
    }

    fn close_current_file(&mut self)
        requires
            old(self).wf(),
        ensures
            final(self).wf(),
            final(self).files.map() == finished_files(old(self).view_state()),
            final(self).current_file is None,
            old(self).current_file is Some ==> final(self).current_data@.len() == 0,
            old(self).current_file is None ==> final(self).current_data@ == old(self).current_data@,
            final(self).stdout == old(self).stdout,
            final(self).stderr == old(self).stderr,
            final(self).status == old(self).status,
            final(self).exit_code == old(self).exit_code,
            final(self).elapsed_nanos == old(self).elapsed_nanos,
    {
        match self.current_file.take() {
            Some(name) => {
                let mut data: Vec<u8> = Vec::new();
                std::mem::swap(&mut data, &mut self.current_data);
                self.files.insert(name, data);
            },
            None => {},
        }
    }

    /// Takes one message of the stream.
    pub fn on_message(&mut self, msg: RunMessage)
        requires
            old(self).wf(),
        ensures
            final(self).wf(),
            final(self).view_state() == run_step(old(self).view_state(), msg),
            msg matches RunMessage::Completed(c) ==> final(self).elapsed_nanos == c.elapsed_nanos,
            !(msg is Completed) ==> final(self).elapsed_nanos == old(self).elapsed_nanos,
    {
        let ghost pre = self.view_state();
        match msg {
            RunMessage::Started(_) => {},
            RunMessage::Output(chunk) => {
                if chunk.stream == 1 {
                    extend_bytes(&mut self.stdout, &chunk.data);
                } else {
                    extend_bytes(&mut self.stderr, &chunk.data);
                }
            },
            RunMessage::Completed(c) => {
                self.status = status_str(c.status);
                self.exit_code = c.exit_code;
                self.elapsed_nanos = c.elapsed_nanos;
            },
            RunMessage::File(fc) => {
                if !fc.name.as_str().is_empty() {
                    self.close_current_file();
                    self.current_file = Some(fc.name);
                }
                extend_bytes(&mut self.current_data, &fc.data);
            },
        }
        proof {
            assert(self.view_state() =~= run_step(pre, msg));
        }
    }

    /// The gathered result, once the stream has ended.
    pub fn finish(self) -> (r: AssembledRun)
        requires
            self.wf(),
        ensures
            r.files.wf(),
            r.files.map() == finished_files(self.view_state()),
            r.status@ == self.status@,
            r.exit_code == self.exit_code,
            r.stdout@ == self.stdout@,
            r.stderr@ == self.stderr@,
            r.elapsed_nanos == self.elapsed_nanos,
    {
        let mut s = self;
        s.close_current_file();
        AssembledRun {
            status: s.status,
            exit_code: s.exit_code,
            stdout: s.stdout,
            stderr: s.stderr,
            elapsed_nanos: s.elapsed_nanos,
            files: s.files,
        }
    }
}

/// The chunks of one file as the server sends it: the first piece under the
/// file's name, the later ones unnamed.
pub open spec fn chunks_of_file(name: Seq<char>, pieces: Seq<Seq<u8>>) -> Seq<(Seq<char>, Seq<u8>)> {
    Seq::new(pieces.len(), |k: int| (if k == 0 { name } else { Seq::<char>::empty() }, pieces[k]))
}

/// The pieces of a file, joined.
pub open spec fn join_pieces(pieces: Seq<Seq<u8>>) -> Seq<u8>
    decreases pieces.len(),
{
    if pieces.len() == 0 {
        Seq::empty()
    } else {
        join_pieces(pieces.drop_last()) + pieces.last()
    }
}

/// Applies file chunks one after the other.
pub open spec fn fold_chunks(s: RunAssemblyView, chunks: Seq<(Seq<char>, Seq<u8>)>) -> RunAssemblyView
    decreases chunks.len(),
{
    if chunks.len() == 0 {
        s
    } else {
        file_chunk_step(fold_chunks(s, chunks.drop_last()), chunks.last().0, chunks.last().1)
    }
}

/// The stream of several files sent one after the other.
pub open spec fn stream_of_files(files: Seq<(Seq<char>, Seq<Seq<u8>>)>) -> Seq<(Seq<char>, Seq<u8>)>
    decreases files.len(),
{
    if files.len() == 0 {
        Seq::empty()
    } else {
        stream_of_files(files.drop_last()) + chunks_of_file(files.last().0, files.last().1)
    }
}

/// The files that a client should end with: each sent file under its name,
/// a later file of the same name replacing an earlier one.
pub open spec fn expected_files(base: Map<Seq<char>, Seq<u8>>, files: Seq<(Seq<char>, Seq<Seq<u8>>)>) -> Map<Seq<char>, Seq<u8>>
    decreases files.len(),
{
    if files.len() == 0 {
        base
    } else {
        expected_files(base, files.drop_last()).insert(files.last().0, join_pieces(files.last().1))
    }
}

proof fn lemma_fold_append(s: RunAssemblyView, a: Seq<(Seq<char>, Seq<u8>)>, b: Seq<(Seq<char>, Seq<u8>)>)
    ensures
        fold_chunks(s, a + b) == fold_chunks(fold_chunks(s, a), b),
    decreases b.len(),
{
    if b.len() == 0 {
        assert(a + b =~= a);
    } else {
        lemma_fold_append(s, a, b.drop_last());
        assert((a + b).drop_last() =~= a + b.drop_last());
        assert((a + b).last() == b.last());
    }
}

/// Feeding the chunks of one file: the file becomes the current one and
/// holds its bytes; the previous current file, if any, is closed.
proof fn lemma_one_file(s: RunAssemblyView, name: Seq<char>, pieces: Seq<Seq<u8>>, k: int)
    requires
        name.len() > 0,
        1 <= k <= pieces.len(),
        s.current_file is Some || s.current_data.len() == 0,
    ensures
        fold_chunks(s, chunks_of_file(name, pieces).take(k)).files == finished_files(s),
        fold_chunks(s, chunks_of_file(name, pieces).take(k)).current_file == Some(name),
        fold_chunks(s, chunks_of_file(name, pieces).take(k)).current_data == join_pieces(pieces.take(k)),
        fold_chunks(s, chunks_of_file(name, pieces).take(k)).stdout == s.stdout,
        fold_chunks(s, chunks_of_file(name, pieces).take(k)).stderr == s.stderr,
        fold_chunks(s, chunks_of_file(name, pieces).take(k)).status == s.status,
        fold_chunks(s, chunks_of_file(name, pieces).take(k)).exit_code == s.exit_code,
    decreases k,
{
    let cs = chunks_of_file(name, pieces);
    assert(cs.take(k).drop_last() =~= cs.take(k - 1));
    assert(cs.take(k).last() == cs[k - 1]);
    assert(pieces.take(k).drop_last() =~= pieces.take(k - 1));
    if k == 1 {
        assert(cs.take(0) =~= Seq::<(Seq<char>, Seq<u8>)>::empty());
        assert(pieces.take(0) =~= Seq::<Seq<u8>>::empty());
        assert(pieces.take(1).drop_last() =~= Seq::<Seq<u8>>::empty());
        assert(pieces.take(1).last() == pieces[0]);
        assert(join_pieces(pieces.take(1).drop_last()) =~= Seq::<u8>::empty());
        assert(join_pieces(pieces.take(1)) =~= pieces[0]);
        if s.current_file is None {
            assert(s.current_data + pieces[0] =~= pieces[0]);
        }
    } else {
        lemma_one_file(s, name, pieces, k - 1);
    }
}

/// Files that the server streams one after the other, each in chunks whose
/// first carries the name, reach the client whole: once the stream ends the
/// client holds every file under its name with exactly its bytes.
pub proof fn lemma_streamed_files_reassemble(files: Seq<(Seq<char>, Seq<Seq<u8>>)>)
    requires
        forall|i: int| 0 <= i < files.len() ==> (#[trigger] files[i]).0.len() > 0 && files[i].1.len() > 0,
    ensures
        finished_files(fold_chunks(run_start_view(), stream_of_files(files))) == expected_files(
            Map::empty(),
            files,
        ),
    decreases files.len(),
{
    lemma_streamed_prefix(files, files.len() as int);
    assert(files.take(files.len() as int) =~= files);
}

proof fn lemma_streamed_prefix(files: Seq<(Seq<char>, Seq<Seq<u8>>)>, i: int)
    requires
        0 <= i <= files.len(),
        forall|j: int| 0 <= j < files.len() ==> (#[trigger] files[j]).0.len() > 0 && files[j].1.len() > 0,
    ensures
        finished_files(fold_chunks(run_start_view(), stream_of_files(files.take(i)))) == expected_files(
            Map::empty(),
            files.take(i),
        ),
        fold_chunks(run_start_view(), stream_of_files(files.take(i))).current_file is Some || fold_chunks(
            run_start_view(),
            stream_of_files(files.take(i)),
        ).current_data.len() == 0,
    decreases i,
{
    let init = run_start_view();
    if i == 0 {
        assert(files.take(0) =~= Seq::<(Seq<char>, Seq<Seq<u8>>)>::empty());
        assert(finished_files(init) =~= Map::<Seq<char>, Seq<u8>>::empty());
    } else {
        lemma_streamed_prefix(files, i - 1);
        let prev = files.take(i - 1);
        assert(files.take(i).drop_last() =~= prev);
        assert(files.take(i).last() == files[i - 1]);
        let (name, pieces) = files[i - 1];
        let s = fold_chunks(init, stream_of_files(prev));
        lemma_fold_append(init, stream_of_files(prev), chunks_of_file(name, pieces));
        lemma_one_file(s, name, pieces, pieces.len() as int);
        assert(chunks_of_file(name, pieces).take(pieces.len() as int) =~= chunks_of_file(name, pieces));
        assert(pieces.take(pieces.len() as int) =~= pieces);
    }
}

proof fn lemma_joined_chunks_of_file(name: Seq<char>, pieces: Seq<Seq<u8>>)
    ensures
        joined(chunks_of_file(name, pieces)) == join_pieces(pieces),
    decreases pieces.len(),
{
    if pieces.len() > 0 {
        let cs = chunks_of_file(name, pieces);
        assert(cs.drop_last() =~= chunks_of_file(name, pieces.drop_last()));
        lemma_joined_chunks_of_file(name, pieces.drop_last());
    } else {
        assert(chunks_of_file(name, pieces) =~= Seq::<(Seq<char>, Seq<u8>)>::empty());
    }
}

/// `GetFile` gives back the file: the client, which joins the bytes of all
/// chunks, ends with exactly the bytes that the server read, whatever the
/// pieces the reads returned.
pub proof fn lemma_download_round_trip(name: Seq<char>, reads: Seq<Seq<u8>>)
    requires
        forall|k: int| 0 <= k < reads.len() ==> (#[trigger] reads[k]).len() > 0,
    ensures
        joined(chunker_run(true, name, reads.push(Seq::empty()))) == join_pieces(reads),
{
    lemma_file_stream_chunks(name, reads);
    lemma_joined_chunks_of_file(name, sent_pieces(reads));
    if reads.len() == 0 {
        assert(sent_pieces(reads).drop_last() =~= Seq::<Seq<u8>>::empty());
        assert(sent_pieces(reads).last() == Seq::<u8>::empty());
        assert(join_pieces(Seq::<Seq<u8>>::empty()) == Seq::<u8>::empty());
        assert(join_pieces(sent_pieces(reads)) =~= Seq::<u8>::empty());
    }
}

/// An output file that a `Run` streams reaches the client whole: starting
/// from a fresh result, the client holds the file under its name with
/// exactly the bytes that the server read.
pub proof fn lemma_run_output_file_round_trip(name: Seq<char>, reads: Seq<Seq<u8>>)
    requires
        name.len() > 0,
        forall|k: int| 0 <= k < reads.len() ==> (#[trigger] reads[k]).len() > 0,
    ensures
        finished_files(fold_chunks(run_start_view(), chunker_run(true, name, reads.push(Seq::empty()))))
            == Map::<Seq<char>, Seq<u8>>::empty().insert(name, join_pieces(reads)),
{
    lemma_file_stream_chunks(name, reads);
    let pieces = sent_pieces(reads);
    let files = seq![(name, pieces)];
    lemma_streamed_files_reassemble(files);
    assert(files.drop_last() =~= Seq::<(Seq<char>, Seq<Seq<u8>>)>::empty());
    assert(files.last() == (name, pieces));
    assert(stream_of_files(files.drop_last()) == Seq::<(Seq<char>, Seq<u8>)>::empty());
    assert(stream_of_files(files) =~= chunks_of_file(name, pieces));
    assert(expected_files(Map::empty(), files.drop_last()) == Map::<Seq<char>, Seq<u8>>::empty());
    if reads.len() == 0 {
        assert(pieces.drop_last() =~= Seq::<Seq<u8>>::empty());
        assert(pieces.last() == Seq::<u8>::empty());
        assert(join_pieces(Seq::<Seq<u8>>::empty()) == Seq::<u8>::empty());
        assert(join_pieces(pieces) =~= Seq::<u8>::empty());
    }
}

} // verus!

verus! {

/// What a client gathers of one pipeline step.
pub struct StepResult {
    pub(crate) status: String,
    pub(crate) exit_code: i32,
    pub(crate) elapsed_nanos: u64,
    pub(crate) files: StrMap<Vec<u8>>,
}

pub struct StepResultView {
    pub status: Seq<char>,
    pub exit_code: i32,
    pub elapsed_nanos: u64,
    pub files: Map<Seq<char>, Seq<u8>>,
}

impl View for StepResult {
    type V = StepResultView;

    closed spec fn view(&self) -> StepResultView {
        StepResultView { status: self.status@, exit_code: self.exit_code, elapsed_nanos: self.elapsed_nanos, files: self.files.map() }
    }
}

/// The result of a step of which nothing is known yet.
pub open spec fn default_result() -> StepResultView {
    StepResultView { status: "unspecified"@, exit_code: -1i32, elapsed_nanos: 0, files: Map::empty() }
}

impl StepResult {
    #[verifier::type_invariant]
    spec fn files_wf(&self) -> bool {
        self.files.wf()
    }

    pub fn new_default() -> (r: StepResult)
        ensures
            r@ == default_result(),
    {
        StepResult { status: status_str(0), exit_code: -1, elapsed_nanos: 0, files: StrMap::new() }
    }

    /// The step's final status, by name.
    pub fn status(&self) -> (s: &String)
        ensures
            s@ == self@.status,
    {
        &self.status
    }

    pub fn exit_code(&self) -> (c: i32)
        ensures
            c == self@.exit_code,
    {
        self.exit_code
    }

    pub fn elapsed_nanos(&self) -> (n: u64)
        ensures
            n == self@.elapsed_nanos,
    {
        self.elapsed_nanos
    }

    /// The step's output files.
    pub fn files(&self) -> (f: &StrMap<Vec<u8>>)
        ensures
            f.wf(),
            f.map() == self@.files,
    {
        proof {
            use_type_invariant(self);
        }
        &self.files
    }

    /// The result with one more file, replacing one of the same name.
    pub fn add_file(&mut self, name: String, data: Vec<u8>)
        ensures
            final(self)@ == with_file(old(self)@, (name@, data@)),
    {
        proof {
            use_type_invariant(&*self);
        }
        let mut files: StrMap<Vec<u8>> = StrMap::new();
        std::mem::swap(&mut files, &mut self.files);
        files.insert(name, data);
        self.files = files;
    }

    /// The result after the step's completion report.
    pub fn set_completion(&mut self, status: String, exit_code: i32, elapsed_nanos: u64)
        ensures
            final(self)@ == (StepResultView { status: status@, exit_code, elapsed_nanos, ..old(self)@ }),
    {
        proof {
            use_type_invariant(&*self);
        }
        self.status = status;
        self.exit_code = exit_code;
        self.elapsed_nanos = elapsed_nanos;
    }
}

/// The end of a pipeline as reported to the client.
#[derive(Debug)]
pub struct PipelineCompleted {
    pub all_succeeded: bool,
    pub elapsed_nanos: u64,
    pub skipped_steps: Vec<String>,
}

/// What happened to one step, as the pipeline stream reports it.
#[derive(Debug)]
pub enum StepDetail {
    Started(RunStarted),
    Output(OutputChunk),
    Completed(RunCompleted),
    File(FileChunk),
}

/// One message of the `RunPipeline` stream.
#[derive(Debug)]
pub enum PipelineMessage {
    Started(Vec<String>),
    Step(String, StepDetail),
    Completed(PipelineCompleted),
}

/// What the client has gathered of a pipeline so far: results by step, and
/// the file being gathered for each step.
pub struct PipelineAssemblyView {
    pub steps: Map<Seq<char>, StepResultView>,
    pub current: Map<Seq<char>, (Seq<char>, Seq<u8>)>,
    pub all_succeeded: bool,
    pub elapsed_nanos: u64,
    pub skipped: Seq<Seq<char>>,
}

pub open spec fn result_or_default(steps: Map<Seq<char>, StepResultView>, sid: Seq<char>) -> StepResultView {
    if steps.contains_key(sid) { steps[sid] } else { default_result() }
}

/// The result with one more file.
pub open spec fn with_file(r: StepResultView, file: (Seq<char>, Seq<u8>)) -> StepResultView {
    StepResultView { files: r.files.insert(file.0, file.1), ..r }
}

/// Closes the file being gathered for step `sid`, if any, into its result.
pub open spec fn finalize_view(s: PipelineAssemblyView, sid: Seq<char>) -> PipelineAssemblyView {
    if s.current.contains_key(sid) {
        PipelineAssemblyView {
            steps: s.steps.insert(sid, with_file(result_or_default(s.steps, sid), s.current[sid])),
            current: s.current.remove(sid),
            ..s
        }
    } else {
        s
    }
}

/// How one message changes what the client has gathered.
pub open spec fn pipeline_step(s: PipelineAssemblyView, m: PipelineMessage) -> PipelineAssemblyView {
    match m {
        PipelineMessage::Started(_) => s,
        PipelineMessage::Step(sid, d) => match d {
            StepDetail::Started(_) => if s.steps.contains_key(sid@) {
                s
            } else {
                PipelineAssemblyView { steps: s.steps.insert(sid@, default_result()), ..s }
            },
            StepDetail::Output(_) => s,
            StepDetail::Completed(c) => {
                let t = finalize_view(s, sid@);
                let r = result_or_default(t.steps, sid@);
                PipelineAssemblyView {
                    steps: t.steps.insert(
                        sid@,
                        StepResultView { status: status_name(c.status), exit_code: c.exit_code, elapsed_nanos: c.elapsed_nanos, ..r },
                    ),
                    ..t
                }
            },
            StepDetail::File(fc) => if fc.name@.len() > 0 {
                let t = finalize_view(s, sid@);
                PipelineAssemblyView { current: t.current.insert(sid@, (fc.name@, fc.data@)), ..t }
            } else if s.current.contains_key(sid@) {
                PipelineAssemblyView {
                    current: s.current.insert(sid@, (s.current[sid@].0, s.current[sid@].1 + fc.data@)),
                    ..s
                }
            } else {
                s
            },
        },
        PipelineMessage::Completed(c) => PipelineAssemblyView {
            steps: finish_all_steps(s),
            current: Map::empty(),
            all_succeeded: c.all_succeeded,
            elapsed_nanos: c.elapsed_nanos,
            skipped: c.skipped_steps@.map_values(|x: String| x@),
        },
    }
}

/// The results once every file being gathered is closed.
pub open spec fn finish_all_steps(s: PipelineAssemblyView) -> Map<Seq<char>, StepResultView> {
    Map::new(
        |k: Seq<char>| s.steps.contains_key(k) || s.current.contains_key(k),
        |k: Seq<char>| if s.current.contains_key(k) {
            with_file(result_or_default(s.steps, k), s.current[k])
        } else {
            s.steps[k]
        },
    )
}

/// Closes the file being gathered for step `sid`, if any, into the step's
/// result (created when the step had none).
pub fn finalize_file(sid: &str, current_files: &mut StrMap<(String, Vec<u8>)>, step_results: &mut StrMap<StepResult>)
    requires
        old(current_files).wf(),
        old(step_results).wf(),
    ensures
        final(current_files).wf(),
        final(step_results).wf(),
        ({
            let s = PipelineAssemblyView {
                steps: old(step_results).map(),
                current: old(current_files).map(),
                all_succeeded: false,
                elapsed_nanos: 0,
                skipped: Seq::empty(),
            };
            &&& final(step_results).map() == finalize_view(s, sid@).steps
            &&& final(current_files).map() == finalize_view(s, sid@).current
        }),
{
    match current_files.remove(sid) {
        Some((fname, data)) => {
            let mut sr = match step_results.remove(sid) {
                Some(r) => r,
                None => StepResult::new_default(),
            };
            sr.add_file(fname, data);
            step_results.insert(sid.to_owned(), sr);
        },
        None => {},
    }
}


/// The state of a pipeline's gathering before any message.
pub open spec fn pipeline_start_view() -> PipelineAssemblyView {
    PipelineAssemblyView {
        steps: Map::empty(),
        current: Map::empty(),
        all_succeeded: false,
        elapsed_nanos: 0,
        skipped: Seq::empty(),
    }
}

/// The results once the files of the steps listed in `done` are closed.
pub open spec fn finish_listed(s: PipelineAssemblyView, done: Seq<Seq<char>>) -> Map<Seq<char>, StepResultView> {
    Map::new(
        |k: Seq<char>| s.steps.contains_key(k) || (s.current.contains_key(k) && done.contains(k)),
        |k: Seq<char>| if s.current.contains_key(k) && done.contains(k) {
            with_file(result_or_default(s.steps, k), s.current[k])
        } else {
            s.steps[k]
        },
    )
}

/// Applies pipeline messages one after the other.
pub open spec fn pipeline_fold(s: PipelineAssemblyView, msgs: Seq<PipelineMessage>) -> PipelineAssemblyView
    decreases msgs.len(),
{
    if msgs.len() == 0 {
        s
    } else {
        pipeline_step(pipeline_fold(s, msgs.drop_last()), msgs.last())
    }
}

/// `msgs` stream one file of step `sid`: its pieces in order, the first
/// one under the file's name.
pub open spec fn is_step_file_stream(
    msgs: Seq<PipelineMessage>,
    sid: Seq<char>,
    name: Seq<char>,
    pieces: Seq<Seq<u8>>,
) -> bool {
    &&& msgs.len() == pieces.len()
    &&& forall|k: int|
        0 <= k < msgs.len() ==> (#[trigger] msgs[k] matches PipelineMessage::Step(id, StepDetail::File(fc)) && id@
            == sid && fc.name@ == (if k == 0 {
            name
        } else {
            Seq::<char>::empty()
        }) && fc.data@ == pieces[k])
}

proof fn lemma_step_file_prefix(
    s: PipelineAssemblyView,
    msgs: Seq<PipelineMessage>,
    sid: Seq<char>,
    name: Seq<char>,
    pieces: Seq<Seq<u8>>,
    k: int,
)
    requires
        name.len() > 0,
        is_step_file_stream(msgs, sid, name, pieces),
        1 <= k <= msgs.len(),
    ensures
        pipeline_fold(s, msgs.take(k)).current == finalize_view(s, sid).current.insert(
            sid,
            (name, join_pieces(pieces.take(k))),
        ),
        pipeline_fold(s, msgs.take(k)).steps == finalize_view(s, sid).steps,
    decreases k,
{
    assert(msgs.take(k).drop_last() =~= msgs.take(k - 1));
    assert(msgs.take(k).last() == msgs[k - 1]);
    assert(pieces.take(k).drop_last() =~= pieces.take(k - 1));
    assert(pieces.take(k).last() == pieces[k - 1]);
    let m = msgs[k - 1];
    let prev = if k == 1 { s } else { pipeline_fold(s, msgs.take(k - 1)) };
    if k == 1 {
        assert(msgs.take(0) =~= Seq::<PipelineMessage>::empty());
        assert(pipeline_fold(s, msgs.take(0)) == s);
        assert(pieces.take(0) =~= Seq::<Seq<u8>>::empty());
        assert(join_pieces(pieces.take(0)) == Seq::<u8>::empty());
        assert(join_pieces(pieces.take(1)) =~= pieces[0]);
    } else {
        lemma_step_file_prefix(s, msgs, sid, name, pieces, k - 1);
    }
    assert(pipeline_fold(s, msgs.take(k)) == pipeline_step(prev, m));
    match m {
        PipelineMessage::Step(id, StepDetail::File(fc)) => {
            assert(id@ == sid);
            assert(fc.data@ == pieces[k - 1]);
            if k == 1 {
                assert(fc.name@ == name);
                assert(pipeline_step(prev, m).current =~= finalize_view(s, sid).current.insert(
                    sid,
                    (name, join_pieces(pieces.take(k))),
                ));
            } else {
                assert(fc.name@ == Seq::<char>::empty());
                assert(prev.current.contains_key(sid));
                assert(pipeline_step(prev, m).current =~= finalize_view(s, sid).current.insert(
                    sid,
                    (name, join_pieces(pieces.take(k))),
                ));
            }
        },
        _ => {
            assert(false);
        },
    }
}

/// The result of a step holds each file that the step's stream sent: once
/// a step's file has been streamed in pieces, the first named, the step's
/// result, when the pipeline completes, holds the file under its name with
/// exactly the joined pieces.
pub proof fn lemma_step_file_reassembled(
    s: PipelineAssemblyView,
    msgs: Seq<PipelineMessage>,
    sid: Seq<char>,
    name: Seq<char>,
    pieces: Seq<Seq<u8>>,
    done: PipelineCompleted,
)
    requires
        name.len() > 0,
        pieces.len() > 0,
        is_step_file_stream(msgs, sid, name, pieces),
    ensures
        pipeline_step(pipeline_fold(s, msgs), PipelineMessage::Completed(done)).steps.contains_key(sid),
        pipeline_step(pipeline_fold(s, msgs), PipelineMessage::Completed(done)).steps[sid].files[name]
            == join_pieces(pieces),
{
    lemma_step_file_prefix(s, msgs, sid, name, pieces, msgs.len() as int);
    assert(msgs.take(msgs.len() as int) =~= msgs);
    assert(pieces.take(pieces.len() as int) =~= pieces);
}

/// Messages of other steps leave a step's gathering alone: its result and
/// the file being gathered for it are unchanged.
pub proof fn lemma_other_steps_do_not_interfere(
    s: PipelineAssemblyView,
    other: String,
    d: StepDetail,
    sid: Seq<char>,
)
    requires
        other@ != sid,
    ensures
        pipeline_step(s, PipelineMessage::Step(other, d)).steps.contains_key(sid) == s.steps.contains_key(sid),
        s.steps.contains_key(sid) ==> pipeline_step(s, PipelineMessage::Step(other, d)).steps[sid] == s.steps[sid],
        pipeline_step(s, PipelineMessage::Step(other, d)).current.contains_key(sid) == s.current.contains_key(sid),
        s.current.contains_key(sid) ==> pipeline_step(s, PipelineMessage::Step(other, d)).current[sid]
            == s.current[sid],
{
}

/// The pipeline's completion message decides the pipeline's outcome on the
/// client: whatever was gathered before, the gathered `all_succeeded`,
/// elapsed time and skipped steps become those the message carries, and
/// no file is left being gathered.
pub proof fn lemma_completion_sets_pipeline_outcome(s: PipelineAssemblyView, c: PipelineCompleted)
    ensures
        pipeline_step(s, PipelineMessage::Completed(c)).all_succeeded == c.all_succeeded,
        pipeline_step(s, PipelineMessage::Completed(c)).elapsed_nanos == c.elapsed_nanos,
        pipeline_step(s, PipelineMessage::Completed(c)).skipped.len() == c.skipped_steps@.len(),
        forall|i: int|
            0 <= i < c.skipped_steps@.len() ==> #[trigger] pipeline_step(s, PipelineMessage::Completed(c)).skipped[i]
                == c.skipped_steps@[i]@,
        pipeline_step(s, PipelineMessage::Completed(c)).current.dom().is_empty(),
{
}

/// A step's completion message decides the step's outcome on the client:
/// whatever was gathered before, the step then has a result whose exit code
/// and elapsed time are those the message carries, whose status is the
/// name of the carried status (`completed` for 1), and which keeps every
/// file the step had gathered.
pub proof fn lemma_step_completion_sets_step_outcome(s: PipelineAssemblyView, sid: String, c: RunCompleted)
    ensures
        pipeline_step(s, PipelineMessage::Step(sid, StepDetail::Completed(c))).steps.contains_key(sid@),
        pipeline_step(s, PipelineMessage::Step(sid, StepDetail::Completed(c))).steps[sid@].exit_code == c.exit_code,
        pipeline_step(s, PipelineMessage::Step(sid, StepDetail::Completed(c))).steps[sid@].elapsed_nanos
            == c.elapsed_nanos,
        c.status == 1 ==> pipeline_step(s, PipelineMessage::Step(sid, StepDetail::Completed(c))).steps[sid@].status
            == "completed"@,
        s.steps.contains_key(sid@) ==> forall|f: Seq<char>|
            #[trigger] s.steps[sid@].files.contains_key(f) ==> pipeline_step(
                s,
                PipelineMessage::Step(sid, StepDetail::Completed(c)),
            ).steps[sid@].files.contains_key(f),
{
}

/// Gathers the `RunPipeline` stream into results by step.
pub struct PipelineAssembler {
    pub steps: StrMap<StepResult>,
    pub current: StrMap<(String, Vec<u8>)>,
    pub all_succeeded: bool,
    pub elapsed_nanos: u64,
    pub skipped_steps: Vec<String>,
}

impl PipelineAssembler {
    pub open spec fn view_state(&self) -> PipelineAssemblyView {
        PipelineAssemblyView {
            steps: self.steps.map(),
            current: self.current.map(),
            all_succeeded: self.all_succeeded,
            elapsed_nanos: self.elapsed_nanos,
            skipped: self.skipped_steps@.map_values(|x: String| x@),
        }
    }

    pub open spec fn wf(&self) -> bool {
        self.steps.wf() && self.current.wf()
    }

    pub fn new() -> (a: PipelineAssembler)
        ensures
            a.wf(),
            a.view_state() == pipeline_start_view(),
    {
        let a = PipelineAssembler {
            steps: StrMap::new(),
            current: StrMap::new(),
            all_succeeded: false,
            elapsed_nanos: 0,
            skipped_steps: Vec::new(),
        };
        proof {
            assert(a.view_state().skipped =~= Seq::<Seq<char>>::empty());
        }
        a
    }

    /// Closes every file still being gathered into its step's result.
    fn finish_all(&mut self)
        requires
            old(self).wf(),
        ensures
            final(self).wf(),
            final(self).steps.map() == finish_all_steps(old(self).view_state()),
            final(self).current.map() == Map::<Seq<char>, (Seq<char>, Seq<u8>)>::empty(),
            final(self).all_succeeded == old(self).all_succeeded,
            final(self).elapsed_nanos == old(self).elapsed_nanos,
            final(self).skipped_steps@ == old(self).skipped_steps@,
    {
        let ghost s0 = self.view_state();
        let ghost sk = self.skipped_steps@;
        let ks = self.current.key_list();
        let ghost keys = ks@.map_values(|x: String| x@);
        proof {
            assert forall|k: Seq<char>| keys.contains(k) <==> #[trigger] s0.current.contains_key(k) by {
                assert(keys.contains(k) <==> self.current.map().contains_key(k));
            }
        }
        let mut i: usize = 0;
        while i < ks.len()
            invariant
                i <= ks@.len(),
                keys == ks@.map_values(|x: String| x@),
                keys.no_duplicates(),
                forall|k: Seq<char>| keys.contains(k) <==> #[trigger] s0.current.contains_key(k),
                self.wf(),
                self.steps.map() == finish_listed(s0, keys.take(i as int)),
                forall|k: Seq<char>| #[trigger] self.current.map().contains_key(k) <==> (s0.current.contains_key(k)
                    && !keys.take(i as int).contains(k)),
                forall|k: Seq<char>| #[trigger] self.current.map().contains_key(k) ==> self.current.map()[k]
                    == s0.current[k],
                self.all_succeeded == s0.all_succeeded,
                self.elapsed_nanos == s0.elapsed_nanos,
                self.skipped_steps@ == sk,
            decreases ks@.len() - i,
        {
            let ghost done = keys.take(i as int);
            let ghost k = keys[i as int];
            let ghost cur = self.current.map();
            let ghost st = self.steps.map();
            proof {
                assert(keys.take(i + 1) =~= done.push(k));
                assert(!done.contains(k)) by {
                    if done.contains(k) {
                        let j = choose|j: int| 0 <= j < done.len() && done[j] == k;
                        assert(keys[j] == keys[i as int]);
                    }
                }
                assert(s0.current.contains_key(k)) by {
                    assert(keys[i as int] == k);
                }
                assert(ks@[i as int]@ == k);
            }
            finalize_file(ks[i].as_str(), &mut self.current, &mut self.steps);
            proof {
                let sv = PipelineAssemblyView {
                    steps: st,
                    current: cur,
                    all_succeeded: false,
                    elapsed_nanos: 0,
                    skipped: Seq::empty(),
                };
                assert(cur.contains_key(k));
                assert(finalize_view(sv, k).steps == st.insert(k, with_file(result_or_default(st, k), cur[k])));
                assert(result_or_default(st, k) == result_or_default(s0.steps, k));
                assert(self.steps.map() =~= finish_listed(s0, keys.take(i + 1))) by {
                    assert forall|x: Seq<char>| done.push(k).contains(x) <==> (done.contains(x) || x == k) by {
                        if done.push(k).contains(x) {
                            let j = choose|j: int| 0 <= j < done.push(k).len() && done.push(k)[j] == x;
                            if j < done.len() {
                                assert(done[j] == x);
                            }
                        }
                        if done.contains(x) {
                            let j = choose|j: int| 0 <= j < done.len() && done[j] == x;
                            assert(done.push(k)[j] == x);
                        }
                        if x == k {
                            assert(done.push(k)[done.len() as int] == k);
                        }
                    }
                }
                assert forall|x: Seq<char>| #[trigger] self.current.map().contains_key(x) <==> (s0.current.contains_key(x)
                    && !keys.take(i + 1).contains(x)) by {
                    let nxt = keys.take(i + 1);
                    if nxt.contains(x) && x != k {
                        let j = choose|j: int| 0 <= j < nxt.len() && nxt[j] == x;
                        assert(done[j] == x);
                    }
                    if done.contains(x) {
                        let j = choose|j: int| 0 <= j < done.len() && done[j] == x;
                        assert(keys.take(i + 1)[j] == x);
                    }
                    if x == k {
                        assert(keys.take(i + 1)[i as int] == k);
                    }
                }
            }
            i = i + 1;
        }
        proof {
            assert(keys.take(ks@.len() as int) =~= keys);
            assert(self.steps.map() =~= finish_all_steps(s0));
            assert(self.current.map() =~= Map::<Seq<char>, (Seq<char>, Seq<u8>)>::empty());
        }
    }

    /// Takes one message of the stream.
    pub fn on_message(&mut self, msg: PipelineMessage)
        requires
            old(self).wf(),
        ensures
            final(self).wf(),
            final(self).view_state() == pipeline_step(old(self).view_state(), msg),
    {
        let ghost pre = self.view_state();
        match msg {
            PipelineMessage::Started(_) => {},
            PipelineMessage::Step(sid, detail) => {
                match detail {
                    StepDetail::Started(_) => {
                        if !self.steps.contains_key(sid.as_str()) {
                            self.steps.insert(sid, StepResult::new_default());
                        }
                        proof {
                            assert(self.view_state() =~= pipeline_step(pre, msg));
                        }
                    },
                    StepDetail::Output(_) => {},
                    StepDetail::Completed(c) => {
                        finalize_file(sid.as_str(), &mut self.current, &mut self.steps);
                        let ghost t = self.steps.map();
                        let mut sr = match self.steps.remove(sid.as_str()) {
                            Some(r) => r,
                            None => StepResult::new_default(),
                        };
                        sr.set_completion(status_str(c.status), c.exit_code, c.elapsed_nanos);
                        let ghost mid = self.steps.map();
                        self.steps.insert(sid, sr);
                        proof {
                            assert(mid.insert(sid@, sr@) =~= self.steps.map());
                            assert(mid.insert(sid@, sr@) =~= t.insert(sid@, sr@));
                            assert(self.view_state() =~= pipeline_step(pre, msg));
                        }
                    },
                    StepDetail::File(fc) => {
                        if !fc.name.as_str().is_empty() {
                            finalize_file(sid.as_str(), &mut self.current, &mut self.steps);
                            self.current.insert(sid, (fc.name, fc.data));
                            proof {
                                assert(self.view_state() =~= pipeline_step(pre, msg));
                            }
                        } else {
                            let ghost before = self.current.map();
                            match self.current.remove(sid.as_str()) {
                                Some((name, data)) => {
                                    let mut data = data;
                                    extend_bytes(&mut data, &fc.data);
                                    self.current.insert(sid, (name, data));
                                    proof {
                                        assert(self.current.map() =~= before.insert(
                                            sid@,
                                            (before[sid@].0, before[sid@].1 + fc.data@),
                                        ));
                                    }
                                },
                                None => {
                                    proof {
                                        assert(self.current.map() =~= before);
                                    }
                                },
                            }
                        }
                    },
                }
            },
            PipelineMessage::Completed(c) => {
                self.finish_all();
                self.all_succeeded = c.all_succeeded;
                self.elapsed_nanos = c.elapsed_nanos;
                self.skipped_steps = c.skipped_steps;
                proof {
                    assert(self.view_state() =~= pipeline_step(pre, msg));
                }
            },
        }
        proof {
            assert(self.view_state() =~= pipeline_step(pre, msg));
        }
    }
}

} // verus!
