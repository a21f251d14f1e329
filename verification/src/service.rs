use vstd::prelude::*;

use crate::assemble::{RunMessage, StepDetail};
use crate::config::{unknown_model_error, ServiceConfig};
use crate::error::{ErrorView, RunnerError, StatusCode};
use crate::executor::StreamEvent;
use crate::pipeline::{first_input_problem, lemma_input_refusals_are_invalid_arguments, validate_inputs, InputFile};
use crate::status::{status_completion, RunCompleted, RunStatus};
use crate::validation::{component_check, validate_file_root};

verus! {

/// What checking a `Run` request answers: the model first, then the file
/// root.
pub open spec fn run_check(cfg: ServiceConfig, model: Seq<char>, file_root: Seq<char>) -> Option<ErrorView> {
    if !cfg.allowlist.allows(model) {
        Some(unknown_model_error(model))
    } else {
        component_check(file_root, "file_root"@)
    }
}

/// What checking a `RunSync` request answers: as for `Run`, then each
/// inline input's name in order.
pub open spec fn run_sync_check(
    cfg: ServiceConfig,
    model: Seq<char>,
    file_root: Seq<char>,
    inputs: Seq<InputFile>,
) -> Option<ErrorView> {
    if run_check(cfg, model, file_root) is Some {
        run_check(cfg, model, file_root)
    } else {
        first_input_problem(inputs, 0)
    }
}

/// A `Run` or `RunSync` request is refused only with `InvalidArgument`: an
/// unknown model, a bad file root, or a bad input name.
pub proof fn lemma_run_refusals_are_invalid_arguments(
    cfg: ServiceConfig,
    model: Seq<char>,
    file_root: Seq<char>,
    inputs: Seq<InputFile>,
)
    ensures
        run_check(cfg, model, file_root) matches Some(e) ==> e.code == StatusCode::InvalidArgument,
        run_sync_check(cfg, model, file_root, inputs) matches Some(e) ==> e.code == StatusCode::InvalidArgument,
{
    lemma_input_refusals_are_invalid_arguments(inputs);
}

/// Checks a `Run` request: the executable to start, or the error that the
/// request is answered with.
pub fn check_run(cfg: &ServiceConfig, model: &str, file_root: &str) -> (res: Result<String, RunnerError>)
    ensures
        res is Ok <==> run_check(*cfg, model@, file_root@) is None,
        res matches Ok(exe) ==> exe@ == model@ + ".exe"@,
        res matches Err(e) ==> run_check(*cfg, model@, file_root@) == Some(e@),
{
    let exe = match cfg.allowlist.resolve_executable(model) {
        Ok(exe) => exe,
        Err(e) => {
            return Err(e);
        },
    };
    match validate_file_root(file_root) {
        Ok(()) => Ok(exe),
        Err(e) => Err(e),
    }
}

/// Checks a `RunSync` request: the executable to start, or the error that
/// the request is answered with.
pub fn check_run_sync(cfg: &ServiceConfig, model: &str, file_root: &str, inputs: &Vec<InputFile>) -> (res: Result<
    String,
    RunnerError,
>)
    ensures
        res is Ok <==> run_sync_check(*cfg, model@, file_root@, inputs@) is None,
        res matches Ok(exe) ==> exe@ == model@ + ".exe"@,
        res matches Err(e) ==> run_sync_check(*cfg, model@, file_root@, inputs@) == Some(e@),
{
    let exe = match check_run(cfg, model, file_root) {
        Ok(exe) => exe,
        Err(e) => {
            return Err(e);
        },
    };
    match validate_inputs(inputs) {
        Ok(()) => Ok(exe),
        Err(e) => Err(e),
    }
}

/// The answer to a `Run` or `RunPipeline` while another one is active.
pub open spec fn busy_error() -> ErrorView {
    ErrorView { code: StatusCode::FailedPrecondition, message: "another Run or RunPipeline is active"@ }
}

/// Refuses a `Run` or `RunPipeline` because another one is active.
pub fn exec_busy() -> (e: RunnerError)
    ensures
        e@ == busy_error(),
{
    RunnerError::new(StatusCode::FailedPrecondition, "another Run or RunPipeline is active".to_owned())
}

/// The deadline of a whole pipeline, in seconds: the one requested, else
/// the default timeout of a run for each of its steps.
pub fn pipeline_timeout(cfg: &ServiceConfig, requested: Option<u32>, step_count: usize) -> (secs: u64)
    requires
        requested is Some || cfg.default_timeout * step_count <= u64::MAX,
    ensures
        secs == match requested {
            Some(s) => s as int,
            None => cfg.default_timeout * step_count,
        },
{
    match requested {
        Some(s) => s as u64,
        None => cfg.default_timeout * (step_count as u64),
    }
}

/// What a step's task has learned of its run so far.
pub struct StepOutcome {
    pub files: Vec<String>,
    pub success: bool,
    pub completed_sent: bool,
}

/// The end of a step's task, as the scheduler receives it.
#[derive(Debug)]
pub struct StepDone {
    pub id: String,
    pub success: bool,
    pub files: Vec<String>,
}

/// A run succeeds when it completed with exit code 0.
pub open spec fn run_succeeded(c: RunCompleted) -> bool {
    c.status == RunStatus::Completed.spec_code() && c.exit_code == 0
}

impl StepOutcome {
    /// Nothing learned yet: no files, no success, no completion reported.
    pub fn new() -> (o: StepOutcome)
        ensures
            o.files@.len() == 0,
            !o.success,
            !o.completed_sent,
    {
        StepOutcome { files: Vec::new(), success: false, completed_sent: false }
    }

    /// Takes one event of the step's run: what to report for the step, and
    /// the output files to stream after it (those of a completion).
    pub fn on_event(&mut self, event: StreamEvent) -> (r: (StepDetail, Vec<String>))
        ensures
            match event {
                StreamEvent::Output(chunk) => {
                    &&& r.0 == StepDetail::Output(chunk)
                    &&& r.1@.len() == 0
                    &&& *final(self) == *old(self)
                },
                StreamEvent::Completed(c, files) => {
                    &&& r.0 == StepDetail::Completed(c)
                    &&& r.1@ == files@
                    &&& final(self).success == run_succeeded(c)
                    &&& final(self).completed_sent
                    &&& final(self).files@ == files@
                },
            },
    {
        match event {
            StreamEvent::Output(chunk) => (StepDetail::Output(chunk), Vec::new()),
            StreamEvent::Completed(c, files) => {
                self.success = c.status == RunStatus::Completed.code() && c.exit_code == 0;
                self.completed_sent = true;
                self.files = files.clone();
                (StepDetail::Completed(c), files)
            },
        }
    }

    /// The pipeline's deadline cancels the step: once its completion was
    /// reported nothing more happens; before that, its run is stopped and
    /// the step is reported timed out.
    pub fn on_cancel(&self) -> (r: Option<RunCompleted>)
        ensures
            self.completed_sent ==> r is None,
            !self.completed_sent ==> (r matches Some(c) && c.status == RunStatus::TimedOut.spec_code() && c.exit_code
                == -1 && c.elapsed_nanos == 0 && c.output_files@.len() == 0),
    {
        if self.completed_sent {
            None
        } else {
            Some(status_completion(RunStatus::TimedOut))
        }
    }

    /// What the scheduler receives when the step's task ends.
    pub fn into_done(self, id: String) -> (d: StepDone)
        ensures
            d.id == id,
            d.success == self.success,
            d.files@ == self.files@,
    {
        StepDone { id, success: self.success, files: self.files }
    }
}


/// What the `Run` stream has relayed of a run: the output files that its
/// completion named, to be streamed once the run's events end.
pub struct RunRelay {
    pub output_files: Vec<String>,
    pub completed: bool,
}

impl RunRelay {
    pub fn new() -> (r: RunRelay)
        ensures
            r.output_files@.len() == 0,
            !r.completed,
    {
        RunRelay { output_files: Vec::new(), completed: false }
    }

    /// Takes one event of the run: the message to send to the client.
    pub fn on_event(&mut self, event: StreamEvent) -> (m: RunMessage)
        ensures
            match event {
                StreamEvent::Output(chunk) => m == RunMessage::Output(chunk) && *final(self) == *old(self),
                StreamEvent::Completed(c, files) => {
                    &&& m == RunMessage::Completed(c)
                    &&& final(self).output_files@ == files@
                    &&& final(self).completed
                },
            },
    {
        match event {
            StreamEvent::Output(chunk) => RunMessage::Output(chunk),
            StreamEvent::Completed(c, files) => {
                self.output_files = files;
                self.completed = true;
                RunMessage::Completed(c)
            },
        }
    }
}

/// The files that a step receives from the steps it depends on, as
/// (dependency, file name) pairs: dependency by dependency in order, each
/// one's output files in order (a later file of the same name replaces an
/// earlier one). A dependency with no recorded outputs gives none.
pub open spec fn dependency_copies(deps: Seq<usize>, outputs: Seq<Option<Seq<Seq<char>>>>) -> Seq<(usize, Seq<char>)>
    decreases deps.len(),
{
    if deps.len() == 0 {
        Seq::empty()
    } else {
        let d = deps.last();
        dependency_copies(deps.drop_last(), outputs) + match outputs[d as int] {
            Some(files) => files.map_values(|f: Seq<char>| (d, f)),
            None => Seq::empty(),
        }
    }
}

/// The view of the recorded outputs of each step.
pub open spec fn outputs_view(outputs: Seq<Option<Vec<String>>>) -> Seq<Option<Seq<Seq<char>>>> {
    outputs.map_values(
        |o: Option<Vec<String>>| match o {
            Some(v) => Some(v@.map_values(|s: String| s@)),
            None => None,
        },
    )
}

/// The files to copy into a step's directory before it runs, from the
/// outputs recorded for the steps it depends on.
pub fn dependency_files(deps: &Vec<usize>, outputs: &Vec<Option<Vec<String>>>) -> (copies: Vec<(usize, String)>)
    requires
        forall|k: int| 0 <= k < deps@.len() ==> (#[trigger] deps@[k]) < outputs@.len(),
    ensures
        copies@.map_values(|c: (usize, String)| (c.0, c.1@)) == dependency_copies(deps@, outputs_view(outputs@)),
{
    let ghost ov = outputs_view(outputs@);
    let mut copies: Vec<(usize, String)> = Vec::new();
    let mut i: usize = 0;
    while i < deps.len()
        invariant
            i <= deps@.len(),
            ov == outputs_view(outputs@),
            forall|k: int| 0 <= k < deps@.len() ==> (#[trigger] deps@[k]) < outputs@.len(),
            copies@.map_values(|c: (usize, String)| (c.0, c.1@)) == dependency_copies(deps@.take(i as int), ov),
        decreases deps@.len() - i,
    {
        let d = deps[i];
        proof {
            assert(deps@.take(i + 1 as int).drop_last() =~= deps@.take(i as int));
            assert(deps@.take(i + 1 as int).last() == d);
        }
        let ghost before = copies@.map_values(|c: (usize, String)| (c.0, c.1@));
        match &outputs[d] {
            Some(files) => {
                let mut j: usize = 0;
                while j < files.len()
                    invariant
                        j <= files@.len(),
                        copies@.map_values(|c: (usize, String)| (c.0, c.1@)) == before + files@.take(
                            j as int,
                        ).map_values(|s: String| (d, s@)),
                    decreases files@.len() - j,
                {
                    let ghost prev = copies@;
                    let f = files[j].clone();
                    copies.push((d, f));
                    proof {
                        assert(copies@ == prev.push((d, f)));
                        assert(f@ == files@[j as int]@);
                        assert(files@.take(j + 1 as int) =~= files@.take(j as int).push(files@[j as int]));
                        assert(copies@.map_values(|c: (usize, String)| (c.0, c.1@)) =~= prev.map_values(
                            |c: (usize, String)| (c.0, c.1@),
                        ).push((d, f@)));
                        assert(files@.take(j + 1 as int).map_values(|s: String| (d, s@)) =~= files@.take(
                            j as int,
                        ).map_values(|s: String| (d, s@)).push((d, f@)));
                        assert(copies@.map_values(|c: (usize, String)| (c.0, c.1@)) =~= before + files@.take(
                            j + 1 as int,
                        ).map_values(|s: String| (d, s@)));
                    }
                    j = j + 1;
                }
                proof {
                    assert(files@.take(files@.len() as int) =~= files@);
                    assert(ov[d as int] == Some(files@.map_values(|s: String| s@)));
                    assert(files@.map_values(|s: String| (d, s@)) =~= files@.map_values(|s: String| s@).map_values(
                        |f: Seq<char>| (d, f),
                    ));
                }
            },
            None => {
                proof {
                    assert(ov[d as int] is None);
                    assert(before + Seq::<(usize, Seq<char>)>::empty() =~= before);
                }
            },
        }
        i = i + 1;
    }
    proof {
        assert(deps@.take(deps@.len() as int) =~= deps@);
    }
    copies
}

/// One step of laying out a run directory: copy a workspace file, copy an
/// output file of a dependency step, or write an inline input (by its
/// position in the request).
#[derive(Debug)]
pub enum DirAction {
    Workspace(String),
    Output(usize, String),
    Input(usize, String),
}

/// Where a file of a run directory comes from: 0 the workspace, 1 a
/// dependency, 2 the request's inline inputs; with the file's name.
pub open spec fn action_view(a: DirAction) -> (u8, Seq<char>) {
    match a {
        DirAction::Workspace(n) => (0u8, n@),
        DirAction::Output(_, n) => (1u8, n@),
        DirAction::Input(_, n) => (2u8, n@),
    }
}

/// The layers of a run directory in the order they are laid: the workspace
/// files, then the outputs of the dependencies, then the inline inputs; a
/// later file of the same name replaces an earlier one, so inline inputs
/// override dependency outputs, which override workspace files.
pub open spec fn layer_plan(
    workspace: Seq<Seq<char>>,
    outputs: Seq<(usize, Seq<char>)>,
    inputs: Seq<Seq<char>>,
) -> Seq<(u8, Seq<char>)> {
    workspace.map_values(|n: Seq<char>| (0u8, n)) + outputs.map_values(|o: (usize, Seq<char>)| (1u8, o.1))
        + inputs.map_values(|n: Seq<char>| (2u8, n))
}

/// The plan to lay out a run directory.
pub fn run_dir_plan(workspace: &Vec<String>, outputs: &Vec<(usize, String)>, inputs: &Vec<InputFile>) -> (plan: Vec<
    DirAction,
>)
    ensures
        plan@.map_values(|a: DirAction| action_view(a)) == layer_plan(
            workspace@.map_values(|s: String| s@),
            outputs@.map_values(|o: (usize, String)| (o.0, o.1@)),
            inputs@.map_values(|f: InputFile| f.name@),
        ),
        forall|k: int|
            0 <= k < plan@.len() ==> match #[trigger] plan@[k] {
                DirAction::Workspace(_) => true,
                DirAction::Output(d, _) => k >= workspace@.len() && d == outputs@[k - workspace@.len()].0,
                DirAction::Input(i, _) => i == k - workspace@.len() - outputs@.len(),
            },
{
    let ghost ws = workspace@.map_values(|s: String| s@);
    let ghost os = outputs@.map_values(|o: (usize, String)| (o.0, o.1@));
    let ghost ins = inputs@.map_values(|f: InputFile| f.name@);
    let mut plan: Vec<DirAction> = Vec::new();
    let mut i: usize = 0;
    while i < workspace.len()
        invariant
            i <= workspace@.len(),
            ws == workspace@.map_values(|s: String| s@),
            plan@.map_values(|a: DirAction| action_view(a)) == ws.take(i as int).map_values(
                |n: Seq<char>| (0u8, n),
            ),
            forall|k: int| 0 <= k < plan@.len() ==> (#[trigger] plan@[k]) is Workspace,
        decreases workspace@.len() - i,
    {
        let ghost prev = plan@;
        plan.push(DirAction::Workspace(workspace[i].clone()));
        proof {
            assert(ws.take(i + 1 as int) =~= ws.take(i as int).push(ws[i as int]));
            assert(plan@.map_values(|a: DirAction| action_view(a)) =~= prev.map_values(|a: DirAction| action_view(a)).push(
                (0u8, ws[i as int]),
            ));
        }
        i = i + 1;
    }
    proof {
        assert(ws.take(i as int) =~= ws);
    }
    let ghost base = plan@.map_values(|a: DirAction| action_view(a));
    let mut j: usize = 0;
    while j < outputs.len()
        invariant
            j <= outputs@.len(),
            os == outputs@.map_values(|o: (usize, String)| (o.0, o.1@)),
            base == ws.map_values(|n: Seq<char>| (0u8, n)),
            plan@.len() == workspace@.len() + j,
            plan@.map_values(|a: DirAction| action_view(a)) == base + os.take(j as int).map_values(
                |o: (usize, Seq<char>)| (1u8, o.1),
            ),
            forall|k: int|
                0 <= k < plan@.len() ==> match #[trigger] plan@[k] {
                    DirAction::Workspace(_) => k < workspace@.len(),
                    DirAction::Output(d, _) => k >= workspace@.len() && d == outputs@[k - workspace@.len()].0,
                    DirAction::Input(_, _) => false,
                },
            ws.len() == workspace@.len(),
        decreases outputs@.len() - j,
    {
        let ghost prev = plan@;
        plan.push(DirAction::Output(outputs[j].0, outputs[j].1.clone()));
        proof {
            assert(os.take(j + 1 as int) =~= os.take(j as int).push(os[j as int]));
            assert(plan@.map_values(|a: DirAction| action_view(a)) =~= prev.map_values(|a: DirAction| action_view(a)).push(
                (1u8, os[j as int].1),
            ));
        }
        j = j + 1;
    }
    proof {
        assert(os.take(j as int) =~= os);
    }
    let ghost mid = plan@.map_values(|a: DirAction| action_view(a));
    let mut k: usize = 0;
    while k < inputs.len()
        invariant
            k <= inputs@.len(),
            ins == inputs@.map_values(|f: InputFile| f.name@),
            mid == ws.map_values(|n: Seq<char>| (0u8, n)) + os.map_values(|o: (usize, Seq<char>)| (1u8, o.1)),
            plan@.len() == workspace@.len() + outputs@.len() + k,
            plan@.map_values(|a: DirAction| action_view(a)) == mid + ins.take(k as int).map_values(
                |n: Seq<char>| (2u8, n),
            ),
            forall|q: int|
                0 <= q < plan@.len() ==> match #[trigger] plan@[q] {
                    DirAction::Workspace(_) => true,
                    DirAction::Output(d, _) => q >= workspace@.len() && d == outputs@[q - workspace@.len()].0,
                    DirAction::Input(x, _) => x == q - workspace@.len() - outputs@.len(),
                },
        decreases inputs@.len() - k,
    {
        let ghost prev = plan@;
        plan.push(DirAction::Input(k, inputs[k].name.clone()));
        proof {
            assert(ins.take(k + 1 as int) =~= ins.take(k as int).push(ins[k as int]));
            assert(plan@.map_values(|a: DirAction| action_view(a)) =~= prev.map_values(|a: DirAction| action_view(a)).push(
                (2u8, ins[k as int]),
            ));
        }
        k = k + 1;
    }
    proof {
        assert(ins.take(k as int) =~= ins);
    }
    plan
}

/// The layer that the last action writing `name` belongs to, if any action
/// writes it.
pub open spec fn last_layer(plan: Seq<(u8, Seq<char>)>, name: Seq<char>) -> Option<u8>
    decreases plan.len(),
{
    if plan.len() == 0 {
        None
    } else if plan.last().1 == name {
        Some(plan.last().0)
    } else {
        last_layer(plan.drop_last(), name)
    }
}

proof fn lemma_last_layer_append(a: Seq<(u8, Seq<char>)>, b: Seq<(u8, Seq<char>)>, name: Seq<char>)
    ensures
        last_layer(a + b, name) == if last_layer(b, name) is Some {
            last_layer(b, name)
        } else {
            last_layer(a, name)
        },
    decreases b.len(),
{
    if b.len() == 0 {
        assert(a + b =~= a);
    } else {
        assert((a + b).drop_last() =~= a + b.drop_last());
        assert((a + b).last() == b.last());
        lemma_last_layer_append(a, b.drop_last(), name);
    }
}

proof fn lemma_last_layer_uniform(names: Seq<Seq<char>>, layer: u8, name: Seq<char>)
    ensures
        last_layer(names.map_values(|n: Seq<char>| (layer, n)), name) == if names.contains(name) {
            Some(layer)
        } else {
            None::<u8>
        },
    decreases names.len(),
{
    let m = names.map_values(|n: Seq<char>| (layer, n));
    if names.len() > 0 {
        assert(m.drop_last() =~= names.drop_last().map_values(|n: Seq<char>| (layer, n)));
        lemma_last_layer_uniform(names.drop_last(), layer, name);
        if names.drop_last().contains(name) {
            let k = choose|k: int| 0 <= k < names.drop_last().len() && names.drop_last()[k] == name;
            assert(names[k] == name);
        }
        if names.contains(name) && names.last() != name {
            let k = choose|k: int| 0 <= k < names.len() && names[k] == name;
            assert(k != names.len() - 1);
            assert(names.drop_last()[k] == name);
        }
        if names.last() == name {
            assert(names[names.len() - 1] == name);
        }
    }
}

/// In a run directory an inline input overrides a dependency's output of
/// the same name, and either overrides a workspace file: the file a name
/// ends with comes from the last layer that has it.
pub proof fn lemma_inputs_override_outputs_override_workspace(
    workspace: Seq<Seq<char>>,
    outputs: Seq<(usize, Seq<char>)>,
    inputs: Seq<Seq<char>>,
    name: Seq<char>,
)
    ensures
        last_layer(layer_plan(workspace, outputs, inputs), name) == if inputs.contains(name) {
            Some(2u8)
        } else if outputs.map_values(|o: (usize, Seq<char>)| o.1).contains(name) {
            Some(1u8)
        } else if workspace.contains(name) {
            Some(0u8)
        } else {
            None::<u8>
        },
{
    let w = workspace.map_values(|n: Seq<char>| (0u8, n));
    let onames = outputs.map_values(|o: (usize, Seq<char>)| o.1);
    let o = outputs.map_values(|o: (usize, Seq<char>)| (1u8, o.1));
    let i = inputs.map_values(|n: Seq<char>| (2u8, n));
    assert(o =~= onames.map_values(|n: Seq<char>| (1u8, n)));
    lemma_last_layer_append(w + o, i, name);
    lemma_last_layer_append(w, o, name);
    lemma_last_layer_uniform(workspace, 0u8, name);
    lemma_last_layer_uniform(onames, 1u8, name);
    lemma_last_layer_uniform(inputs, 2u8, name);
}

} // verus!
