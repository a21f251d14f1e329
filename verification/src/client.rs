use vstd::prelude::*;

use crate::chunks::copy_range;
use crate::pipeline::{InputFile, PipelineStep};
use crate::strmap::StrMap;

verus! {

/// One step of a pipeline as a client describes it.
#[derive(Debug)]
pub struct Step {
    pub id: String,
    pub model: String,
    pub file_root: String,
    pub inputs: Vec<(String, Vec<u8>)>,
    pub depends_on: Vec<String>,
    pub timeout: Option<u32>,
}

/// The bytes of a slice, as a vector.
pub fn bytes_of(data: &[u8]) -> (v: Vec<u8>)
    ensures
        v@ == data@,
{
    let v = copy_range(data, 0, data.len());
    proof {
        assert(data@.subrange(0, data@.len() as int) =~= data@);
    }
    v
}

/// A copy of a vector of bytes.
pub fn copy_bytes(data: &Vec<u8>) -> (v: Vec<u8>)
    ensures
        v@ == data@,
{
    bytes_of(data.as_slice())
}

/// Appends `src` to `dst`.
pub fn extend_bytes(dst: &mut Vec<u8>, src: &Vec<u8>)
    ensures
        final(dst)@ == old(dst)@ + src@,
{
    let ghost start = dst@;
    let mut i: usize = 0;
    while i < src.len()
        invariant
            i <= src@.len(),
            dst@ == start + src@.take(i as int),
        decreases src@.len() - i,
    {
        dst.push(src[i]);
        proof {
            assert(src@.take(i + 1 as int) =~= src@.take(i as int).push(src@[i as int]));
        }
        i = i + 1;
    }
    proof {
        assert(src@.take(i as int) =~= src@);
    }
}

impl Step {
    /// A step with no inputs, no dependencies and the default timeout.
    pub fn new(id: &str, model: &str, file_root: &str) -> (s: Step)
        ensures
            s.id@ == id@,
            s.model@ == model@,
            s.file_root@ == file_root@,
            s.inputs@.len() == 0,
            s.depends_on@.len() == 0,
            s.timeout is None,
    {
        Step {
            id: id.to_owned(),
            model: model.to_owned(),
            file_root: file_root.to_owned(),
            inputs: Vec::new(),
            depends_on: Vec::new(),
            timeout: None,
        }
    }

    /// The step with one more inline input file.
    pub fn with_input(self, name: &str, data: &[u8]) -> (s: Step)
        ensures
            s.id == self.id,
            s.model == self.model,
            s.file_root == self.file_root,
            s.depends_on == self.depends_on,
            s.timeout == self.timeout,
            s.inputs@.len() == self.inputs@.len() + 1,
            forall|k: int| 0 <= k < self.inputs@.len() ==> #[trigger] s.inputs@[k] == self.inputs@[k],
            s.inputs@[self.inputs@.len() as int].0@ == name@,
            s.inputs@[self.inputs@.len() as int].1@ == data@,
    {
        let mut s = self;
        s.inputs.push((name.to_owned(), bytes_of(data)));
        s
    }

    /// The step, depending on exactly the steps `deps`.
    pub fn depends_on(self, deps: &[&str]) -> (s: Step)
        ensures
            s.id == self.id,
            s.model == self.model,
            s.file_root == self.file_root,
            s.inputs == self.inputs,
            s.timeout == self.timeout,
            s.depends_on@.len() == deps@.len(),
            forall|k: int| 0 <= k < deps@.len() ==> (#[trigger] s.depends_on@[k])@ == deps@[k]@,
    {
        let mut names: Vec<String> = Vec::new();
        let mut i: usize = 0;
        while i < deps.len()
            invariant
                i <= deps@.len(),
                names@.len() == i,
                forall|k: int| 0 <= k < i ==> (#[trigger] names@[k])@ == deps@[k]@,
            decreases deps@.len() - i,
        {
            names.push(deps[i].to_owned());
            i = i + 1;
        }
        let mut s = self;
        s.depends_on = names;
        s
    }

    /// The step as sent in a pipeline request.
    pub fn to_pipeline_step(&self) -> (p: PipelineStep)
        ensures
            p.id@ == self.id@,
            p.model@ == self.model@,
            p.file_root@ == self.file_root@,
            p.timeout_seconds == self.timeout,
            p.inputs@.len() == self.inputs@.len(),
            forall|k: int| 0 <= k < self.inputs@.len() ==> (#[trigger] p.inputs@[k]).name@ == self.inputs@[k].0@
                && p.inputs@[k].content@ == self.inputs@[k].1@,
            p.depends_on@.len() == self.depends_on@.len(),
            forall|k: int| 0 <= k < self.depends_on@.len() ==> (#[trigger] p.depends_on@[k])@ == self.depends_on@[k]@,
    {
        let mut inputs: Vec<InputFile> = Vec::new();
        let mut i: usize = 0;
        while i < self.inputs.len()
            invariant
                i <= self.inputs@.len(),
                inputs@.len() == i,
                forall|k: int| 0 <= k < i ==> (#[trigger] inputs@[k]).name@ == self.inputs@[k].0@
                    && inputs@[k].content@ == self.inputs@[k].1@,
            decreases self.inputs@.len() - i,
        {
            inputs.push(InputFile { name: self.inputs[i].0.clone(), content: copy_bytes(&self.inputs[i].1) });
            i = i + 1;
        }
        let mut deps: Vec<String> = Vec::new();
        let mut j: usize = 0;
        while j < self.depends_on.len()
            invariant
                j <= self.depends_on@.len(),
                deps@.len() == j,
                forall|k: int| 0 <= k < j ==> (#[trigger] deps@[k])@ == self.depends_on@[k]@,
            decreases self.depends_on@.len() - j,
        {
            deps.push(self.depends_on[j].clone());
            j = j + 1;
        }
        PipelineStep {
            id: self.id.clone(),
            model: self.model.clone(),
            file_root: self.file_root.clone(),
            inputs,
            depends_on: deps,
            timeout_seconds: self.timeout,
        }
    }
}

/// The inline inputs of a `RunSync` request, from name and bytes pairs.
pub fn run_sync_inputs(inputs: &[(&str, &[u8])]) -> (files: Vec<InputFile>)
    ensures
        files@.len() == inputs@.len(),
        forall|k: int| 0 <= k < inputs@.len() ==> (#[trigger] files@[k]).name@ == inputs@[k].0@
            && files@[k].content@ == inputs@[k].1@,
{
    let mut files: Vec<InputFile> = Vec::new();
    let mut i: usize = 0;
    while i < inputs.len()
        invariant
            i <= inputs@.len(),
            files@.len() == i,
            forall|k: int| 0 <= k < i ==> (#[trigger] files@[k]).name@ == inputs@[k].0@
                && files@[k].content@ == inputs@[k].1@,
        decreases inputs@.len() - i,
    {
        let (name, data) = inputs[i];
        files.push(InputFile { name: name.to_owned(), content: bytes_of(data) });
        i = i + 1;
    }
    files
}


/// The files of a list by name, a later file of the same name replacing an
/// earlier one.
pub open spec fn files_by_name(files: Seq<InputFile>) -> Map<Seq<char>, Seq<u8>>
    decreases files.len(),
{
    if files.len() == 0 {
        Map::empty()
    } else {
        files_by_name(files.drop_last()).insert(files.last().name@, files.last().content@)
    }
}

/// The output files of a `RunSync` answer, by name.
pub fn outputs_by_name(outputs: Vec<InputFile>) -> (files: StrMap<Vec<u8>>)
    ensures
        files.wf(),
        files.map() == files_by_name(outputs@),
{
    let mut files: StrMap<Vec<u8>> = StrMap::new();
    let mut i: usize = 0;
    while i < outputs.len()
        invariant
            i <= outputs@.len(),
            files.wf(),
            files.map() == files_by_name(outputs@.take(i as int)),
        decreases outputs@.len() - i,
    {
        proof {
            assert(outputs@.take(i + 1 as int).drop_last() =~= outputs@.take(i as int));
            assert(outputs@.take(i + 1 as int).last() == outputs@[i as int]);
        }
        files.insert(outputs[i].name.clone(), copy_bytes(&outputs[i].content));
        i = i + 1;
    }
    proof {
        assert(outputs@.take(outputs@.len() as int) =~= outputs@);
    }
    files
}

} // verus!
