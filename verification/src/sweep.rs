use vstd::prelude::*;

use crate::client::Step;
use crate::config::{ext_stem, stem_for_extension};
use crate::text::{chars_of, decimal, usize_to_string};
use vstd::string::StrSliceExecFns;

verus! {

/// `needle` stands in `hay` from position `i` on.
pub open spec fn occurs_at(hay: Seq<char>, needle: Seq<char>, i: int) -> bool {
    0 <= i && i + needle.len() <= hay.len() && hay.subrange(i, i + needle.len()) == needle
}

/// `needle` stands somewhere in `hay`.
pub open spec fn has_substring(hay: Seq<char>, needle: Seq<char>) -> bool {
    exists|i: int| #[trigger] occurs_at(hay, needle, i)
}

/// Whether `needle` stands somewhere in `hay`.
pub fn contains_text(hay: &Vec<char>, needle: &Vec<char>) -> (b: bool)
    ensures
        b == has_substring(hay@, needle@),
{
    let h = hay.len();
    let n = needle.len();
    if n == 0 {
        proof {
            assert(hay@.subrange(0, 0) =~= needle@);
            assert(occurs_at(hay@, needle@, 0));
        }
        return true;
    }
    if n > h {
        proof {
            assert forall|i: int| !#[trigger] occurs_at(hay@, needle@, i) by {}
        }
        return false;
    }
    let mut i: usize = 0;
    while i <= h - n
        invariant
            h == hay@.len(),
            n == needle@.len(),
            0 < n <= h,
            i <= h - n + 1,
            forall|j: int| 0 <= j < i ==> !#[trigger] occurs_at(hay@, needle@, j),
        decreases h - n + 1 - i,
    {
        let mut k: usize = 0;
        let mut same = true;
        while k < n
            invariant
                h == hay@.len(),
                n == needle@.len(),
                i + n <= h,
                k <= n,
                same ==> forall|j: int| 0 <= j < k ==> hay@[i + j] == needle@[j],
                !same ==> !occurs_at(hay@, needle@, i as int),
            decreases n - k,
        {
            if hay[i + k] != needle[k] {
                proof {
                    if occurs_at(hay@, needle@, i as int) {
                        assert(hay@.subrange(i as int, i + n)[k as int] == hay@[i + k]);
                    }
                }
                same = false;
            }
            k = k + 1;
        }
        if same {
            proof {
                assert(hay@.subrange(i as int, i + n) =~= needle@);
                assert(occurs_at(hay@, needle@, i as int));
            }
            return true;
        }
        i = i + 1;
    }
    proof {
        assert forall|j: int| !#[trigger] occurs_at(hay@, needle@, j) by {
            if 0 <= j < i {
            }
        }
    }
    false
}

/// The models that the sweep knows, in the order it tries them.
pub open spec fn known_models() -> Seq<Seq<char>> {
    seq![
        "bellhop"@,
        "bellhop3d"@,
        "kraken"@,
        "krakenc"@,
        "bounce"@,
        "field"@,
        "field3d"@,
        "scooter"@,
        "sparc"@,
    ]
}

/// A lowercased Makefile mentions model `m`: as `<m>.exe`, or as `<m>`
/// followed by a space.
pub open spec fn mentions_model(lower: Seq<char>, m: Seq<char>) -> bool {
    has_substring(lower, m + ".exe"@) || has_substring(lower, m + " "@)
}

/// Whether a lowercased Makefile mentions a model, as a predicate.
pub open spec fn mention_pred(lower: Seq<char>) -> spec_fn(Seq<char>) -> bool {
    |m: Seq<char>| mentions_model(lower, m)
}

/// The known models that a lowercased Makefile mentions, in the known order.
pub open spec fn makefile_models(lower: Seq<char>) -> Seq<Seq<char>> {
    known_models().filter(mention_pred(lower))
}

/// The models that a lowercased Makefile mentions.
pub fn models_in_makefile(lower: &str) -> (ms: Vec<String>)
    ensures
        ms@.map_values(|s: String| s@) == makefile_models(lower@),
{
    let known: Vec<String> = vec![
        "bellhop".to_owned(),
        "bellhop3d".to_owned(),
        "kraken".to_owned(),
        "krakenc".to_owned(),
        "bounce".to_owned(),
        "field".to_owned(),
        "field3d".to_owned(),
        "scooter".to_owned(),
        "sparc".to_owned(),
    ];
    let ghost kv = known@.map_values(|s: String| s@);
    proof {
        assert(kv =~= known_models());
    }
    let text = chars_of(lower);
    let mut ms: Vec<String> = Vec::new();
    let mut i: usize = 0;
    while i < known.len()
        invariant
            i <= known@.len(),
            kv == known@.map_values(|s: String| s@),
            kv == known_models(),
            text@ == lower@,
            ms@.map_values(|s: String| s@) == kv.take(i as int).filter(mention_pred(lower@)),
        decreases known@.len() - i,
    {
        let m = &known[i];
        let with_exe = chars_of(m.clone().concat(".exe").as_str());
        let with_space = chars_of(m.clone().concat(" ").as_str());
        let hit = contains_text(&text, &with_exe) || contains_text(&text, &with_space);
        let ghost prev = ms@;
        proof {
            assert(with_exe@ == m@ + ".exe"@);
            assert(with_space@ == m@ + " "@);
            assert(hit == mentions_model(lower@, m@));
            assert(kv.take(i + 1 as int).drop_last() =~= kv.take(i as int));
            assert(kv.take(i + 1 as int).last() == kv[i as int]);
            assert(kv[i as int] == m@);
            assert(mention_pred(lower@)(m@) == hit);
            reveal(Seq::filter);
            assert(kv.take(i + 1 as int).filter(mention_pred(lower@)) == if hit {
                kv.take(i as int).filter(mention_pred(lower@)).push(m@)
            } else {
                kv.take(i as int).filter(mention_pred(lower@))
            });
        }
        if hit {
            ms.push(m.clone());
            proof {
                assert(ms@.map_values(|s: String| s@) =~= prev.map_values(|s: String| s@).push(m@));
            }
        }
        i = i + 1;
    }
    proof {
        assert(kv.take(known@.len() as int) =~= kv);
    }
    ms
}

/// The models found in a lowercased Makefile are exactly those of bellhop,
/// bellhop3d, kraken, krakenc, bounce, field, field3d, scooter and sparc
/// that it mentions, as `<model>.exe` or as `<model>` followed by a space.
pub proof fn lemma_makefile_models_are_the_mentioned_known_models(lower: Seq<char>)
    ensures
        forall|m: Seq<char>|
            #[trigger] makefile_models(lower).contains(m) <==> ((m == "bellhop"@ || m == "bellhop3d"@ || m
                == "kraken"@ || m == "krakenc"@ || m == "bounce"@ || m == "field"@ || m == "field3d"@ || m
                == "scooter"@ || m == "sparc"@) && (has_substring(lower, m + ".exe"@) || has_substring(
                lower,
                m + " "@,
            ))),
{
    let known = known_models();
    let pred = mention_pred(lower);
    known.filter_lemma(pred);
    assert forall|m: Seq<char>|
        #[trigger] makefile_models(lower).contains(m) <==> ((m == "bellhop"@ || m == "bellhop3d"@ || m
            == "kraken"@ || m == "krakenc"@ || m == "bounce"@ || m == "field"@ || m == "field3d"@ || m
            == "scooter"@ || m == "sparc"@) && (has_substring(lower, m + ".exe"@) || has_substring(
            lower,
            m + " "@,
        ))) by {
        let in_list = m == "bellhop"@ || m == "bellhop3d"@ || m == "kraken"@ || m == "krakenc"@ || m == "bounce"@
            || m == "field"@ || m == "field3d"@ || m == "scooter"@ || m == "sparc"@;
        assert(known.contains(m) <==> in_list) by {
            if known.contains(m) {
                let k = choose|k: int| 0 <= k < known.len() && known[k] == m;
                assert(0 <= k < 9);
            }
            if m == "bellhop"@ { assert(known[0] == m); }
            if m == "bellhop3d"@ { assert(known[1] == m); }
            if m == "kraken"@ { assert(known[2] == m); }
            if m == "krakenc"@ { assert(known[3] == m); }
            if m == "bounce"@ { assert(known[4] == m); }
            if m == "field"@ { assert(known[5] == m); }
            if m == "field3d"@ { assert(known[6] == m); }
            if m == "scooter"@ { assert(known[7] == m); }
            if m == "sparc"@ { assert(known[8] == m); }
        }
        if makefile_models(lower).contains(m) {
            known.lemma_filter_contains_rev(pred, m);
            let i = choose|i: int| 0 <= i < known.filter(pred).len() && known.filter(pred)[i] == m;
            assert(pred(known.filter(pred)[i]));
        }
        if known.contains(m) && pred(m) {
            let k = choose|k: int| 0 <= k < known.len() && known[k] == m;
            assert(known.filter(pred).contains(known[k]));
        }
    }
}

/// What `str::to_lowercase` returns for a text.
pub uninterp spec fn lowercase(s: Seq<char>) -> Seq<char>;

/// `str::to_lowercase`: the text with each character replaced by its
/// Unicode lowercase mapping. Its result is named, not stated: the
/// mapping is Unicode's table, applied to the text alone.
#[verifier::external_body]
fn to_lowercase(s: &str) -> (r: String)
    ensures
        r@ == lowercase(s@),
{
    s.to_lowercase()
}

/// The models a case uses when its Makefile names none it knows: the
/// normal-mode solver, followed by the field program when a `.flp` file is
/// there.
pub open spec fn fallback_models(has_flp: bool) -> Seq<Seq<char>> {
    if has_flp {
        seq!["kraken"@, "field"@]
    } else {
        seq!["kraken"@]
    }
}

/// The models of a case from its lowercased Makefile (when it has one) and
/// whether it holds a `.flp` file.
pub open spec fn models_from_lowered(lower: Option<Seq<char>>, has_flp: bool) -> Seq<Seq<char>> {
    match lower {
        Some(t) => if makefile_models(t).len() > 0 {
            makefile_models(t)
        } else {
            fallback_models(has_flp)
        },
        None => fallback_models(has_flp),
    }
}

/// The models of a case, given its lowercased Makefile.
pub fn models_for_case(lower: Option<&str>, has_flp: bool) -> (ms: Vec<String>)
    ensures
        ms@.map_values(|s: String| s@) == models_from_lowered(
            match lower {
                Some(t) => Some(t@),
                None => None,
            },
            has_flp,
        ),
{
    match lower {
        Some(t) => {
            let ms = models_in_makefile(t);
            if ms.len() > 0 {
                return ms;
            }
        },
        None => {},
    }
    let mut ms: Vec<String> = Vec::new();
    ms.push("kraken".to_owned());
    if has_flp {
        ms.push("field".to_owned());
    }
    proof {
        assert(ms@.map_values(|s: String| s@) =~= fallback_models(has_flp));
    }
    ms
}

/// The models of a case from the text of its Makefile, when it has one, and
/// whether it holds a `.flp` file.
pub fn detect_models(makefile: Option<&str>, has_flp: bool) -> (ms: Vec<String>)
    ensures
        ms@.map_values(|s: String| s@) == models_from_lowered(
            match makefile {
                Some(t) => Some(lowercase(t@)),
                None => None,
            },
            has_flp,
        ),
{
    match makefile {
        Some(text) => {
            let lower = to_lowercase(text);
            models_for_case(Some(lower.as_str()), has_flp)
        },
        None => models_for_case(None, has_flp),
    }
}

/// The tier a case is run at: a pipeline when it uses several models, a
/// session when its files exceed a megabyte, else a single `RunSync`.
pub open spec fn tier_of(model_count: nat, total_size: nat) -> u8 {
    if model_count > 1 {
        3
    } else if total_size > 1_000_000 {
        2
    } else {
        1
    }
}

/// The tier of a case.
pub fn case_tier(model_count: usize, total_size: u64) -> (t: u8)
    ensures
        t == tier_of(model_count as nat, total_size as nat),
{
    if model_count > 1 {
        3
    } else if total_size > 1_000_000 {
        2
    } else {
        1
    }
}

/// The position of the first name with extension `ext`, if any.
pub open spec fn first_with_ext(names: Seq<Seq<char>>, ext: Seq<char>) -> Option<int> {
    if exists|i: int| 0 <= i < names.len() && #[trigger] ext_stem(names[i], ext) is Some {
        Some(
            choose|i: int|
                0 <= i < names.len() && #[trigger] ext_stem(names[i], ext) is Some && forall|k: int|
                    0 <= k < i ==> #[trigger] ext_stem(names[k], ext) is None,
        )
    } else {
        None
    }
}

/// The stem of the first name with extension `ext`, if any.
pub open spec fn first_stem(names: Seq<Seq<char>>, ext: Seq<char>) -> Option<Seq<char>> {
    match first_with_ext(names, ext) {
        Some(i) => ext_stem(names[i], ext),
        None => None,
    }
}

/// The file root of a case: the stem of its first `.env` file in listing
/// order, or empty when it has none.
pub open spec fn case_root(names: Seq<Seq<char>>) -> Seq<char> {
    match first_stem(names, "env"@) {
        Some(s) => s,
        None => Seq::empty(),
    }
}

/// The stem of the first file of `names` with extension `ext`, if any.
pub fn first_stem_with_extension(names: &Vec<String>, ext: &str) -> (r: Option<String>)
    ensures
        match r {
            Some(s) => first_stem(names@.map_values(|s: String| s@), ext@) == Some(s@),
            None => first_stem(names@.map_values(|s: String| s@), ext@) is None,
        },
        r is Some <==> first_with_ext(names@.map_values(|s: String| s@), ext@) is Some,
{
    let ghost nv = names@.map_values(|s: String| s@);
    let mut i: usize = 0;
    while i < names.len()
        invariant
            i <= names@.len(),
            nv == names@.map_values(|s: String| s@),
            forall|k: int| 0 <= k < i ==> #[trigger] ext_stem(nv[k], ext@) is None,
        decreases names@.len() - i,
    {
        match stem_for_extension(names[i].as_str(), ext) {
            Some(stem) => {
                proof {
                    assert(ext_stem(nv[i as int], ext@) is Some);
                    let j = first_with_ext(nv, ext@)->0;
                    assert(0 <= j < nv.len() && ext_stem(nv[j], ext@) is Some);
                    if j < i {
                        assert(ext_stem(nv[j], ext@) is None);
                    }
                    if j > i {
                        assert(ext_stem(nv[i as int], ext@) is None);
                    }
                }
                return Some(stem);
            },
            None => {},
        }
        i = i + 1;
    }
    None
}

/// The file root of a case from the names of its files in listing order.
pub fn case_file_root(names: &Vec<String>) -> (root: String)
    ensures
        root@ == case_root(names@.map_values(|s: String| s@)),
{
    proof {
        reveal_strlit("");
    }
    match first_stem_with_extension(names, "env") {
        Some(stem) => stem,
        None => "".to_owned(),
    }
}

/// Whether some name has extension `ext`.
pub fn any_with_extension(names: &Vec<String>, ext: &str) -> (b: bool)
    ensures
        b == (first_with_ext(names@.map_values(|s: String| s@), ext@) is Some),
{
    first_stem_with_extension(names, ext).is_some()
}

/// A case of the sweep: its directory name, its models and its tier.
#[derive(Debug)]
pub struct SweepCase {
    pub name: String,
    pub models: Vec<String>,
    pub tier: u8,
}

/// A case from a test directory: none when it holds no `.env` file or no
/// model can be told; else its models and its tier from the total size of
/// its files.
pub fn classify_case(name: String, has_env: bool, models: Vec<String>, total_size: u64) -> (c: Option<SweepCase>)
    ensures
        (!has_env || models@.len() == 0) ==> c is None,
        (has_env && models@.len() > 0) ==> (c matches Some(k) && k.name == name && k.models == models && k.tier
            == tier_of(models@.len(), total_size as nat)),
{
    if !has_env || models.len() == 0 {
        return None;
    }
    let tier = case_tier(models.len(), total_size);
    Some(SweepCase { name, models, tier })
}

/// The id of step `i` of a chained case: the model's name, `_`, and `i`.
pub open spec fn chain_step_id(models: Seq<Seq<char>>, i: int) -> Seq<char> {
    models[i] + "_"@ + decimal(i as nat)
}

/// The pipeline of a multi-model case: one step per model in order, each
/// depending on the one before; the first gets every input file.
pub fn chain_steps(models: &Vec<String>, root: &str, inputs: &Vec<(String, Vec<u8>)>) -> (steps: Vec<Step>)
    ensures
        steps@.len() == models@.len(),
        forall|i: int|
            0 <= i < models@.len() ==> {
                let s = #[trigger] steps@[i];
                &&& s.id@ == chain_step_id(models@.map_values(|m: String| m@), i)
                &&& s.model@ == models@[i]@
                &&& s.file_root@ == root@
                &&& s.timeout is None
                &&& (i == 0 ==> s.inputs@.len() == inputs@.len() && forall|k: int|
                    0 <= k < inputs@.len() ==> (#[trigger] s.inputs@[k]).0@ == inputs@[k].0@ && s.inputs@[k].1@
                        == inputs@[k].1@)
                &&& (i > 0 ==> s.inputs@.len() == 0)
                &&& (i == 0 ==> s.depends_on@.len() == 0)
                &&& (i > 0 ==> s.depends_on@.len() == 1 && s.depends_on@[0]@ == chain_step_id(
                    models@.map_values(|m: String| m@),
                    i - 1,
                ))
            },
{
    let ghost mv = models@.map_values(|m: String| m@);
    let mut steps: Vec<Step> = Vec::new();
    let mut prev: Option<String> = None;
    let mut i: usize = 0;
    while i < models.len()
        invariant
            i <= models@.len(),
            mv == models@.map_values(|m: String| m@),
            steps@.len() == i,
            i == 0 ==> prev is None,
            i > 0 ==> (prev matches Some(p) && p@ == chain_step_id(mv, i - 1)),
            forall|j: int|
                0 <= j < i ==> {
                    let s = #[trigger] steps@[j];
                    &&& s.id@ == chain_step_id(mv, j)
                    &&& s.model@ == models@[j]@
                    &&& s.file_root@ == root@
                    &&& s.timeout is None
                    &&& (j == 0 ==> s.inputs@.len() == inputs@.len() && forall|k: int|
                        0 <= k < inputs@.len() ==> (#[trigger] s.inputs@[k]).0@ == inputs@[k].0@
                            && s.inputs@[k].1@ == inputs@[k].1@)
                    &&& (j > 0 ==> s.inputs@.len() == 0)
                    &&& (j == 0 ==> s.depends_on@.len() == 0)
                    &&& (j > 0 ==> s.depends_on@.len() == 1 && s.depends_on@[0]@ == chain_step_id(mv, j - 1))
                },
        decreases models@.len() - i,
    {
        let model = &models[i];
        let id = model.clone().concat("_").concat(usize_to_string(i).as_str());
        proof {
            assert(mv[i as int] == model@);
            assert(id@ =~= chain_step_id(mv, i as int));
        }
        let mut step = Step::new(id.as_str(), model.as_str(), root);
        if i == 0 {
            let mut k: usize = 0;
            while k < inputs.len()
                invariant
                    k <= inputs@.len(),
                    step.id@ == id@,
                    step.model@ == model@,
                    step.file_root@ == root@,
                    step.timeout is None,
                    step.depends_on@.len() == 0,
                    step.inputs@.len() == k,
                    forall|q: int|
                        0 <= q < k ==> (#[trigger] step.inputs@[q]).0@ == inputs@[q].0@ && step.inputs@[q].1@
                            == inputs@[q].1@,
                decreases inputs@.len() - k,
            {
                step = step.with_input(inputs[k].0.as_str(), inputs[k].1.as_slice());
                k = k + 1;
            }
        }
        match &prev {
            Some(p) => {
                step = step.depends_on(&[p.as_str()]);
            },
            None => {},
        }
        steps.push(step);
        prev = Some(id);
        i = i + 1;
    }
    steps
}

/// How a case of the sweep ended.
#[derive(Clone, Copy, Debug, PartialEq, Eq, Structural)]
pub enum Verdict {
    Pass,
    Fail,
    Error,
    Skip,
}

impl Verdict {
    /// The verdict as the sweep prints it.
    pub fn name(&self) -> (s: String)
        ensures
            s@ == match self {
                Verdict::Pass => "pass"@,
                Verdict::Fail => "fail"@,
                Verdict::Error => "error"@,
                Verdict::Skip => "skip"@,
            },
    {
        match self {
            Verdict::Pass => "pass".to_owned(),
            Verdict::Fail => "fail".to_owned(),
            Verdict::Error => "error".to_owned(),
            Verdict::Skip => "skip".to_owned(),
        }
    }
}

/// A single run passes when its model exited with code 0.
pub fn run_verdict(exit_code: i32) -> (v: Verdict)
    ensures
        v == (if exit_code == 0 { Verdict::Pass } else { Verdict::Fail }),
{
    if exit_code == 0 {
        Verdict::Pass
    } else {
        Verdict::Fail
    }
}

/// A pipeline passes when all its steps succeeded.
pub fn pipeline_verdict(all_succeeded: bool) -> (v: Verdict)
    ensures
        v == (if all_succeeded { Verdict::Pass } else { Verdict::Fail }),
{
    if all_succeeded {
        Verdict::Pass
    } else {
        Verdict::Fail
    }
}

/// How many of the verdicts are `v`.
pub open spec fn verdict_count(vs: Seq<Verdict>, v: Verdict) -> nat
    decreases vs.len(),
{
    if vs.len() == 0 {
        0
    } else {
        verdict_count(vs.drop_last(), v) + if vs.last() == v { 1nat } else { 0nat }
    }
}

/// The totals of a sweep.
pub struct SweepTally {
    pub passed: usize,
    pub failed: usize,
    pub errors: usize,
}

impl SweepTally {
    /// The sweep fails when a case failed or ended in error.
    pub open spec fn spec_failed(&self) -> bool {
        self.failed > 0 || self.errors > 0
    }

    /// Whether the sweep failed: some case failed or ended in error.
    pub fn failed_any(&self) -> (b: bool)
        ensures
            b == self.spec_failed(),
            b == (self.failed > 0 || self.errors > 0),
    {
        self.failed > 0 || self.errors > 0
    }
}

/// Counts the passes, failures and errors of a sweep.
pub fn tally(vs: &Vec<Verdict>) -> (t: SweepTally)
    ensures
        t.passed == verdict_count(vs@, Verdict::Pass),
        t.failed == verdict_count(vs@, Verdict::Fail),
        t.errors == verdict_count(vs@, Verdict::Error),
{
    let mut t = SweepTally { passed: 0, failed: 0, errors: 0 };
    let mut i: usize = 0;
    while i < vs.len()
        invariant
            i <= vs@.len(),
            t.passed == verdict_count(vs@.take(i as int), Verdict::Pass),
            t.failed == verdict_count(vs@.take(i as int), Verdict::Fail),
            t.errors == verdict_count(vs@.take(i as int), Verdict::Error),
            t.passed + t.failed + t.errors <= i,
        decreases vs@.len() - i,
    {
        proof {
            assert(vs@.take(i + 1 as int).drop_last() =~= vs@.take(i as int));
            assert(vs@.take(i + 1 as int).last() == vs@[i as int]);
        }
        match vs[i] {
            Verdict::Pass => {
                t.passed = t.passed + 1;
            },
            Verdict::Fail => {
                t.failed = t.failed + 1;
            },
            Verdict::Error => {
                t.errors = t.errors + 1;
            },
            Verdict::Skip => {},
        }
        i = i + 1;
    }
    proof {
        assert(vs@.take(vs@.len() as int) =~= vs@);
    }
    t
}

/// A verdict is counted exactly when it occurs.
proof fn lemma_verdict_count_positive(vs: Seq<Verdict>, v: Verdict)
    ensures
        verdict_count(vs, v) > 0 <==> vs.contains(v),
    decreases vs.len(),
{
    if vs.len() > 0 {
        lemma_verdict_count_positive(vs.drop_last(), v);
        if vs.drop_last().contains(v) {
            let k = choose|k: int| 0 <= k < vs.drop_last().len() && vs.drop_last()[k] == v;
            assert(vs[k] == v);
        }
        if vs.contains(v) && vs.last() != v {
            let k = choose|k: int| 0 <= k < vs.len() && vs[k] == v;
            assert(k != vs.len() - 1);
            assert(vs.drop_last()[k] == v);
        }
        if vs.last() == v {
            assert(vs[vs.len() - 1] == v);
        }
    }
}

/// A sweep fails exactly when one of its cases failed or ended in error:
/// for the totals that `tally` gives of a list of verdicts, the sweep is
/// failed if and only if some verdict is `Fail` or `Error` (passes and
/// skips never fail it).
pub proof fn lemma_sweep_fails_on_a_failure_or_an_error(vs: Seq<Verdict>, t: SweepTally)
    requires
        t.passed == verdict_count(vs, Verdict::Pass),
        t.failed == verdict_count(vs, Verdict::Fail),
        t.errors == verdict_count(vs, Verdict::Error),
    ensures
        t.spec_failed() <==> exists|i: int|
            0 <= i < vs.len() && (vs[i] == Verdict::Fail || vs[i] == Verdict::Error),
{
    lemma_verdict_count_positive(vs, Verdict::Fail);
    lemma_verdict_count_positive(vs, Verdict::Error);
    if exists|i: int| 0 <= i < vs.len() && (vs[i] == Verdict::Fail || vs[i] == Verdict::Error) {
        let i = choose|i: int| 0 <= i < vs.len() && (vs[i] == Verdict::Fail || vs[i] == Verdict::Error);
        if vs[i] == Verdict::Fail {
            assert(vs.contains(Verdict::Fail));
        } else {
            assert(vs.contains(Verdict::Error));
        }
    }
}

/// The runner that case `i` goes to: the runners take turns.
pub fn runner_for(i: usize, runner_count: usize) -> (r: usize)
    requires
        runner_count > 0,
    ensures
        r == i % runner_count,
        r < runner_count,
{
    i % runner_count
}


/// The fields of `s` between commas, as `str::split(',')` gives them: one
/// more than there are commas.
pub open spec fn comma_fields(s: Seq<char>) -> Seq<Seq<char>>
    decreases s.len(),
{
    if s.len() == 0 {
        seq![Seq::<char>::empty()]
    } else {
        let r = comma_fields(s.drop_last());
        if s.last() == ',' {
            r.push(Seq::empty())
        } else {
            r.update(r.len() - 1, r.last().push(s.last()))
        }
    }
}

proof fn lemma_comma_fields_nonempty(s: Seq<char>)
    ensures
        comma_fields(s).len() >= 1,
    decreases s.len(),
{
    if s.len() > 0 {
        lemma_comma_fields_nonempty(s.drop_last());
    }
}

/// A character with the Unicode `White_Space` property, the whitespace of
/// `char::is_whitespace` and `str::trim`.
pub open spec fn is_white_space(c: char) -> bool {
    ||| ('\u{9}' <= c && c <= '\u{d}')
    ||| c == ' '
    ||| c == '\u{85}'
    ||| c == '\u{a0}'
    ||| c == '\u{1680}'
    ||| ('\u{2000}' <= c && c <= '\u{200a}')
    ||| c == '\u{2028}'
    ||| c == '\u{2029}'
    ||| c == '\u{202f}'
    ||| c == '\u{205f}'
    ||| c == '\u{3000}'
}

/// The text without its leading whitespace.
pub open spec fn trim_start(s: Seq<char>) -> Seq<char>
    decreases s.len(),
{
    if s.len() > 0 && is_white_space(s[0]) {
        trim_start(s.drop_first())
    } else {
        s
    }
}

/// The text without its trailing whitespace.
pub open spec fn trim_end(s: Seq<char>) -> Seq<char>
    decreases s.len(),
{
    if s.len() > 0 && is_white_space(s.last()) {
        trim_end(s.drop_last())
    } else {
        s
    }
}

/// The text without its leading and trailing whitespace, as `str::trim`
/// gives it.
pub open spec fn trimmed(s: Seq<char>) -> Seq<char> {
    trim_end(trim_start(s))
}

/// Whether `c` is whitespace.
pub fn white_space(c: char) -> (b: bool)
    ensures
        b == is_white_space(c),
{
    ('\u{9}' <= c && c <= '\u{d}') || c == ' ' || c == '\u{85}' || c == '\u{a0}' || c == '\u{1680}' || ('\u{2000}'
        <= c && c <= '\u{200a}') || c == '\u{2028}' || c == '\u{2029}' || c == '\u{202f}' || c == '\u{205f}' || c
        == '\u{3000}'
}

/// The text without its leading and trailing whitespace.
pub fn trim_text(s: &str) -> (r: String)
    ensures
        r@ == trimmed(s@),
{
    let chars = chars_of(s);
    let n = chars.len();
    let mut i: usize = 0;
    proof {
        assert(s@.skip(0) =~= s@);
    }
    while i < n && white_space(chars[i])
        invariant
            n == chars@.len(),
            chars@ == s@,
            i <= n,
            trim_start(s@) == trim_start(s@.skip(i as int)),
        decreases n - i,
    {
        proof {
            assert(s@.skip(i as int).drop_first() =~= s@.skip(i + 1 as int));
            assert(s@.skip(i as int)[0] == chars@[i as int]);
        }
        i = i + 1;
    }
    proof {
        if i < n {
            assert(s@.skip(i as int)[0] == chars@[i as int]);
        }
        assert(trim_start(s@.skip(i as int)) == s@.skip(i as int));
        assert(s@.skip(i as int) =~= s@.subrange(i as int, n as int));
    }
    let mut j: usize = n;
    while j > i && white_space(chars[j - 1])
        invariant
            n == chars@.len(),
            chars@ == s@,
            i <= j <= n,
            trim_end(s@.subrange(i as int, n as int)) == trim_end(s@.subrange(i as int, j as int)),
        decreases j - i,
    {
        proof {
            assert(s@.subrange(i as int, j as int).drop_last() =~= s@.subrange(i as int, j - 1 as int));
            assert(s@.subrange(i as int, j as int).last() == chars@[j - 1]);
        }
        j = j - 1;
    }
    proof {
        if j > i {
            assert(s@.subrange(i as int, j as int).last() == chars@[j - 1]);
        }
        assert(trim_end(s@.subrange(i as int, j as int)) == s@.subrange(i as int, j as int));
    }
    s.substring_char(i, j).to_owned()
}

/// The fields of `s` between commas.
pub fn split_commas(s: &str) -> (fields: Vec<String>)
    ensures
        fields@.map_values(|f: String| f@) == comma_fields(s@),
{
    let chars = chars_of(s);
    let n = chars.len();
    let mut fields: Vec<String> = Vec::new();
    let mut start: usize = 0;
    let mut i: usize = 0;
    proof {
        assert(s@.take(0) =~= Seq::<char>::empty());
        assert(fields@.map_values(|f: String| f@).push(s@.subrange(0, 0)) =~= seq![Seq::<char>::empty()]);
    }
    while i < n
        invariant
            n == chars@.len(),
            chars@ == s@,
            start <= i <= n,
            fields@.map_values(|f: String| f@).push(s@.subrange(start as int, i as int)) == comma_fields(
                s@.take(i as int),
            ),
        decreases n - i,
    {
        let ghost before = fields@.map_values(|f: String| f@);
        proof {
            assert(s@.take(i + 1 as int).drop_last() =~= s@.take(i as int));
            assert(s@.take(i + 1 as int).last() == s@[i as int]);
            lemma_comma_fields_nonempty(s@.take(i as int));
        }
        if chars[i] == ',' {
            let field = s.substring_char(start, i).to_owned();
            fields.push(field);
            proof {
                assert(fields@.map_values(|f: String| f@) =~= before.push(s@.subrange(start as int, i as int)));
                assert(s@.subrange((i + 1) as int, (i + 1) as int) =~= Seq::<char>::empty());
            }
            start = i + 1;
        } else {
            proof {
                assert(s@.subrange(start as int, i + 1 as int) =~= s@.subrange(start as int, i as int).push(
                    s@[i as int],
                ));
                let r = comma_fields(s@.take(i as int));
                assert(r == before.push(s@.subrange(start as int, i as int)));
                assert(before.push(s@.subrange(start as int, i + 1 as int)) =~= r.update(
                    r.len() - 1,
                    r.last().push(s@[i as int]),
                ));
            }
        }
        i = i + 1;
    }
    let last = s.substring_char(start, n).to_owned();
    let ghost before = fields@.map_values(|f: String| f@);
    fields.push(last);
    proof {
        assert(s@.take(n as int) =~= s@);
        assert(fields@.map_values(|f: String| f@) =~= before.push(s@.subrange(start as int, n as int)));
    }
    fields
}

/// The runner addresses of a comma-separated list, each trimmed.
pub fn runner_targets(list: &str) -> (targets: Vec<String>)
    ensures
        targets@.map_values(|t: String| t@) == comma_fields(list@).map_values(|f: Seq<char>| trimmed(f)),
{
    let fields = split_commas(list);
    let ghost fv = fields@.map_values(|f: String| f@);
    let mut targets: Vec<String> = Vec::new();
    let mut i: usize = 0;
    while i < fields.len()
        invariant
            i <= fields@.len(),
            fv == fields@.map_values(|f: String| f@),
            targets@.len() == i,
            forall|k: int| 0 <= k < i ==> (#[trigger] targets@[k])@ == trimmed(fv[k]),
        decreases fields@.len() - i,
    {
        targets.push(trim_text(fields[i].as_str()));
        i = i + 1;
    }
    proof {
        assert(targets@.map_values(|t: String| t@) =~= fv.map_values(|f: Seq<char>| trimmed(f)));
    }
    targets
}

} // verus!
