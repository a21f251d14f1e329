use vstd::prelude::*;
use std::collections::VecDeque;

use crate::config::{unknown_model_error, Allowlist};
use crate::error::{invalid_argument, unit_error, ErrorView, RunnerError, StatusCode};
use crate::text::{debug_str, debug_string};
use crate::validation::{component_check, validate_file_root, validate_filename, validate_step_id};
use crate::counting::{
    all_below, count, increasing, lemma_count_full, lemma_count_push, lemma_count_take,
    lemma_pending_resolve, lemma_pending_zero, nondecreasing, pending,
};

verus! {

/// A file handed inline to a run: its name and its bytes.
#[derive(Debug)]
pub struct InputFile {
    pub name: String,
    pub content: Vec<u8>,
}

/// One step of a pipeline as a client requests it.
#[derive(Debug)]
pub struct PipelineStep {
    pub id: String,
    pub model: String,
    pub file_root: String,
    pub inputs: Vec<InputFile>,
    pub depends_on: Vec<String>,
    pub timeout_seconds: Option<u32>,
}

/// The ids of a sequence of steps.
pub open spec fn ids_of(steps: Seq<PipelineStep>) -> Seq<Seq<char>> {
    steps.map_values(|s: PipelineStep| s.id@)
}

/// No id occurs twice.
pub open spec fn unique_ids(steps: Seq<PipelineStep>) -> bool {
    forall|i: int, j: int|
        0 <= i < steps.len() && 0 <= j < steps.len() && i != j ==> #[trigger] steps[i].id@
            != #[trigger] steps[j].id@
}

/// Every dependency names a step of the pipeline.
pub open spec fn deps_exist(steps: Seq<PipelineStep>) -> bool {
    forall|v: int, j: int|
        0 <= v < steps.len() && 0 <= j < steps[v].depends_on@.len() ==> ids_of(steps).contains(
            #[trigger] steps[v].depends_on@[j]@,
        )
}

/// `rank` strictly grows along every dependency: each step ranks above
/// every step it depends on.
pub open spec fn is_ranking(deps: Seq<Seq<usize>>, rank: spec_fn(usize) -> nat) -> bool {
    forall|v: int, j: int|
        0 <= v < deps.len() && 0 <= j < deps[v].len() ==> rank(#[trigger] deps[v][j]) < rank(
            v as usize,
        )
}

/// The dependency graph has no cycle: its steps can be ranked so that every
/// step ranks above the steps it depends on.
pub open spec fn acyclic(deps: Seq<Seq<usize>>) -> bool {
    exists|rank: spec_fn(usize) -> nat| #[trigger] is_ranking(deps, rank)
}

/// `order` lists distinct steps, each after every step that it depends on.
pub open spec fn is_topological_prefix(deps: Seq<Seq<usize>>, order: Seq<usize>) -> bool {
    &&& order.no_duplicates()
    &&& all_below(order, deps.len())
    &&& forall|i: int, j: int|
        0 <= i < order.len() && 0 <= j < deps[order[i] as int].len() ==> order.take(i).contains(
            #[trigger] deps[order[i] as int][j],
        )
}

/// The requested DAG, by step index: a step's index is its position in the
/// request.
#[derive(Debug)]
pub struct DependencyGraph {
    pub step_ids: Vec<String>,
    pub steps: Vec<PipelineStep>,
    pub deps: Vec<Vec<usize>>,
    pub rev_dep: Vec<Vec<usize>>,
    pub remaining_deps: Vec<usize>,
}

impl DependencyGraph {
    pub open spec fn n(&self) -> nat {
        self.steps@.len()
    }

    /// The dependencies of each step, by index.
    pub open spec fn dep_view(&self) -> Seq<Seq<usize>> {
        self.deps@.map_values(|d: Vec<usize>| d@)
    }

    /// The dependents of each step, by index.
    pub open spec fn rev_view(&self) -> Seq<Seq<usize>> {
        self.rev_dep@.map_values(|d: Vec<usize>| d@)
    }

    pub open spec fn dep_ok(&self, v: int) -> bool {
        &&& self.deps@[v]@.len() == self.steps@[v].depends_on@.len()
        &&& all_below(self.deps@[v]@, self.n())
        &&& forall|j: int|
            0 <= j < self.deps@[v]@.len() ==> self.steps@[#[trigger] self.deps@[v]@[j] as int].id@
                == self.steps@[v].depends_on@[j]@
        &&& self.remaining_deps@[v] == self.deps@[v]@.len()
    }

    pub open spec fn rev_ok(&self, u: int) -> bool {
        &&& nondecreasing(self.rev_dep@[u]@)
        &&& all_below(self.rev_dep@[u]@, self.n())
        &&& forall|v: usize| v < self.n() ==> #[trigger] count(self.rev_dep@[u]@, v) == count(self.deps@[v as int]@, u as usize)
    }

    /// The graph is the one that `steps` describe.
    pub open spec fn wf(&self) -> bool {
        &&& self.n() <= usize::MAX
        &&& self.step_ids@.len() == self.n()
        &&& self.deps@.len() == self.n()
        &&& self.rev_dep@.len() == self.n()
        &&& self.remaining_deps@.len() == self.n()
        &&& unique_ids(self.steps@)
        &&& forall|i: int| 0 <= i < self.n() ==> (#[trigger] self.step_ids@[i])@ == self.steps@[i].id@
        &&& forall|v: int| 0 <= v < self.n() ==> #[trigger] self.dep_ok(v)
        &&& forall|u: int| 0 <= u < self.n() ==> #[trigger] self.rev_ok(u)
    }
}

} // verus!

verus! {

/// The first position of `name` among `ids`, if it occurs.
pub fn find_step(ids: &Vec<String>, name: &String) -> (r: Option<usize>)
    ensures
        r matches Some(i) ==> i < ids@.len() && ids@[i as int]@ == name@,
        r is None ==> forall|i: int| 0 <= i < ids@.len() ==> (#[trigger] ids@[i])@ != name@,
{
    let mut i: usize = 0;
    while i < ids.len()
        invariant
            i <= ids@.len(),
            forall|k: int| 0 <= k < i ==> (#[trigger] ids@[k])@ != name@,
        decreases ids@.len() - i,
    {
        if ids[i] == *name {
            return Some(i);
        }
        i = i + 1;
    }
    None
}

/// Number of marked entries.
pub open spec fn num_true(s: Seq<bool>) -> nat
    decreases s.len(),
{
    if s.len() == 0 {
        0
    } else {
        num_true(s.drop_last()) + (if s.last() { 1nat } else { 0nat })
    }
}

pub proof fn lemma_num_true_bound(s: Seq<bool>)
    ensures
        num_true(s) <= s.len(),
        num_true(s) == s.len() ==> forall|i: int| 0 <= i < s.len() ==> s[i],
        (exists|i: int| 0 <= i < s.len() && !s[i]) ==> num_true(s) < s.len(),
    decreases s.len(),
{
    if s.len() > 0 {
        lemma_num_true_bound(s.drop_last());
        if num_true(s) == s.len() {
            assert forall|i: int| 0 <= i < s.len() implies s[i] by {
                if i < s.len() - 1 {
                    assert(s.drop_last()[i] == s[i]);
                }
            }
        }
    }
}

pub proof fn lemma_num_true_set(s: Seq<bool>, v: int)
    requires
        0 <= v < s.len(),
        !s[v],
    ensures
        num_true(s.update(v, true)) == num_true(s) + 1,
    decreases s.len(),
{
    if v == s.len() - 1 {
        assert(s.update(v, true).drop_last() =~= s.drop_last());
    } else {
        lemma_num_true_set(s.drop_last(), v);
        assert(s.update(v, true).drop_last() =~= s.drop_last().update(v, true));
    }
}

pub proof fn lemma_num_true_zero(n: nat)
    ensures
        num_true(Seq::new(n, |i: int| false)) == 0,
    decreases n,
{
    if n > 0 {
        lemma_num_true_zero((n - 1) as nat);
        assert(Seq::new(n, |i: int| false).drop_last() =~= Seq::new((n - 1) as nat, |i: int| false));
    }
}

/// Builds the graph of validated steps: ids are unique and every dependency
/// names a step.
pub fn build_dependency_graph(steps: Vec<PipelineStep>) -> (g: DependencyGraph)
    requires
        unique_ids(steps@),
        deps_exist(steps@),
    ensures
        g.wf(),
        g.steps@ == steps@,
{
    let n = steps.len();
    let mut step_ids: Vec<String> = Vec::new();
    let mut i: usize = 0;
    while i < n
        invariant
            n == steps@.len(),
            i <= n,
            step_ids@.len() == i,
            forall|k: int| 0 <= k < i ==> (#[trigger] step_ids@[k])@ == steps@[k].id@,
        decreases n - i,
    {
        step_ids.push(steps[i].id.clone());
        i = i + 1;
    }

    let mut deps: Vec<Vec<usize>> = Vec::new();
    let mut remaining_deps: Vec<usize> = Vec::new();
    let mut v: usize = 0;
    while v < n
        invariant
            n == steps@.len(),
            v <= n,
            step_ids@.len() == n,
            forall|k: int| 0 <= k < n ==> (#[trigger] step_ids@[k])@ == steps@[k].id@,
            deps_exist(steps@),
            deps@.len() == v,
            remaining_deps@.len() == v,
            forall|w: int| 0 <= w < v ==> {
                &&& (#[trigger] deps@[w])@.len() == steps@[w].depends_on@.len()
                &&& all_below(deps@[w]@, n as nat)
                &&& forall|j: int|
                    0 <= j < deps@[w]@.len() ==> steps@[#[trigger] deps@[w]@[j] as int].id@
                        == steps@[w].depends_on@[j]@
                &&& remaining_deps@[w] == deps@[w]@.len()
            },
        decreases n - v,
    {
        let names = &steps[v].depends_on;
        let mut dv: Vec<usize> = Vec::new();
        let mut j: usize = 0;
        while j < names.len()
            invariant
                n == steps@.len(),
                v < n,
                names == steps@[v as int].depends_on,
                step_ids@.len() == n,
                forall|k: int| 0 <= k < n ==> (#[trigger] step_ids@[k])@ == steps@[k].id@,
                deps_exist(steps@),
                j <= names@.len(),
                dv@.len() == j,
                all_below(dv@, n as nat),
                forall|k: int| 0 <= k < j ==> steps@[#[trigger] dv@[k] as int].id@ == names@[k]@,
            decreases names@.len() - j,
        {
            match find_step(&step_ids, &names[j]) {
                Some(idx) => {
                    dv.push(idx);
                },
                None => {
                    proof {
                        assert(ids_of(steps@).contains(steps@[v as int].depends_on@[j as int]@));
                        let k = choose|k: int|
                            0 <= k < ids_of(steps@).len() && ids_of(steps@)[k]
                                == steps@[v as int].depends_on@[j as int]@;
                        assert(step_ids@[k]@ == names@[j as int]@);
                    }
                    dv.push(0);
                },
            }
            j = j + 1;
        }
        remaining_deps.push(dv.len());
        deps.push(dv);
        v = v + 1;
    }

    let mut rev_dep: Vec<Vec<usize>> = Vec::new();
    let mut u: usize = 0;
    while u < n
        invariant
            u <= n,
            rev_dep@.len() == u,
            forall|k: int| 0 <= k < u ==> (#[trigger] rev_dep@[k])@.len() == 0,
        decreases n - u,
    {
        rev_dep.push(Vec::new());
        u = u + 1;
    }

    let mut v: usize = 0;
    while v < n
        invariant
            n == steps@.len(),
            v <= n,
            deps@.len() == n,
            rev_dep@.len() == n,
            forall|w: int| 0 <= w < n ==> all_below((#[trigger] deps@[w])@, n as nat),
            forall|x: int| 0 <= x < n ==> {
                &&& nondecreasing((#[trigger] rev_dep@[x])@)
                &&& forall|k: int| 0 <= k < rev_dep@[x]@.len() ==> (#[trigger] rev_dep@[x]@[k]) < v
            },
            forall|x: int, w: usize|
                0 <= x < n && w < n ==> #[trigger] count(rev_dep@[x]@, w) == (if w < v {
                    count(deps@[w as int]@, x as usize)
                } else {
                    0
                }),
        decreases n - v,
    {
        let mut j: usize = 0;
        let dlen = deps[v].len();
        while j < dlen
            invariant
                n == steps@.len(),
                v < n,
                deps@.len() == n,
                rev_dep@.len() == n,
                dlen == deps@[v as int]@.len(),
                j <= dlen,
                forall|w: int| 0 <= w < n ==> all_below((#[trigger] deps@[w])@, n as nat),
                forall|x: int| 0 <= x < n ==> {
                    &&& nondecreasing((#[trigger] rev_dep@[x])@)
                    &&& forall|k: int| 0 <= k < rev_dep@[x]@.len() ==> (#[trigger] rev_dep@[x]@[k]) <= v
                },
                forall|x: int, w: usize|
                    0 <= x < n && w < n ==> #[trigger] count(rev_dep@[x]@, w) == (if w < v {
                        count(deps@[w as int]@, x as usize)
                    } else if w == v {
                        count(deps@[v as int]@.take(j as int), x as usize)
                    } else {
                        0
                    }),
            decreases dlen - j,
        {
            let x = deps[v][j];
            let ghost before = rev_dep@;
            proof {
                assert(x < n);
            }
            rev_dep[x].push(v);
            proof {
                assert forall|y: int| 0 <= y < n implies {
                    &&& nondecreasing((#[trigger] rev_dep@[y])@)
                    &&& forall|k: int| 0 <= k < rev_dep@[y]@.len() ==> (#[trigger] rev_dep@[y]@[k]) <= v
                } by {
                    if y == x as int {
                        assert(rev_dep@[y]@ == before[y]@.push(v));
                    } else {
                        assert(rev_dep@[y] == before[y]);
                    }
                }
                assert forall|y: int, w: usize|
                    0 <= y < n && w < n implies #[trigger] count(rev_dep@[y]@, w) == (if w < v {
                        count(deps@[w as int]@, y as usize)
                    } else if w == v {
                        count(deps@[v as int]@.take(j + 1 as int), y as usize)
                    } else {
                        0
                    }) by {
                    lemma_count_take(deps@[v as int]@, j as int, y as usize);
                    if y == x as int {
                        assert(rev_dep@[y]@ == before[y]@.push(v));
                        lemma_count_push(before[y]@, v, w);
                    } else {
                        assert(rev_dep@[y] == before[y]);
                    }
                }
            }
            j = j + 1;
        }
        proof {
            assert forall|y: int, w: usize|
                0 <= y < n && w < n implies #[trigger] count(rev_dep@[y]@, w) == (if w < v + 1 {
                    count(deps@[w as int]@, y as usize)
                } else {
                    0
                }) by {
                lemma_count_full(deps@[v as int]@, y as usize);
            }
            assert forall|y: int, k: int|
                0 <= y < n && 0 <= k < rev_dep@[y]@.len() implies (#[trigger] rev_dep@[y]@[k]) < v + 1 by {
            }
        }
        v = v + 1;
    }

    let g = DependencyGraph { step_ids, steps, deps, rev_dep, remaining_deps };
    proof {
        assert forall|w: int| 0 <= w < g.n() implies #[trigger] g.dep_ok(w) by {
        }
        assert forall|x: int| 0 <= x < g.n() implies #[trigger] g.rev_ok(x) by {
            assert(all_below(g.rev_dep@[x]@, g.n())) by {
                assert forall|k: int| 0 <= k < g.rev_dep@[x]@.len() implies (#[trigger] g.rev_dep@[x]@[k]) < g.n() by {
                    assert(g.rev_dep@[x]@[k] < n);
                }
            }
        }
    }
    g
}

} // verus!

verus! {

/// In a ranked graph, a set of steps that holds every step whose
/// dependencies it holds, holds every step.
pub proof fn lemma_closed_set_is_total(deps: Seq<Seq<usize>>, rank: spec_fn(usize) -> nat, s: Seq<bool>)
    requires
        is_ranking(deps, rank),
        deps.len() <= usize::MAX,
        s.len() == deps.len(),
        forall|v: int| 0 <= v < deps.len() ==> all_below(#[trigger] deps[v], deps.len()),
        forall|v: int|
            0 <= v < deps.len() && (forall|j: int| 0 <= j < deps[v].len() ==> s[#[trigger] deps[v][j] as int])
                ==> #[trigger] s[v],
    ensures
        forall|v: int| 0 <= v < deps.len() ==> #[trigger] s[v],
{
    assert forall|v: int| 0 <= v < deps.len() implies #[trigger] s[v] by {
        lemma_closed_set_holds(deps, rank, s, v as usize);
    }
}

proof fn lemma_closed_set_holds(deps: Seq<Seq<usize>>, rank: spec_fn(usize) -> nat, s: Seq<bool>, v: usize)
    requires
        is_ranking(deps, rank),
        s.len() == deps.len(),
        v < deps.len(),
        forall|w: int| 0 <= w < deps.len() ==> all_below(#[trigger] deps[w], deps.len()),
        forall|w: int|
            0 <= w < deps.len() && (forall|j: int| 0 <= j < deps[w].len() ==> s[#[trigger] deps[w][j] as int])
                ==> #[trigger] s[w],
    ensures
        s[v as int],
    decreases rank(v),
{
    assert forall|j: int| 0 <= j < deps[v as int].len() implies s[#[trigger] deps[v as int][j] as int] by {
        let d = deps[v as int][j];
        assert(rank(d) < rank(v));
        assert(d < deps.len());
        lemma_closed_set_holds(deps, rank, s, d);
    }
}

/// Appends to `ready` every step whose remaining count drops to zero when
/// one occurrence in `rev` is taken off its count, in increasing order.
pub(crate) fn release_dependents(rev: &Vec<usize>, remaining: &mut Vec<usize>, ready: &mut VecDeque<usize>)
    requires
        all_below(rev@, old(remaining)@.len()),
        nondecreasing(rev@),
        forall|v: usize| v < old(remaining)@.len() ==> #[trigger] count(rev@, v) <= old(remaining)@[v as int],
    ensures
        final(remaining)@.len() == old(remaining)@.len(),
        forall|v: usize|
            v < old(remaining)@.len() ==> #[trigger] final(remaining)@[v as int] == old(remaining)@[v as int]
                - count(rev@, v),
        final(ready)@.len() >= old(ready)@.len(),
        final(ready)@.take(old(ready)@.len() as int) == old(ready)@,
        increasing(final(ready)@.skip(old(ready)@.len() as int)),
        forall|v: usize|
            #[trigger] final(ready)@.skip(old(ready)@.len() as int).contains(v) <==> (v < old(remaining)@.len()
                && count(rev@, v) > 0 && old(remaining)@[v as int] == count(rev@, v)),
{
    let ghost rem0 = remaining@;
    let ghost q0 = ready@;
    let n = remaining.len();
    let mut k: usize = 0;
    while k < rev.len()
        invariant
            n == rem0.len(),
            remaining@.len() == n,
            all_below(rev@, n as nat),
            nondecreasing(rev@),
            forall|v: usize| v < n ==> #[trigger] count(rev@, v) <= rem0[v as int],
            k <= rev@.len(),
            forall|v: usize|
                v < n ==> #[trigger] remaining@[v as int] == rem0[v as int] - count(rev@.take(k as int), v),
            ready@.len() >= q0.len(),
            ready@.take(q0.len() as int) == q0,
            increasing(ready@.skip(q0.len() as int)),
            forall|v: usize|
                #[trigger] ready@.skip(q0.len() as int).contains(v) <==> (v < n && count(
                    rev@.take(k as int),
                    v,
                ) > 0 && rem0[v as int] == count(rev@.take(k as int), v)),
            k > 0 ==> forall|v: usize|
                ready@.skip(q0.len() as int).contains(v) ==> v <= #[trigger] rev@[k - 1],
            forall|v: usize|
                #[trigger] ready@.skip(q0.len() as int).contains(v) ==> count(rev@.take(k as int), v) == count(rev@, v),
        decreases rev@.len() - k,
    {
        let v = rev[k];
        let ghost qb = ready@;
        proof {
            lemma_count_take(rev@, k as int, v);
            // the occurrences of v in rev@ from k on are at least one
            lemma_count_prefix_le(rev@, k as int + 1, v);
        }
        remaining[v] = remaining[v] - 1;
        let now_ready = remaining[v] == 0;
        if now_ready {
            ready.push_back(v);
        }
        proof {
            let app = ready@.skip(q0.len() as int);
            assert forall|w: usize| w < n implies #[trigger] remaining@[w as int] == rem0[w as int] - count(
                rev@.take(k + 1 as int),
                w,
            ) by {
                lemma_count_take(rev@, k as int, w);
            }
            if now_ready {
                assert(ready@ == qb.push(v));
                assert(ready@.take(q0.len() as int) =~= qb.take(q0.len() as int));
                assert(app =~= qb.skip(q0.len() as int).push(v));
                // every earlier entry is fully counted and at most rev[k - 1] <= v
                assert forall|w: usize| #[trigger] qb.skip(q0.len() as int).contains(w) implies w < v by {
                    if k > 0 {
                        assert(rev@[k - 1] <= rev@[k as int]);
                    }
                    lemma_count_take(rev@, k as int, w);
                    lemma_count_prefix_le(rev@, k as int + 1, w);
                }
                assert(increasing(app)) by {
                    assert forall|i: int, j: int| 0 <= i < j < app.len() implies app[i] < app[j] by {
                        if j == app.len() - 1 {
                            assert(qb.skip(q0.len() as int).contains(app[i]));
                        } else {
                            assert(app[i] == qb.skip(q0.len() as int)[i]);
                            assert(app[j] == qb.skip(q0.len() as int)[j]);
                        }
                    }
                }
                lemma_count_prefix_le(rev@, k as int + 1, v);
                lemma_count_rest_zero(rev@, k as int + 1, v);
            } else {
                assert(ready@ == qb);
            }
            assert forall|w: usize|
                #[trigger] ready@.skip(q0.len() as int).contains(w) <==> (w < n && count(
                    rev@.take(k + 1 as int),
                    w,
                ) > 0 && rem0[w as int] == count(rev@.take(k + 1 as int), w)) by {
                lemma_count_take(rev@, k as int, w);
                if now_ready && w == v {
                    assert(ready@.skip(q0.len() as int)[ready@.skip(q0.len() as int).len() - 1] == v);
                } else if now_ready {
                    if qb.skip(q0.len() as int).contains(w) {
                        let i = choose|i: int| 0 <= i < qb.skip(q0.len() as int).len() && qb.skip(q0.len() as int)[i] == w;
                        assert(ready@.skip(q0.len() as int)[i] == w);
                    }
                    if ready@.skip(q0.len() as int).contains(w) {
                        let i = choose|i: int| 0 <= i < ready@.skip(q0.len() as int).len() && ready@.skip(q0.len() as int)[i] == w;
                        assert(qb.skip(q0.len() as int)[i] == w);
                    }
                }
            }
            assert forall|w: usize| ready@.skip(q0.len() as int).contains(w) implies w <= #[trigger] rev@[k as int] by {
                if now_ready && w == v {
                } else {
                    assert(qb.skip(q0.len() as int).contains(w)) by {
                        if now_ready {
                            let i = choose|i: int| 0 <= i < ready@.skip(q0.len() as int).len() && ready@.skip(q0.len() as int)[i] == w;
                            assert(qb.skip(q0.len() as int)[i] == w);
                        }
                    }
                    if k > 0 {
                        assert(rev@[k - 1] <= rev@[k as int]);
                    }
                }
            }
            assert forall|w: usize|
                #[trigger] ready@.skip(q0.len() as int).contains(w) implies count(rev@.take(k + 1 as int), w) == count(rev@, w) by {
                lemma_count_take(rev@, k as int, w);
                if now_ready && w == v {
                    lemma_count_rest_zero(rev@, k as int + 1, v);
                } else {
                    assert(qb.skip(q0.len() as int).contains(w)) by {
                        if now_ready {
                            let i = choose|i: int| 0 <= i < ready@.skip(q0.len() as int).len() && ready@.skip(q0.len() as int)[i] == w;
                            assert(qb.skip(q0.len() as int)[i] == w);
                        }
                    }
                }
            }
        }
        k = k + 1;
    }
    proof {
        assert forall|v: usize| v < n implies #[trigger] remaining@[v as int] == rem0[v as int] - count(rev@, v) by {
            lemma_count_full(rev@, v);
        }
        assert forall|v: usize|
            #[trigger] ready@.skip(q0.len() as int).contains(v) <==> (v < n && count(rev@, v) > 0
                && rem0[v as int] == count(rev@, v)) by {
            lemma_count_full(rev@, v);
        }
    }
}

/// A prefix holds no more occurrences than the whole.
pub proof fn lemma_count_prefix_le(s: Seq<usize>, k: int, x: usize)
    requires
        0 <= k <= s.len(),
    ensures
        count(s.take(k), x) <= count(s, x),
    decreases s.len() - k,
{
    if k < s.len() {
        lemma_count_take(s, k, x);
        lemma_count_prefix_le(s, k + 1, x);
    } else {
        lemma_count_full(s, x);
    }
}

/// When a prefix holds all occurrences of `x`, none lies past it; in a
/// nondecreasing sequence that prefix ends with the last `x` when it holds one.
pub proof fn lemma_count_rest_zero(s: Seq<usize>, k: int, x: usize)
    requires
        0 <= k <= s.len(),
        count(s.take(k), x) == count(s, x),
    ensures
        forall|i: int| k <= i < s.len() ==> s[i] != x,
    decreases s.len() - k,
{
    if k < s.len() {
        lemma_count_take(s, k, x);
        lemma_count_prefix_le(s, k + 1, x);
        lemma_count_rest_zero(s, k + 1, x);
    }
}

impl DependencyGraph {
    /// The steps with no dependencies, in request order.
    pub fn initial_ready(&self) -> (ready: VecDeque<usize>)
        requires
            self.wf(),
        ensures
            increasing(ready@),
            forall|v: usize| #[trigger] ready@.contains(v) <==> (v < self.n() && self.remaining_deps@[v as int] == 0),
    {
        let mut ready: VecDeque<usize> = VecDeque::new();
        let n = self.step_ids.len();
        let mut v: usize = 0;
        while v < n
            invariant
                self.wf(),
                n == self.n(),
                v <= n,
                increasing(ready@),
                forall|w: usize| #[trigger] ready@.contains(w) <==> (w < v && self.remaining_deps@[w as int] == 0),
            decreases n - v,
        {
            let ghost before = ready@;
            if self.remaining_deps[v] == 0 {
                ready.push_back(v);
                proof {
                    assert(ready@ == before.push(v));
                    assert forall|w: usize| #[trigger] ready@.contains(w) <==> (w < v + 1 && self.remaining_deps@[w as int] == 0) by {
                        if before.contains(w) {
                            let i = choose|i: int| 0 <= i < before.len() && before[i] == w;
                            assert(ready@[i] == w);
                        }
                        if ready@.contains(w) && w != v {
                            let i = choose|i: int| 0 <= i < ready@.len() && ready@[i] == w;
                            assert(before[i] == w);
                        }
                        if w == v {
                            assert(ready@[before.len() as int] == v);
                        }
                    }
                    assert forall|i: int, j: int| 0 <= i < j < ready@.len() implies ready@[i] < ready@[j] by {
                        if j == ready@.len() - 1 {
                            assert(before.contains(ready@[i]));
                        }
                    }
                }
            }
            v = v + 1;
        }
        ready
    }
}

/// Checks with Kahn's algorithm that the graph has no cycle. The runtime
/// scheduler still picks steps dynamically as their dependencies finish.
pub fn ensure_acyclic(graph: &DependencyGraph) -> (res: Result<(), crate::error::RunnerError>)
    requires
        graph.wf(),
    ensures
        res is Ok <==> acyclic(graph.dep_view()),
        res matches Err(e) ==> e@ == crate::error::invalid_argument("cycle in dependency graph"@),
{
    let n = graph.step_ids.len();
    let ghost deps = graph.dep_view();
    let mut remaining = graph.remaining_deps.clone();
    let mut ready = graph.initial_ready();
    let mut sorted_count: usize = 0;
    let ghost mut popped: Seq<bool> = Seq::new(n as nat, |i: int| false);
    let ghost mut order: Seq<usize> = Seq::empty();
    proof {
        assert(remaining@ == graph.remaining_deps@);
        lemma_num_true_zero(n as nat);
        assert forall|v: int| 0 <= v < n implies #[trigger] remaining@[v] == pending(deps[v], popped) by {
            assert(graph.dep_ok(v));
            lemma_pending_all_unresolved(deps[v], popped);
        }
        assert forall|v: usize| v < n implies #[trigger] queued_iff_zero(popped, ready@, remaining@, v) by {
        }
    }
    while ready.len() > 0
        invariant
            graph.wf(),
            n == graph.n(),
            deps == graph.dep_view(),
            remaining@.len() == n,
            popped.len() == n,
            forall|v: int| 0 <= v < n ==> #[trigger] remaining@[v] == pending(deps[v], popped),
            forall|v: usize| v < n ==> #[trigger] queued_iff_zero(popped, ready@, remaining@, v),
            ready@.no_duplicates(),
            forall|x: usize| #[trigger] ready@.contains(x) ==> x < n && !popped[x as int],
            is_topological_prefix(deps, order),
            forall|v: usize| v < n ==> (popped[v as int] <==> #[trigger] order.contains(v)),
            sorted_count == order.len(),
            sorted_count == num_true(popped),
        decreases n - sorted_count,
    {
        let ghost q = ready@;
        let ghost old_popped = popped;
        let ghost old_order = order;
        let u = ready.pop_front().unwrap();
        proof {
            assert(q[0] == u);
            assert(ready@ == q.drop_first());
            assert(q.contains(u));
            assert(graph.dep_ok(u as int));
            assert(graph.rev_ok(u as int));
            assert(queued_iff_zero(popped, q, remaining@, u));
            lemma_pending_zero(deps[u as int], popped);
            lemma_num_true_bound(popped);
            lemma_num_true_set(popped, u as int);
            assert forall|j: int| 0 <= j < deps[u as int].len() implies order.contains(#[trigger] deps[u as int][j]) by {
                assert(popped[deps[u as int][j] as int]);
            }
            let new_order = order.push(u);
            assert(is_topological_prefix(deps, new_order)) by {
                assert forall|i: int, j: int|
                    0 <= i < new_order.len() && 0 <= j < deps[new_order[i] as int].len() implies new_order.take(i).contains(
                        #[trigger] deps[new_order[i] as int][j],
                    ) by {
                    if i < order.len() {
                        assert(new_order.take(i) =~= order.take(i));
                        assert(order.take(i).contains(deps[order[i] as int][j]));
                    } else {
                        assert(new_order.take(i) =~= order);
                    }
                }
                assert(new_order.no_duplicates()) by {
                    assert forall|i: int, k: int| 0 <= i < k < new_order.len() implies new_order[i] != new_order[k] by {
                        if k == order.len() {
                            assert(order.contains(order[i]));
                        }
                    }
                }
            }
            popped = popped.update(u as int, true);
            order = new_order;
            assert forall|v: int| 0 <= v < n implies count(graph.rev_view()[u as int], v as usize)
                <= #[trigger] remaining@[v] && remaining@[v] == pending(deps[v], popped) + count(deps[v], u) by {
                assert(graph.dep_ok(v));
                lemma_pending_resolve(deps[v], old_popped, u);
                assert(count(graph.rev_dep@[u as int]@, v as usize) == count(graph.deps@[v]@, u));
            }
        }
        sorted_count = sorted_count + 1;
        let ghost rem_before = remaining@;
        let ghost q_before = ready@;
        release_dependents(&graph.rev_dep[u], &mut remaining, &mut ready);
        proof {
            let app = ready@.skip(q_before.len() as int);
            assert(ready@ =~= q_before + app);
            assert forall|v: int| 0 <= v < n implies #[trigger] remaining@[v] == pending(deps[v], popped) by {
                assert(remaining@[v] == rem_before[v] - count(graph.rev_view()[u as int], v as usize));
            }
            assert forall|v: usize| v < n implies #[trigger] queued_iff_zero(popped, ready@, remaining@, v) by {
                assert(queued_iff_zero(old_popped, q, rem_before, v));
                assert(remaining@[v as int] == rem_before[v as int] - count(graph.rev_view()[u as int], v as usize));
                if q_before.contains(v) {
                    let i = choose|i: int| 0 <= i < q_before.len() && q_before[i] == v;
                    assert(ready@[i] == v);
                }
                if app.contains(v) {
                    let i = choose|i: int| 0 <= i < app.len() && app[i] == v;
                    assert(ready@[q_before.len() + i] == v);
                }
                if ready@.contains(v) {
                    let i = choose|i: int| 0 <= i < ready@.len() && ready@[i] == v;
                    if i < q_before.len() {
                        assert(q_before[i] == v);
                    } else {
                        assert(app[i - q_before.len()] == v);
                    }
                }
                assert(q.contains(v) ==> rem_before[v as int] == 0);
                assert(old_popped[v as int] ==> rem_before[v as int] == 0);
                assert(rem_before[v as int] == 0 ==> (old_popped[v as int] || q.contains(v)));
                if v == u {
                    assert(pending(deps[u as int], popped) == 0) by {
                        lemma_pending_zero(deps[u as int], popped);
                    }
                }
                if q.contains(v) && v != u {
                    let i = choose|i: int| 0 <= i < q.len() && q[i] == v;
                    assert(i > 0);
                    assert(q_before[i - 1] == v);
                }
            }
            assert forall|x: usize| #[trigger] ready@.contains(x) implies x < n && !popped[x as int] by {
                let i = choose|i: int| 0 <= i < ready@.len() && ready@[i] == x;
                if i < q_before.len() {
                    assert(q_before[i] == x);
                    assert(q[i + 1] == x);
                    assert(q.contains(x));
                    assert(x != u) by {
                        if x == u {
                            assert(q[0] == q[i + 1]);
                        }
                    }
                    assert(!old_popped[x as int]);
                } else {
                    assert(app[i - q_before.len()] == x);
                    assert(app.contains(x));
                    assert(rem_before[x as int] > 0);
                    assert(queued_iff_zero(old_popped, q, rem_before, x));
                    assert(x != u);
                    assert(!old_popped[x as int]);
                }
            }
            assert(ready@.no_duplicates()) by {
                assert forall|i: int, k: int| 0 <= i < k < ready@.len() implies ready@[i] != ready@[k] by {
                    if k < q_before.len() {
                        assert(q[i + 1] != q[k + 1]);
                    } else if i >= q_before.len() {
                        assert(app[i - q_before.len()] < app[k - q_before.len()]);
                    } else {
                        let x = ready@[i];
                        assert(q_before[i] == x);
                        assert(q[i + 1] == x);
                        assert(q.contains(x));
                        assert(app[k - q_before.len()] == ready@[k]);
                        assert(app.contains(ready@[k]));
                        assert(queued_iff_zero(old_popped, q, rem_before, x));
                    }
                }
            }
            assert forall|v: usize| v < n implies (popped[v as int] <==> #[trigger] order.contains(v)) by {
                assert(order == old_order.push(u));
                if order.contains(v) && v != u {
                    let i = choose|i: int| 0 <= i < order.len() && order[i] == v;
                    assert(old_order[i] == v);
                    assert(old_order.contains(v));
                }
                if old_order.contains(v) {
                    let i = choose|i: int| 0 <= i < old_order.len() && old_order[i] == v;
                    assert(order[i] == v);
                }
                if v == u {
                    assert(order[order.len() - 1] == u);
                }
            }
        }
    }
    if sorted_count != n {
        proof {
            if acyclic(deps) {
                let rank = choose|rank: spec_fn(usize) -> nat| #[trigger] is_ranking(deps, rank);
                assert forall|v: int| 0 <= v < deps.len() implies all_below(#[trigger] deps[v], deps.len()) by {
                    assert(graph.dep_ok(v));
                }
                assert forall|v: int|
                    0 <= v < deps.len() && (forall|j: int| 0 <= j < deps[v].len() ==> popped[#[trigger] deps[v][j] as int])
                        implies #[trigger] popped[v] by {
                    lemma_pending_zero(deps[v], popped);
                    assert(queued_iff_zero(popped, ready@, remaining@, v as usize));
                    assert(!ready@.contains(v as usize));
                }
                lemma_closed_set_is_total(deps, rank, popped);
                lemma_num_true_all(popped);
            }
        }
        return Err(crate::error::RunnerError::new(
            crate::error::StatusCode::InvalidArgument,
            "cycle in dependency graph".to_owned(),
        ));
    }
    proof {
        lemma_num_true_bound(popped);
        let rank = |x: usize| (choose|i: int| 0 <= i < order.len() && order[i] == x) as nat;
        assert forall|v: int| 0 <= v < n implies #[trigger] order.contains(v as usize) by {
            assert(popped[v]);
        }
        assert(is_ranking(deps, rank)) by {
            assert forall|v: int, j: int|
                0 <= v < deps.len() && 0 <= j < deps[v].len() implies rank(#[trigger] deps[v][j]) < rank(v as usize) by {
                assert(order.contains(v as usize));
                let i = choose|i: int| 0 <= i < order.len() && order[i] == v as usize;
                assert(order.take(i).contains(deps[order[i] as int][j]));
                let k = choose|k: int| 0 <= k < order.take(i).len() && order.take(i)[k] == deps[v][j];
                assert(order[k] == deps[v][j]);
                let k2 = choose|k2: int| 0 <= k2 < order.len() && order[k2] == deps[v][j];
                assert(k2 == k);
            }
        }
    }
    Ok(())
}

/// All entries are marked iff the marks number the length.
pub proof fn lemma_num_true_all(s: Seq<bool>)
    requires
        forall|i: int| 0 <= i < s.len() ==> s[i],
    ensures
        num_true(s) == s.len(),
    decreases s.len(),
{
    if s.len() > 0 {
        lemma_num_true_all(s.drop_last());
    }
}

/// A step is popped or queued exactly when none of its dependencies is pending.
pub open spec fn queued_iff_zero(popped: Seq<bool>, q: Seq<usize>, rem: Seq<usize>, v: usize) -> bool {
    (popped[v as int] || q.contains(v)) <==> rem[v as int] == 0
}

/// With nothing resolved, every entry is pending.
pub proof fn lemma_pending_all_unresolved(s: Seq<usize>, r: Seq<bool>)
    requires
        forall|i: int| 0 <= i < r.len() ==> !r[i],
        all_below(s, r.len()),
    ensures
        pending(s, r) == s.len(),
    decreases s.len(),
{
    if s.len() > 0 {
        assert(all_below(s.drop_last(), r.len())) by {
            assert forall|j: int| 0 <= j < s.drop_last().len() implies (#[trigger] s.drop_last()[j]) < r.len() by {
                assert(s.drop_last()[j] == s[j]);
            }
        }
        lemma_pending_all_unresolved(s.drop_last(), r);
        assert(s.last() == s[s.len() - 1]);
    }
}

} // verus!

verus! {

/// The first input, from position `j` on, whose name is not a valid
/// file name, by the error it gets.
pub open spec fn first_input_problem(inputs: Seq<InputFile>, j: int) -> Option<ErrorView>
    decreases inputs.len() - j,
{
    if j < 0 || j >= inputs.len() {
        None
    } else {
        match component_check(inputs[j].name@, "filename"@) {
            Some(e) => Some(e),
            None => first_input_problem(inputs, j + 1),
        }
    }
}

/// What is wrong with step `i` on its own or against the steps before it,
/// checked in the order: id, file root, model, input names, duplicate id.
pub open spec fn step_problem(allow: Allowlist, steps: Seq<PipelineStep>, i: int) -> Option<ErrorView> {
    let st = steps[i];
    if component_check(st.id@, "step id"@) is Some {
        component_check(st.id@, "step id"@)
    } else if component_check(st.file_root@, "file_root"@) is Some {
        component_check(st.file_root@, "file_root"@)
    } else if !allow.allows(st.model@) {
        Some(unknown_model_error(st.model@))
    } else if first_input_problem(st.inputs@, 0) is Some {
        first_input_problem(st.inputs@, 0)
    } else if exists|k: int| 0 <= k < i && #[trigger] steps[k].id@ == st.id@ {
        Some(invalid_argument("duplicate step id: "@ + debug_str(st.id@)))
    } else {
        None
    }
}

/// The problem of the first step, from `i` on, that has one.
pub open spec fn first_step_problem(allow: Allowlist, steps: Seq<PipelineStep>, i: int) -> Option<ErrorView>
    decreases steps.len() - i,
{
    if i < 0 || i >= steps.len() {
        None
    } else if step_problem(allow, steps, i) is Some {
        step_problem(allow, steps, i)
    } else {
        first_step_problem(allow, steps, i + 1)
    }
}

/// The error for the first dependency of step `v`, from position `j` on,
/// that names no step.
pub open spec fn first_missing_dep(steps: Seq<PipelineStep>, v: int, j: int) -> Option<ErrorView>
    decreases steps[v].depends_on@.len() - j,
{
    if j < 0 || j >= steps[v].depends_on@.len() {
        None
    } else if !ids_of(steps).contains(steps[v].depends_on@[j]@) {
        Some(invalid_argument(
            "step "@ + debug_str(steps[v].id@) + " depends on nonexistent step "@ + debug_str(
                steps[v].depends_on@[j]@,
            ),
        ))
    } else {
        first_missing_dep(steps, v, j + 1)
    }
}

/// The error for the first dependency, step by step from `v` on, that
/// names no step.
pub open spec fn first_dep_problem(steps: Seq<PipelineStep>, v: int) -> Option<ErrorView>
    decreases steps.len() - v,
{
    if v < 0 || v >= steps.len() {
        None
    } else if first_missing_dep(steps, v, 0) is Some {
        first_missing_dep(steps, v, 0)
    } else {
        first_dep_problem(steps, v + 1)
    }
}

/// The index of the step with id `name`.
pub open spec fn index_of_id(steps: Seq<PipelineStep>, name: Seq<char>) -> usize {
    (choose|k: int| 0 <= k < steps.len() && #[trigger] steps[k].id@ == name) as usize
}

/// The dependencies of each step, as step indices.
pub open spec fn dep_indices(steps: Seq<PipelineStep>) -> Seq<Seq<usize>> {
    Seq::new(
        steps.len(),
        |v: int| Seq::new(steps[v].depends_on@.len(), |j: int| index_of_id(steps, steps[v].depends_on@[j]@)),
    )
}

/// What validating a pipeline request answers: nothing when it is valid,
/// else the first problem found, in the order: no step at all, the steps
/// one by one, dependencies on unknown steps, a cycle.
pub open spec fn pipeline_check(allow: Allowlist, steps: Seq<PipelineStep>) -> Option<ErrorView> {
    if steps.len() == 0 {
        Some(invalid_argument("pipeline must have at least one step"@))
    } else if first_step_problem(allow, steps, 0) is Some {
        first_step_problem(allow, steps, 0)
    } else if first_dep_problem(steps, 0) is Some {
        first_dep_problem(steps, 0)
    } else if !acyclic(dep_indices(steps)) {
        Some(invalid_argument("cycle in dependency graph"@))
    } else {
        None
    }
}

impl DependencyGraph {
    /// A well-formed graph resolves each dependency to the index of the
    /// step that bears its name.
    pub proof fn lemma_dep_view(&self)
        requires
            self.wf(),
        ensures
            self.dep_view() =~= dep_indices(self.steps@),
    {
        let steps = self.steps@;
        assert forall|v: int| 0 <= v < self.n() implies #[trigger] self.dep_view()[v] =~= dep_indices(steps)[v] by {
            assert(self.dep_ok(v));
            assert forall|j: int| 0 <= j < self.deps@[v]@.len() implies self.deps@[v]@[j] == dep_indices(steps)[v][j] by {
                let name = steps[v].depends_on@[j]@;
                let d = self.deps@[v]@[j];
                assert(steps[d as int].id@ == name);
                let k = choose|k: int| 0 <= k < steps.len() && #[trigger] steps[k].id@ == name;
                assert(k == d);
            }
        }
    }
}

proof fn lemma_first_input_problem_code(inputs: Seq<InputFile>, j: int)
    ensures
        first_input_problem(inputs, j) matches Some(e) ==> e.code == StatusCode::InvalidArgument,
    decreases inputs.len() - j,
{
    if 0 <= j < inputs.len() {
        lemma_first_input_problem_code(inputs, j + 1);
    }
}

proof fn lemma_first_step_problem_code(allow: Allowlist, steps: Seq<PipelineStep>, i: int)
    ensures
        first_step_problem(allow, steps, i) matches Some(e) ==> e.code == StatusCode::InvalidArgument,
    decreases steps.len() - i,
{
    if 0 <= i < steps.len() {
        lemma_first_input_problem_code(steps[i].inputs@, 0);
        lemma_first_step_problem_code(allow, steps, i + 1);
    }
}

proof fn lemma_first_missing_dep_code(steps: Seq<PipelineStep>, v: int, j: int)
    requires
        0 <= v < steps.len(),
    ensures
        first_missing_dep(steps, v, j) matches Some(e) ==> e.code == StatusCode::InvalidArgument,
    decreases steps[v].depends_on@.len() - j,
{
    if 0 <= j < steps[v].depends_on@.len() {
        lemma_first_missing_dep_code(steps, v, j + 1);
    }
}

proof fn lemma_first_dep_problem_code(steps: Seq<PipelineStep>, v: int)
    ensures
        first_dep_problem(steps, v) matches Some(e) ==> e.code == StatusCode::InvalidArgument,
    decreases steps.len() - v,
{
    if 0 <= v < steps.len() {
        lemma_first_missing_dep_code(steps, v, 0);
        lemma_first_dep_problem_code(steps, v + 1);
    }
}

/// Every refusal of a pipeline request, whatever its cause (no step, a bad
/// id, file root, model or input name, a duplicate id, a dependency on a
/// missing step, a cycle), is answered with `InvalidArgument`.
pub proof fn lemma_pipeline_refusals_are_invalid_arguments(allow: Allowlist, steps: Seq<PipelineStep>)
    ensures
        pipeline_check(allow, steps) matches Some(e) ==> e.code == StatusCode::InvalidArgument,
{
    lemma_first_step_problem_code(allow, steps, 0);
    lemma_first_dep_problem_code(steps, 0);
}

/// The inputs' names are checked, first to last, with `InvalidArgument`
/// for a bad one.
pub proof fn lemma_input_refusals_are_invalid_arguments(inputs: Seq<InputFile>)
    ensures
        first_input_problem(inputs, 0) matches Some(e) ==> e.code == StatusCode::InvalidArgument,
{
    lemma_first_input_problem_code(inputs, 0);
}

/// Checks every input name of a run or step, first to last.
pub fn validate_inputs(inputs: &Vec<InputFile>) -> (res: Result<(), RunnerError>)
    ensures
        unit_error(res) == first_input_problem(inputs@, 0),
{
    let mut j: usize = 0;
    while j < inputs.len()
        invariant
            j <= inputs@.len(),
            first_input_problem(inputs@, 0) == first_input_problem(inputs@, j as int),
        decreases inputs@.len() - j,
    {
        match validate_filename(inputs[j].name.as_str()) {
            Ok(()) => {},
            Err(e) => {
                return Err(e);
            },
        }
        j = j + 1;
    }
    Ok(())
}

/// Validates a pipeline request and builds its dependency graph.
pub fn validate_pipeline(allow: &Allowlist, steps: Vec<PipelineStep>) -> (res: Result<DependencyGraph, RunnerError>)
    ensures
        res is Ok <==> pipeline_check(*allow, steps@) is None,
        res matches Err(e) ==> pipeline_check(*allow, steps@) == Some(e@),
        res matches Ok(g) ==> g.wf() && g.steps@ == steps@ && acyclic(g.dep_view()),
{
    if steps.len() == 0 {
        return Err(RunnerError::new(StatusCode::InvalidArgument, "pipeline must have at least one step".to_owned()));
    }
    let n = steps.len();
    let mut ids: Vec<String> = Vec::new();
    let mut i: usize = 0;
    while i < n
        invariant
            n == steps@.len(),
            n > 0,
            i <= n,
            ids@.len() == i,
            forall|k: int| 0 <= k < i ==> (#[trigger] ids@[k])@ == steps@[k].id@,
            forall|k: int| 0 <= k < i ==> step_problem(*allow, steps@, k) is None,
            first_step_problem(*allow, steps@, 0) == first_step_problem(*allow, steps@, i as int),
        decreases n - i,
    {
        let step = &steps[i];
        match validate_step_id(step.id.as_str()) {
            Ok(()) => {},
            Err(e) => { return Err(e); },
        }
        match validate_file_root(step.file_root.as_str()) {
            Ok(()) => {},
            Err(e) => { return Err(e); },
        }
        match allow.resolve_executable(step.model.as_str()) {
            Ok(_) => {},
            Err(e) => { return Err(e); },
        }
        match validate_inputs(&step.inputs) {
            Ok(()) => {},
            Err(e) => { return Err(e); },
        }
        match find_step(&ids, &step.id) {
            Some(k) => {
                proof {
                    assert(steps@[k as int].id@ == steps@[i as int].id@);
                }
                return Err(RunnerError::new(
                    StatusCode::InvalidArgument,
                    "duplicate step id: ".to_owned().concat(debug_string(step.id.as_str()).as_str()),
                ));
            },
            None => {
                proof {
                    assert forall|k: int| 0 <= k < i implies #[trigger] steps@[k].id@ != steps@[i as int].id@ by {
                        assert(ids@[k]@ == steps@[k].id@);
                    }
                }
            },
        }
        ids.push(step.id.clone());
        i = i + 1;
    }
    proof {
        assert(unique_ids(steps@)) by {
            assert forall|a: int, b: int|
                0 <= a < steps@.len() && 0 <= b < steps@.len() && a != b implies #[trigger] steps@[a].id@
                    != #[trigger] steps@[b].id@ by {
                if a < b {
                    assert(step_problem(*allow, steps@, b) is None);
                } else {
                    assert(step_problem(*allow, steps@, a) is None);
                }
            }
        }
    }

    let mut v: usize = 0;
    while v < n
        invariant
            n == steps@.len(),
            v <= n,
            ids@.len() == n,
            forall|k: int| 0 <= k < n ==> (#[trigger] ids@[k])@ == steps@[k].id@,
            first_dep_problem(steps@, 0) == first_dep_problem(steps@, v as int),
            first_step_problem(*allow, steps@, 0) is None,
            forall|w: int, j: int|
                0 <= w < v && 0 <= j < steps@[w].depends_on@.len() ==> ids_of(steps@).contains(
                    #[trigger] steps@[w].depends_on@[j]@,
                ),
        decreases n - v,
    {
        let names = &steps[v].depends_on;
        let mut j: usize = 0;
        while j < names.len()
            invariant
                n == steps@.len(),
                v < n,
                names == steps@[v as int].depends_on,
                ids@.len() == n,
                forall|k: int| 0 <= k < n ==> (#[trigger] ids@[k])@ == steps@[k].id@,
                j <= names@.len(),
                first_missing_dep(steps@, v as int, 0) == first_missing_dep(steps@, v as int, j as int),
                first_dep_problem(steps@, 0) == first_dep_problem(steps@, v as int),
                first_step_problem(*allow, steps@, 0) is None,
                forall|k: int| 0 <= k < j ==> ids_of(steps@).contains(#[trigger] names@[k]@),
            decreases names@.len() - j,
        {
            match find_step(&ids, &names[j]) {
                Some(k) => {
                    proof {
                        assert(ids_of(steps@)[k as int] == names@[j as int]@);
                    }
                },
                None => {
                    proof {
                        if ids_of(steps@).contains(names@[j as int]@) {
                            let k = choose|k: int| 0 <= k < ids_of(steps@).len() && ids_of(steps@)[k] == names@[j as int]@;
                            assert(ids@[k]@ == names@[j as int]@);
                        }
                    }
                    let msg = "step ".to_owned().concat(debug_string(steps[v].id.as_str()).as_str()).concat(
                        " depends on nonexistent step ",
                    ).concat(debug_string(names[j].as_str()).as_str());
                    proof {
                        assert(msg@ =~= "step "@ + debug_str(steps@[v as int].id@) + " depends on nonexistent step "@
                            + debug_str(steps@[v as int].depends_on@[j as int]@));
                    }
                    return Err(RunnerError::new(StatusCode::InvalidArgument, msg));
                },
            }
            j = j + 1;
        }
        v = v + 1;
    }
    proof {
        assert(deps_exist(steps@));
    }

    let ghost all = steps@;
    let graph = build_dependency_graph(steps);
    proof {
        graph.lemma_dep_view();
    }
    match ensure_acyclic(&graph) {
        Ok(()) => Ok(graph),
        Err(e) => Err(e),
    }
}

} // verus!
