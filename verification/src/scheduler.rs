use vstd::prelude::*;
use std::collections::VecDeque;

use crate::counting::{
    all_below, count, increasing, lemma_pending_resolve, lemma_pending_zero, pending,
};
use crate::pipeline::{
    acyclic, is_ranking, lemma_closed_set_is_total, lemma_pending_all_unresolved, num_true,
    release_dependents, DependencyGraph,
};

verus! {

/// What the scheduler does with the step at the front of the ready queue.
#[derive(Clone, Copy, Debug, PartialEq, Eq, Structural)]
pub enum ReadyStep {
    /// A dependency failed or was skipped: the step never runs.
    Skip(usize),
    /// Every dependency completed successfully: the step runs now.
    Launch(usize),
}

/// Mutable runtime state of the pipeline scheduler, by step index. The
/// graph describes the pipeline; this state changes as it runs.
pub struct SchedulerState {
    pub ready: VecDeque<usize>,
    pub active: Vec<bool>,
    pub failed: Vec<bool>,
    pub skipped: Vec<bool>,
    pub completed: Vec<bool>,
    pub remaining_deps: Vec<usize>,
}

impl SchedulerState {
    /// Step `v` is done with: it completed or was skipped.
    pub open spec fn resolved(&self, v: int) -> bool {
        self.completed@[v] || self.skipped@[v]
    }

    pub open spec fn resolved_marks(&self) -> Seq<bool> {
        Seq::new(self.completed@.len(), |v: int| self.completed@[v] || self.skipped@[v])
    }

    /// Every dependency of `v` completed without failing.
    pub open spec fn deps_succeeded(&self, g: &DependencyGraph, v: int) -> bool {
        forall|j: int|
            0 <= j < g.deps@[v]@.len() ==> self.completed@[#[trigger] g.deps@[v]@[j] as int]
                && !self.failed@[g.deps@[v]@[j] as int]
    }

    /// Some dependency of `v` failed or was skipped.
    pub open spec fn deps_blocked(&self, g: &DependencyGraph, v: int) -> bool {
        exists|j: int|
            0 <= j < g.deps@[v]@.len() && (self.failed@[#[trigger] g.deps@[v]@[j] as int]
                || self.skipped@[g.deps@[v]@[j] as int])
    }

    /// What holds of step `v` at every moment of a run.
    pub open spec fn step_ok(&self, g: &DependencyGraph, v: int) -> bool {
        &&& self.remaining_deps@[v] == pending(g.deps@[v]@, self.resolved_marks())
        &&& self.ready@.contains(v as usize) <==> (self.remaining_deps@[v] == 0 && !self.active@[v]
            && !self.resolved(v))
        &&& self.active@[v] ==> !self.resolved(v) && self.remaining_deps@[v] == 0
        &&& self.resolved(v) ==> self.remaining_deps@[v] == 0
        &&& !(self.completed@[v] && self.skipped@[v])
        &&& self.failed@[v] ==> self.completed@[v]
        &&& (self.active@[v] || self.completed@[v]) ==> self.deps_succeeded(g, v)
        &&& self.skipped@[v] ==> self.deps_blocked(g, v)
    }

    /// The scheduler state is one that a run of `g` reaches.
    pub open spec fn inv(&self, g: &DependencyGraph) -> bool {
        &&& g.wf()
        &&& self.active@.len() == g.n()
        &&& self.failed@.len() == g.n()
        &&& self.skipped@.len() == g.n()
        &&& self.completed@.len() == g.n()
        &&& self.remaining_deps@.len() == g.n()
        &&& self.ready@.no_duplicates()
        &&& all_below(self.ready@, g.n())
        &&& forall|v: int| 0 <= v < g.n() ==> #[trigger] self.step_ok(g, v)
    }

    /// The steps that a release appended to the ready queue: exactly those
    /// whose count of unfinished dependencies dropped to zero, in index order.
    pub open spec fn appended_ready(&self, old_state: &SchedulerState, prefix: Seq<usize>) -> bool {
        &&& self.ready@.len() >= prefix.len()
        &&& self.ready@.take(prefix.len() as int) == prefix
        &&& increasing(self.ready@.skip(prefix.len() as int))
        &&& forall|v: usize|
            #[trigger] self.ready@.skip(prefix.len() as int).contains(v) <==> (v < self.remaining_deps@.len()
                && old_state.remaining_deps@[v as int] > 0 && self.remaining_deps@[v as int] == 0)
    }

    /// The state of a run that has not started: the steps without
    /// dependencies are ready, in index order.
    pub fn new(g: &DependencyGraph) -> (s: SchedulerState)
        requires
            g.wf(),
        ensures
            s.inv(g),
            increasing(s.ready@),
            forall|v: usize| #[trigger] s.ready@.contains(v) <==> (v < g.n() && g.deps@[v as int]@.len() == 0),
            forall|v: int| 0 <= v < g.n() ==> !s.active@[v] && !s.failed@[v] && !s.skipped@[v] && !s.completed@[v],
    {
        let n = g.step_ids.len();
        let ready = g.initial_ready();
        let mut active: Vec<bool> = Vec::new();
        let mut i: usize = 0;
        while i < n
            invariant
                i <= n,
                active@.len() == i,
                forall|k: int| 0 <= k < i ==> !active@[k],
            decreases n - i,
        {
            active.push(false);
            i = i + 1;
        }
        let failed = active.clone();
        let skipped = active.clone();
        let completed = active.clone();
        let s = SchedulerState { ready, active, failed, skipped, completed, remaining_deps: g.remaining_deps.clone() };
        proof {
            assert(s.failed@ =~= s.active@);
            assert(s.skipped@ =~= s.active@);
            assert(s.completed@ =~= s.active@);
            assert(s.remaining_deps@ =~= g.remaining_deps@);
            assert(s.ready@.no_duplicates()) by {
                assert forall|a: int, b: int| 0 <= a < b < s.ready@.len() implies s.ready@[a] != s.ready@[b] by {
                    assert(s.ready@[a] < s.ready@[b]);
                }
            }
            assert(all_below(s.ready@, g.n())) by {
                assert forall|j: int| 0 <= j < s.ready@.len() implies (#[trigger] s.ready@[j]) < g.n() by {
                    assert(s.ready@.contains(s.ready@[j]));
                }
            }
            assert forall|v: int| 0 <= v < g.n() implies #[trigger] s.step_ok(g, v) by {
                assert(g.dep_ok(v));
                lemma_pending_all_unresolved(g.deps@[v]@, s.resolved_marks());
            }
            assert forall|v: usize| #[trigger] s.ready@.contains(v) <==> (v < g.n() && g.deps@[v as int]@.len() == 0) by {
                if v < g.n() {
                    assert(g.dep_ok(v as int));
                }
            }
        }
        s
    }

    /// Whether some dependency of `step` failed or was skipped.
    pub fn should_skip(&self, g: &DependencyGraph, step: usize) -> (b: bool)
        requires
            g.wf(),
            self.failed@.len() == g.n(),
            self.skipped@.len() == g.n(),
            step < g.n(),
        ensures
            b == self.deps_blocked(g, step as int),
    {
        proof {
            assert(g.dep_ok(step as int));
        }
        let deps = &g.deps[step];
        let mut j: usize = 0;
        while j < deps.len()
            invariant
                g.wf(),
                self.failed@.len() == g.n(),
                self.skipped@.len() == g.n(),
                step < g.n(),
                deps == g.deps@[step as int],
                all_below(deps@, g.n()),
                j <= deps@.len(),
                forall|k: int| 0 <= k < j ==> !(self.failed@[#[trigger] deps@[k] as int] || self.skipped@[deps@[k] as int]),
            decreases deps@.len() - j,
        {
            let d = deps[j];
            if self.failed[d] || self.skipped[d] {
                return true;
            }
            j = j + 1;
        }
        false
    }

    /// Marks `u` as resolved in `marks` and lowers the counts of its
    /// dependents, queueing those whose count drops to zero.
    fn unblock_dependents(&mut self, g: &DependencyGraph, u: usize, Ghost(pre): Ghost<SchedulerState>)
        requires
            g.wf(),
            u < g.n(),
            old(self).remaining_deps@.len() == g.n(),
            old(self).completed@.len() == g.n(),
            old(self).skipped@.len() == g.n(),
            pre.completed@.len() == g.n(),
            pre.skipped@.len() == g.n(),
            !pre.resolved(u as int),
            old(self).resolved_marks() == pre.resolved_marks().update(u as int, true),
            forall|v: int|
                0 <= v < g.n() ==> #[trigger] old(self).remaining_deps@[v] == pending(g.deps@[v]@, pre.resolved_marks()),
        ensures
            final(self).active == old(self).active,
            final(self).failed == old(self).failed,
            final(self).skipped == old(self).skipped,
            final(self).completed == old(self).completed,
            final(self).remaining_deps@.len() == g.n(),
            forall|v: int|
                0 <= v < g.n() ==> #[trigger] final(self).remaining_deps@[v] == pending(g.deps@[v]@, final(self).resolved_marks()),
            final(self).appended_ready(old(self), old(self).ready@),
    {
        proof {
            assert(g.rev_ok(u as int));
            assert forall|v: usize| v < old(self).remaining_deps@.len() implies #[trigger] count(g.rev_dep@[u as int]@, v)
                <= old(self).remaining_deps@[v as int] by {
                assert(g.dep_ok(v as int));
                lemma_pending_resolve(g.deps@[v as int]@, pre.resolved_marks(), u);
            }
        }
        // A dependent that is already completed or skipped never occurs here:
        // it would still have `u` pending, so it could not have been started.
        let ghost before = *self;
        release_dependents(&g.rev_dep[u], &mut self.remaining_deps, &mut self.ready);
        proof {
            assert forall|v: int|
                0 <= v < g.n() implies #[trigger] self.remaining_deps@[v] == pending(g.deps@[v]@, self.resolved_marks()) by {
                assert(g.dep_ok(v));
                assert(self.resolved_marks() == old(self).resolved_marks());
                lemma_pending_resolve(g.deps@[v]@, pre.resolved_marks(), u);
                assert(count(g.rev_dep@[u as int]@, v as usize) == count(g.deps@[v]@, u));
            }
            assert forall|v: usize|
                #[trigger] self.ready@.skip(before.ready@.len() as int).contains(v) <==> (v < self.remaining_deps@.len()
                    && before.remaining_deps@[v as int] > 0 && self.remaining_deps@[v as int] == 0) by {
            }
        }
    }
}


impl SchedulerState {
    /// The state changed only where a release touches it: the ready queue
    /// and the remaining counts.
    pub open spec fn same_marks(&self, other: &SchedulerState) -> bool {
        &&& self.active@ == other.active@
        &&& self.failed@ == other.failed@
        &&& self.skipped@ == other.skipped@
        &&& self.completed@ == other.completed@
    }

    /// Takes the step at the front of the ready queue and decides it: a
    /// step with a failed or skipped dependency is skipped (which may make
    /// its dependents ready), any other is marked active and is to be run.
    pub fn next_ready(&mut self, g: &DependencyGraph) -> (r: Option<ReadyStep>)
        requires
            old(self).inv(g),
        ensures
            final(self).inv(g),
            r is None <==> old(self).ready@.len() == 0,
            r is None ==> final(self).ready@ == old(self).ready@ && final(self).same_marks(old(self))
                && final(self).remaining_deps@ == old(self).remaining_deps@,
            r matches Some(ReadyStep::Skip(u)) ==> {
                &&& u == old(self).ready@[0]
                &&& old(self).deps_blocked(g, u as int)
                &&& final(self).skipped@ == old(self).skipped@.update(u as int, true)
                &&& final(self).active@ == old(self).active@
                &&& final(self).failed@ == old(self).failed@
                &&& final(self).completed@ == old(self).completed@
                &&& final(self).appended_ready(old(self), old(self).ready@.drop_first())
            },
            r matches Some(ReadyStep::Launch(u)) ==> {
                &&& u == old(self).ready@[0]
                &&& !old(self).deps_blocked(g, u as int)
                &&& old(self).deps_succeeded(g, u as int)
                &&& !old(self).active@[u as int] && !old(self).completed@[u as int]
                &&& final(self).active@ == old(self).active@.update(u as int, true)
                &&& final(self).failed@ == old(self).failed@
                &&& final(self).skipped@ == old(self).skipped@
                &&& final(self).completed@ == old(self).completed@
                &&& final(self).ready@ == old(self).ready@.drop_first()
                &&& final(self).remaining_deps@ == old(self).remaining_deps@
            },
    {
        let ghost pre = *self;
        if self.ready.len() == 0 {
            return None;
        }
        let u = self.ready.pop_front().unwrap();
        proof {
            assert(pre.ready@.contains(u));
            assert(pre.step_ok(g, u as int));
            assert(self.ready@ == pre.ready@.drop_first());
        }
        if self.should_skip(g, u) {
            self.skipped[u] = true;
            proof {
                assert(self.resolved_marks() =~= pre.resolved_marks().update(u as int, true));
                assert forall|v: int| 0 <= v < g.n() implies #[trigger] self.remaining_deps@[v] == pending(
                    g.deps@[v]@,
                    pre.resolved_marks(),
                ) by {
                    assert(pre.step_ok(g, v));
                }
            }
            let ghost mid = *self;
            self.unblock_dependents(g, u, Ghost(pre));
            proof {
                lemma_release_keeps_inv(g, pre, mid, *self, u, pre.ready@.drop_first());
            }
            Some(ReadyStep::Skip(u))
        } else {
            self.active[u] = true;
            proof {
                lemma_pending_zero(g.deps@[u as int]@, pre.resolved_marks());
                assert(g.dep_ok(u as int));
                assert forall|j: int| 0 <= j < g.deps@[u as int]@.len() implies self.completed@[#[trigger] g.deps@[u as int]@[j] as int]
                    && !self.failed@[g.deps@[u as int]@[j] as int] by {
                    let d = g.deps@[u as int]@[j];
                    assert(pre.resolved_marks()[d as int]);
                }
                assert(self.resolved_marks() =~= pre.resolved_marks());
                assert forall|v: int| 0 <= v < g.n() implies #[trigger] self.step_ok(g, v) by {
                    assert(pre.step_ok(g, v));
                    if v != u {
                        if pre.ready@.contains(v as usize) {
                            let i = choose|i: int| 0 <= i < pre.ready@.len() && pre.ready@[i] == v as usize;
                            assert(i != 0);
                            assert(self.ready@[i - 1] == v as usize);
                        }
                        if self.ready@.contains(v as usize) {
                            let i = choose|i: int| 0 <= i < self.ready@.len() && self.ready@[i] == v as usize;
                            assert(pre.ready@[i + 1] == v as usize);
                        }
                        if pre.deps_succeeded(g, v) {
                            assert forall|j: int| 0 <= j < g.deps@[v]@.len() implies self.completed@[#[trigger] g.deps@[v]@[j] as int]
                                && !self.failed@[g.deps@[v]@[j] as int] by {
                                assert(pre.completed@[g.deps@[v]@[j] as int]);
                            }
                        }
                        if pre.deps_blocked(g, v) {
                            let j = choose|j: int| 0 <= j < g.deps@[v]@.len() && (pre.failed@[#[trigger] g.deps@[v]@[j] as int]
                                || pre.skipped@[g.deps@[v]@[j] as int]);
                            assert(self.failed@[g.deps@[v]@[j] as int] || self.skipped@[g.deps@[v]@[j] as int]);
                        }
                    } else {
                        if self.ready@.contains(u) {
                            let i = choose|i: int| 0 <= i < self.ready@.len() && self.ready@[i] == u;
                            assert(pre.ready@[i + 1] == u);
                            assert(pre.ready@[0] == u);
                        }
                    }
                }
                assert(self.ready@.no_duplicates());
                assert(all_below(self.ready@, g.n())) by {
                    assert forall|j: int| 0 <= j < self.ready@.len() implies (#[trigger] self.ready@[j]) < g.n() by {
                        assert(pre.ready@[j + 1] == self.ready@[j]);
                    }
                }
            }
            Some(ReadyStep::Launch(u))
        }
    }

    /// Records that the launched step `step` finished; a step that did not
    /// succeed is marked failed. Its dependents whose dependencies are now
    /// all finished become ready.
    pub fn record_step_done(&mut self, g: &DependencyGraph, step: usize, success: bool)
        requires
            old(self).inv(g),
            step < g.n(),
            old(self).active@[step as int],
        ensures
            final(self).inv(g),
            final(self).active@ == old(self).active@.update(step as int, false),
            final(self).completed@ == old(self).completed@.update(step as int, true),
            final(self).failed@ == (if success { old(self).failed@ } else { old(self).failed@.update(step as int, true) }),
            final(self).skipped@ == old(self).skipped@,
            final(self).appended_ready(old(self), old(self).ready@),
    {
        let ghost pre = *self;
        proof {
            assert(pre.step_ok(g, step as int));
        }
        self.active[step] = false;
        self.completed[step] = true;
        if !success {
            self.failed[step] = true;
        }
        proof {
            assert(self.resolved_marks() =~= pre.resolved_marks().update(step as int, true));
            assert forall|v: int| 0 <= v < g.n() implies #[trigger] self.remaining_deps@[v] == pending(
                g.deps@[v]@,
                pre.resolved_marks(),
            ) by {
                assert(pre.step_ok(g, v));
            }
        }
        let ghost mid = *self;
        self.unblock_dependents(g, step, Ghost(pre));
        proof {
            lemma_release_keeps_inv(g, pre, mid, *self, step, pre.ready@);
        }
    }
}

/// Resolving step `u` (skipped from the front of the queue, or finished
/// after running) and releasing its dependents keeps the invariant.
proof fn lemma_release_keeps_inv(
    g: &DependencyGraph,
    pre: SchedulerState,
    mid: SchedulerState,
    post: SchedulerState,
    u: usize,
    prefix: Seq<usize>,
)
    requires
        pre.inv(g),
        u < g.n(),
        // u was at the front of the queue and got skipped, or was active
        // and got completed
        (pre.ready@.len() > 0 && pre.ready@[0] == u && prefix == pre.ready@.drop_first()
            && mid.skipped@ == pre.skipped@.update(u as int, true) && mid.active@ == pre.active@
            && mid.completed@ == pre.completed@ && mid.failed@ == pre.failed@ && pre.deps_blocked(g, u as int))
        || (pre.active@[u as int] && prefix == pre.ready@ && mid.active@ == pre.active@.update(u as int, false)
            && mid.completed@ == pre.completed@.update(u as int, true) && mid.skipped@ == pre.skipped@
            && (mid.failed@ == pre.failed@ || mid.failed@ == pre.failed@.update(u as int, true))),
        mid.ready@ == prefix,
        mid.remaining_deps@ == pre.remaining_deps@,
        post.same_marks(&mid),
        post.remaining_deps@.len() == g.n(),
        forall|v: int|
            0 <= v < g.n() ==> #[trigger] post.remaining_deps@[v] == pending(g.deps@[v]@, post.resolved_marks()),
        post.appended_ready(&mid, prefix),
    ensures
        post.inv(g),
{
    let n = g.n();
    assert(pre.step_ok(g, u as int));
    assert(post.resolved_marks() =~= pre.resolved_marks().update(u as int, true));
    let app = post.ready@.skip(prefix.len() as int);
    assert(post.ready@ =~= prefix + app);
    // each pending count only drops, by the occurrences of u
    assert forall|v: int| 0 <= v < n implies #[trigger] post.remaining_deps@[v] + count(g.deps@[v]@, u) == pre.remaining_deps@[v] by {
        assert(g.dep_ok(v));
        assert(pre.step_ok(g, v));
        lemma_pending_resolve(g.deps@[v]@, pre.resolved_marks(), u);
    }
    // prefix entries came from the old queue and are not u
    assert forall|x: usize| #[trigger] prefix.contains(x) implies pre.ready@.contains(x) && x != u by {
        let i = choose|i: int| 0 <= i < prefix.len() && prefix[i] == x;
        if pre.active@[u as int] && prefix == pre.ready@ {
            assert(pre.ready@[i] == x);
            assert(pre.step_ok(g, x as int)) by {
                assert(all_below(pre.ready@, n));
                assert(pre.ready@[i] < n);
            }
        } else {
            assert(pre.ready@[i + 1] == x);
            assert(pre.ready@[0] != pre.ready@[i + 1]);
        }
    }
    assert forall|x: usize| #[trigger] pre.ready@.contains(x) && x != u implies prefix.contains(x) by {
        let i = choose|i: int| 0 <= i < pre.ready@.len() && pre.ready@[i] == x;
        if pre.active@[u as int] && prefix == pre.ready@ {
        } else {
            assert(i != 0);
            assert(prefix[i - 1] == x);
        }
    }
    assert forall|v: int| 0 <= v < n implies #[trigger] post.step_ok(g, v) by {
        assert(pre.step_ok(g, v));
        assert(g.dep_ok(v));
        let vu = v as usize;
        // post.ready contains v iff prefix or app does
        assert(post.ready@.contains(vu) <==> (prefix.contains(vu) || app.contains(vu))) by {
            if post.ready@.contains(vu) {
                let i = choose|i: int| 0 <= i < post.ready@.len() && post.ready@[i] == vu;
                if i < prefix.len() {
                    assert(prefix[i] == vu);
                } else {
                    assert(app[i - prefix.len()] == vu);
                }
            }
            if prefix.contains(vu) {
                let i = choose|i: int| 0 <= i < prefix.len() && prefix[i] == vu;
                assert(post.ready@[i] == vu);
            }
            if app.contains(vu) {
                let i = choose|i: int| 0 <= i < app.len() && app[i] == vu;
                assert(post.ready@[prefix.len() + i] == vu);
            }
        }
        if v == u as int {
            assert(!prefix.contains(u));
            assert(!app.contains(u));
        } else {
            assert(post.resolved(v) == pre.resolved(v));
            assert(post.active@[v] == pre.active@[v]);
            // a step that depended on u was not started: u was unfinished
            if pre.active@[v] || pre.completed@[v] {
                assert(pre.deps_succeeded(g, v));
                assert forall|j: int| 0 <= j < g.deps@[v]@.len() implies post.completed@[#[trigger] g.deps@[v]@[j] as int]
                    && !post.failed@[g.deps@[v]@[j] as int] by {
                    let d = g.deps@[v]@[j];
                    assert(pre.completed@[d as int]);
                    assert(d != u);
                }
            }
            if pre.skipped@[v] {
                let j = choose|j: int| 0 <= j < g.deps@[v]@.len() && (pre.failed@[#[trigger] g.deps@[v]@[j] as int]
                    || pre.skipped@[g.deps@[v]@[j] as int]);
                assert(post.failed@[g.deps@[v]@[j] as int] || post.skipped@[g.deps@[v]@[j] as int]);
            }
        }
        if v == u as int {
            if post.active@[v] || post.completed@[v] {
                assert forall|j: int| 0 <= j < g.deps@[v]@.len() implies post.completed@[#[trigger] g.deps@[v]@[j] as int]
                    && !post.failed@[g.deps@[v]@[j] as int] by {
                    let d = g.deps@[v]@[j];
                    assert(pre.completed@[d as int]);
                    assert(d != u);
                }
            }
            if post.skipped@[v] {
                let j = choose|j: int| 0 <= j < g.deps@[v]@.len() && (pre.failed@[#[trigger] g.deps@[v]@[j] as int]
                    || pre.skipped@[g.deps@[v]@[j] as int]);
                assert(post.failed@[g.deps@[v]@[j] as int] || post.skipped@[g.deps@[v]@[j] as int]);
            }
        }
    }
    assert(post.ready@.no_duplicates()) by {
        assert forall|i: int, k: int| 0 <= i < k < post.ready@.len() implies post.ready@[i] != post.ready@[k] by {
            if k < prefix.len() {
                assert(prefix[i] == post.ready@[i]);
                assert(prefix[k] == post.ready@[k]);
                if pre.active@[u as int] && prefix == pre.ready@ {
                } else {
                    assert(pre.ready@[i + 1] != pre.ready@[k + 1]);
                }
            } else if i >= prefix.len() {
                assert(app[i - prefix.len()] < app[k - prefix.len()]);
            } else {
                let x = post.ready@[i];
                assert(prefix[i] == x);
                assert(prefix.contains(x));
                assert(pre.ready@.contains(x));
                assert(pre.step_ok(g, x as int)) by {
                    assert(all_below(pre.ready@, n));
                    let i2 = choose|i2: int| 0 <= i2 < pre.ready@.len() && pre.ready@[i2] == x;
                    assert(pre.ready@[i2] < n);
                }
                let y = post.ready@[k];
                assert(app[k - prefix.len()] == y);
                assert(app.contains(y));
            }
        }
    }
    assert(all_below(post.ready@, n)) by {
        assert forall|j: int| 0 <= j < post.ready@.len() implies (#[trigger] post.ready@[j]) < n by {
            let x = post.ready@[j];
            if j < prefix.len() {
                assert(prefix[j] == x);
                assert(prefix.contains(x));
                let i2 = choose|i2: int| 0 <= i2 < pre.ready@.len() && pre.ready@[i2] == x;
                assert(pre.ready@[i2] < n);
            } else {
                assert(app[j - prefix.len()] == x);
                assert(app.contains(x));
            }
        }
    }
}

/// The steps marked in `marks`, in index order.
pub open spec fn marked_in_order(list: Seq<usize>, marks: Seq<bool>) -> bool {
    &&& increasing(list)
    &&& forall|v: usize| #[trigger] list.contains(v) <==> (v < marks.len() && marks[v as int])
}

/// The indices below `n` at which `marks` holds, in order.
fn marked_indices(marks: &Vec<bool>) -> (list: Vec<usize>)
    ensures
        marked_in_order(list@, marks@),
{
    let mut list: Vec<usize> = Vec::new();
    let mut v: usize = 0;
    while v < marks.len()
        invariant
            v <= marks@.len(),
            increasing(list@),
            forall|w: usize| #[trigger] list@.contains(w) <==> (w < v && marks@[w as int]),
        decreases marks@.len() - v,
    {
        if marks[v] {
            let ghost before = list@;
            list.push(v);
            proof {
                assert forall|w: usize| #[trigger] list@.contains(w) <==> (w < v + 1 && marks@[w as int]) by {
                    if before.contains(w) {
                        let i = choose|i: int| 0 <= i < before.len() && before[i] == w;
                        assert(list@[i] == w);
                    }
                    if list@.contains(w) && w != v {
                        let i = choose|i: int| 0 <= i < list@.len() && list@[i] == w;
                        assert(before[i] == w);
                    }
                    if w == v {
                        assert(list@[before.len() as int] == v);
                    }
                }
                assert forall|a: int, b: int| 0 <= a < b < list@.len() implies list@[a] < list@[b] by {
                    if b == list@.len() - 1 {
                        assert(before.contains(list@[a]));
                    }
                }
            }
        }
        v = v + 1;
    }
    list
}

/// Whether some entry is marked.
fn any_marked(marks: &Vec<bool>) -> (b: bool)
    ensures
        b == exists|v: int| 0 <= v < marks@.len() && marks@[v],
{
    let mut v: usize = 0;
    while v < marks.len()
        invariant
            v <= marks@.len(),
            forall|w: int| 0 <= w < v ==> !marks@[w],
        decreases marks@.len() - v,
    {
        if marks[v] {
            return true;
        }
        v = v + 1;
    }
    false
}

/// How many entries are marked.
fn count_marked(marks: &Vec<bool>) -> (c: usize)
    ensures
        c == num_true(marks@),
{
    let mut c: usize = 0;
    let mut v: usize = 0;
    while v < marks.len()
        invariant
            v <= marks@.len(),
            c == num_true(marks@.take(v as int)),
            c <= v,
        decreases marks@.len() - v,
    {
        proof {
            assert(marks@.take(v + 1 as int).drop_last() =~= marks@.take(v as int));
        }
        if marks[v] {
            c = c + 1;
        }
        v = v + 1;
    }
    proof {
        assert(marks@.take(v as int) =~= marks@);
    }
    c
}

impl SchedulerState {
    /// Whether some step is running.
    pub fn has_active(&self) -> (b: bool)
        ensures
            b == exists|v: int| 0 <= v < self.active@.len() && self.active@[v],
    {
        any_marked(&self.active)
    }

    /// The pipeline succeeded: nothing failed, nothing was skipped, and all
    /// `total_steps` steps completed.
    pub fn all_succeeded(&self, total_steps: usize) -> (b: bool)
        ensures
            b == ((forall|v: int| 0 <= v < self.failed@.len() ==> !self.failed@[v])
                && (forall|v: int| 0 <= v < self.skipped@.len() ==> !self.skipped@[v])
                && num_true(self.completed@) == total_steps),
    {
        !any_marked(&self.failed) && !any_marked(&self.skipped) && count_marked(&self.completed) == total_steps
    }

    /// The skipped steps, in index order.
    pub fn skipped_steps(&self) -> (list: Vec<usize>)
        ensures
            marked_in_order(list@, self.skipped@),
    {
        marked_indices(&self.skipped)
    }

    /// The failed steps, in index order.
    pub fn failed_steps(&self) -> (list: Vec<usize>)
        ensures
            marked_in_order(list@, self.failed@),
    {
        marked_indices(&self.failed)
    }

    /// After the pipeline deadline, records that a cancelled step reported
    /// back: it is no longer running, and counts as completed and failed.
    pub fn record_cancelled_step(&mut self, step: usize)
        requires
            step < old(self).active@.len(),
            step < old(self).completed@.len(),
            step < old(self).failed@.len(),
        ensures
            final(self).active@ == old(self).active@.update(step as int, false),
            final(self).completed@ == old(self).completed@.update(step as int, true),
            final(self).failed@ == old(self).failed@.update(step as int, true),
            final(self).skipped@ == old(self).skipped@,
            final(self).ready@ == old(self).ready@,
            final(self).remaining_deps@ == old(self).remaining_deps@,
    {
        self.active[step] = false;
        self.completed[step] = true;
        self.failed[step] = true;
    }

    /// After the pipeline deadline, marks every step that neither
    /// completed, failed nor was skipped as failed, and lists those steps
    /// in index order: each is reported as timed out.
    pub fn mark_unfinished_timed_out(&mut self) -> (unfinished: Vec<usize>)
        requires
            old(self).failed@.len() == old(self).completed@.len(),
            old(self).skipped@.len() == old(self).completed@.len(),
        ensures
            increasing(unfinished@),
            forall|v: usize|
                #[trigger] unfinished@.contains(v) <==> (v < old(self).completed@.len() && !old(self).completed@[v as int]
                    && !old(self).failed@[v as int] && !old(self).skipped@[v as int]),
            final(self).failed@.len() == old(self).failed@.len(),
            forall|v: int|
                0 <= v < old(self).failed@.len() ==> #[trigger] final(self).failed@[v] == (old(self).failed@[v]
                    || (!old(self).completed@[v] && !old(self).skipped@[v])),
            final(self).completed@ == old(self).completed@,
            final(self).skipped@ == old(self).skipped@,
            final(self).active@ == old(self).active@,
            final(self).ready@ == old(self).ready@,
            final(self).remaining_deps@ == old(self).remaining_deps@,
            // every step now completed, failed or was skipped
            forall|v: int|
                0 <= v < final(self).failed@.len() ==> final(self).completed@[v] || #[trigger] final(self).failed@[v]
                    || final(self).skipped@[v],
    {
        let n = self.completed.len();
        let ghost pre = *self;
        let mut unfinished: Vec<usize> = Vec::new();
        let mut v: usize = 0;
        while v < n
            invariant
                n == pre.completed@.len(),
                pre.failed@.len() == n,
                pre.skipped@.len() == n,
                self.completed@ == pre.completed@,
                self.skipped@ == pre.skipped@,
                self.active@ == pre.active@,
                self.ready@ == pre.ready@,
                self.remaining_deps@ == pre.remaining_deps@,
                self.failed@.len() == n,
                v <= n,
                forall|w: int| 0 <= w < n ==> #[trigger] self.failed@[w] == (pre.failed@[w]
                    || (w < v && !pre.completed@[w] && !pre.skipped@[w])),
                increasing(unfinished@),
                forall|w: usize|
                    #[trigger] unfinished@.contains(w) <==> (w < v && !pre.completed@[w as int] && !pre.failed@[w as int]
                        && !pre.skipped@[w as int]),
            decreases n - v,
        {
            let is_unfinished = !self.completed[v] && !self.failed[v] && !self.skipped[v];
            let ghost before = unfinished@;
            if is_unfinished {
                unfinished.push(v);
            }
            if !self.completed[v] && !self.skipped[v] {
                self.failed[v] = true;
            }
            proof {
                assert forall|w: usize|
                    #[trigger] unfinished@.contains(w) <==> (w < v + 1 && !pre.completed@[w as int] && !pre.failed@[w as int]
                        && !pre.skipped@[w as int]) by {
                    if is_unfinished {
                        if before.contains(w) {
                            let i = choose|i: int| 0 <= i < before.len() && before[i] == w;
                            assert(unfinished@[i] == w);
                        }
                        if unfinished@.contains(w) && w != v {
                            let i = choose|i: int| 0 <= i < unfinished@.len() && unfinished@[i] == w;
                            assert(before[i] == w);
                        }
                        if w == v {
                            assert(unfinished@[before.len() as int] == v);
                        }
                    }
                }
                if is_unfinished {
                    assert forall|a: int, b: int| 0 <= a < b < unfinished@.len() implies unfinished@[a] < unfinished@[b] by {
                        if b == unfinished@.len() - 1 {
                            assert(before.contains(unfinished@[a]));
                        }
                    }
                }
            }
            v = v + 1;
        }
        unfinished
    }
}

/// A step runs only after every step it depends on completed successfully.
pub proof fn lemma_runs_after_dependencies(g: &DependencyGraph, s: &SchedulerState, v: int, j: int)
    requires
        s.inv(g),
        0 <= v < g.n(),
        s.active@[v] || s.completed@[v],
        0 <= j < g.deps@[v]@.len(),
    ensures
        s.completed@[g.deps@[v]@[j] as int],
        !s.failed@[g.deps@[v]@[j] as int],
{
    assert(s.step_ok(g, v));
}

/// A step is skipped only when one of its dependencies failed or was itself
/// skipped, and a skipped step never runs.
pub proof fn lemma_skipped_for_a_reason(g: &DependencyGraph, s: &SchedulerState, v: int)
    requires
        s.inv(g),
        0 <= v < g.n(),
        s.skipped@[v],
    ensures
        exists|j: int|
            0 <= j < g.deps@[v]@.len() && (s.failed@[#[trigger] g.deps@[v]@[j] as int]
                || s.skipped@[g.deps@[v]@[j] as int]),
        !s.active@[v],
        !s.completed@[v],
{
    assert(s.step_ok(g, v));
}

/// When no step is ready and none is running, every step of an acyclic
/// pipeline has completed or been skipped: the run is over.
pub proof fn lemma_idle_run_is_finished(g: &DependencyGraph, s: &SchedulerState)
    requires
        s.inv(g),
        acyclic(g.dep_view()),
        s.ready@.len() == 0,
        forall|v: int| 0 <= v < g.n() ==> !s.active@[v],
    ensures
        forall|v: int| 0 <= v < g.n() ==> #[trigger] s.completed@[v] || s.skipped@[v],
{
    let deps = g.dep_view();
    let marks = s.resolved_marks();
    let rank = choose|rank: spec_fn(usize) -> nat| #[trigger] is_ranking(deps, rank);
    assert forall|v: int| 0 <= v < deps.len() implies all_below(#[trigger] deps[v], deps.len()) by {
        assert(g.dep_ok(v));
    }
    assert forall|v: int|
        0 <= v < deps.len() && (forall|j: int| 0 <= j < deps[v].len() ==> marks[#[trigger] deps[v][j] as int])
            implies #[trigger] marks[v] by {
        assert(s.step_ok(g, v));
        assert(deps[v] == g.deps@[v]@);
        assert(s.resolved_marks() == marks);
        lemma_pending_zero(g.deps@[v]@, marks);
        assert(pending(g.deps@[v]@, marks) == 0);
        assert(s.remaining_deps@[v] == 0);
        assert(!s.ready@.contains(v as usize));
        assert(s.resolved(v));
    }
    lemma_closed_set_is_total(deps, rank, marks);
    assert forall|v: int| 0 <= v < g.n() implies #[trigger] s.completed@[v] || s.skipped@[v] by {
        assert(marks[v]);
    }
}

/// A pipeline succeeds exactly when every step completed and none failed
/// or was skipped.
pub proof fn lemma_all_succeeded_means_all_completed(g: &DependencyGraph, s: &SchedulerState)
    requires
        s.inv(g),
    ensures
        ((forall|v: int| 0 <= v < s.failed@.len() ==> !s.failed@[v])
            && (forall|v: int| 0 <= v < s.skipped@.len() ==> !s.skipped@[v])
            && num_true(s.completed@) == g.n())
        <==> (forall|v: int| 0 <= v < g.n() ==> s.completed@[v] && !s.failed@[v] && !s.skipped@[v]),
{
    crate::pipeline::lemma_num_true_bound(s.completed@);
    if forall|v: int| 0 <= v < g.n() ==> s.completed@[v] && !s.failed@[v] && !s.skipped@[v] {
        crate::pipeline::lemma_num_true_all(s.completed@);
    }
}
} // verus!
