use crate::agent::{applied_triggers, present, removed, deps_of, dep_has, id_of, lemma_ready_has_predecessors, preds_of, early_return, failed, first_dep, outcome, ready, skipped, triggered_by_applied, Report, Resource, ResourceResult};
use crate::common::Action;
use vstd::prelude::*;

verus! {

/// The position of the first pending resource that may be applied.
pub open spec fn first_ready(pending: Seq<Resource>, applied: Seq<Resource>) -> Option<int> {
    if exists|k: int| 0 <= k < pending.len() && ready(#[trigger] pending[k], applied)
            && forall|j: int| 0 <= j < k ==> !ready(#[trigger] pending[j], applied) {
        Some(choose|k: int| 0 <= k < pending.len() && ready(#[trigger] pending[k], applied)
            && forall|j: int| 0 <= j < k ==> !ready(#[trigger] pending[j], applied))
    } else {
        None
    }
}

/// What applying a resource comes to before any work on the system: the
/// early return for its dependencies; for a passive command that no applied
/// resource triggered, nothing done; else none.
pub open spec fn decision(r: Resource, applied: Seq<Resource>) -> Option<(Action, Option<Seq<char>>)> {
    match early_return(r, applied) {
        Some((a, m)) => Some((a, Some(m))),
        None => if (r matches Resource::Execute(x) && x.parameters.passive) && !triggered_by_applied(r, applied) {
            Some((Action::Unchanged, None))
        } else {
            None
        },
    }
}

/// Whether the resources were applied in turn: each after the resources to
/// apply before it, with its position as its order.
pub open spec fn applied_in_turn(applied: Seq<Resource>) -> bool {
    forall|i: int| 0 <= i < applied.len() ==> ready(#[trigger] applied[i], applied.take(i))
        && outcome(applied[i]).order == i
}

/// A run of the client over its catalog: the resources left to apply, in
/// the order in which they are tried, the one being applied, and those
/// applied, in the order in which they were.
pub struct Run {
    pub pending: Vec<Resource>,
    pub current: Option<Resource>,
    pub applied: Vec<Resource>,
}

impl Run {
    /// Whether the run is consistent: the resource being applied may be
    /// applied, and the applied ones were applied in turn.
    pub open spec fn wf(&self) -> bool {
        &&& applied_in_turn(self.applied@)
        &&& self.current matches Some(c) ==> ready(c, self.applied@)
    }

    /// A run over a catalog, with nothing applied yet.
    pub fn new(resources: Vec<Resource>) -> (r: Run)
        ensures
            r.wf(),
            r.pending@ == resources@,
            r.current is None,
            r.applied@.len() == 0,
    {
        Run { pending: resources, current: None, applied: Vec::new() }
    }

    /// Takes the next resource to apply: the first pending one whose
    /// predecessors were all applied; the resources tried before it go to
    /// the back, as they are tried again later. Answers whether there was one.
    pub fn next(&mut self) -> (r: bool)
        requires
            old(self).wf(),
            old(self).current is None,
        ensures
            final(self).wf(),
            final(self).applied@ == old(self).applied@,
            match first_ready(old(self).pending@, old(self).applied@) {
                Some(k) => r && final(self).current == Some(old(self).pending@[k])
                    && final(self).pending@ == old(self).pending@.skip(k + 1) + old(self).pending@.take(k),
                None => !r && final(self).current is None && final(self).pending@ == old(self).pending@,
            },
    {
        let ghost p0 = self.pending@;
        let mut k: usize = 0;
        while k < self.pending.len()
            invariant
                k <= self.pending@.len(),
                self.pending@ == p0,
                p0 == old(self).pending@,
                self.applied@ == old(self).applied@,
                applied_in_turn(self.applied@),
                self.current is None,
                forall|j: int| 0 <= j < k ==> !ready(#[trigger] p0[j], self.applied@),
            decreases self.pending.len() - k,
        {
            if self.pending[k].is_ready(&self.applied) {
                let ghost q = choose|q: int| 0 <= q < p0.len() && ready(#[trigger] p0[q], self.applied@)
                    && forall|j: int| 0 <= j < q ==> !ready(#[trigger] p0[j], self.applied@);
                assert(q == k) by {
                    if q < k {
                        assert(!ready(p0[q], self.applied@));
                    } else if q > k {
                        assert(!ready(p0[k as int], self.applied@));
                    }
                }
                assert(first_ready(p0, old(self).applied@) == Some(k as int));
                let mut front: Vec<Resource> = Vec::new();
                let mut i: usize = 0;
                while i < k
                    invariant
                        i <= k,
                        k < p0.len(),
                        self.pending@ == p0.skip(i as int),
                        front@ == p0.take(i as int),
                        self.applied@ == old(self).applied@,
                        applied_in_turn(self.applied@),
                        self.current is None,
                        ready(p0[k as int], self.applied@),
                        p0 == old(self).pending@,
                        first_ready(p0, old(self).applied@) == Some(k as int),
                    decreases k - i,
                {
                    let x = self.pending.remove(0);
                    front.push(x);
                    assert(self.pending@ =~= p0.skip(i + 1));
                    assert(front@ =~= p0.take(i + 1));
                    i = i + 1;
                }
                let chosen = self.pending.remove(0);
                assert(chosen == p0[k as int]);
                let ghost rest = self.pending@;
                assert(rest =~= p0.skip(k + 1));
                self.pending.append(&mut front);
                assert(self.pending@ =~= p0.skip(k + 1) + p0.take(k as int));
                self.current = Some(chosen);
                return true;
            }
            k = k + 1;
        }
        assert(first_ready(p0, self.applied@) is None) by {
            if exists|q: int| 0 <= q < p0.len() && ready(#[trigger] p0[q], self.applied@) {
                let q = choose|q: int| 0 <= q < p0.len() && ready(#[trigger] p0[q], self.applied@);
                assert(!ready(p0[q], self.applied@));
            }
        }
        false
    }

    /// Why the resource being applied is not to be applied at all, given
    /// the resources applied before it.
    pub fn early(&self) -> (r: Option<(Action, String)>)
        requires
            self.current is Some,
        ensures
            match early_return(self.current->0, self.applied@) {
                Some(x) => r matches Some(y) && y.0 == x.0 && y.1@ == x.1,
                None => r is None,
            },
    {
        match &self.current {
            Some(c) => c.maybe_return_early(&self.applied),
            None => None,
        }
    }

    /// What applying the resource being applied comes to before any work
    /// on the system: the early return for its dependencies; for a passive
    /// command that nothing triggered, nothing done; else none, and the
    /// resource is to be applied.
    pub fn decide(&self) -> (r: Option<(Action, Option<String>)>)
        requires
            self.current is Some,
        ensures
            match decision(self.current->0, self.applied@) {
                Some((a, m)) => r matches Some(y) && y.0 == a && (match y.1 { Some(t) => Some(t@), None => None }) == m,
                None => r is None,
            },
    {
        match &self.current {
            Some(c) => {
                match c.maybe_return_early(&self.applied) {
                    Some((a, m)) => Some((a, Some(m))),
                    None => {
                        let passive = match c {
                            Resource::Execute(x) => x.parameters.passive,
                            _ => false,
                        };
                        if passive && !c.is_triggered(&self.applied) {
                            Some((Action::Unchanged, None))
                        } else {
                            None
                        }
                    },
                }
            },
            None => None,
        }
    }

    /// Records what applying the resource being applied did; it becomes the
    /// last applied resource, with its position as its order.
    pub fn finish(&mut self, action: Action, message: Option<String>, duration: usize)
        requires
            old(self).wf(),
            old(self).current is Some,
        ensures
            final(self).wf(),
            final(self).current is None,
            final(self).pending@ == old(self).pending@,
            final(self).applied@.len() == old(self).applied@.len() + 1,
            final(self).applied@.take(old(self).applied@.len() as int) == old(self).applied@,
            outcome(final(self).applied@.last()) == (ResourceResult {
                order: old(self).applied@.len() as usize,
                action,
                message,
                duration,
            }),
    {
        let order = self.applied.len();
        let ghost a0 = self.applied@;
        let c = self.current.take();
        match c {
            Some(mut x) => {
                let ghost before = x;
                x.set_result(ResourceResult { order, action, message, duration });
                proof {
                    crate::agent::lemma_set_result_keeps(before, x);
                }
                self.applied.push(x);
                proof {
                    assert(self.applied@.take(a0.len() as int) =~= a0);
                    assert forall|i: int| 0 <= i < self.applied@.len() implies ready(#[trigger] self.applied@[i], self.applied@.take(i))
                        && outcome(self.applied@[i]).order == i by {
                        if i < a0.len() {
                            assert(self.applied@[i] == a0[i]);
                            assert(self.applied@.take(i) =~= a0.take(i));
                        } else {
                            assert(self.applied@.take(i) =~= a0);
                        }
                    }
                }
            },
            None => {},
        }
    }

    /// The report of the run: the applied resources in the order in which
    /// they were applied.
    pub fn report(self, pid: u32, timestamp_ms: usize, duration_ms: usize) -> (r: Report)
        ensures
            r.pid == pid,
            r.timestamp_ms == timestamp_ms,
            r.duration_ms == duration_ms,
            r.resources@ == self.applied@,
    {
        Report { pid, timestamp_ms, duration_ms, resources: self.applied }
    }
}

proof fn lemma_first_dep_some(r: Resource, applied: Seq<Resource>, p: spec_fn(Resource) -> bool, i: int)
    requires
        0 <= i < deps_of(r).len(),
        dep_has(applied, deps_of(r)[i], p),
    ensures
        first_dep(r, applied, p) is Some,
    decreases i,
{
    let ds = deps_of(r);
    if exists|j: int| 0 <= j < i && dep_has(applied, #[trigger] ds[j], p) {
        let j = choose|j: int| 0 <= j < i && dep_has(applied, #[trigger] ds[j], p);
        lemma_first_dep_some(r, applied, p, j);
    } else {
        assert(forall|j: int| 0 <= j < i ==> !dep_has(applied, #[trigger] ds[j], p));
        assert(dep_has(applied, ds[i], p));
    }
}

proof fn lemma_first_dep_none(r: Resource, applied: Seq<Resource>, p: spec_fn(Resource) -> bool)
    requires
        forall|j: int| 0 <= j < deps_of(r).len() ==> !dep_has(applied, #[trigger] deps_of(r)[j], p),
    ensures
        first_dep(r, applied, p) is None,
{
}

/// A resource to be present that depends on a resource to be absent, none
/// of whose dependencies failed or was skipped, fails without being
/// applied.
pub proof fn lemma_absent_dependency_fails(r: Resource, applied: Seq<Resource>, i: int)
    requires
        0 <= i < deps_of(r).len(),
        present(r),
        dep_has(applied, deps_of(r)[i], removed()),
        forall|j: int| 0 <= j < deps_of(r).len() ==> !dep_has(applied, #[trigger] deps_of(r)[j], failed())
            && !dep_has(applied, deps_of(r)[j], skipped()),
    ensures
        early_return(r, applied) matches Some((a, _)) && a == Action::Failed,
        decision(r, applied) matches Some((a, _)) && a == Action::Failed,
{
    lemma_first_dep_none(r, applied, failed());
    lemma_first_dep_none(r, applied, skipped());
    lemma_first_dep_some(r, applied, removed(), i);
}

/// A resource none of whose dependencies failed or was skipped, and, where
/// it is to be present, none of whose dependencies is to be absent, does
/// not return early.
pub proof fn lemma_no_early_return(r: Resource, applied: Seq<Resource>)
    requires
        forall|j: int| 0 <= j < deps_of(r).len() ==> !dep_has(applied, #[trigger] deps_of(r)[j], failed())
            && !dep_has(applied, deps_of(r)[j], skipped()),
        present(r) ==> forall|j: int| 0 <= j < deps_of(r).len() ==> !dep_has(applied, #[trigger] deps_of(r)[j], removed()),
    ensures
        early_return(r, applied) is None,
{
    lemma_first_dep_none(r, applied, failed());
    lemma_first_dep_none(r, applied, skipped());
    if present(r) {
        lemma_first_dep_none(r, applied, removed());
    }
}

/// Of the resources that do not return early, only a passive command that
/// no applied resource it is to be applied after triggers is left as it
/// is, with nothing done and no message; every other one is applied.
pub proof fn lemma_passive_untriggered(r: Resource, applied: Seq<Resource>)
    requires
        early_return(r, applied) is None,
    ensures
        decision(r, applied) is Some <==> (r matches Resource::Execute(x) && x.parameters.passive
            && !(exists|i: int| 0 <= i < preds_of(r).len() && #[trigger] applied_triggers(applied, preds_of(r)[i].id@, r))),
        decision(r, applied) matches Some((a, m)) ==> a == Action::Unchanged && m is None,
{
}

/// A resource one of whose dependencies failed to apply or was skipped is
/// skipped, not failed: it returns early as skipped, and that is what
/// applying it comes to.
pub proof fn lemma_failed_dependency_skips(r: Resource, applied: Seq<Resource>, i: int)
    requires
        0 <= i < deps_of(r).len(),
        dep_has(applied, deps_of(r)[i], failed()) || dep_has(applied, deps_of(r)[i], skipped()),
    ensures
        early_return(r, applied) matches Some((a, _)) && a == Action::Skipped,
        decision(r, applied) matches Some((a, _)) && a == Action::Skipped,
{
    if dep_has(applied, deps_of(r)[i], failed()) {
        lemma_first_dep_some(r, applied, failed(), i);
    } else {
        lemma_first_dep_some(r, applied, skipped(), i);
    }
}

/// In a consistent run, every applied resource comes after each resource
/// listed to be applied before it: one with its identifier was applied
/// earlier.
pub proof fn lemma_applied_after_predecessors(run: Run, i: int, p: int)
    requires
        run.wf(),
        0 <= i < run.applied@.len(),
        0 <= p < preds_of(run.applied@[i]).len(),
    ensures
        exists|j: int| 0 <= j < i && id_of(#[trigger] run.applied@[j]) == preds_of(run.applied@[i])[p].id@,
{
    let a = run.applied@;
    assert(ready(a[i], a.take(i)));
    lemma_ready_has_predecessors(a[i], a.take(i), p);
    let q = preds_of(a[i])[p];
    let j = choose|j: int| 0 <= j < a.take(i).len() && id_of(#[trigger] a.take(i)[j]) == q.id@;
    assert(a.take(i)[j] == a[j]);
}

/// In a consistent run, each applied resource has as its order its
/// position among the applied resources.
pub proof fn lemma_order_is_position(run: Run, i: int)
    requires
        run.wf(),
        0 <= i < run.applied@.len(),
    ensures
        outcome(run.applied@[i]).order == i,
{
}

} // verus!
