//! The equality-saturation loop: apply every loaded rule, merge what
//! matched, repair congruence, and stop on a fixpoint or a resource limit.

use vstd::prelude::*;
use crate::egraph::{EGraph, wf, n_classes, coarsens, lemma_monotonic_trans, root_of};
use crate::rewrite::{Rewrite, Subst, subst_ok};

verus! {

/// Statistics recorded after one iteration.
pub struct IterStats {
    /// Number of canonical e-nodes in the hashcons.
    pub enodes: usize,
    /// Number of e-classes (union-find roots).
    pub eclasses: usize,
    /// Number of unions this iteration actually merged.
    pub applied: usize,
}

pub enum StopReason {
    /// A true fixpoint: the last iteration merged nothing.
    Saturated,
    /// The node budget or the iteration budget ran out.
    LimitReached,
}

pub struct RunReport {
    pub iterations: Vec<IterStats>,
    pub reason: StopReason,
}

/// The number of union-find roots among the first `k` classes.
pub open spec fn roots_upto(uf: Seq<usize>, k: int) -> int
    decreases k,
{
    if k <= 0 {
        0
    } else {
        roots_upto(uf, k - 1) + (if uf[k - 1] as int == k - 1 {
            1int
        } else {
            0int
        })
    }
}

impl EGraph {
    fn count_classes(&self) -> (r: usize)
        requires
            wf(*self),
        ensures
            r as int == roots_upto(self.uf@, n_classes(*self)),
    {
        let n = self.uf.len();
        let mut count: usize = 0;
        let mut i: usize = 0;
        while i < n
            invariant
                wf(*self),
                0 <= i <= n,
                n == self.uf@.len(),
                count <= i,
                count as int == roots_upto(self.uf@, i as int),
            decreases n - i,
        {
            if self.uf[i] == i {
                count = count + 1;
            }
            i = i + 1;
        }
        count
    }

    /// One saturation iteration: scan every rule over a stable snapshot,
    /// apply all recorded matches, then repair congruence.
    pub fn run_one(&mut self, rules: &Vec<Rewrite>, node_limit: usize) -> (st: IterStats)
        requires
            wf(*old(self)),
            old(self).pending@.len() == 0,
        ensures
            wf(*final(self)),
            final(self).pending@.len() == 0,
            coarsens(*old(self), *final(self)),
            st.enodes == final(self).hc@.len(),
            st.eclasses as int == roots_upto(final(self).uf@, n_classes(*final(self))),
            st.applied == 0 ==> forall|x: int|
                0 <= x < n_classes(*old(self)) ==> root_of(final(self).uf@, x) == root_of(
                    old(self).uf@,
                    x,
                ),
    {
        {
            let ghost giter = *self;
            // search phase: a read-only scan over a stable snapshot
            let mut hits: Vec<(usize, usize, Subst)> = Vec::new();
            let nall = self.uf.len();
            let mut roots_of: Vec<usize> = Vec::new();
            let mut ci: usize = 0;
            while ci < nall
                invariant
                    wf(*self),
                    *self == giter,
                    0 <= ci <= nall,
                    nall == self.uf@.len(),
                    roots_of@.len() == ci,
                    forall|j: int|
                        0 <= j < ci ==> (#[trigger] roots_of@[j]) as int == root_of(
                            self.uf@,
                            j,
                        ),
                decreases nall - ci,
            {
                let rt = self.find(ci);
                roots_of.push(rt);
                ci = ci + 1;
            }
            let nrules = rules.len();
            let mut ri: usize = 0;
            while ri < nrules
                invariant
                    wf(*self),
                    *self == giter,
                    0 <= ri <= nrules,
                    nrules == rules@.len(),
                    crate::rewrite::roots_table_ok(*self, roots_of@),
                    forall|h: int|
                        0 <= h < hits@.len() ==> ((#[trigger] hits@[h]).1 as int) < n_classes(
                            *self,
                        ) && subst_ok(hits@[h].2.m@, n_classes(*self)) && (hits@[h].0 as int)
                            < rules@.len(),
                decreases nrules - ri,
            {
                let n = self.uf.len();
                let mut c: usize = 0;
                while c < n
                    invariant
                        wf(*self),
                        *self == giter,
                        (ri as int) < rules@.len(),
                        crate::rewrite::roots_table_ok(*self, roots_of@),
                        0 <= c <= n,
                        n == self.uf@.len(),
                        forall|h: int|
                            0 <= h < hits@.len() ==> ((#[trigger] hits@[h]).1 as int)
                                < n_classes(*self) && subst_ok(hits@[h].2.m@, n_classes(*self))
                                && (hits@[h].0 as int) < rules@.len(),
                    decreases n - c,
                {
                    if self.uf[c] == c {
                        let empty = Subst::empty_subst();
                        let ms = self.match_pattern(&rules[ri].lhs, c, &empty, &roots_of);
                        let mn = ms.len();
                        let msv = ms;
                        let mut mi: usize = 0;
                        while mi < mn
                            invariant
                                wf(*self),
                                *self == giter,
                                (ri as int) < rules@.len(),
                                (c as int) < n_classes(*self),
                                0 <= mi <= mn,
                                mn == msv@.len(),
                                forall|x: int|
                                    0 <= x < msv@.len() ==> subst_ok(
                                        (#[trigger] msv@[x]).m@,
                                        n_classes(*self),
                                    ),
                                forall|h: int|
                                    0 <= h < hits@.len() ==> ((#[trigger] hits@[h]).1 as int)
                                        < n_classes(*self) && subst_ok(
                                        hits@[h].2.m@,
                                        n_classes(*self),
                                    ) && (hits@[h].0 as int) < rules@.len(),
                            decreases mn - mi,
                        {
                            let s = msv[mi].duplicate();
                            proof {
                                assert(subst_ok(msv@[mi as int].m@, n_classes(*self)));
                            }
                            hits.push((ri, c, s));
                            mi = mi + 1;
                        }
                    }
                    c = c + 1;
                }
                ri = ri + 1;
            }
            // apply phase: instantiate each right side, merge, then repair
            let mut applied: usize = 0;
            let nh = hits.len();
            let mut h: usize = 0;
            let hitsv = hits;
            while h < nh && self.hc.len() <= node_limit
                invariant
                    wf(*self),
                    n_classes(*self) >= n_classes(giter),
                    coarsens(giter, *self),
                    0 <= h <= nh,
                    nh == hitsv@.len(),
                    applied <= h,
                    applied == 0 ==> self.pending@.len() == 0,
                    applied == 0 ==> forall|x: int|
                        0 <= x < n_classes(giter) ==> root_of(self.uf@, x) == root_of(
                            giter.uf@,
                            x,
                        ),
                    (nrules as int) == rules@.len(),
                    forall|x: int|
                        0 <= x < hitsv@.len() ==> ((#[trigger] hitsv@[x]).1 as int) < n_classes(
                            giter,
                        ) && subst_ok(hitsv@[x].2.m@, n_classes(giter)) && (hitsv@[x].0 as int)
                            < rules@.len(),
                decreases nh - h,
            {
                let ghost gpre = *self;
                let (ri2, c2, s2) = &hitsv[h];
                proof {
                    assert(subst_ok(s2.m@, n_classes(giter)));
                    assert(subst_ok(s2.m@, n_classes(*self)));
                }
                let rid = self.add_pattern(&rules[*ri2].rhs, s2);
                let ghost gmid = *self;
                let merged = self.union(*c2, rid);
                if merged {
                    applied = applied + 1;
                }
                proof {
                    lemma_monotonic_trans(giter, gpre, gmid);
                    lemma_monotonic_trans(giter, gmid, *self);
                    if !merged {
                        assert(*self == gmid);
                        assert forall|x: int| 0 <= x < n_classes(giter) implies root_of(
                            gmid.uf@,
                            x,
                        ) == root_of(gpre.uf@, x) by {
                            crate::egraph::lemma_root_grows(gpre, gmid, x);
                        }
                    }
                }
                h = h + 1;
            }
            let ghost gapp = *self;
            self.rebuild();
            proof {
                lemma_monotonic_trans(giter, gapp, *self);
                if applied == 0 {
                    assert(*self == gapp);
                }
            }
            let enodes = self.hc.len();
            let eclasses = self.count_classes();
            IterStats { enodes, eclasses, applied }
        }
    }

    /// Run every rule to saturation or to a limit. Stop conditions, in
    /// order: no union merged anything (`Saturated`); the e-node count
    /// exceeds `node_limit` or the iteration count reaches `iter_limit`
    /// (`LimitReached`).
    pub fn run_rules(&mut self, rules: &Vec<Rewrite>, iter_limit: usize, node_limit: usize) -> (r:
        RunReport)
        requires
            wf(*old(self)),
            old(self).pending@.len() == 0,
        ensures
            wf(*final(self)),
            final(self).pending@.len() == 0,
            coarsens(*old(self), *final(self)),
            r.iterations@.len() <= iter_limit,
            r.iterations@.len() > 0 ==> r.iterations@.last().enodes == final(self).hc@.len()
                && r.iterations@.last().eclasses as int == roots_upto(
                final(self).uf@,
                n_classes(*final(self)),
            ),
            r.reason is Saturated ==> r.iterations@.len() > 0 && r.iterations@.last().applied
                == 0,
            r.reason is LimitReached ==> r.iterations@.len() == iter_limit || (
            r.iterations@.len() > 0 && r.iterations@.last().enodes > node_limit),
    {
        let mut iterations: Vec<IterStats> = Vec::new();
        let mut it: usize = 0;
        proof {
            assert(coarsens(*self, *self));
        }
        while it < iter_limit
            invariant
                wf(*self),
                self.pending@.len() == 0,
                coarsens(*old(self), *self),
                0 <= it <= iter_limit,
                iterations@.len() == it,
                it > 0 ==> iterations@.last().enodes == self.hc@.len()
                    && iterations@.last().eclasses as int == roots_upto(
                    self.uf@,
                    n_classes(*self),
                ),
            decreases iter_limit - it,
        {
            let ghost gpre = *self;
            let st = self.run_one(rules, node_limit);
            proof {
                lemma_monotonic_trans(*old(self), gpre, *self);
            }
            let applied = st.applied;
            let enodes = st.enodes;
            iterations.push(st);
            it = it + 1;
            if applied == 0 {
                return RunReport { iterations, reason: StopReason::Saturated };
            }
            if enodes > node_limit {
                return RunReport { iterations, reason: StopReason::LimitReached };
            }
        }
        RunReport { iterations, reason: StopReason::LimitReached }
    }
}

} // verus!
