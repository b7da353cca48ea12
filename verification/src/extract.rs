//! Cost-based extraction: fixpoint relaxation of per-class best costs
//! (structural size), then reconstruction of a witness term.
//!
//! The cost table an extraction produces is specified exactly as a function
//! of the e-graph (`extract_costs_sp`), so re-running extraction on an
//! unchanged graph provably reproduces identical costs.

use vstd::prelude::*;
use crate::term::{Term, TermV, terms_view, lemma_terms_view_len};
use crate::parse::copy_all;
use crate::egraph::{EGraph, wf, n_classes, root_of, lemma_root_of, node_ok, lookup_term,
    lemma_lookup_terms_build, lemma_hc_find_clean, cong, ENodeV};

verus! {

pub open spec fn sat_add(a: u64, b: u64) -> u64 {
    if a + b > u64::MAX {
        u64::MAX
    } else {
        (a + b) as u64
    }
}

/// Saturating structural size of a term, in the exact shape of the
/// extractor's per-node cost: 1 for the node, folded left over children.
pub open spec fn size_fold(ts: Seq<TermV>) -> u64
    decreases ts,
{
    if ts.len() == 0 {
        1u64
    } else {
        sat_add(size_fold(ts.drop_last()), sat_size(ts.last()))
    }
}

pub open spec fn sat_size(t: TermV) -> u64
    decreases t,
{
    size_fold(t.args)
}

/// Cost of one e-node given the current table: 1 plus the children's
/// recorded best costs, or nothing if a child has none yet.
pub open spec fn sum_children(uf: Seq<usize>, costs: Seq<Option<u64>>, ch: Seq<usize>) -> Option<
    u64,
>
    decreases ch,
{
    if ch.len() == 0 {
        Some(1u64)
    } else {
        match sum_children(uf, costs, ch.drop_last()) {
            None => None,
            Some(a) => {
                let rc = root_of(uf, ch.last() as int);
                if 0 <= rc < costs.len() {
                    match costs[rc] {
                        None => None,
                        Some(b) => Some(sat_add(a, b)),
                    }
                } else {
                    None
                }
            },
        }
    }
}

pub open spec fn relax_node(g: EGraph, costs: Seq<Option<u64>>, c: int, k: int) -> Seq<
    Option<u64>,
> {
    let nd = g.nodes@[c]@[k]@;
    let rc = root_of(g.uf@, c);
    match sum_children(g.uf@, costs, nd.children) {
        None => costs,
        Some(x) => if 0 <= rc < costs.len() && (costs[rc] is None || x < costs[rc]->0) {
            costs.update(rc, Some(x))
        } else {
            costs
        },
    }
}

pub open spec fn nodes_state(g: EGraph, start: Seq<Option<u64>>, c: int, k: int) -> Seq<
    Option<u64>,
>
    decreases k,
{
    if k <= 0 {
        start
    } else {
        relax_node(g, nodes_state(g, start, c, k - 1), c, k - 1)
    }
}

pub open spec fn pass_state(g: EGraph, start: Seq<Option<u64>>, c: int) -> Seq<Option<u64>>
    decreases c,
{
    if c <= 0 {
        start
    } else {
        nodes_state(g, pass_state(g, start, c - 1), c - 1, g.nodes@[c - 1]@.len() as int)
    }
}

pub open spec fn rounds_state(g: EGraph, start: Seq<Option<u64>>, r: nat) -> Seq<Option<u64>>
    decreases r,
{
    if r == 0 {
        start
    } else {
        pass_state(g, rounds_state(g, start, (r - 1) as nat), n_classes(g))
    }
}

pub open spec fn init_costs(n: int) -> Seq<Option<u64>> {
    Seq::new(n as nat, |i: int| None::<u64>)
}

pub open spec fn rounds_of(n: int) -> nat {
    if n < usize::MAX {
        (n + 1) as nat
    } else {
        n as nat
    }
}

/// The cost table extraction computes: a pure function of the e-graph.
pub open spec fn extract_costs_sp(g: EGraph) -> Seq<Option<u64>> {
    rounds_state(g, init_costs(n_classes(g)), rounds_of(n_classes(g)))
}

/// Extraction is deterministic: identical graphs give identical costs.
pub proof fn lemma_extraction_deterministic(
    g: EGraph,
    r1: Seq<Option<u64>>,
    r2: Seq<Option<u64>>,
)
    requires
        r1 == extract_costs_sp(g),
        r2 == extract_costs_sp(g),
    ensures
        r1 == r2,
{
}

impl EGraph {
    /// One e-node's candidate cost under the current table.
    fn node_sum(&self, c: usize, k: usize, costs: &Vec<Option<u64>>) -> (r: Option<u64>)
        requires
            wf(*self),
            (c as int) < n_classes(*self),
            (k as int) < self.nodes@[c as int]@.len(),
            costs@.len() == n_classes(*self),
        ensures
            r == sum_children(self.uf@, costs@, self.nodes@[c as int]@[k as int]@.children),
    {
        proof {
            assert(node_ok(n_classes(*self), self.nodes@[c as int]@[k as int]@));
        }
        let m = self.nodes[c][k].children.len();
        let mut acc: u64 = 1;
        let mut i: usize = 0;
        let ghost ch = self.nodes@[c as int]@[k as int]@.children;
        while i < m
            invariant
                wf(*self),
                (c as int) < n_classes(*self),
                (k as int) < self.nodes@[c as int]@.len(),
                costs@.len() == n_classes(*self),
                ch == self.nodes@[c as int]@[k as int]@.children,
                0 <= i <= m,
                m == ch.len(),
                sum_children(self.uf@, costs@, ch.take(i as int)) == Some(acc),
            decreases m - i,
        {
            proof {
                assert(node_ok(n_classes(*self), self.nodes@[c as int]@[k as int]@));
                assert(ch.take(i + 1).drop_last() =~= ch.take(i as int));
                assert(ch.take(i + 1).last() == ch[i as int]);
            }
            let child = self.nodes[c][k].children[i];
            let rc = self.find(child);
            match costs[rc] {
                None => {
                    proof {
                        lemma_sum_none(self.uf@, costs@, ch, i as int);
                    }
                    return None;
                },
                Some(b) => {
                    if acc > u64::MAX - b {
                        acc = u64::MAX;
                    } else {
                        acc = acc + b;
                    }
                },
            }
            i = i + 1;
        }
        proof {
            assert(ch.take(m as int) =~= ch);
        }
        Some(acc)
    }

    /// The fixpoint relaxation of per-class best costs; the result equals
    /// `extract_costs_sp` exactly.
    pub fn compute_costs(&self) -> (r: Vec<Option<u64>>)
        requires
            wf(*self),
        ensures
            r@ == extract_costs_sp(*self),
            r@.len() == n_classes(*self),
    {
        let n = self.uf.len();
        let mut costs: Vec<Option<u64>> = Vec::new();
        let mut i: usize = 0;
        while i < n
            invariant
                0 <= i <= n,
                costs@.len() == i,
                forall|j: int| 0 <= j < i ==> (#[trigger] costs@[j]) is None,
            decreases n - i,
        {
            costs.push(None);
            i = i + 1;
        }
        proof {
            assert(costs@ =~= init_costs(n as int));
            lemma_rounds_len(*self, costs@, rounds_of(n as int));
        }
        let passes = if n < usize::MAX {
            n + 1
        } else {
            n
        };
        let mut r: usize = 0;
        while r < passes
            invariant
                wf(*self),
                n == self.uf@.len(),
                passes as nat == rounds_of(n as int),
                0 <= r <= passes,
                costs@ == rounds_state(*self, init_costs(n as int), r as nat),
                costs@.len() == n,
            decreases passes - r,
        {
            let ghost round_start = costs@;
            let mut c: usize = 0;
            while c < n
                invariant
                    wf(*self),
                    n == self.uf@.len(),
                    0 <= c <= n,
                    costs@ == pass_state(*self, round_start, c as int),
                    costs@.len() == n,
                decreases n - c,
            {
                let ghost class_start = costs@;
                let m = self.nodes[c].len();
                let mut k: usize = 0;
                while k < m
                    invariant
                        wf(*self),
                        n == self.uf@.len(),
                        (c as int) < n_classes(*self),
                        0 <= k <= m,
                        m == self.nodes@[c as int]@.len(),
                        costs@ == nodes_state(*self, class_start, c as int, k as int),
                        costs@.len() == n,
                    decreases m - k,
                {
                    let cand = self.node_sum(c, k, &costs);
                    match cand {
                        None => {},
                        Some(x) => {
                            let rc = self.find(c);
                            let better = match costs[rc] {
                                None => true,
                                Some(cur) => x < cur,
                            };
                            if better {
                                costs.set(rc, Some(x));
                            }
                        },
                    }
                    k = k + 1;
                }
                c = c + 1;
            }
            r = r + 1;
        }
        costs
    }

    /// Rebuild a concrete witness term for `c`: its saturating size equals
    /// the class's recorded best cost, and the graph represents it in the
    /// queried class itself.
    pub fn extract_term(&self, costs: &Vec<Option<u64>>, c: usize, fuel: u64) -> (r: Option<Term>)
        requires
            wf(*self),
            self.pending@.len() == 0,
            (c as int) < n_classes(*self),
            costs@.len() == n_classes(*self),
        ensures
            r matches Some(t) ==> costs@[root_of(self.uf@, c as int)] == Some(sat_size(t@)),
            r matches Some(t) ==> (lookup_term(*self, t@) matches Some(d) && root_of(
                self.uf@,
                d as int,
            ) == root_of(self.uf@, c as int)),
        decreases fuel,
    {
        if fuel == 0 {
            return None;
        }
        let rc = self.find(c);
        let target = match costs[rc] {
            None => {
                return None;
            },
            Some(x) => x,
        };
        let n = self.uf.len();
        let mut c2: usize = 0;
        while c2 < n
            invariant
                wf(*self),
                n == self.uf@.len(),
                (c as int) < n_classes(*self),
                (rc as int) == root_of(self.uf@, c as int),
                costs@.len() == n_classes(*self),
                costs@[rc as int] == Some(target),
                fuel > 0,
                self.pending@.len() == 0,
                0 <= c2 <= n,
            decreases n - c2,
        {
            let rc2 = self.find(c2);
            {
                if rc2 == rc {
                    let m = self.nodes[c2].len();
                    let mut k: usize = 0;
                    while k < m
                        invariant
                            wf(*self),
                            n == self.uf@.len(),
                            (c as int) < n_classes(*self),
                            (c2 as int) < n_classes(*self),
                            (rc as int) == root_of(self.uf@, c as int),
                            root_of(self.uf@, c2 as int) == root_of(self.uf@, c as int),
                            costs@.len() == n_classes(*self),
                            costs@[rc as int] == Some(target),
                            fuel > 0,
                            self.pending@.len() == 0,
                            0 <= k <= m,
                            m == self.nodes@[c2 as int]@.len(),
                        decreases m - k,
                    {
                        let cand = self.node_sum(c2, k, costs);
                        let hit = match cand {
                            None => false,
                            Some(x) => x == target,
                        };
                        if hit {
                            match self.build_node(costs, c2, k, fuel) {
                                None => {},
                                Some(t) => {
                                    proof {
                                        assert(sat_size(t@) == target);
                                    }
                                    return Some(t);
                                },
                            }
                        }
                        k = k + 1;
                    }
                }
            }
            c2 = c2 + 1;
        }
        None
    }

    /// Build the witness term for one e-node whose candidate cost is known.
    fn build_node(&self, costs: &Vec<Option<u64>>, c2: usize, k: usize, fuel: u64) -> (r: Option<
        Term,
    >)
        requires
            wf(*self),
            self.pending@.len() == 0,
            fuel > 0,
            (c2 as int) < n_classes(*self),
            (k as int) < self.nodes@[c2 as int]@.len(),
            costs@.len() == n_classes(*self),
        ensures
            r matches Some(t) ==> Some(sat_size(t@)) == sum_children(
                self.uf@,
                costs@,
                self.nodes@[c2 as int]@[k as int]@.children,
            ),
            r matches Some(t) ==> (lookup_term(*self, t@) matches Some(d) && root_of(
                self.uf@,
                d as int,
            ) == root_of(self.uf@, c2 as int)),
        decreases fuel, 0int,
    {
        proof {
            assert(node_ok(n_classes(*self), self.nodes@[c2 as int]@[k as int]@));
        }
        let ghost ch = self.nodes@[c2 as int]@[k as int]@.children;
        let m = self.nodes[c2][k].children.len();
        let mut args: Vec<Term> = Vec::new();
        let mut lids: Vec<usize> = Vec::new();
        let mut i: usize = 0;
        let mut acc: u64 = 1;
        while i < m
            invariant
                wf(*self),
                self.pending@.len() == 0,
                fuel > 0,
                (c2 as int) < n_classes(*self),
                (k as int) < self.nodes@[c2 as int]@.len(),
                costs@.len() == n_classes(*self),
                ch == self.nodes@[c2 as int]@[k as int]@.children,
                0 <= i <= m,
                m == ch.len(),
                args@.len() == i,
                lids@.len() == i,
                sum_children(self.uf@, costs@, ch.take(i as int)) == Some(acc),
                size_fold(terms_view(args@)) == acc,
                forall|j: int|
                    0 <= j < i ==> lookup_term(*self, #[trigger] terms_view(args@)[j]) == Some(
                        lids@[j],
                    ) && root_of(self.uf@, lids@[j] as int) == root_of(
                        self.uf@,
                        ch[j] as int,
                    ),
            decreases m - i,
        {
            proof {
                assert(node_ok(n_classes(*self), self.nodes@[c2 as int]@[k as int]@));
                assert(ch.take(i + 1).drop_last() =~= ch.take(i as int));
                assert(ch.take(i + 1).last() == ch[i as int]);
            }
            let child = self.nodes[c2][k].children[i];
            let rchild = self.find(child);
            let b = match costs[rchild] {
                None => {
                    return None;
                },
                Some(b) => b,
            };
            let sub = self.extract_term(costs, child, fuel - 1);
            match sub {
                None => {
                    return None;
                },
                Some(t) => {
                    let li = match self.lookup_nomut(&t) {
                        None => {
                            proof {
                                assert(false);
                            }
                            return None;
                        },
                        Some(d) => d,
                    };
                    proof {
                        assert(costs@[root_of(self.uf@, child as int)] == Some(sat_size(t@)));
                        assert(sat_size(t@) == b);
                        assert(root_of(self.uf@, li as int) == root_of(self.uf@, child as int));
                        let ghost pre = terms_view(args@);
                        lemma_terms_view_len(args@);
                        assert(terms_view(args@.push(t)).drop_last() =~= terms_view(args@)) by {
                            assert(args@.push(t).drop_last() =~= args@);
                        }
                        lemma_terms_view_len(args@.push(t));
                        assert forall|j: int|
                            0 <= j < i + 1 implies lookup_term(
                            *self,
                            #[trigger] terms_view(args@.push(t))[j],
                        ) == Some(lids@.push(li)[j]) && root_of(
                            self.uf@,
                            lids@.push(li)[j] as int,
                        ) == root_of(self.uf@, ch[j] as int) by {
                            crate::term::lemma_terms_view_index(args@.push(t), j);
                            if j < i {
                                crate::term::lemma_terms_view_index(args@, j);
                            }
                        }
                    }
                    args.push(t);
                    lids.push(li);
                    if acc > u64::MAX - b {
                        acc = u64::MAX;
                    } else {
                        acc = acc + b;
                    }
                },
            }
            i = i + 1;
        }
        proof {
            assert(ch.take(m as int) =~= ch);
        }
        let op = copy_all(&self.nodes[c2][k].op);
        let t = Term { op, args };
        proof {
            assert(t@.args == terms_view(t.args@));
            assert(sat_size(t@) == size_fold(terms_view(t.args@)));
            lemma_terms_view_len(t.args@);
            lemma_lookup_terms_build(*self, t@.args, lids@);
            let ghost nodev = self.nodes@[c2 as int]@[k as int]@;
            assert(t@.op == nodev.op);
            assert(lids@.len() == nodev.children.len());
            assert forall|i2: int|
                0 <= i2 < lids@.len() implies root_of(self.uf@, #[trigger] lids@[i2] as int)
                == root_of(self.uf@, nodev.children[i2] as int) by {
                assert(lookup_term(*self, terms_view(t.args@)[i2]) == Some(lids@[i2]));
                assert(root_of(self.uf@, lids@[i2] as int) == root_of(self.uf@, ch[i2] as int));
            }
            assert(cong(self.uf@, ENodeV { op: t@.op, children: lids@ }, nodev));
            lemma_hc_find_clean(*self, t@.op, lids@, c2 as int, k as int);
        }
        Some(t)
    }
}

proof fn lemma_sum_none(uf: Seq<usize>, costs: Seq<Option<u64>>, ch: Seq<usize>, i: int)
    requires
        0 <= i < ch.len(),
        (!(0 <= root_of(uf, ch[i] as int) < costs.len()) || costs[root_of(uf, ch[i] as int)] is None),
    ensures
        sum_children(uf, costs, ch) is None,
    decreases ch,
{
    if ch.len() > 0 {
        if i < ch.len() - 1 {
            lemma_sum_none(uf, costs, ch.drop_last(), i);
        }
    }
}

proof fn lemma_rounds_len(g: EGraph, start: Seq<Option<u64>>, r: nat)
    ensures
        rounds_state(g, start, r).len() == start.len(),
    decreases r,
{
    if r > 0 {
        lemma_rounds_len(g, start, (r - 1) as nat);
        lemma_pass_len(g, rounds_state(g, start, (r - 1) as nat), n_classes(g));
    }
}

proof fn lemma_pass_len(g: EGraph, start: Seq<Option<u64>>, c: int)
    ensures
        pass_state(g, start, c).len() == start.len(),
    decreases c,
{
    if c > 0 {
        lemma_pass_len(g, start, c - 1);
        lemma_nodes_len(g, pass_state(g, start, c - 1), c - 1, g.nodes@[c - 1]@.len() as int);
    }
}

proof fn lemma_nodes_len(g: EGraph, start: Seq<Option<u64>>, c: int, k: int)
    ensures
        nodes_state(g, start, c, k).len() == start.len(),
    decreases k,
{
    if k > 0 {
        lemma_nodes_len(g, start, c, k - 1);
    }
}

/// Cost function aimed at a chosen target term; no structural-equality
/// oracle is consulted, so every operator costs the same flat amount.
pub struct AstTarget {
    pub target: Term,
}

impl AstTarget {
    pub fn new(target: Term) -> (r: AstTarget)
        ensures
            r.target@ == target@,
    {
        AstTarget { target }
    }

    /// Flat per-node cost.
    pub fn cost(&self, op: &Vec<u8>, child_costs: &Vec<u64>) -> (r: u64)
        ensures
            r == 100u64,
    {
        100
    }
}

/// Cost function that favors terms of total size exactly five.
pub struct AstSizeFive;

impl AstSizeFive {
    pub fn cost(&self, child_costs: &Vec<u64>) -> (r: u64)
        ensures
            r == (if total_of(child_costs@) == 5u64 {
                1u64
            } else {
                100u64
            }),
    {
        let n = child_costs.len();
        let mut tot: u64 = 1;
        let mut i: usize = 0;
        while i < n
            invariant
                0 <= i <= n,
                n == child_costs@.len(),
                tot == total_of(child_costs@.take(i as int)),
            decreases n - i,
        {
            proof {
                assert(child_costs@.take(i + 1).drop_last() =~= child_costs@.take(i as int));
                assert(child_costs@.take(i + 1).last() == child_costs@[i as int]);
            }
            let b = child_costs[i];
            if tot > u64::MAX - b {
                tot = u64::MAX;
            } else {
                tot = tot + b;
            }
            i = i + 1;
        }
        proof {
            assert(child_costs@.take(n as int) =~= child_costs@);
        }
        if tot == 5 {
            1
        } else {
            100
        }
    }
}

/// Saturating total of one plus the child costs.
pub open spec fn total_of(cs: Seq<u64>) -> u64
    decreases cs,
{
    if cs.len() == 0 {
        1u64
    } else {
        sat_add(total_of(cs.drop_last()), cs.last())
    }
}

} // verus!
