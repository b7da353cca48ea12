//! The e-graph: a union-find over e-class ids, per-class e-node arenas, a
//! hashcons of canonical e-nodes, and a worklist-driven congruence repair.
//!
//! Classes are addressed by stable integer ids; merging never moves a stored
//! e-node, it only coarsens the union-find, so the set of e-nodes a class
//! holds (`class_nodes`) only ever grows.

use vstd::prelude::*;
use crate::term::{Term, TermV, bytes_eq, terms_view, lemma_terms_view_len, lemma_terms_view_index};

verus! {

/// One operator application whose children are e-class ids.
pub struct ENode {
    pub op: Vec<u8>,
    pub children: Vec<usize>,
}

#[verifier::ext_equal]
pub ghost struct ENodeV {
    pub op: Seq<u8>,
    pub children: Seq<usize>,
}

impl View for ENode {
    type V = ENodeV;

    open spec fn view(&self) -> ENodeV {
        ENodeV { op: self.op@, children: self.children@ }
    }
}

pub struct EGraph {
    pub uf: Vec<usize>,
    pub nodes: Vec<Vec<ENode>>,
    pub hc: Vec<(ENode, usize)>,
    pub pending: Vec<usize>,
}

pub open spec fn uf_wf(uf: Seq<usize>) -> bool {
    forall|i: int| 0 <= i < uf.len() ==> #[trigger] uf[i] <= i
}

/// The canonical representative of `x` under the union-find table.
pub open spec fn root_of(uf: Seq<usize>, x: int) -> int
    decreases x,
    when uf_wf(uf) && 0 <= x < uf.len()
{
    if uf[x] == x {
        x
    } else {
        root_of(uf, uf[x] as int)
    }
}

pub proof fn lemma_root_of(uf: Seq<usize>, x: int)
    requires
        uf_wf(uf),
        0 <= x < uf.len(),
    ensures
        0 <= root_of(uf, x) <= x,
        uf[root_of(uf, x)] == root_of(uf, x),
        root_of(uf, root_of(uf, x)) == root_of(uf, x),
    decreases x,
{
    if uf[x] != x {
        lemma_root_of(uf, uf[x] as int);
    }
}

/// Two e-nodes are congruent when they apply the same operator to
/// pairwise find-equal children.
pub open spec fn cong(uf: Seq<usize>, a: ENodeV, b: ENodeV) -> bool {
    &&& a.op == b.op
    &&& a.children.len() == b.children.len()
    &&& forall|i: int|
        0 <= i < a.children.len() ==> root_of(uf, #[trigger] a.children[i] as int) == root_of(
            uf,
            b.children[i] as int,
        )
}

pub open spec fn node_ok(n: int, nv: ENodeV) -> bool {
    forall|i: int| 0 <= i < nv.children.len() ==> (#[trigger] nv.children[i] as int) < n
}

/// The e-node stored at `(c, k)` has a congruent hashcons entry whose class
/// is find-equal to `c`.
pub open spec fn node_represented(g: EGraph, c: int, k: int) -> bool {
    exists|j: int|
        0 <= j < g.hc@.len() && cong(g.uf@, g.nodes@[c]@[k]@, (#[trigger] g.hc@[j]).0@) && root_of(
            g.uf@,
            g.hc@[j].1 as int,
        ) == root_of(g.uf@, c)
}

/// Every stored e-node has a congruent entry in the hashcons whose class is
/// find-equal to the node's class. This is what makes congruence checkable.
pub open spec fn represented(g: EGraph) -> bool {
    forall|c: int, k: int|
        0 <= c < g.uf@.len() && 0 <= k < g.nodes@[c]@.len() ==> #[trigger] node_represented(
            g,
            c,
            k,
        )
}

pub open spec fn same_key(a: ENodeV, b: ENodeV) -> bool {
    a.op == b.op && a.children == b.children
}

/// After repair the hashcons is canonical: every key's children and every
/// entry's class are find-roots, and no two entries share a key.
pub open spec fn clean(g: EGraph) -> bool {
    &&& forall|j: int, i: int|
        0 <= j < g.hc@.len() && 0 <= i < g.hc@[j].0@.children.len() ==> root_of(
            g.uf@,
            #[trigger] g.hc@[j].0@.children[i] as int,
        ) == g.hc@[j].0@.children[i] as int
    &&& forall|j: int|
        0 <= j < g.hc@.len() ==> root_of(g.uf@, (#[trigger] g.hc@[j]).1 as int) == g.hc@[j].1 as int
    &&& forall|j1: int, j2: int|
        0 <= j1 < j2 < g.hc@.len() ==> !same_key(g.hc@[j1].0@, g.hc@[j2].0@)
}

pub open spec fn wf(g: EGraph) -> bool {
    let n = g.uf@.len() as int;
    &&& uf_wf(g.uf@)
    &&& g.nodes@.len() == n
    &&& forall|c: int, k: int|
        0 <= c < n && 0 <= k < g.nodes@[c]@.len() ==> node_ok(n, (#[trigger] g.nodes@[c]@[k])@)
    &&& forall|j: int|
        0 <= j < g.hc@.len() ==> node_ok(n, (#[trigger] g.hc@[j]).0@) && (g.hc@[j].1 as int) < n
    &&& forall|p: int| 0 <= p < g.pending@.len() ==> (#[trigger] g.pending@[p] as int) < n
    &&& represented(g)
    &&& (g.pending@.len() == 0 ==> clean(g))
}

pub open spec fn n_classes(g: EGraph) -> int {
    g.uf@.len() as int
}

/// The set of e-nodes in the e-class of `x`: everything stored in any class
/// id that is find-equal to `x`.
pub open spec fn class_nodes(g: EGraph, x: int) -> Set<ENodeV> {
    Set::new(
        |nv: ENodeV|
            exists|c: int, k: int|
                0 <= c < g.uf@.len() && 0 <= k < g.nodes@[c]@.len() && root_of(g.uf@, c) == root_of(
                    g.uf@,
                    x,
                ) && (#[trigger] g.nodes@[c]@[k])@ == nv,
    )
}

/// One coarsening step never loses an equivalence; used to state that
/// rewriting only ever adds information.
pub open spec fn coarsens(g1: EGraph, g2: EGraph) -> bool {
    &&& n_classes(g2) >= n_classes(g1)
    &&& forall|x: int, y: int|
        0 <= x < n_classes(g1) && 0 <= y < n_classes(g1) && root_of(g1.uf@, x) == root_of(g1.uf@, y)
            ==> root_of(g2.uf@, x) == root_of(g2.uf@, y)
    &&& forall|x: int| 0 <= x < n_classes(g1) ==> class_nodes(g1, x).subset_of(class_nodes(g2, x))
}

/// Monotonicity across a sequence of operations follows by chaining the
/// per-operation guarantee: e-class contents and equivalences are
/// non-decreasing.
pub proof fn lemma_monotonic_trans(g1: EGraph, g2: EGraph, g3: EGraph)
    requires
        coarsens(g1, g2),
        coarsens(g2, g3),
    ensures
        coarsens(g1, g3),
{
    assert forall|x: int| 0 <= x < n_classes(g1) implies class_nodes(g1, x).subset_of(
        class_nodes(g3, x),
    ) by {
        assert(class_nodes(g1, x).subset_of(class_nodes(g2, x)));
        assert(class_nodes(g2, x).subset_of(class_nodes(g3, x)));
    }
}

impl EGraph {
    /// A fresh, empty e-graph.
    pub fn new_graph() -> (g: EGraph)
        ensures
            wf(g),
            n_classes(g) == 0,
            g.hc@.len() == 0,
            g.pending@.len() == 0,
    {
        EGraph { uf: Vec::new(), nodes: Vec::new(), hc: Vec::new(), pending: Vec::new() }
    }

    /// Union-find lookup (non-mutating walk to the representative).
    pub fn find(&self, x: usize) -> (r: usize)
        requires
            wf(*self),
            x < n_classes(*self),
        ensures
            r as int == root_of(self.uf@, x as int),
            r <= x,
    {
        let mut y = x;
        proof {
            lemma_root_of(self.uf@, x as int);
        }
        while self.uf[y] != y
            invariant
                wf(*self),
                y < n_classes(*self),
                y <= x,
                root_of(self.uf@, y as int) == root_of(self.uf@, x as int),
            decreases y,
        {
            y = self.uf[y];
            proof {
                lemma_root_of(self.uf@, y as int);
            }
        }
        y
    }
}

/// First hashcons entry congruent to `(op, ch)`, scanning from `j`.
pub open spec fn hc_find(
    uf: Seq<usize>,
    hc: Seq<(ENode, usize)>,
    op: Seq<u8>,
    ch: Seq<usize>,
    j: int,
) -> Option<usize>
    decreases hc.len() - j,
    when 0 <= j <= hc.len()
{
    if j >= hc.len() {
        None
    } else if cong(uf, ENodeV { op, children: ch }, hc[j].0@) {
        Some(hc[j].1)
    } else {
        hc_find(uf, hc, op, ch, j + 1)
    }
}

/// The e-class id a ground term resolves to, if it is represented.
pub open spec fn lookup_term(g: EGraph, t: TermV) -> Option<usize>
    decreases t,
{
    match lookup_terms(g, t.args) {
        None => None,
        Some(ids) => hc_find(g.uf@, g.hc@, t.op, ids, 0),
    }
}

pub open spec fn lookup_terms(g: EGraph, ts: Seq<TermV>) -> Option<Seq<usize>>
    decreases ts,
{
    if ts.len() == 0 {
        Some(Seq::empty())
    } else {
        match lookup_terms(g, ts.drop_last()) {
            None => None,
            Some(ids) => match lookup_term(g, ts.last()) {
                None => None,
                Some(c) => Some(ids.push(c)),
            },
        }
    }
}

/// `g2` extends `g1` with fresh classes and appended entries only: no
/// existing union-find edge, stored node or hashcons entry changes.
pub open spec fn grows(g1: EGraph, g2: EGraph) -> bool {
    &&& g1.uf@.is_prefix_of(g2.uf@)
    &&& forall|i: int| g1.uf@.len() <= i < g2.uf@.len() ==> #[trigger] g2.uf@[i] as int == i
    &&& g1.hc@.is_prefix_of(g2.hc@)
    &&& g1.nodes@.len() == g1.uf@.len() && g2.nodes@.len() == g2.uf@.len()
    &&& forall|c: int| 0 <= c < g1.nodes@.len() ==> (#[trigger] g1.nodes@[c])@.is_prefix_of(
        g2.nodes@[c]@,
    )
    &&& g2.pending@ == g1.pending@
}

pub proof fn lemma_grows_trans(g1: EGraph, g2: EGraph, g3: EGraph)
    requires
        grows(g1, g2),
        grows(g2, g3),
    ensures
        grows(g1, g3),
{
    assert(g1.uf@.is_prefix_of(g3.uf@)) by {
        assert(g1.uf@ =~= g3.uf@.subrange(0, g1.uf@.len() as int));
    }
    assert(g1.hc@.is_prefix_of(g3.hc@)) by {
        assert(g1.hc@ =~= g3.hc@.subrange(0, g1.hc@.len() as int));
    }
    assert forall|i: int| g1.uf@.len() <= i < g3.uf@.len() implies #[trigger] g3.uf@[i] as int
        == i by {
        if i < g2.uf@.len() {
            assert(g2.uf@[i] as int == i);
        }
    }
    assert forall|c: int| 0 <= c < g1.nodes@.len() implies (#[trigger] g1.nodes@[c])@.is_prefix_of(
        g3.nodes@[c]@,
    ) by {
        assert(g1.nodes@[c]@.is_prefix_of(g2.nodes@[c]@));
        assert(g2.nodes@[c]@.is_prefix_of(g3.nodes@[c]@));
        assert(g1.nodes@[c]@ =~= g3.nodes@[c]@.subrange(0, g1.nodes@[c]@.len() as int));
    }
}

/// Roots of old classes are untouched by growth.
pub proof fn lemma_root_grows(g1: EGraph, g2: EGraph, x: int)
    requires
        uf_wf(g1.uf@),
        uf_wf(g2.uf@),
        grows(g1, g2),
        0 <= x < g1.uf@.len(),
    ensures
        root_of(g2.uf@, x) == root_of(g1.uf@, x),
    decreases x,
{
    assert(g2.uf@[x] == g1.uf@[x]);
    if g1.uf@[x] != x {
        lemma_root_grows(g1, g2, g1.uf@[x] as int);
    }
}

pub proof fn lemma_cong_grows(g1: EGraph, g2: EGraph, a: ENodeV, b: ENodeV)
    requires
        uf_wf(g1.uf@),
        uf_wf(g2.uf@),
        grows(g1, g2),
        node_ok(g1.uf@.len() as int, a),
        node_ok(g1.uf@.len() as int, b),
    ensures
        cong(g2.uf@, a, b) == cong(g1.uf@, a, b),
{
    assert forall|i: int| 0 <= i < a.children.len() implies root_of(
        g2.uf@,
        #[trigger] a.children[i] as int,
    ) == root_of(g1.uf@, a.children[i] as int) by {
        lemma_root_grows(g1, g2, a.children[i] as int);
    }
    assert forall|i: int| 0 <= i < b.children.len() implies root_of(
        g2.uf@,
        #[trigger] b.children[i] as int,
    ) == root_of(g1.uf@, b.children[i] as int) by {
        lemma_root_grows(g1, g2, b.children[i] as int);
    }
}

pub proof fn lemma_hc_find_grows(g1: EGraph, g2: EGraph, op: Seq<u8>, ch: Seq<usize>, j: int, c: usize)
    requires
        wf(g1),
        uf_wf(g2.uf@),
        grows(g1, g2),
        node_ok(g1.uf@.len() as int, ENodeV { op, children: ch }),
        0 <= j <= g1.hc@.len(),
        hc_find(g1.uf@, g1.hc@, op, ch, j) == Some(c),
    ensures
        hc_find(g2.uf@, g2.hc@, op, ch, j) == Some(c),
    decreases g1.hc@.len() - j,
{
    if j < g1.hc@.len() {
        assert(g2.hc@[j] == g1.hc@[j]);
        lemma_cong_grows(g1, g2, ENodeV { op, children: ch }, g1.hc@[j].0@);
        if !cong(g1.uf@, ENodeV { op, children: ch }, g1.hc@[j].0@) {
            lemma_hc_find_grows(g1, g2, op, ch, j + 1, c);
        }
    }
}

/// A successful lookup is bounded by the graph's class count.
pub proof fn lemma_hc_find_bound(g: EGraph, op: Seq<u8>, ch: Seq<usize>, j: int, c: usize)
    requires
        wf(g),
        0 <= j <= g.hc@.len(),
        hc_find(g.uf@, g.hc@, op, ch, j) == Some(c),
    ensures
        (c as int) < n_classes(g),
        g.pending@.len() == 0 ==> root_of(g.uf@, c as int) == c as int,
    decreases g.hc@.len() - j,
{
    if j < g.hc@.len() {
        if !cong(g.uf@, ENodeV { op, children: ch }, g.hc@[j].0@) {
            lemma_hc_find_bound(g, op, ch, j + 1, c);
        }
    }
}

pub proof fn lemma_lookup_term_bound(g: EGraph, t: TermV, c: usize)
    requires
        wf(g),
        lookup_term(g, t) == Some(c),
    ensures
        (c as int) < n_classes(g),
        g.pending@.len() == 0 ==> root_of(g.uf@, c as int) == c as int,
{
    let ids = lookup_terms(g, t.args)->Some_0;
    lemma_hc_find_bound(g, t.op, ids, 0, c);
}

pub proof fn lemma_lookup_terms_index(g: EGraph, ts: Seq<TermV>, ids: Seq<usize>)
    requires
        wf(g),
        lookup_terms(g, ts) == Some(ids),
    ensures
        ids.len() == ts.len(),
        forall|j: int| 0 <= j < ts.len() ==> lookup_term(g, #[trigger] ts[j]) == Some(ids[j]),
        forall|j: int| 0 <= j < ts.len() ==> (#[trigger] ids[j] as int) < n_classes(g),
    decreases ts,
{
    if ts.len() > 0 {
        let ids0 = lookup_terms(g, ts.drop_last())->Some_0;
        lemma_lookup_terms_index(g, ts.drop_last(), ids0);
        lemma_lookup_term_bound(g, ts.last(), ids[ts.len() - 1]);
        assert(forall|j: int| 0 <= j < ts.len() - 1 ==> ts.drop_last()[j] == #[trigger] ts[j]);
    }
}

pub proof fn lemma_lookup_terms_build(g: EGraph, ts: Seq<TermV>, ids: Seq<usize>)
    requires
        wf(g),
        ids.len() == ts.len(),
        forall|j: int| 0 <= j < ts.len() ==> lookup_term(g, #[trigger] ts[j]) == Some(ids[j]),
    ensures
        lookup_terms(g, ts) == Some(ids),
    decreases ts,
{
    if ts.len() > 0 {
        lemma_lookup_terms_build(g, ts.drop_last(), ids.drop_last());
        assert(lookup_term(g, ts.last()) == Some(ids[ts.len() - 1]));
        assert(ids.drop_last().push(ids[ts.len() - 1]) =~= ids);
    } else {
        assert(ids =~= Seq::<usize>::empty());
    }
}

/// Lookups are stable under growth.
pub proof fn lemma_lookup_grows(g1: EGraph, g2: EGraph, t: TermV, c: usize)
    requires
        wf(g1),
        uf_wf(g2.uf@),
        grows(g1, g2),
        lookup_term(g1, t) == Some(c),
    ensures
        lookup_term(g2, t) == Some(c),
    decreases t,
{
    let ids = lookup_terms(g1, t.args)->Some_0;
    lemma_lookup_terms_grows(g1, g2, t.args, ids);
    lemma_lookup_terms_index(g1, t.args, ids);
    assert(node_ok(g1.uf@.len() as int, ENodeV { op: t.op, children: ids }));
    lemma_hc_find_grows(g1, g2, t.op, ids, 0, c);
}

pub proof fn lemma_lookup_terms_grows(g1: EGraph, g2: EGraph, ts: Seq<TermV>, ids: Seq<usize>)
    requires
        wf(g1),
        uf_wf(g2.uf@),
        grows(g1, g2),
        lookup_terms(g1, ts) == Some(ids),
    ensures
        lookup_terms(g2, ts) == Some(ids),
    decreases ts,
{
    if ts.len() > 0 {
        let ids0 = lookup_terms(g1, ts.drop_last())->Some_0;
        lemma_lookup_terms_grows(g1, g2, ts.drop_last(), ids0);
        lemma_lookup_grows(g1, g2, ts.last(), ids[ids.len() - 1]);
    }
}

pub open spec fn roots_set(uf: Seq<usize>) -> Set<int> {
    Set::new(|i: int| 0 <= i < uf.len() && uf[i] as int == i)
}

pub open spec fn num_roots(uf: Seq<usize>) -> int {
    roots_set(uf).len() as int
}

pub proof fn lemma_roots_finite(uf: Seq<usize>)
    ensures
        roots_set(uf).finite(),
        roots_set(uf).len() <= uf.len(),
{
    vstd::set_lib::lemma_int_range(0, uf.len() as int);
    vstd::set_lib::lemma_len_subset(roots_set(uf), vstd::set_lib::set_int_range(0, uf.len() as int));
}

/// What one union does to every root: classes rooted at `hi` now answer `lo`.
pub proof fn lemma_union_root(uf1: Seq<usize>, uf2: Seq<usize>, hi: int, lo: int, x: int)
    requires
        uf_wf(uf1),
        0 <= lo < hi < uf1.len(),
        uf1[hi] as int == hi,
        uf1[lo] as int == lo,
        uf2 == uf1.update(hi, lo as usize),
        0 <= x < uf1.len(),
    ensures
        uf_wf(uf2),
        root_of(uf2, x) == if root_of(uf1, x) == hi {
            lo as int
        } else {
            root_of(uf1, x)
        },
    decreases x,
{
    assert(uf_wf(uf2));
    lemma_root_of(uf1, x);
    if uf1[x] as int == x {
        if x == hi {
            lemma_union_root(uf1, uf2, hi, lo, lo);
        }
    } else {
        lemma_union_root(uf1, uf2, hi, lo, uf1[x] as int);
    }
}

impl EGraph {
    /// Merge the classes of `a` and `b`; returns whether anything changed.
    /// Congruence may be broken afterwards until `rebuild` runs.
    pub fn union(&mut self, a: usize, b: usize) -> (r: bool)
        requires
            wf(*old(self)),
            (a as int) < n_classes(*old(self)),
            (b as int) < n_classes(*old(self)),
        ensures
            wf(*final(self)),
            n_classes(*final(self)) == n_classes(*old(self)),
            final(self).nodes@ == old(self).nodes@,
            final(self).hc@ == old(self).hc@,
            r == (root_of(old(self).uf@, a as int) != root_of(old(self).uf@, b as int)),
            root_of(final(self).uf@, a as int) == root_of(final(self).uf@, b as int),
            coarsens(*old(self), *final(self)),
            forall|x: int, y: int|
                0 <= x < n_classes(*final(self)) && 0 <= y < n_classes(*final(self)) ==> (root_of(
                    final(self).uf@,
                    x,
                ) == root_of(final(self).uf@, y) <==> (root_of(old(self).uf@, x) == root_of(
                    old(self).uf@,
                    y,
                ) || (root_of(old(self).uf@, x) == root_of(old(self).uf@, a as int) && root_of(
                    old(self).uf@,
                    y,
                ) == root_of(old(self).uf@, b as int)) || (root_of(old(self).uf@, x) == root_of(
                    old(self).uf@,
                    b as int,
                ) && root_of(old(self).uf@, y) == root_of(old(self).uf@, a as int)))),
            r ==> num_roots(final(self).uf@) == num_roots(old(self).uf@) - 1,
            !r ==> *final(self) == *old(self),
            r ==> final(self).pending@ == old(self).pending@.push(
                (if root_of(old(self).uf@, a as int) <= root_of(old(self).uf@, b as int) {
                    root_of(old(self).uf@, a as int)
                } else {
                    root_of(old(self).uf@, b as int)
                }) as usize,
            ),
    {
        let ra = self.find(a);
        let rb = self.find(b);
        if ra == rb {
            assert(coarsens(*self, *self));
            return false;
        }
        let (lo, hi) = if ra < rb {
            (ra, rb)
        } else {
            (rb, ra)
        };
        proof {
            lemma_root_of(self.uf@, a as int);
            lemma_root_of(self.uf@, b as int);
        }
        let ghost g1 = *self;
        self.uf.set(hi, lo);
        self.pending.push(lo);
        proof {
            assert forall|x: int| 0 <= x < g1.uf@.len() implies root_of(self.uf@, x) == (if root_of(
                g1.uf@,
                x,
            ) == hi as int {
                lo as int
            } else {
                root_of(g1.uf@, x)
            }) by {
                lemma_union_root(g1.uf@, self.uf@, hi as int, lo as int, x);
            }
            // the root sets
            lemma_roots_finite(g1.uf@);
            assert(roots_set(self.uf@) =~= roots_set(g1.uf@).remove(hi as int));
            let ghost g2 = *self;
            lemma_preserve_wf(g1, g2);
            assert(self.pending@.len() == g1.pending@.len() + 1);
        }
        true
    }
}

/// Coarsening the union-find alone (same nodes, hashcons, and class count,
/// with old equalities kept) preserves well-formedness and loses no class
/// content; the worklist must be non-empty, since congruence may be broken.
pub proof fn lemma_preserve_wf(g1: EGraph, g2: EGraph)
    requires
        wf(g1),
        uf_wf(g2.uf@),
        g2.uf@.len() == g1.uf@.len(),
        g2.nodes@ == g1.nodes@,
        g2.hc@ == g1.hc@,
        g2.pending@.len() > 0,
        forall|p: int| 0 <= p < g2.pending@.len() ==> (#[trigger] g2.pending@[p] as int)
            < g2.uf@.len(),
        forall|x: int, y: int|
            0 <= x < g1.uf@.len() && 0 <= y < g1.uf@.len() && root_of(g1.uf@, x) == root_of(
                g1.uf@,
                y,
            ) ==> root_of(g2.uf@, x) == root_of(g2.uf@, y),
    ensures
        wf(g2),
        forall|x: int| 0 <= x < n_classes(g1) ==> class_nodes(g1, x).subset_of(
            class_nodes(g2, x),
        ),
{
    assert forall|c: int, k: int|
        0 <= c < g2.uf@.len() && 0 <= k < g2.nodes@[c]@.len() implies #[trigger] node_represented(
        g2,
        c,
        k,
    ) by {
        assert(node_represented(g1, c, k));
        let j = choose|j: int|
            0 <= j < g1.hc@.len() && cong(g1.uf@, g1.nodes@[c]@[k]@, (#[trigger] g1.hc@[j]).0@)
                && root_of(g1.uf@, g1.hc@[j].1 as int) == root_of(g1.uf@, c);
        assert(node_ok(g1.uf@.len() as int, g1.nodes@[c]@[k]@));
        assert(node_ok(g1.uf@.len() as int, g1.hc@[j].0@));
        assert forall|i: int|
            0 <= i < g2.nodes@[c]@[k]@.children.len() implies root_of(
            g2.uf@,
            #[trigger] g2.nodes@[c]@[k]@.children[i] as int,
        ) == root_of(g2.uf@, g2.hc@[j].0@.children[i] as int) by {
            assert(root_of(g1.uf@, g1.nodes@[c]@[k]@.children[i] as int) == root_of(
                g1.uf@,
                g1.hc@[j].0@.children[i] as int,
            ));
        }
        assert(cong(g2.uf@, g2.nodes@[c]@[k]@, g2.hc@[j].0@));
        assert(root_of(g2.uf@, g2.hc@[j].1 as int) == root_of(g2.uf@, c));
        assert(0 <= j < g2.hc@.len() && cong(g2.uf@, g2.nodes@[c]@[k]@, g2.hc@[j].0@) && root_of(
            g2.uf@,
            g2.hc@[j].1 as int,
        ) == root_of(g2.uf@, c));
    }
    assert(uf_wf(g2.uf@));
    assert(g2.nodes@.len() == g2.uf@.len());
    assert forall|c: int, k: int|
        0 <= c < g2.uf@.len() && 0 <= k < g2.nodes@[c]@.len() implies node_ok(
        g2.uf@.len() as int,
        (#[trigger] g2.nodes@[c]@[k])@,
    ) by {
        assert(node_ok(g1.uf@.len() as int, (g1.nodes@[c]@[k])@));
    }
    assert forall|j: int| 0 <= j < g2.hc@.len() implies node_ok(
        g2.uf@.len() as int,
        (#[trigger] g2.hc@[j]).0@,
    ) && (g2.hc@[j].1 as int) < g2.uf@.len() by {
        assert(node_ok(g1.uf@.len() as int, (g1.hc@[j]).0@));
        assert((g1.hc@[j].1 as int) < g1.uf@.len());
    }
    assert(represented(g2));
    assert(g2.pending@.len() > 0);
    assert(wf(g2));
    assert forall|x: int| 0 <= x < n_classes(g1) implies class_nodes(g1, x).subset_of(
        class_nodes(g2, x),
    ) by {
        assert forall|nv: ENodeV| class_nodes(g1, x).contains(nv) implies class_nodes(
            g2,
            x,
        ).contains(nv) by {
            let (c, k) = choose|c: int, k: int|
                0 <= c < g1.uf@.len() && 0 <= k < g1.nodes@[c]@.len() && root_of(g1.uf@, c)
                    == root_of(g1.uf@, x) && (#[trigger] g1.nodes@[c]@[k])@ == nv;
            assert(root_of(g2.uf@, c) == root_of(g2.uf@, x));
            assert(g2.nodes@[c]@[k]@ == nv);
        }
    }
}

/// When no entry up to `j` matches, the scan result is the tail's.
pub proof fn lemma_hc_find_skip(uf: Seq<usize>, hc: Seq<(ENode, usize)>, op: Seq<u8>, ch: Seq<usize>, j: int)
    requires
        0 <= j <= hc.len(),
        forall|t: int|
            0 <= t < j ==> !cong(uf, ENodeV { op, children: ch }, (#[trigger] hc[t]).0@),
    ensures
        hc_find(uf, hc, op, ch, 0) == hc_find(uf, hc, op, ch, j),
    decreases j,
{
    if j > 0 {
        lemma_hc_find_at(uf, hc, op, ch, 0, j);
    }
}

pub proof fn lemma_hc_find_at(uf: Seq<usize>, hc: Seq<(ENode, usize)>, op: Seq<u8>, ch: Seq<usize>, i: int, j: int)
    requires
        0 <= i <= j <= hc.len(),
        forall|t: int|
            i <= t < j ==> !cong(uf, ENodeV { op, children: ch }, (#[trigger] hc[t]).0@),
    ensures
        hc_find(uf, hc, op, ch, i) == hc_find(uf, hc, op, ch, j),
    decreases j - i,
{
    if i < j {
        lemma_hc_find_at(uf, hc, op, ch, i + 1, j);
    }
}

/// A failed scan means no entry at all is congruent.
pub proof fn lemma_hc_find_none_all(uf: Seq<usize>, hc: Seq<(ENode, usize)>, op: Seq<u8>, ch: Seq<usize>, j: int)
    requires
        0 <= j <= hc.len(),
        hc_find(uf, hc, op, ch, j) is None,
    ensures
        forall|t: int|
            j <= t < hc.len() ==> !cong(uf, ENodeV { op, children: ch }, (#[trigger] hc[t]).0@),
    decreases hc.len() - j,
{
    if j < hc.len() {
        lemma_hc_find_none_all(uf, hc, op, ch, j + 1);
    }
}

/// Growth only ever adds classes and nodes: it coarsens nothing away.
pub proof fn lemma_grows_coarsens(g1: EGraph, g2: EGraph)
    requires
        uf_wf(g1.uf@),
        uf_wf(g2.uf@),
        grows(g1, g2),
    ensures
        coarsens(g1, g2),
{
    assert forall|x: int, y: int|
        0 <= x < n_classes(g1) && 0 <= y < n_classes(g1) && root_of(g1.uf@, x) == root_of(
            g1.uf@,
            y,
        ) implies root_of(g2.uf@, x) == root_of(g2.uf@, y) by {
        lemma_root_grows(g1, g2, x);
        lemma_root_grows(g1, g2, y);
    }
    assert forall|x: int| 0 <= x < n_classes(g1) implies class_nodes(g1, x).subset_of(
        class_nodes(g2, x),
    ) by {
        assert forall|nv: ENodeV| class_nodes(g1, x).contains(nv) implies class_nodes(
            g2,
            x,
        ).contains(nv) by {
            let (c, k) = choose|c: int, k: int|
                0 <= c < g1.uf@.len() && 0 <= k < g1.nodes@[c]@.len() && root_of(g1.uf@, c)
                    == root_of(g1.uf@, x) && (#[trigger] g1.nodes@[c]@[k])@ == nv;
            lemma_root_grows(g1, g2, c);
            lemma_root_grows(g1, g2, x);
            assert(g1.nodes@[c]@.is_prefix_of(g2.nodes@[c]@));
            assert(g2.nodes@[c]@[k] == g1.nodes@[c]@[k]);
        }
    }
}

fn copy_ids(v: &Vec<usize>) -> (r: Vec<usize>)
    ensures
        r@ == v@,
{
    let mut out: Vec<usize> = Vec::new();
    let n = v.len();
    let mut i: usize = 0;
    while i < n
        invariant
            0 <= i <= n,
            n == v@.len(),
            out@ =~= v@.take(i as int),
        decreases n - i,
    {
        out.push(v[i]);
        i = i + 1;
    }
    proof {
        assert(out@ =~= v@);
    }
    out
}

impl EGraph {
    fn entry_matches(&self, j: usize, op: &Vec<u8>, ch: &Vec<usize>) -> (r: bool)
        requires
            wf(*self),
            (j as int) < self.hc@.len(),
            forall|i: int| 0 <= i < ch@.len() ==> (#[trigger] ch@[i] as int) < n_classes(*self),
        ensures
            r == cong(self.uf@, ENodeV { op: op@, children: ch@ }, self.hc@[j as int].0@),
    {
        if !bytes_eq(op, &self.hc[j].0.op) {
            return false;
        }
        if ch.len() != self.hc[j].0.children.len() {
            return false;
        }
        let m = ch.len();
        let mut i: usize = 0;
        while i < m
            invariant
                wf(*self),
                (j as int) < self.hc@.len(),
                0 <= i <= m,
                m == ch@.len(),
                m == self.hc@[j as int].0@.children.len(),
                forall|i2: int| 0 <= i2 < ch@.len() ==> (#[trigger] ch@[i2] as int) < n_classes(
                    *self,
                ),
                forall|t: int|
                    0 <= t < i ==> root_of(self.uf@, #[trigger] ch@[t] as int) == root_of(
                        self.uf@,
                        self.hc@[j as int].0@.children[t] as int,
                    ),
            decreases m - i,
        {
            proof {
                assert(node_ok(n_classes(*self), self.hc@[j as int].0@));
            }
            let a = self.find(ch[i]);
            let b = self.find(self.hc[j].0.children[i]);
            if a != b {
                return false;
            }
            i = i + 1;
        }
        true
    }

    fn hc_lookup(&self, op: &Vec<u8>, ch: &Vec<usize>) -> (r: Option<usize>)
        requires
            wf(*self),
            forall|i: int| 0 <= i < ch@.len() ==> (#[trigger] ch@[i] as int) < n_classes(*self),
        ensures
            r == hc_find(self.uf@, self.hc@, op@, ch@, 0),
    {
        let m = self.hc.len();
        let mut j: usize = 0;
        while j < m
            invariant
                wf(*self),
                0 <= j <= m,
                m == self.hc@.len(),
                forall|i: int| 0 <= i < ch@.len() ==> (#[trigger] ch@[i] as int) < n_classes(
                    *self,
                ),
                hc_find(self.uf@, self.hc@, op@, ch@, 0) == hc_find(
                    self.uf@,
                    self.hc@,
                    op@,
                    ch@,
                    j as int,
                ),
            decreases m - j,
        {
            if self.entry_matches(j, op, ch) {
                return Some(self.hc[j].1);
            }
            j = j + 1;
        }
        None
    }

    /// Insert a ground term, returning its e-class id. Children are inserted
    /// first; a term that is already represented is returned as-is, with the
    /// graph left untouched — so inserting the same term twice yields the
    /// same id both times.
    pub fn add(&mut self, t: &Term) -> (r: usize)
        requires
            wf(*old(self)),
        ensures
            wf(*final(self)),
            grows(*old(self), *final(self)),
            coarsens(*old(self), *final(self)),
            (r as int) < n_classes(*final(self)),
            lookup_term(*final(self), t@) == Some(r),
            old(self).pending@.len() == 0 ==> root_of(final(self).uf@, r as int) == r as int,
            lookup_term(*old(self), t@) matches Some(c) ==> (*final(self) == *old(self) && r == c),
        decreases *t,
    {
        let ghost g0 = *self;
        proof {
            lemma_terms_view_len(t.args@);
            assert(t@.args == terms_view(t.args@));
        }
        let nargs = t.args.len();
        let mut ids: Vec<usize> = Vec::new();
        let mut i: usize = 0;
        while i < nargs
            invariant
                wf(*self),
                grows(g0, *self),
                wf(g0),
                nargs == t.args@.len(),
                t@.args == terms_view(t.args@),
                t@.args.len() == nargs,
                ids@.len() == i,
                0 <= i <= nargs,
                forall|j: int| 0 <= j < i ==> lookup_term(*self, #[trigger] t@.args[j]) == Some(
                    ids@[j],
                ),
                lookup_term(g0, t@) is Some ==> *self == g0,
                lookup_term(g0, t@) is Some ==> ids@ == (lookup_terms(
                    g0,
                    t@.args,
                )->Some_0).take(i as int),
            decreases nargs - i,
        {
            proof {
                lemma_terms_view_index(t.args@, i as int);
            }
            let ghost gpre = *self;
            let cid = self.add(&t.args[i]);
            proof {
                assert forall|j: int| 0 <= j < i implies lookup_term(
                    *self,
                    #[trigger] t@.args[j],
                ) == Some(ids@[j]) by {
                    lemma_lookup_grows(gpre, *self, t@.args[j], ids@[j]);
                }
                lemma_grows_trans(g0, gpre, *self);
                if lookup_term(g0, t@) is Some {
                    let ids0 = lookup_terms(g0, t@.args)->Some_0;
                    lemma_lookup_terms_index(g0, t@.args, ids0);
                    assert(lookup_term(g0, t@.args[i as int]) == Some(ids0[i as int]));
                    assert(*self == g0 && cid == ids0[i as int]);
                    assert(ids@.push(cid) =~= ids0.take(i + 1));
                }
            }
            ids.push(cid);
            i = i + 1;
        }
        proof {
            assert forall|j: int| 0 <= j < nargs implies lookup_term(
                *self,
                #[trigger] t@.args[j],
            ) == Some(ids@[j]) by {}
            lemma_lookup_terms_build(*self, t@.args, ids@);
            assert forall|j: int| 0 <= j < ids@.len() implies (#[trigger] ids@[j] as int)
                < n_classes(*self) by {
                lemma_lookup_term_bound(*self, t@.args[j], ids@[j]);
            }
            if lookup_term(g0, t@) is Some {
                let ids0 = lookup_terms(g0, t@.args)->Some_0;
                lemma_lookup_terms_index(g0, t@.args, ids0);
                assert(ids@ =~= ids0);
            }
        }
        let found = self.hc_lookup(&t.op, &ids);
        match found {
            Some(c) => {
                proof {
                    assert(lookup_term(*self, t@) == Some(c));
                    lemma_lookup_term_bound(*self, t@, c);
                    lemma_grows_coarsens(g0, *self);
                }
                c
            },
            None => {
                proof {
                    if lookup_term(g0, t@) is Some {
                        assert(*self == g0);
                        assert(false);
                    }
                }
                let id = self.uf.len();
                let op1 = crate::parse::copy_all(&t.op);
                let op2 = crate::parse::copy_all(&t.op);
                let ch2 = copy_ids(&ids);
                let ghost idsv = ids@;
                let nd = ENode { op: op1, children: ids };
                let nd2 = ENode { op: op2, children: ch2 };
                let ghost gmid = *self;
                self.uf.push(id);
                let mut vecnd: Vec<ENode> = Vec::new();
                vecnd.push(nd);
                self.nodes.push(vecnd);
                self.hc.push((nd2, id));
                proof {
                    let ghost g2 = *self;
                    let n2 = g2.uf@.len() as int;
                    assert(grows(gmid, g2)) by {
                        assert(gmid.uf@ =~= g2.uf@.subrange(0, gmid.uf@.len() as int));
                        assert(gmid.hc@ =~= g2.hc@.subrange(0, gmid.hc@.len() as int));
                        assert forall|c: int| 0 <= c < gmid.nodes@.len() implies (
                        #[trigger] gmid.nodes@[c])@.is_prefix_of(g2.nodes@[c]@) by {
                            assert(g2.nodes@[c] == gmid.nodes@[c]);
                        }
                    }
                    lemma_grows_trans(g0, gmid, g2);
                    assert(uf_wf(g2.uf@));
                    // roots of old classes are untouched
                    assert forall|x: int| 0 <= x < n2 - 1 implies root_of(g2.uf@, x) == root_of(
                        gmid.uf@,
                        x,
                    ) by {
                        lemma_root_grows(gmid, g2, x);
                    }
                    assert(root_of(g2.uf@, id as int) == id as int);
                    // every old node keeps its witness entry
                    assert forall|c: int, k: int|
                        0 <= c < n2 && 0 <= k < g2.nodes@[c]@.len() implies
                        #[trigger] node_represented(g2, c, k) by {
                        if c < n2 - 1 && k < gmid.nodes@[c]@.len() {
                            assert(node_represented(gmid, c, k));
                            let j = choose|j: int|
                                0 <= j < gmid.hc@.len() && cong(
                                    gmid.uf@,
                                    gmid.nodes@[c]@[k]@,
                                    (#[trigger] gmid.hc@[j]).0@,
                                ) && root_of(gmid.uf@, gmid.hc@[j].1 as int) == root_of(
                                    gmid.uf@,
                                    c,
                                );
                            assert(node_ok(n2 - 1, gmid.nodes@[c]@[k]@));
                            assert(node_ok(n2 - 1, gmid.hc@[j].0@));
                            lemma_cong_grows(gmid, g2, gmid.nodes@[c]@[k]@, gmid.hc@[j].0@);
                            lemma_root_grows(gmid, g2, gmid.hc@[j].1 as int);
                            lemma_root_grows(gmid, g2, c);
                            assert(0 <= j < g2.hc@.len() && cong(
                                g2.uf@,
                                g2.nodes@[c]@[k]@,
                                g2.hc@[j].0@,
                            ) && root_of(g2.uf@, g2.hc@[j].1 as int) == root_of(g2.uf@, c));
                        } else {
                            // the one new node, congruent to the one new entry
                            assert(c == n2 - 1 && k == 0);
                            let j = g2.hc@.len() - 1;
                            assert(g2.nodes@[c]@[k]@ =~= ENodeV { op: t.op@, children: idsv });
                            assert(g2.hc@[j].0@ =~= ENodeV { op: t.op@, children: idsv });
                            assert(cong(g2.uf@, g2.nodes@[c]@[k]@, g2.hc@[j].0@));
                            assert(root_of(g2.uf@, g2.hc@[j].1 as int) == root_of(g2.uf@, c));
                            assert(0 <= j < g2.hc@.len() && cong(
                                g2.uf@,
                                g2.nodes@[c]@[k]@,
                                g2.hc@[j].0@,
                            ) && root_of(g2.uf@, g2.hc@[j].1 as int) == root_of(g2.uf@, c));
                        }
                    }
                    // cleanliness: a fresh entry is canonical and distinct
                    if g2.pending@.len() == 0 {
                        assert(clean(gmid));
                        assert forall|jj: int, ii: int|
                            0 <= jj < g2.hc@.len() && 0 <= ii < g2.hc@[jj].0@.children.len()
                                implies root_of(
                                g2.uf@,
                                #[trigger] g2.hc@[jj].0@.children[ii] as int,
                            ) == g2.hc@[jj].0@.children[ii] as int by {
                            if jj < g2.hc@.len() - 1 {
                                assert((g2.hc@[jj]) == gmid.hc@[jj]);
                                lemma_root_grows(gmid, g2, g2.hc@[jj].0@.children[ii] as int);
                            } else {
                                assert(g2.hc@[jj].0@.children[ii] == idsv[ii]);
                                lemma_lookup_term_bound(gmid, t@.args[ii], idsv[ii] as usize);
                                lemma_root_grows(gmid, g2, idsv[ii] as int);
                            }
                        }
                        assert forall|jj: int| 0 <= jj < g2.hc@.len() implies root_of(
                            g2.uf@,
                            (#[trigger] g2.hc@[jj]).1 as int,
                        ) == g2.hc@[jj].1 as int by {
                            if jj < g2.hc@.len() - 1 {
                                lemma_root_grows(gmid, g2, g2.hc@[jj].1 as int);
                            }
                        }
                        lemma_hc_find_none_all(gmid.uf@, gmid.hc@, t.op@, idsv, 0);
                        assert forall|j1: int, j2: int|
                            0 <= j1 < j2 < g2.hc@.len() implies !same_key(
                            g2.hc@[j1].0@,
                            g2.hc@[j2].0@,
                        ) by {
                            if j2 < g2.hc@.len() - 1 {
                                assert(!same_key(gmid.hc@[j1].0@, gmid.hc@[j2].0@));
                            } else {
                                assert(!cong(
                                    gmid.uf@,
                                    ENodeV { op: t.op@, children: idsv },
                                    gmid.hc@[j1].0@,
                                ));
                                if same_key(g2.hc@[j1].0@, g2.hc@[j2].0@) {
                                    assert(cong(
                                        gmid.uf@,
                                        ENodeV { op: t.op@, children: idsv },
                                        gmid.hc@[j1].0@,
                                    ));
                                }
                            }
                        }
                        assert(clean(g2));
                    }
                    assert(wf(g2));
                    // the new term now resolves to the new class
                    lemma_lookup_terms_grows(gmid, g2, t@.args, idsv);
                    lemma_hc_find_none_all(gmid.uf@, gmid.hc@, t.op@, idsv, 0);
                    assert forall|tt: int|
                        0 <= tt < g2.hc@.len() - 1 implies !cong(
                        g2.uf@,
                        ENodeV { op: t.op@, children: idsv },
                        (#[trigger] g2.hc@[tt]).0@,
                    ) by {
                        assert(g2.hc@[tt] == gmid.hc@[tt]);
                        assert(node_ok(n2 - 1, ENodeV { op: t.op@, children: idsv }));
                        assert(node_ok(n2 - 1, gmid.hc@[tt].0@));
                        lemma_cong_grows(gmid, g2, ENodeV { op: t.op@, children: idsv }, gmid.hc@[tt].0@);
                    }
                    lemma_hc_find_skip(g2.uf@, g2.hc@, t.op@, idsv, g2.hc@.len() - 1);
                    assert(cong(g2.uf@, ENodeV { op: t.op@, children: idsv }, g2.hc@[g2.hc@.len() - 1].0@));
                    assert(hc_find(g2.uf@, g2.hc@, t.op@, idsv, 0) == Some(id));
                    assert(lookup_term(g2, t@) == Some(id));
                    lemma_grows_coarsens(g0, g2);
                }
                id
            },
        }
    }
}

pub proof fn lemma_cong_sym(uf: Seq<usize>, a: ENodeV, b: ENodeV)
    requires
        cong(uf, a, b),
    ensures
        cong(uf, b, a),
{
    assert forall|i: int| 0 <= i < b.children.len() implies root_of(
        uf,
        #[trigger] b.children[i] as int,
    ) == root_of(uf, a.children[i] as int) by {
        assert(root_of(uf, a.children[i] as int) == root_of(uf, b.children[i] as int));
    }
}

pub proof fn lemma_cong_trans(uf: Seq<usize>, a: ENodeV, b: ENodeV, c: ENodeV)
    requires
        cong(uf, a, b),
        cong(uf, b, c),
    ensures
        cong(uf, a, c),
{
    assert forall|i: int| 0 <= i < a.children.len() implies root_of(
        uf,
        #[trigger] a.children[i] as int,
    ) == root_of(uf, c.children[i] as int) by {
        assert(root_of(uf, a.children[i] as int) == root_of(uf, b.children[i] as int));
        assert(root_of(uf, b.children[i] as int) == root_of(uf, c.children[i] as int));
    }
}

/// Congruence of bounded e-nodes survives any coarsening of the union-find.
pub proof fn lemma_cong_coarsens(g1: EGraph, g2: EGraph, a: ENodeV, b: ENodeV)
    requires
        cong(g1.uf@, a, b),
        node_ok(n_classes(g1), a),
        node_ok(n_classes(g1), b),
        forall|x: int, y: int|
            0 <= x < n_classes(g1) && 0 <= y < n_classes(g1) && root_of(g1.uf@, x) == root_of(
                g1.uf@,
                y,
            ) ==> root_of(g2.uf@, x) == root_of(g2.uf@, y),
    ensures
        cong(g2.uf@, a, b),
{
    assert forall|i: int| 0 <= i < a.children.len() implies root_of(
        g2.uf@,
        #[trigger] a.children[i] as int,
    ) == root_of(g2.uf@, b.children[i] as int) by {
        assert(root_of(g1.uf@, a.children[i] as int) == root_of(g1.uf@, b.children[i] as int));
        assert((a.children[i] as int) < n_classes(g1) && (b.children[i] as int) < n_classes(g1));
    }
}

/// An old hashcons entry is covered by some entry of the rebuilt table:
/// congruent key, find-equal class.
pub open spec fn covered(uf: Seq<usize>, ent: (ENode, usize), hc2: Seq<(ENode, usize)>) -> bool {
    exists|e: int|
        0 <= e < hc2.len() && cong(uf, ent.0@, (#[trigger] hc2[e]).0@) && root_of(
            uf,
            hc2[e].1 as int,
        ) == root_of(uf, ent.1 as int)
}

fn ids_eq(a: &Vec<usize>, b: &Vec<usize>) -> (r: bool)
    ensures
        r == (a@ == b@),
{
    if a.len() != b.len() {
        return false;
    }
    let n = a.len();
    let mut i: usize = 0;
    while i < n
        invariant
            0 <= i <= n,
            n == a@.len() == b@.len(),
            forall|j: int| 0 <= j < i ==> a@[j] == b@[j],
        decreases n - i,
    {
        if a[i] != b[i] {
            return false;
        }
        i = i + 1;
    }
    proof {
        assert(a@ =~= b@);
    }
    true
}

fn scan_same_key(hc2: &Vec<(ENode, usize)>, key: &ENode) -> (r: Option<usize>)
    ensures
        r matches Some(e) ==> (e as int) < hc2@.len() && same_key(hc2@[e as int].0@, key@),
        r is None ==> forall|e: int| 0 <= e < hc2@.len() ==> !same_key((#[trigger] hc2@[e]).0@, key@),
{
    let m = hc2.len();
    let mut e: usize = 0;
    while e < m
        invariant
            0 <= e <= m,
            m == hc2@.len(),
            forall|x: int| 0 <= x < e ==> !same_key((#[trigger] hc2@[x]).0@, key@),
        decreases m - e,
    {
        if bytes_eq(&hc2[e].0.op, &key.op) && ids_eq(&hc2[e].0.children, &key.children) {
            return Some(e);
        }
        e = e + 1;
    }
    None
}

impl EGraph {
    /// A copy of hashcons entry `j` with children and class replaced by
    /// their representatives.
    fn canon_entry(&self, j: usize) -> (r: (ENode, usize))
        requires
            wf(*self),
            (j as int) < self.hc@.len(),
        ensures
            r.0@.op == self.hc@[j as int].0@.op,
            r.0@.children.len() == self.hc@[j as int].0@.children.len(),
            forall|i: int|
                0 <= i < r.0@.children.len() ==> (#[trigger] r.0@.children[i]) as int == root_of(
                    self.uf@,
                    self.hc@[j as int].0@.children[i] as int,
                ),
            r.1 as int == root_of(self.uf@, self.hc@[j as int].1 as int),
            cong(self.uf@, r.0@, self.hc@[j as int].0@),
            node_ok(n_classes(*self), r.0@),
            (r.1 as int) < n_classes(*self),
    {
        proof {
            assert(node_ok(n_classes(*self), self.hc@[j as int].0@));
        }
        let m = self.hc[j].0.children.len();
        let mut ch: Vec<usize> = Vec::new();
        let mut i: usize = 0;
        while i < m
            invariant
                wf(*self),
                (j as int) < self.hc@.len(),
                0 <= i <= m,
                m == self.hc@[j as int].0@.children.len(),
                ch@.len() == i,
                forall|x: int|
                    0 <= x < i ==> (#[trigger] ch@[x]) as int == root_of(
                        self.uf@,
                        self.hc@[j as int].0@.children[x] as int,
                    ),
            decreases m - i,
        {
            proof {
                assert(node_ok(n_classes(*self), self.hc@[j as int].0@));
            }
            let c = self.find(self.hc[j].0.children[i]);
            ch.push(c);
            i = i + 1;
        }
        let op = crate::parse::copy_all(&self.hc[j].0.op);
        let cls = self.find(self.hc[j].1);
        proof {
            assert forall|i2: int|
                0 <= i2 < ch@.len() implies root_of(self.uf@, #[trigger] ch@[i2] as int)
                == root_of(self.uf@, self.hc@[j as int].0@.children[i2] as int) by {
                lemma_root_of(self.uf@, self.hc@[j as int].0@.children[i2] as int);
            }
            lemma_root_of(self.uf@, self.hc@[j as int].1 as int);
            assert(node_ok(n_classes(*self), self.hc@[j as int].0@));
            assert forall|i2: int| 0 <= i2 < ch@.len() implies (#[trigger] ch@[i2] as int)
                < n_classes(*self) by {
                lemma_root_of(self.uf@, self.hc@[j as int].0@.children[i2] as int);
            }
        }
        (ENode { op, children: ch }, cls)
    }

    /// Restore the congruence invariant: repeatedly re-canonicalize the
    /// hashcons and merge classes whose e-nodes collide, until the worklist
    /// is empty. Afterwards the hashcons is canonical and duplicate-free,
    /// so congruent e-nodes provably share a class (`lemma_congruence`).
    pub fn rebuild(&mut self)
        requires
            wf(*old(self)),
        ensures
            wf(*final(self)),
            final(self).pending@.len() == 0,
            n_classes(*final(self)) == n_classes(*old(self)),
            final(self).nodes@ == old(self).nodes@,
            coarsens(*old(self), *final(self)),
            old(self).pending@.len() == 0 ==> *final(self) == *old(self),
    {
        proof {
            lemma_roots_finite(self.uf@);
            assert(coarsens(*self, *self));
        }
        while self.pending.len() > 0
            invariant
                wf(*self),
                n_classes(*self) == n_classes(*old(self)),
                self.nodes@ == old(self).nodes@,
                coarsens(*old(self), *self),
                old(self).pending@.len() == 0 ==> *self == *old(self),
            decreases num_roots(self.uf@), self.pending@.len(),
        {
            let ghost gs = *self;
            proof {
                lemma_roots_finite(self.uf@);
            }
            let m = self.hc.len();
            let mut new_hc: Vec<(ENode, usize)> = Vec::new();
            let mut changed = false;
            let mut j: usize = 0;
            while j < m
                invariant
                    wf(*self),
                    wf(gs),
                    gs.pending@.len() > 0,
                    self.pending@.len() > 0,
                    self.hc@ == gs.hc@,
                    self.nodes@ == gs.nodes@,
                    n_classes(*self) == n_classes(gs),
                    m == gs.hc@.len(),
                    0 <= j <= m,
                    coarsens(gs, *self),
                    !changed ==> *self == gs,
                    changed ==> num_roots(self.uf@) < num_roots(gs.uf@),
                    num_roots(self.uf@) <= num_roots(gs.uf@),
                    forall|e: int|
                        0 <= e < new_hc@.len() ==> node_ok(
                            n_classes(gs),
                            (#[trigger] new_hc@[e]).0@,
                        ) && ((new_hc@[e]).1 as int) < n_classes(gs),
                    forall|t: int| 0 <= t < j ==> covered(self.uf@, #[trigger] gs.hc@[t], new_hc@),
                    !changed ==> forall|e: int, i: int|
                        0 <= e < new_hc@.len() && 0 <= i < new_hc@[e].0@.children.len()
                            ==> root_of(
                            self.uf@,
                            #[trigger] new_hc@[e].0@.children[i] as int,
                        ) == new_hc@[e].0@.children[i] as int,
                    !changed ==> forall|e: int|
                        0 <= e < new_hc@.len() ==> root_of(
                            self.uf@,
                            (#[trigger] new_hc@[e]).1 as int,
                        ) == new_hc@[e].1 as int,
                    !changed ==> forall|e1: int, e2: int|
                        0 <= e1 < e2 < new_hc@.len() ==> !same_key(
                            new_hc@[e1].0@,
                            new_hc@[e2].0@,
                        ),
                decreases m - j,
            {
                let ghost gpre = *self;
                let (knd, kc) = self.canon_entry(j);
                let pos = scan_same_key(&new_hc, &knd);
                match pos {
                    Some(e) => {
                        let d = new_hc[e].1;
                        let merged = self.union(d, kc);
                        proof {
                            // every coarsening keeps earlier coverage
                            assert forall|t: int|
                                0 <= t < j implies covered(
                                self.uf@,
                                #[trigger] gs.hc@[t],
                                new_hc@,
                            ) by {
                                let eo = choose|eo: int|
                                    0 <= eo < new_hc@.len() && cong(
                                        gpre.uf@,
                                        gs.hc@[t].0@,
                                        (#[trigger] new_hc@[eo]).0@,
                                    ) && root_of(gpre.uf@, new_hc@[eo].1 as int) == root_of(
                                        gpre.uf@,
                                        gs.hc@[t].1 as int,
                                    );
                                assert(node_ok(n_classes(gs), gs.hc@[t].0@));
                                lemma_cong_coarsens(gpre, *self, gs.hc@[t].0@, new_hc@[eo].0@);
                                assert(root_of(self.uf@, new_hc@[eo].1 as int) == root_of(
                                    self.uf@,
                                    gs.hc@[t].1 as int,
                                ));
                                assert(0 <= eo < new_hc@.len() && cong(
                                    self.uf@,
                                    gs.hc@[t].0@,
                                    new_hc@[eo].0@,
                                ) && root_of(self.uf@, new_hc@[eo].1 as int) == root_of(
                                    self.uf@,
                                    gs.hc@[t].1 as int,
                                ));
                            }
                            // entry j itself is now covered by entry e
                            assert(cong(gpre.uf@, knd@, gs.hc@[j as int].0@));
                            assert(new_hc@[e as int].0@ =~= knd@);
                            lemma_cong_sym(gpre.uf@, knd@, gs.hc@[j as int].0@);
                            lemma_cong_coarsens(
                                gpre,
                                *self,
                                gs.hc@[j as int].0@,
                                new_hc@[e as int].0@,
                            );
                            lemma_root_of(gpre.uf@, gs.hc@[j as int].1 as int);
                            assert(root_of(gpre.uf@, kc as int) == root_of(
                                gpre.uf@,
                                gs.hc@[j as int].1 as int,
                            ));
                            assert(root_of(self.uf@, kc as int) == root_of(
                                self.uf@,
                                gs.hc@[j as int].1 as int,
                            ));
                            assert(root_of(self.uf@, d as int) == root_of(self.uf@, kc as int));
                            assert(0 <= e < new_hc@.len() && cong(
                                self.uf@,
                                gs.hc@[j as int].0@,
                                new_hc@[e as int].0@,
                            ) && root_of(self.uf@, new_hc@[e as int].1 as int) == root_of(
                                self.uf@,
                                gs.hc@[j as int].1 as int,
                            ));
                            assert(covered(self.uf@, gs.hc@[j as int], new_hc@));
                            lemma_monotonic_trans(gs, gpre, *self);
                        }
                        if merged {
                            changed = true;
                        }
                    },
                    None => {
                        let ghost pre_hc = new_hc@;
                        new_hc.push((knd, kc));
                        proof {
                            let ghost eN = new_hc@.len() - 1;
                            lemma_cong_sym(self.uf@, knd@, gs.hc@[j as int].0@);
                            assert(cong(self.uf@, gs.hc@[j as int].0@, new_hc@[eN].0@));
                            assert(root_of(self.uf@, new_hc@[eN].1 as int) == root_of(
                                self.uf@,
                                gs.hc@[j as int].1 as int,
                            )) by {
                                lemma_root_of(self.uf@, gs.hc@[j as int].1 as int);
                            }
                            assert(covered(self.uf@, gs.hc@[j as int], new_hc@));
                            assert forall|t: int|
                                0 <= t < j implies covered(
                                self.uf@,
                                #[trigger] gs.hc@[t],
                                new_hc@,
                            ) by {
                                let eo = choose|eo: int|
                                    0 <= eo < pre_hc.len() && cong(
                                        self.uf@,
                                        gs.hc@[t].0@,
                                        (#[trigger] pre_hc[eo]).0@,
                                    ) && root_of(self.uf@, pre_hc[eo].1 as int) == root_of(
                                        self.uf@,
                                        gs.hc@[t].1 as int,
                                    );
                                assert(new_hc@[eo] == pre_hc[eo]);
                                assert(0 <= eo < new_hc@.len() && cong(
                                    self.uf@,
                                    gs.hc@[t].0@,
                                    new_hc@[eo].0@,
                                ) && root_of(self.uf@, new_hc@[eo].1 as int) == root_of(
                                    self.uf@,
                                    gs.hc@[t].1 as int,
                                ));
                            }
                            if !changed {
                                assert forall|i: int|
                                    0 <= i < new_hc@[eN].0@.children.len() implies root_of(
                                    self.uf@,
                                    #[trigger] new_hc@[eN].0@.children[i] as int,
                                ) == new_hc@[eN].0@.children[i] as int by {
                                    lemma_root_of(
                                        self.uf@,
                                        gs.hc@[j as int].0@.children[i] as int,
                                    );
                                }
                                lemma_root_of(self.uf@, gs.hc@[j as int].1 as int);
                            }
                        }
                    },
                }
                j = j + 1;
            }
            let ghost gmid = *self;
            self.hc = new_hc;
            if !changed {
                self.pending.clear();
            }
            proof {
                let ghost g2 = *self;
                assert(wf(gmid));
                // nodes keep their witnesses through the rewritten table
                assert forall|c: int, k: int|
                    0 <= c < g2.uf@.len() && 0 <= k < g2.nodes@[c]@.len() implies
                    #[trigger] node_represented(g2, c, k) by {
                    assert(node_represented(gmid, c, k));
                    let jo = choose|jo: int|
                        0 <= jo < gmid.hc@.len() && cong(
                            gmid.uf@,
                            gmid.nodes@[c]@[k]@,
                            (#[trigger] gmid.hc@[jo]).0@,
                        ) && root_of(gmid.uf@, gmid.hc@[jo].1 as int) == root_of(gmid.uf@, c);
                    assert(covered(gmid.uf@, gs.hc@[jo], g2.hc@));
                    let e = choose|e: int|
                        0 <= e < g2.hc@.len() && cong(
                            gmid.uf@,
                            gs.hc@[jo].0@,
                            (#[trigger] g2.hc@[e]).0@,
                        ) && root_of(gmid.uf@, g2.hc@[e].1 as int) == root_of(
                            gmid.uf@,
                            gs.hc@[jo].1 as int,
                        );
                    assert(cong(g2.uf@, g2.nodes@[c]@[k]@, g2.hc@[e].0@));
                    assert(0 <= e < g2.hc@.len() && cong(g2.uf@, g2.nodes@[c]@[k]@, g2.hc@[e].0@)
                        && root_of(g2.uf@, g2.hc@[e].1 as int) == root_of(g2.uf@, c));
                }
                assert(represented(g2));
                if !changed {
                    assert(gmid == gs);
                    assert(clean(g2));
                } else {
                    assert(g2.pending@.len() > 0);
                }
                assert(uf_wf(g2.uf@));
                assert(g2.nodes@.len() == g2.uf@.len());
                assert forall|jj: int| 0 <= jj < g2.hc@.len() implies node_ok(
                    n_classes(g2),
                    (#[trigger] g2.hc@[jj]).0@,
                ) && (g2.hc@[jj].1 as int) < n_classes(g2) by {}
                assert(wf(g2));
                assert forall|x: int| 0 <= x < n_classes(gs) implies class_nodes(
                    gs,
                    x,
                ).subset_of(class_nodes(g2, x)) by {
                    assert(class_nodes(gs, x).subset_of(class_nodes(gmid, x)));
                    assert forall|nv: ENodeV| class_nodes(gmid, x).contains(nv) implies
                        class_nodes(g2, x).contains(nv) by {
                        let (c, k) = choose|c: int, k: int|
                            0 <= c < gmid.uf@.len() && 0 <= k < gmid.nodes@[c]@.len() && root_of(
                                gmid.uf@,
                                c,
                            ) == root_of(gmid.uf@, x) && (#[trigger] gmid.nodes@[c]@[k])@ == nv;
                        assert(0 <= c < g2.uf@.len() && 0 <= k < g2.nodes@[c]@.len() && root_of(
                            g2.uf@,
                            c,
                        ) == root_of(g2.uf@, x) && g2.nodes@[c]@[k]@ == nv);
                    }
                }
                assert(coarsens(gs, g2));
                lemma_monotonic_trans(*old(self), gs, g2);
            }
        }
    }
}

impl EGraph {
    /// Insert one e-node over already-present child classes, canonicalizing
    /// the children; returns the class holding it.
    pub fn add_enode(&mut self, op: &Vec<u8>, ids: &Vec<usize>) -> (r: usize)
        requires
            wf(*old(self)),
            forall|i: int|
                0 <= i < ids@.len() ==> ((#[trigger] ids@[i]) as int) < n_classes(*old(self)),
        ensures
            wf(*final(self)),
            grows(*old(self), *final(self)),
            coarsens(*old(self), *final(self)),
            (r as int) < n_classes(*final(self)),
            old(self).pending@.len() == 0 ==> root_of(final(self).uf@, r as int) == r as int,
    {
        let m = ids.len();
        let mut ch: Vec<usize> = Vec::new();
        let mut i: usize = 0;
        while i < m
            invariant
                wf(*self),
                0 <= i <= m,
                m == ids@.len(),
                ch@.len() == i,
                forall|j: int|
                    0 <= j < m ==> ((#[trigger] ids@[j]) as int) < n_classes(*self),
                forall|j: int|
                    0 <= j < i ==> (#[trigger] ch@[j]) as int == root_of(
                        self.uf@,
                        ids@[j] as int,
                    ),
            decreases m - i,
        {
            let c = self.find(ids[i]);
            ch.push(c);
            i = i + 1;
        }
        proof {
            assert forall|j: int| 0 <= j < ch@.len() implies ((#[trigger] ch@[j]) as int)
                < n_classes(*self) by {
                lemma_root_of(self.uf@, ids@[j] as int);
            }
        }
        let found = self.hc_lookup(op, &ch);
        match found {
            Some(c) => {
                proof {
                    lemma_hc_find_bound(*self, op@, ch@, 0, c);
                    assert(coarsens(*self, *self));
                    assert(grows(*self, *self));
                }
                c
            },
            None => {
                let id = self.uf.len();
                let op1 = crate::parse::copy_all(op);
                let op2 = crate::parse::copy_all(op);
                let ch2 = copy_ids(&ch);
                let ghost chv = ch@;
                let nd = ENode { op: op1, children: ch };
                let nd2 = ENode { op: op2, children: ch2 };
                let ghost gmid = *self;
                self.uf.push(id);
                let mut vecnd: Vec<ENode> = Vec::new();
                vecnd.push(nd);
                self.nodes.push(vecnd);
                self.hc.push((nd2, id));
                proof {
                    let ghost g2 = *self;
                    let n2 = g2.uf@.len() as int;
                    assert(grows(gmid, g2)) by {
                        assert(gmid.uf@ =~= g2.uf@.subrange(0, gmid.uf@.len() as int));
                        assert(gmid.hc@ =~= g2.hc@.subrange(0, gmid.hc@.len() as int));
                        assert forall|c: int| 0 <= c < gmid.nodes@.len() implies (
                        #[trigger] gmid.nodes@[c])@.is_prefix_of(g2.nodes@[c]@) by {
                            assert(g2.nodes@[c] == gmid.nodes@[c]);
                        }
                    }
                    assert(uf_wf(g2.uf@));
                    assert forall|x: int| 0 <= x < n2 - 1 implies root_of(g2.uf@, x) == root_of(
                        gmid.uf@,
                        x,
                    ) by {
                        lemma_root_grows(gmid, g2, x);
                    }
                    assert(root_of(g2.uf@, id as int) == id as int);
                    assert forall|c: int, k: int|
                        0 <= c < n2 && 0 <= k < g2.nodes@[c]@.len() implies
                        #[trigger] node_represented(g2, c, k) by {
                        if c < n2 - 1 && k < gmid.nodes@[c]@.len() {
                            assert(node_represented(gmid, c, k));
                            let j = choose|j: int|
                                0 <= j < gmid.hc@.len() && cong(
                                    gmid.uf@,
                                    gmid.nodes@[c]@[k]@,
                                    (#[trigger] gmid.hc@[j]).0@,
                                ) && root_of(gmid.uf@, gmid.hc@[j].1 as int) == root_of(
                                    gmid.uf@,
                                    c,
                                );
                            assert(node_ok(n2 - 1, gmid.nodes@[c]@[k]@));
                            assert(node_ok(n2 - 1, gmid.hc@[j].0@));
                            lemma_cong_grows(gmid, g2, gmid.nodes@[c]@[k]@, gmid.hc@[j].0@);
                            lemma_root_grows(gmid, g2, gmid.hc@[j].1 as int);
                            lemma_root_grows(gmid, g2, c);
                            assert(0 <= j < g2.hc@.len() && cong(
                                g2.uf@,
                                g2.nodes@[c]@[k]@,
                                g2.hc@[j].0@,
                            ) && root_of(g2.uf@, g2.hc@[j].1 as int) == root_of(g2.uf@, c));
                        } else {
                            assert(c == n2 - 1 && k == 0);
                            let j = g2.hc@.len() - 1;
                            assert(g2.nodes@[c]@[k]@ =~= ENodeV { op: op@, children: chv });
                            assert(g2.hc@[j].0@ =~= ENodeV { op: op@, children: chv });
                            assert(cong(g2.uf@, g2.nodes@[c]@[k]@, g2.hc@[j].0@));
                            assert(0 <= j < g2.hc@.len() && cong(
                                g2.uf@,
                                g2.nodes@[c]@[k]@,
                                g2.hc@[j].0@,
                            ) && root_of(g2.uf@, g2.hc@[j].1 as int) == root_of(g2.uf@, c));
                        }
                    }
                    if g2.pending@.len() == 0 {
                        assert(clean(gmid));
                        assert forall|jj: int, ii: int|
                            0 <= jj < g2.hc@.len() && 0 <= ii < g2.hc@[jj].0@.children.len()
                                implies root_of(
                                g2.uf@,
                                #[trigger] g2.hc@[jj].0@.children[ii] as int,
                            ) == g2.hc@[jj].0@.children[ii] as int by {
                            if jj < g2.hc@.len() - 1 {
                                assert((g2.hc@[jj]) == gmid.hc@[jj]);
                                lemma_root_grows(gmid, g2, g2.hc@[jj].0@.children[ii] as int);
                            } else {
                                assert(g2.hc@[jj].0@.children[ii] == chv[ii]);
                                lemma_root_of(gmid.uf@, ids@[ii] as int);
                                lemma_root_grows(gmid, g2, chv[ii] as int);
                            }
                        }
                        assert forall|jj: int| 0 <= jj < g2.hc@.len() implies root_of(
                            g2.uf@,
                            (#[trigger] g2.hc@[jj]).1 as int,
                        ) == g2.hc@[jj].1 as int by {
                            if jj < g2.hc@.len() - 1 {
                                lemma_root_grows(gmid, g2, g2.hc@[jj].1 as int);
                            }
                        }
                        lemma_hc_find_none_all(gmid.uf@, gmid.hc@, op@, chv, 0);
                        assert forall|j1: int, j2: int|
                            0 <= j1 < j2 < g2.hc@.len() implies !same_key(
                            g2.hc@[j1].0@,
                            g2.hc@[j2].0@,
                        ) by {
                            if j2 < g2.hc@.len() - 1 {
                                assert(!same_key(gmid.hc@[j1].0@, gmid.hc@[j2].0@));
                            } else {
                                assert(!cong(
                                    gmid.uf@,
                                    ENodeV { op: op@, children: chv },
                                    gmid.hc@[j1].0@,
                                ));
                                if same_key(g2.hc@[j1].0@, g2.hc@[j2].0@) {
                                    assert(cong(
                                        gmid.uf@,
                                        ENodeV { op: op@, children: chv },
                                        gmid.hc@[j1].0@,
                                    ));
                                }
                            }
                        }
                        assert(clean(g2));
                    }
                    assert(wf(g2));
                    lemma_grows_trans(*old(self), gmid, g2);
                    lemma_grows_coarsens(*old(self), g2);
                }
                id
            },
        }
    }
}

pub proof fn lemma_lookup_terms_none(g: EGraph, ts: Seq<TermV>, i: int)
    requires
        0 <= i < ts.len(),
        lookup_term(g, ts[i]) is None,
    ensures
        lookup_terms(g, ts) is None,
    decreases ts,
{
    if ts.len() > 0 && i < ts.len() - 1 {
        lemma_lookup_terms_none(g, ts.drop_last(), i);
    }
}

impl EGraph {
    /// Look a ground term up without inserting it.
    pub fn lookup_nomut(&self, t: &Term) -> (r: Option<usize>)
        requires
            wf(*self),
        ensures
            r == lookup_term(*self, t@),
        decreases *t,
    {
        proof {
            lemma_terms_view_len(t.args@);
            assert(t@.args == terms_view(t.args@));
        }
        let nargs = t.args.len();
        let mut ids: Vec<usize> = Vec::new();
        let mut i: usize = 0;
        while i < nargs
            invariant
                wf(*self),
                nargs == t.args@.len(),
                t@.args == terms_view(t.args@),
                t@.args.len() == nargs,
                0 <= i <= nargs,
                ids@.len() == i,
                forall|j: int|
                    0 <= j < i ==> lookup_term(*self, #[trigger] t@.args[j]) == Some(ids@[j]),
            decreases nargs - i,
        {
            proof {
                lemma_terms_view_index(t.args@, i as int);
            }
            let sub = self.lookup_nomut(&t.args[i]);
            match sub {
                None => {
                    proof {
                        lemma_lookup_terms_none(*self, t@.args, i as int);
                    }
                    return None;
                },
                Some(c) => {
                    ids.push(c);
                },
            }
            i = i + 1;
        }
        proof {
            lemma_lookup_terms_build(*self, t@.args, ids@);
            assert forall|j: int| 0 <= j < ids@.len() implies ((#[trigger] ids@[j]) as int)
                < n_classes(*self) by {
                lemma_lookup_term_bound(*self, t@.args[j], ids@[j]);
            }
        }
        self.hc_lookup(&t.op, &ids)
    }
}

/// A scan from `j` succeeds when some entry at or after `j` is congruent.
pub proof fn lemma_hc_find_exists(
    uf: Seq<usize>,
    hc: Seq<(ENode, usize)>,
    op: Seq<u8>,
    ch: Seq<usize>,
    j: int,
    e: int,
)
    requires
        0 <= j <= e < hc.len(),
        cong(uf, ENodeV { op, children: ch }, hc[e].0@),
    ensures
        hc_find(uf, hc, op, ch, j) is Some,
    decreases hc.len() - j,
{
    if !cong(uf, ENodeV { op, children: ch }, hc[j].0@) {
        lemma_hc_find_exists(uf, hc, op, ch, j + 1, e);
    }
}

/// A successful scan returns the class of some congruent entry.
pub proof fn lemma_hc_find_some_index(
    uf: Seq<usize>,
    hc: Seq<(ENode, usize)>,
    op: Seq<u8>,
    ch: Seq<usize>,
    j: int,
    c: usize,
)
    requires
        0 <= j <= hc.len(),
        hc_find(uf, hc, op, ch, j) == Some(c),
    ensures
        exists|e: int|
            j <= e < hc.len() && cong(uf, ENodeV { op, children: ch }, (#[trigger] hc[e]).0@)
                && hc[e].1 == c,
    decreases hc.len() - j,
{
    if j < hc.len() {
        if !cong(uf, ENodeV { op, children: ch }, hc[j].0@) {
            lemma_hc_find_some_index(uf, hc, op, ch, j + 1, c);
        }
    }
}

/// In a repaired graph, looking up a tuple congruent to a stored e-node
/// finds a class that is find-equal to the node's own.
pub proof fn lemma_hc_find_clean(g: EGraph, op: Seq<u8>, ch: Seq<usize>, c2: int, k2: int)
    requires
        wf(g),
        g.pending@.len() == 0,
        0 <= c2 < n_classes(g),
        0 <= k2 < g.nodes@[c2]@.len(),
        cong(g.uf@, ENodeV { op, children: ch }, g.nodes@[c2]@[k2]@),
    ensures
        hc_find(g.uf@, g.hc@, op, ch, 0) matches Some(d) && root_of(g.uf@, d as int) == root_of(
            g.uf@,
            c2,
        ),
{
    assert(clean(g));
    assert(node_represented(g, c2, k2));
    let e0 = choose|j: int|
        0 <= j < g.hc@.len() && cong(g.uf@, g.nodes@[c2]@[k2]@, (#[trigger] g.hc@[j]).0@)
            && root_of(g.uf@, g.hc@[j].1 as int) == root_of(g.uf@, c2);
    lemma_cong_trans(g.uf@, ENodeV { op, children: ch }, g.nodes@[c2]@[k2]@, g.hc@[e0].0@);
    lemma_hc_find_exists(g.uf@, g.hc@, op, ch, 0, e0);
    let d = hc_find(g.uf@, g.hc@, op, ch, 0)->Some_0;
    lemma_hc_find_some_index(g.uf@, g.hc@, op, ch, 0, d);
    let e1 = choose|e: int|
        0 <= e < g.hc@.len() && cong(g.uf@, ENodeV { op, children: ch }, (#[trigger] g.hc@[e]).0@)
            && g.hc@[e].1 == d;
    lemma_cong_sym(g.uf@, ENodeV { op, children: ch }, g.hc@[e1].0@);
    lemma_cong_trans(g.uf@, g.hc@[e1].0@, ENodeV { op, children: ch }, g.hc@[e0].0@);
    assert(g.hc@[e1].0@.children =~= g.hc@[e0].0@.children) by {
        assert forall|i: int|
            0 <= i < g.hc@[e1].0@.children.len() implies g.hc@[e1].0@.children[i]
            == g.hc@[e0].0@.children[i] by {
            assert(root_of(g.uf@, g.hc@[e1].0@.children[i] as int) == root_of(
                g.uf@,
                g.hc@[e0].0@.children[i] as int,
            ));
        }
    }
    assert(same_key(g.hc@[e1].0@, g.hc@[e0].0@));
    if e1 != e0 {
        assert(false);
    }
}

/// Congruence: in a repaired e-graph, any two stored e-nodes with the same
/// operator and pairwise find-equal children lie in find-equal classes.
pub proof fn lemma_congruence(g: EGraph, c1: int, k1: int, c2: int, k2: int)
    requires
        wf(g),
        g.pending@.len() == 0,
        0 <= c1 < n_classes(g),
        0 <= k1 < g.nodes@[c1]@.len(),
        0 <= c2 < n_classes(g),
        0 <= k2 < g.nodes@[c2]@.len(),
        cong(g.uf@, g.nodes@[c1]@[k1]@, g.nodes@[c2]@[k2]@),
    ensures
        root_of(g.uf@, c1) == root_of(g.uf@, c2),
{
    assert(clean(g));
    assert(node_represented(g, c1, k1));
    assert(node_represented(g, c2, k2));
    let j1 = choose|j: int|
        0 <= j < g.hc@.len() && cong(g.uf@, g.nodes@[c1]@[k1]@, (#[trigger] g.hc@[j]).0@)
            && root_of(g.uf@, g.hc@[j].1 as int) == root_of(g.uf@, c1);
    let j2 = choose|j: int|
        0 <= j < g.hc@.len() && cong(g.uf@, g.nodes@[c2]@[k2]@, (#[trigger] g.hc@[j]).0@)
            && root_of(g.uf@, g.hc@[j].1 as int) == root_of(g.uf@, c2);
    lemma_cong_sym(g.uf@, g.nodes@[c1]@[k1]@, g.hc@[j1].0@);
    lemma_cong_trans(g.uf@, g.hc@[j1].0@, g.nodes@[c1]@[k1]@, g.nodes@[c2]@[k2]@);
    lemma_cong_trans(g.uf@, g.hc@[j1].0@, g.nodes@[c2]@[k2]@, g.hc@[j2].0@);
    assert(cong(g.uf@, g.hc@[j1].0@, g.hc@[j2].0@));
    assert(g.hc@[j1].0@.children =~= g.hc@[j2].0@.children) by {
        assert forall|i: int|
            0 <= i < g.hc@[j1].0@.children.len() implies g.hc@[j1].0@.children[i]
            == g.hc@[j2].0@.children[i] by {
            assert(root_of(g.uf@, g.hc@[j1].0@.children[i] as int) == root_of(
                g.uf@,
                g.hc@[j2].0@.children[i] as int,
            ));
        }
    }
    assert(same_key(g.hc@[j1].0@, g.hc@[j2].0@));
    if j1 != j2 {
        assert(false);
    }
}

} // verus!
