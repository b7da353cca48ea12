//! Patterns over the e-graph: matching, substitution, rewrite rules, and
//! instantiation of a rule's right-hand side into the graph.

use vstd::prelude::*;
use crate::term::{Term, Pattern, PatV, bytes_eq, lemma_pats_view_len, lemma_pats_view_index,
    pats_view};
use crate::parse::{copy_all, parse_pattern_text, sexp_of, pat_of};
use crate::egraph::{EGraph, wf, n_classes, grows, coarsens, root_of, lemma_root_of,
    lemma_grows_trans, lemma_grows_coarsens, node_ok};

verus! {

/// The variables occurring in a pattern.
pub open spec fn pat_vars(p: PatV) -> Set<Seq<u8>>
    decreases p,
{
    match p {
        PatV::Var { name } => Set::empty().insert(name),
        PatV::App { op, args } => pats_vars(args),
    }
}

pub open spec fn pats_vars(ps: Seq<PatV>) -> Set<Seq<u8>>
    decreases ps,
{
    if ps.len() == 0 {
        Set::empty()
    } else {
        pats_vars(ps.drop_last()).union(pat_vars(ps.last()))
    }
}

/// A substitution from pattern variable to e-class id.
pub struct Subst {
    pub m: Vec<(Vec<u8>, usize)>,
}

/// All bound classes lie below `n`.
pub open spec fn subst_ok(s: Seq<(Vec<u8>, usize)>, n: int) -> bool {
    forall|i: int| 0 <= i < s.len() ==> ((#[trigger] s[i]).1 as int) < n
}

impl Subst {
    pub fn empty_subst() -> (r: Subst)
        ensures
            r.m@.len() == 0,
    {
        Subst { m: Vec::new() }
    }

    /// First binding for `name`, if any.
    pub fn get(&self, name: &Vec<u8>) -> (r: Option<usize>)
        ensures
            r matches Some(id) ==> exists|i: int|
                0 <= i < self.m@.len() && (#[trigger] self.m@[i]).0@ == name@ && self.m@[i].1
                    == id,
            r is None ==> forall|i: int| 0 <= i < self.m@.len() ==> (#[trigger] self.m@[i]).0@
                != name@,
    {
        let n = self.m.len();
        let mut i: usize = 0;
        while i < n
            invariant
                0 <= i <= n,
                n == self.m@.len(),
                forall|j: int| 0 <= j < i ==> (#[trigger] self.m@[j]).0@ != name@,
            decreases n - i,
        {
            if bytes_eq(&self.m[i].0, name) {
                return Some(self.m[i].1);
            }
            i = i + 1;
        }
        None
    }

    pub fn duplicate(&self) -> (r: Subst)
        ensures
            r.m@.len() == self.m@.len(),
            subst_extends(self.m@, r.m@),
            subst_extends(r.m@, self.m@),
            forall|i: int|
                0 <= i < self.m@.len() ==> (#[trigger] r.m@[i]).0@ == self.m@[i].0@ && r.m@[i].1
                    == self.m@[i].1,
    {
        let n = self.m.len();
        let mut out: Vec<(Vec<u8>, usize)> = Vec::new();
        let mut i: usize = 0;
        while i < n
            invariant
                0 <= i <= n,
                n == self.m@.len(),
                out@.len() == i,
                forall|j: int|
                    0 <= j < i ==> (#[trigger] out@[j]).0@ == self.m@[j].0@ && out@[j].1
                        == self.m@[j].1,
            decreases n - i,
        {
            let k = copy_all(&self.m[i].0);
            out.push((k, self.m[i].1));
            i = i + 1;
        }
        Subst { m: out }
    }
}

/// A named rewrite rule, applied left to right.
pub struct Rewrite {
    pub name: Vec<u8>,
    pub lhs: Pattern,
    pub rhs: Pattern,
}

pub open spec fn rw_wf(r: Rewrite) -> bool {
    pat_vars(r.rhs@).subset_of(pat_vars(r.lhs@))
}

/// Some listed name equals `v`.
pub open spec fn listed(names: Seq<Vec<u8>>, v: Seq<u8>) -> bool {
    exists|i: int| 0 <= i < names.len() && (#[trigger] names[i])@ == v
}

fn collect_vars(p: &Pattern, out: &mut Vec<Vec<u8>>)
    ensures
        final(out)@.len() >= old(out)@.len(),
        forall|i: int|
            0 <= i < old(out)@.len() ==> (#[trigger] final(out)@[i])@ == old(out)@[i]@,
        forall|i: int|
            old(out)@.len() <= i < final(out)@.len() ==> pat_vars(p@).contains(
                (#[trigger] final(out)@[i])@,
            ),
        forall|v: Seq<u8>| #[trigger] pat_vars(p@).contains(v) ==> listed(final(out)@, v),
    decreases *p,
{
    match p {
        Pattern::Var { name } => {
            let k = copy_all(name);
            out.push(k);
            proof {
                let last = out@.len() - 1;
                assert forall|v: Seq<u8>| #[trigger] pat_vars(p@).contains(v) implies listed(
                    out@,
                    v,
                ) by {
                    assert(v == name@);
                    assert(0 <= last < out@.len() && (out@[last])@ == v);
                }
            }
        },
        Pattern::App { op, args } => {
            let n = args.len();
            let mut i: usize = 0;
            proof {
                lemma_pats_view_len(args@);
            }
            while i < n
                invariant
                    0 <= i <= n,
                    n == args@.len(),
                    pat_view(*p) == p@,
                    *p == (Pattern::App { op: *op, args: *args }),
                    pats_view(args@).len() == n,
                    out@.len() >= old(out)@.len(),
                    forall|t: int|
                        0 <= t < old(out)@.len() ==> (#[trigger] out@[t])@ == old(out)@[t]@,
                    forall|t: int|
                        old(out)@.len() <= t < out@.len() ==> pat_vars(p@).contains(
                            (#[trigger] out@[t])@,
                        ),
                    forall|v: Seq<u8>|
                        #[trigger] pats_vars(pats_view(args@).take(i as int)).contains(v)
                            ==> listed(out@, v),
                decreases n - i,
            {
                let ghost pre = out@;
                collect_vars(&args[i], out);
                proof {
                    lemma_pats_view_index(args@, i as int);
                    lemma_pat_vars_member(args@, i as int);
                    assert forall|t: int|
                        old(out)@.len() <= t < out@.len() implies pat_vars(p@).contains(
                        (#[trigger] out@[t])@,
                    ) by {
                        if t < pre.len() {
                            assert(out@[t]@ == pre[t]@);
                        } else {
                            assert(pat_vars(pat_view(args@[i as int])).contains(out@[t]@));
                        }
                    }
                    let ghost pv = pats_view(args@);
                    assert(pv.take(i + 1).drop_last() =~= pv.take(i as int));
                    assert(pv.take(i + 1).last() == pv[i as int]);
                    assert forall|v: Seq<u8>|
                        #[trigger] pats_vars(pv.take(i + 1)).contains(v) implies listed(
                        out@,
                        v,
                    ) by {
                        if pats_vars(pv.take(i as int)).contains(v) {
                            assert(listed(pre, v));
                            let t = choose|t: int|
                                0 <= t < pre.len() && (#[trigger] pre[t])@ == v;
                            assert(0 <= t < out@.len() && (out@[t])@ == v);
                        } else {
                            assert(pat_vars(pv[i as int]).contains(v));
                            assert(pat_vars((args@[i as int])@).contains(v));
                            assert(listed(out@, v));
                        }
                    }
                }
                i = i + 1;
            }
            proof {
                assert(pats_view(args@).take(n as int) =~= pats_view(args@));
                assert forall|v: Seq<u8>| #[trigger] pat_vars(p@).contains(v) implies listed(
                    out@,
                    v,
                ) by {
                    assert(pats_vars(pats_view(args@).take(n as int)).contains(v));
                }
            }
        },
    }
}

/// Membership lifts from one argument's variables to the application's.
proof fn lemma_pat_vars_member(ps: Seq<Pattern>, i: int)
    requires
        0 <= i < ps.len(),
    ensures
        pat_vars(pat_view(ps[i])).subset_of(pats_vars(pats_view(ps))),
    decreases ps,
{
    lemma_pats_view_len(ps);
    if ps.len() > 0 {
        if i < ps.len() - 1 {
            lemma_pat_vars_member(ps.drop_last(), i);
            assert(pats_view(ps).drop_last() =~= pats_view(ps.drop_last()));
        } else {
            lemma_pats_view_index(ps, i);
            assert(pats_view(ps).last() == pat_view(ps[i]));
        }
    }
}

fn name_listed(name: &Vec<u8>, names: &Vec<Vec<u8>>) -> (r: bool)
    ensures
        r == listed(names@, name@),
{
    let n = names.len();
    let mut i: usize = 0;
    while i < n
        invariant
            0 <= i <= n,
            n == names@.len(),
            forall|j: int| 0 <= j < i ==> (#[trigger] names@[j])@ != name@,
        decreases n - i,
    {
        if bytes_eq(&names[i], name) {
            proof {
                assert(0 <= i < names@.len() && (names@[i as int])@ == name@);
            }
            return true;
        }
        i = i + 1;
    }
    false
}

/// Decide whether every variable of `p` is listed in `names`; a refusal
/// carries a witness variable that is missing.
fn vars_listed(p: &Pattern, names: &Vec<Vec<u8>>) -> (r: bool)
    ensures
        r ==> forall|v: Seq<u8>| #[trigger] pat_vars(p@).contains(v) ==> listed(names@, v),
        !r ==> exists|v: Seq<u8>| #[trigger] pat_vars(p@).contains(v) && !listed(names@, v),
    decreases *p,
{
    match p {
        Pattern::Var { name } => {
            let hit = name_listed(name, names);
            proof {
                if !hit {
                    assert(pat_vars(p@).contains(name@) && !listed(names@, name@));
                }
            }
            hit
        },
        Pattern::App { op, args } => {
            let n = args.len();
            let mut i: usize = 0;
            proof {
                lemma_pats_view_len(args@);
            }
            while i < n
                invariant
                    0 <= i <= n,
                    n == args@.len(),
                    *p == (Pattern::App { op: *op, args: *args }),
                    forall|j: int, v: Seq<u8>|
                        0 <= j < i && #[trigger] pat_vars(pat_view(args@[j])).contains(v)
                            ==> listed(names@, v),
                decreases n - i,
            {
                proof {
                    assert(decreases_to!(*p => p->App_args));
                    assert(p->App_args == *args);
                    assert(decreases_to!(*args => args@[i as int]));
                }
                if !vars_listed(&args[i], names) {
                    proof {
                        lemma_pats_view_index(args@, i as int);
                        lemma_pat_vars_member(args@, i as int);
                        let v = choose|v: Seq<u8>|
                            #[trigger] pat_vars((args@[i as int])@).contains(v) && !listed(
                                names@,
                                v,
                            );
                        assert(pat_vars(p@).contains(v) && !listed(names@, v));
                    }
                    return false;
                }
                proof {
                    assert forall|v: Seq<u8>|
                        #[trigger] pat_vars(pat_view(args@[i as int])).contains(v) implies listed(
                        names@,
                        v,
                    ) by {
                        assert(pat_vars((args@[i as int])@).contains(v));
                    }
                }
                i = i + 1;
            }
            proof {
                assert forall|v: Seq<u8>| #[trigger] pat_vars(p@).contains(v) implies listed(
                    names@,
                    v,
                ) by {
                    lemma_pats_vars_member_rev(pats_view(args@), v);
                    let j = choose|j: int|
                        0 <= j < pats_view(args@).len() && pat_vars(
                            #[trigger] pats_view(args@)[j],
                        ).contains(v);
                    lemma_pats_view_index(args@, j);
                }
            }
            true
        },
    }
}

/// Every variable of one argument is a variable of the argument list.
pub proof fn lemma_arg_vars_subset(ps: Seq<PatV>, i: int)
    requires
        0 <= i < ps.len(),
    ensures
        pat_vars(ps[i]).subset_of(pats_vars(ps)),
    decreases ps,
{
    if ps.len() > 0 {
        if i < ps.len() - 1 {
            lemma_arg_vars_subset(ps.drop_last(), i);
            assert(ps.drop_last()[i] == ps[i]);
        } else {
            assert(ps.last() == ps[i]);
        }
    }
}

/// A variable of an application comes from one of its arguments.
pub proof fn lemma_pats_vars_member_rev(ps: Seq<PatV>, v: Seq<u8>)
    requires
        pats_vars(ps).contains(v),
    ensures
        exists|j: int| 0 <= j < ps.len() && pat_vars(#[trigger] ps[j]).contains(v),
    decreases ps,
{
    if ps.len() > 0 {
        if pat_vars(ps.last()).contains(v) {
            assert(pat_vars(ps[ps.len() - 1]).contains(v));
        } else {
            lemma_pats_vars_member_rev(ps.drop_last(), v);
            let j = choose|j: int|
                0 <= j < ps.drop_last().len() && pat_vars(#[trigger] ps.drop_last()[j]).contains(
                    v,
                );
            assert(ps[j] == ps.drop_last()[j]);
            assert(pat_vars(ps[j]).contains(v));
        }
    }
}

/// Whether rule text is acceptable: both sides parse and the right side
/// binds no variable the left side does not.
pub open spec fn rule_text_ok(lhs_text: Seq<u8>, rhs_text: Seq<u8>) -> bool {
    &&& sexp_of(lhs_text) is Some
    &&& sexp_of(rhs_text) is Some
    &&& pat_vars(pat_of(sexp_of(rhs_text)->Some_0)).subset_of(
        pat_vars(pat_of(sexp_of(lhs_text)->Some_0)),
    )
}

/// Build a rule from its textual parts. Succeeds exactly on acceptable rule
/// text, and then returns the parsed rule under the given name.
pub fn make_rewrite(name: &Vec<u8>, lhs_text: &Vec<u8>, rhs_text: &Vec<u8>) -> (r: Option<
    Rewrite,
>)
    ensures
        r is Some <==> rule_text_ok(lhs_text@, rhs_text@),
        r matches Some(rw) ==> {
            &&& rw.name@ == name@
            &&& (sexp_of(lhs_text@) matches Some(t) && rw.lhs@ == pat_of(t))
            &&& (sexp_of(rhs_text@) matches Some(t) && rw.rhs@ == pat_of(t))
            &&& rw_wf(rw)
        },
{
    let lhs = match parse_pattern_text(lhs_text) {
        None => {
            return None;
        },
        Some(p) => p,
    };
    let rhs = match parse_pattern_text(rhs_text) {
        None => {
            return None;
        },
        Some(p) => p,
    };
    let mut lhs_vars: Vec<Vec<u8>> = Vec::new();
    collect_vars(&lhs, &mut lhs_vars);
    if !vars_listed(&rhs, &lhs_vars) {
        proof {
            let v = choose|v: Seq<u8>|
                #[trigger] pat_vars(rhs@).contains(v) && !listed(lhs_vars@, v);
            if pat_vars(lhs@).contains(v) {
                assert(listed(lhs_vars@, v));
            }
            assert(!rule_text_ok(lhs_text@, rhs_text@));
        }
        return None;
    }
    let nm = copy_all(name);
    let rw = Rewrite { name: nm, lhs, rhs };
    proof {
        assert forall|v: Seq<u8>| pat_vars(rw.rhs@).contains(v) implies pat_vars(
            rw.lhs@,
        ).contains(v) by {
            assert(listed(lhs_vars@, v));
            let i = choose|i: int| 0 <= i < lhs_vars@.len() && (#[trigger] lhs_vars@[i])@ == v;
            assert(pat_vars(rw.lhs@).contains(lhs_vars@[i]@));
        }
    }
    Some(rw)
}

/// The precomputed table sends every class to its representative.
pub open spec fn roots_table_ok(g: EGraph, t: Seq<usize>) -> bool {
    t.len() == g.uf@.len() && forall|i: int|
        0 <= i < t.len() ==> (#[trigger] t[i]) as int == root_of(g.uf@, i)
}

/// A match depends on the class only through its representative.
pub proof fn lemma_pat_matches_root(
    g: EGraph,
    p: PatV,
    sub: Seq<(Vec<u8>, usize)>,
    c1: int,
    c2: int,
)
    requires
        root_of(g.uf@, c1) == root_of(g.uf@, c2),
        pat_matches(g, p, sub, c1),
    ensures
        pat_matches(g, p, sub, c2),
{
}

/// The substitution witnesses a match of `p` against the e-class of `c`:
/// a variable is bound to a find-equal class, and an application is carried
/// by some stored e-node with the right operator whose children match on.
pub open spec fn pat_matches(g: EGraph, p: PatV, sub: Seq<(Vec<u8>, usize)>, c: int) -> bool
    decreases p,
{
    match p {
        PatV::Var { name } => exists|i: int|
            0 <= i < sub.len() && (#[trigger] sub[i]).0@ == name && root_of(
                g.uf@,
                sub[i].1 as int,
            ) == root_of(g.uf@, c),
        PatV::App { op, args } => exists|c2: int, k: int|
            0 <= c2 < g.uf@.len() && 0 <= k < g.nodes@[c2]@.len() && root_of(g.uf@, c2)
                == root_of(g.uf@, c) && (#[trigger] g.nodes@[c2]@[k])@.op == op
                && g.nodes@[c2]@[k]@.children.len() == args.len() && (forall|i: int|
                0 <= i < args.len() ==> pat_matches(
                    g,
                    #[trigger] args[i],
                    sub,
                    g.nodes@[c2]@[k]@.children[i] as int,
                )),
    }
}

/// One substitution extends another entry for entry.
pub open spec fn subst_extends(s1: Seq<(Vec<u8>, usize)>, s2: Seq<(Vec<u8>, usize)>) -> bool {
    s1.len() <= s2.len() && forall|i: int|
        0 <= i < s1.len() ==> (#[trigger] s2[i]).0@ == s1[i].0@ && s2[i].1 == s1[i].1
}

/// A match survives extending the substitution.
pub proof fn lemma_pat_matches_extends(
    g: EGraph,
    p: PatV,
    s1: Seq<(Vec<u8>, usize)>,
    s2: Seq<(Vec<u8>, usize)>,
    c: int,
)
    requires
        subst_extends(s1, s2),
        pat_matches(g, p, s1, c),
    ensures
        pat_matches(g, p, s2, c),
    decreases p,
{
    match p {
        PatV::Var { name } => {
            let i = choose|i: int|
                0 <= i < s1.len() && (#[trigger] s1[i]).0@ == name && root_of(
                    g.uf@,
                    s1[i].1 as int,
                ) == root_of(g.uf@, c);
            assert(0 <= i < s2.len() && s2[i].0@ == name && root_of(g.uf@, s2[i].1 as int)
                == root_of(g.uf@, c));
        },
        PatV::App { op, args } => {
            let (c2, k) = choose|c2: int, k: int|
                0 <= c2 < g.uf@.len() && 0 <= k < g.nodes@[c2]@.len() && root_of(g.uf@, c2)
                    == root_of(g.uf@, c) && (#[trigger] g.nodes@[c2]@[k])@.op == op
                    && g.nodes@[c2]@[k]@.children.len() == args.len() && (forall|i: int|
                    0 <= i < args.len() ==> pat_matches(
                        g,
                        #[trigger] args[i],
                        s1,
                        g.nodes@[c2]@[k]@.children[i] as int,
                    ));
            assert forall|i: int| 0 <= i < args.len() implies pat_matches(
                g,
                #[trigger] args[i],
                s2,
                g.nodes@[c2]@[k]@.children[i] as int,
            ) by {
                lemma_pat_matches_extends(g, args[i], s1, s2, g.nodes@[c2]@[k]@.children[i] as int);
            }
            assert(0 <= c2 < g.uf@.len() && 0 <= k < g.nodes@[c2]@.len() && root_of(g.uf@, c2)
                == root_of(g.uf@, c) && g.nodes@[c2]@[k]@.op == op
                && g.nodes@[c2]@[k]@.children.len() == args.len() && (forall|i: int|
                0 <= i < args.len() ==> pat_matches(
                    g,
                    #[trigger] args[i],
                    s2,
                    g.nodes@[c2]@[k]@.children[i] as int,
                )));
        },
    }
}

impl EGraph {
    /// All substitutions under which `p` matches the class of `c`, extending
    /// `partial`; each returned substitution provably witnesses a match.
    /// The scan is read-only.
    pub fn match_pattern(&self, p: &Pattern, c: usize, partial: &Subst, roots_of: &Vec<usize>) -> (r: Vec<Subst>)
        requires
            wf(*self),
            (c as int) < n_classes(*self),
            subst_ok(partial.m@, n_classes(*self)),
            roots_table_ok(*self, roots_of@),
        ensures
            forall|i: int|
                0 <= i < r@.len() ==> subst_ok((#[trigger] r@[i]).m@, n_classes(*self))
                    && subst_extends(partial.m@, r@[i].m@) && pat_matches(
                    *self,
                    p@,
                    r@[i].m@,
                    c as int,
                ),
        decreases *p, 1int,
    {
        match p {
            Pattern::Var { name } => {
                let mut out: Vec<Subst> = Vec::new();
                let rc = self.find(c);
                match partial.get(name) {
                    Some(id) => {
                        if id < self.uf.len() {
                            let rid = self.find(id);
                            if rid == rc {
                                let d = partial.duplicate();
                                proof {
                                    let i = choose|i: int|
                                        0 <= i < partial.m@.len() && (
                                        #[trigger] partial.m@[i]).0@ == name@ && partial.m@[i].1
                                            == id;
                                    assert(d.m@[i].0@ == name@ && d.m@[i].1 == id);
                                    assert(root_of(self.uf@, d.m@[i].1 as int) == root_of(
                                        self.uf@,
                                        c as int,
                                    ));
                                    assert(pat_matches(*self, p@, d.m@, c as int));
                                }
                                out.push(d);
                            }
                        }
                    },
                    None => {
                        let mut s = partial.duplicate();
                        let k = copy_all(name);
                        proof {
                            lemma_root_of(self.uf@, c as int);
                        }
                        s.m.push((k, rc));
                        proof {
                            let last = s.m@.len() - 1;
                            assert(s.m@[last].0@ == name@ && s.m@[last].1 == rc);
                            assert(root_of(self.uf@, rc as int) == root_of(self.uf@, c as int));
                            assert(pat_matches(*self, p@, s.m@, c as int));
                            assert(subst_extends(partial.m@, s.m@));
                        }
                        out.push(s);
                    },
                }
                out
            },
            Pattern::App { op, args } => {
                let mut out: Vec<Subst> = Vec::new();
                let n = self.uf.len();
                let rc = self.find(c);
                let mut c2: usize = 0;
                while c2 < n
                    invariant
                        wf(*self),
                        n == self.uf@.len(),
                        (c as int) < n_classes(*self),
                        (rc as int) == root_of(self.uf@, c as int),
                        subst_ok(partial.m@, n_classes(*self)),
                        roots_table_ok(*self, roots_of@),
                        0 <= c2 <= n,
                        *p == (Pattern::App { op: *op, args: *args }),
                        forall|i: int|
                            0 <= i < out@.len() ==> subst_ok(
                                (#[trigger] out@[i]).m@,
                                n_classes(*self),
                            ) && subst_extends(partial.m@, out@[i].m@) && pat_matches(
                                *self,
                                p@,
                                out@[i].m@,
                                c as int,
                            ),
                    decreases n - c2,
                {
                    let rc2 = roots_of[c2];
                    if rc2 == rc {
                        let m = self.nodes[c2].len();
                        let mut k: usize = 0;
                        while k < m
                            invariant
                                wf(*self),
                                n == self.uf@.len(),
                                (c as int) < n_classes(*self),
                                (c2 as int) < n_classes(*self),
                                (rc as int) == root_of(self.uf@, c as int),
                                root_of(self.uf@, c2 as int) == root_of(self.uf@, c as int),
                                roots_table_ok(*self, roots_of@),
                                subst_ok(partial.m@, n_classes(*self)),
                                0 <= k <= m,
                                m == self.nodes@[c2 as int]@.len(),
                                *p == (Pattern::App { op: *op, args: *args }),
                                forall|i: int|
                                    0 <= i < out@.len() ==> subst_ok(
                                        (#[trigger] out@[i]).m@,
                                        n_classes(*self),
                                    ) && subst_extends(partial.m@, out@[i].m@) && pat_matches(
                                        *self,
                                        p@,
                                        out@[i].m@,
                                        c as int,
                                    ),
                            decreases m - k,
                        {
                            let hit = self.match_node(p, c2, k, partial, roots_of);
                            let mut hi: usize = 0;
                            let hn = hit.len();
                            let hitv = hit;
                            while hi < hn
                                invariant
                                    0 <= hi <= hn,
                                    hn == hitv@.len(),
                                    wf(*self),
                                    n == self.uf@.len(),
                                    (c as int) < n_classes(*self),
                                    (c2 as int) < n_classes(*self),
                                    root_of(self.uf@, c2 as int) == root_of(self.uf@, c as int),
                                    *p == (Pattern::App { op: *op, args: *args }),
                                    forall|i: int|
                                        0 <= i < hitv@.len() ==> subst_ok(
                                            (#[trigger] hitv@[i]).m@,
                                            n_classes(*self),
                                        ) && subst_extends(partial.m@, hitv@[i].m@)
                                            && pat_matches(
                                            *self,
                                            p@,
                                            hitv@[i].m@,
                                            c2 as int,
                                        ),
                                    forall|i: int|
                                        0 <= i < out@.len() ==> subst_ok(
                                            (#[trigger] out@[i]).m@,
                                            n_classes(*self),
                                        ) && subst_extends(partial.m@, out@[i].m@)
                                            && pat_matches(
                                            *self,
                                            p@,
                                            out@[i].m@,
                                            c as int,
                                        ),
                                decreases hn - hi,
                            {
                                let s = hitv[hi].duplicate();
                                proof {
                                    assert(subst_ok(hitv@[hi as int].m@, n_classes(*self)));
                                    assert(subst_extends(hitv@[hi as int].m@, s.m@));
                                    lemma_pat_matches_extends(
                                        *self,
                                        p@,
                                        hitv@[hi as int].m@,
                                        s.m@,
                                        c2 as int,
                                    );
                                    lemma_pat_matches_root(*self, p@, s.m@, c2 as int, c as int);
                                }
                                out.push(s);
                                hi = hi + 1;
                            }
                            k = k + 1;
                        }
                    }
                    c2 = c2 + 1;
                }
                out
            },
        }
    }

    /// Match an application pattern against one stored e-node; each result
    /// witnesses a match of the node's own class.
    fn match_node(&self, p: &Pattern, c2: usize, k: usize, partial: &Subst, roots_of: &Vec<usize>) -> (r: Vec<Subst>)
        requires
            wf(*self),
            (c2 as int) < n_classes(*self),
            (k as int) < self.nodes@[c2 as int]@.len(),
            subst_ok(partial.m@, n_classes(*self)),
            roots_table_ok(*self, roots_of@),
            p matches Pattern::App { .. },
        ensures
            forall|i: int|
                0 <= i < r@.len() ==> subst_ok((#[trigger] r@[i]).m@, n_classes(*self))
                    && subst_extends(partial.m@, r@[i].m@) && pat_matches(
                    *self,
                    p@,
                    r@[i].m@,
                    c2 as int,
                ),
        decreases *p, 0int,
    {
        let mut out: Vec<Subst> = Vec::new();
        match p {
            Pattern::Var { name } => {
                out
            },
            Pattern::App { op, args } => {
                proof {
                    assert(node_ok(n_classes(*self), self.nodes@[c2 as int]@[k as int]@));
                    lemma_pats_view_len(args@);
                }
                if !bytes_eq(op, &self.nodes[c2][k].op) {
                    return out;
                }
                if args.len() != self.nodes[c2][k].children.len() {
                    return out;
                }
                let arity = args.len();
                let ghost nodev = self.nodes@[c2 as int]@[k as int]@;
                let mut subs: Vec<Subst> = Vec::new();
                let d0 = partial.duplicate();
                subs.push(d0);
                let mut i: usize = 0;
                while i < arity
                    invariant
                        wf(*self),
                        (c2 as int) < n_classes(*self),
                        (k as int) < self.nodes@[c2 as int]@.len(),
                        nodev == self.nodes@[c2 as int]@[k as int]@,
                        nodev.op == op@,
                        arity == args@.len(),
                        arity == nodev.children.len(),
                        0 <= i <= arity,
                        roots_table_ok(*self, roots_of@),
                        subst_ok(partial.m@, n_classes(*self)),
                        *p == (Pattern::App { op: *op, args: *args }),
                        p@ == (PatV::App { op: op@, args: pats_view(args@) }),
                        pats_view(args@).len() == arity,
                        forall|t: int|
                            0 <= t < subs@.len() ==> subst_ok(
                                (#[trigger] subs@[t]).m@,
                                n_classes(*self),
                            ) && subst_extends(partial.m@, subs@[t].m@) && (forall|j: int|
                                0 <= j < i ==> pat_matches(
                                    *self,
                                    #[trigger] pats_view(args@)[j],
                                    subs@[t].m@,
                                    nodev.children[j] as int,
                                )),
                    decreases arity - i,
                {
                    proof {
                        assert(node_ok(n_classes(*self), self.nodes@[c2 as int]@[k as int]@));
                        assert(decreases_to!(*p => p->App_args));
                        assert(p->App_args == *args);
                        assert(decreases_to!(*args => args@[i as int]));
                        lemma_pats_view_index(args@, i as int);
                    }
                    let child = self.nodes[c2][k].children[i];
                    let mut next: Vec<Subst> = Vec::new();
                    let sn = subs.len();
                    let mut t: usize = 0;
                    while t < sn
                        invariant
                            wf(*self),
                            (child as int) < n_classes(*self),
                            (child as int) == nodev.children[i as int] as int,
                            0 <= t <= sn,
                            sn == subs@.len(),
                            (i as int) < args@.len(),
                            (i as int) < arity,
                            arity == args@.len(),
                            roots_table_ok(*self, roots_of@),
                            *p == (Pattern::App { op: *op, args: *args }),
                            pats_view(args@).len() == arity,
                            (args@[i as int])@ == pats_view(args@)[i as int],
                            forall|x: int|
                                0 <= x < subs@.len() ==> subst_ok(
                                    (#[trigger] subs@[x]).m@,
                                    n_classes(*self),
                                ) && subst_extends(partial.m@, subs@[x].m@) && (forall|j: int|
                                    0 <= j < i ==> pat_matches(
                                        *self,
                                        #[trigger] pats_view(args@)[j],
                                        subs@[x].m@,
                                        nodev.children[j] as int,
                                    )),
                            forall|x: int|
                                0 <= x < next@.len() ==> subst_ok(
                                    (#[trigger] next@[x]).m@,
                                    n_classes(*self),
                                ) && subst_extends(partial.m@, next@[x].m@) && (forall|j: int|
                                    0 <= j < i + 1 ==> pat_matches(
                                        *self,
                                        #[trigger] pats_view(args@)[j],
                                        next@[x].m@,
                                        nodev.children[j] as int,
                                    )),
                        decreases sn - t,
                    {
                        proof {
                            assert(decreases_to!(*p => p->App_args));
                            assert(p->App_args == *args);
                            assert(decreases_to!(*args => args@[i as int]));
                        }
                        let exts = self.match_pattern(&args[i], child, &subs[t], roots_of);
                        let en = exts.len();
                        let mut e: usize = 0;
                        let extv = exts;
                        while e < en
                            invariant
                                wf(*self),
                                0 <= e <= en,
                                en == extv@.len(),
                                (t as int) < subs@.len(),
                                (i as int) < arity,
                                arity == args@.len(),
                                pats_view(args@).len() == arity,
                                (args@[i as int])@ == pats_view(args@)[i as int],
                                (child as int) == nodev.children[i as int] as int,
                                subst_extends(partial.m@, subs@[t as int].m@),
                                forall|j: int|
                                    0 <= j < i ==> pat_matches(
                                        *self,
                                        #[trigger] pats_view(args@)[j],
                                        subs@[t as int].m@,
                                        nodev.children[j] as int,
                                    ),
                                forall|x: int|
                                    0 <= x < extv@.len() ==> subst_ok(
                                        (#[trigger] extv@[x]).m@,
                                        n_classes(*self),
                                    ) && subst_extends(subs@[t as int].m@, extv@[x].m@)
                                        && pat_matches(
                                        *self,
                                        (args@[i as int])@,
                                        extv@[x].m@,
                                        child as int,
                                    ),
                                forall|x: int|
                                    0 <= x < next@.len() ==> subst_ok(
                                        (#[trigger] next@[x]).m@,
                                        n_classes(*self),
                                    ) && subst_extends(partial.m@, next@[x].m@) && (forall|
                                        j: int,
                                    |
                                        0 <= j < i + 1 ==> pat_matches(
                                            *self,
                                            #[trigger] pats_view(args@)[j],
                                            next@[x].m@,
                                            nodev.children[j] as int,
                                        )),
                            decreases en - e,
                        {
                            let s = extv[e].duplicate();
                            proof {
                                let ghost ex = extv@[e as int].m@;
                                assert(subst_extends(ex, s.m@));
                                assert(subst_extends(subs@[t as int].m@, ex));
                                assert(subst_extends(partial.m@, s.m@));
                                assert forall|j: int| 0 <= j < i + 1 implies pat_matches(
                                    *self,
                                    #[trigger] pats_view(args@)[j],
                                    s.m@,
                                    nodev.children[j] as int,
                                ) by {
                                    if j < i {
                                        lemma_pat_matches_extends(
                                            *self,
                                            pats_view(args@)[j],
                                            subs@[t as int].m@,
                                            ex,
                                            nodev.children[j] as int,
                                        );
                                        lemma_pat_matches_extends(
                                            *self,
                                            pats_view(args@)[j],
                                            ex,
                                            s.m@,
                                            nodev.children[j] as int,
                                        );
                                    } else {
                                        lemma_pat_matches_extends(
                                            *self,
                                            pats_view(args@)[j],
                                            ex,
                                            s.m@,
                                            nodev.children[j] as int,
                                        );
                                    }
                                }
                            }
                            next.push(s);
                            e = e + 1;
                        }
                        t = t + 1;
                    }
                    subs = next;
                    i = i + 1;
                }
                proof {
                    lemma_root_of(self.uf@, c2 as int);
                    assert forall|x: int| 0 <= x < subs@.len() implies pat_matches(
                        *self,
                        p@,
                        (#[trigger] subs@[x]).m@,
                        c2 as int,
                    ) by {
                        assert(0 <= (c2 as int) < self.uf@.len() && 0 <= (k as int)
                            < self.nodes@[c2 as int]@.len() && root_of(self.uf@, c2 as int)
                            == root_of(self.uf@, c2 as int) && self.nodes@[c2 as int]@[k as int]@.op
                            == op@ && self.nodes@[c2 as int]@[k as int]@.children.len()
                            == pats_view(args@).len() && (forall|j: int|
                            0 <= j < pats_view(args@).len() ==> pat_matches(
                                *self,
                                #[trigger] pats_view(args@)[j],
                                subs@[x].m@,
                                self.nodes@[c2 as int]@[k as int]@.children[j] as int,
                            )));
                    }
                }
                subs
            },
        }
    }
}

use crate::term::pat_view;

impl EGraph {
    /// Instantiate a pattern under a substitution, inserting any new
    /// sub-terms; an unbound variable becomes a fresh leaf operator.
    pub fn add_pattern(&mut self, p: &Pattern, s: &Subst) -> (r: usize)
        requires
            wf(*old(self)),
            subst_ok(s.m@, n_classes(*old(self))),
        ensures
            wf(*final(self)),
            grows(*old(self), *final(self)),
            coarsens(*old(self), *final(self)),
            (r as int) < n_classes(*final(self)),
        decreases *p,
    {
        match p {
            Pattern::Var { name } => {
                let bound = s.get(name);
                match bound {
                    Some(id) => {
                        if id < self.uf.len() {
                            proof {
                                assert(grows(*self, *self));
                                lemma_grows_coarsens(*self, *self);
                            }
                            return id;
                        }
                        let k = copy_all(name);
                        let t = Term { op: k, args: Vec::new() };
                        self.add(&t)
                    },
                    None => {
                        let k = copy_all(name);
                        let t = Term { op: k, args: Vec::new() };
                        self.add(&t)
                    },
                }
            },
            Pattern::App { op, args } => {
                let ghost g0 = *self;
                let n = args.len();
                let mut ids: Vec<usize> = Vec::new();
                let mut i: usize = 0;
                while i < n
                    invariant
                        wf(*self),
                        grows(g0, *self),
                        wf(g0),
                        subst_ok(s.m@, n_classes(g0)),
                        n_classes(*self) >= n_classes(g0),
                        0 <= i <= n,
                        n == args@.len(),
                        ids@.len() == i,
                        *p == (Pattern::App { op: *op, args: *args }),
                        forall|j: int|
                            0 <= j < i ==> ((#[trigger] ids@[j]) as int) < n_classes(*self),
                    decreases n - i,
                {
                    proof {
                        assert(decreases_to!(*p => p->App_args));
                        assert(p->App_args == *args);
                        assert(decreases_to!(*args => args@[i as int]));
                        assert(subst_ok(s.m@, n_classes(*self)));
                    }
                    let ghost gpre = *self;
                    let cid = self.add_pattern(&args[i], s);
                    proof {
                        lemma_grows_trans(g0, gpre, *self);
                    }
                    ids.push(cid);
                    i = i + 1;
                }
                let ghost gpre2 = *self;
                let r = self.add_enode(op, &ids);
                proof {
                    lemma_grows_trans(g0, gpre2, *self);
                    lemma_grows_coarsens(g0, *self);
                }
                r
            },
        }
    }
}

} // verus!
