//! The explanation builder: a chain of terms from a source to a target in
//! which every adjacent pair is justified by exactly one rule application,
//! forward or backward, at the root or inside one child (congruence).
//!
//! Chains are valid by construction: every step pushed into the search
//! frontier carries a proof that one rule rewrites the predecessor into it.

use vstd::prelude::*;
use crate::term::{Term, TermV, Pattern, PatV, bytes_eq, terms_view, lemma_terms_view_len,
    lemma_terms_view_index, pats_view, lemma_pats_view_len, lemma_pats_view_index};
use crate::parse::copy_all;
use crate::rewrite::{Rewrite, pat_vars};
use crate::egraph::{EGraph, wf, n_classes};

verus! {

/// A substitution from pattern variable to ground term.
pub struct TSubst {
    pub m: Vec<(Vec<u8>, Term)>,
}

/// No variable is bound twice.
pub open spec fn tsubst_wf(s: Seq<(Vec<u8>, Term)>) -> bool {
    forall|i: int, j: int| 0 <= i < j < s.len() ==> (#[trigger] s[i]).0@ != (#[trigger] s[j]).0@
}

pub open spec fn tmap(s: Seq<(Vec<u8>, Term)>) -> Map<Seq<u8>, TermV>
    decreases s,
{
    if s.len() == 0 {
        Map::empty()
    } else {
        tmap(s.drop_last()).insert(s.last().0@, s.last().1@)
    }
}

/// The term a pattern denotes under a substitution; an unbound variable
/// stands for itself as a leaf operator.
pub open spec fn inst_sp(p: PatV, m: Map<Seq<u8>, TermV>) -> TermV
    decreases p,
{
    match p {
        PatV::Var { name } => if m.dom().contains(name) {
            m[name]
        } else {
            TermV { op: name, args: Seq::empty() }
        },
        PatV::App { op, args } => TermV { op, args: insts_sp(args, m) },
    }
}

pub open spec fn insts_sp(ps: Seq<PatV>, m: Map<Seq<u8>, TermV>) -> Seq<TermV>
    decreases ps,
{
    if ps.len() == 0 {
        Seq::empty()
    } else {
        insts_sp(ps.drop_last(), m).push(inst_sp(ps.last(), m))
    }
}

pub proof fn lemma_insts_index(ps: Seq<PatV>, m: Map<Seq<u8>, TermV>, i: int)
    requires
        0 <= i < ps.len(),
    ensures
        insts_sp(ps, m).len() == ps.len(),
        insts_sp(ps, m)[i] == inst_sp(ps[i], m),
    decreases ps,
{
    lemma_insts_len(ps, m);
    if ps.len() > 0 && i < ps.len() - 1 {
        lemma_insts_index(ps.drop_last(), m, i);
    }
}

pub proof fn lemma_insts_len(ps: Seq<PatV>, m: Map<Seq<u8>, TermV>)
    ensures
        insts_sp(ps, m).len() == ps.len(),
    decreases ps,
{
    if ps.len() > 0 {
        lemma_insts_len(ps.drop_last(), m);
    }
}

/// One rule instance: a single substitution sends the left side to `t1`
/// and the right side to `t2`.
pub open spec fn rule_applies(l: PatV, r: PatV, t1: TermV, t2: TermV) -> bool {
    exists|m: Map<Seq<u8>, TermV>| inst_sp(l, m) == t1 && #[trigger] inst_sp(r, m) == t2
}

/// One derivation step: the rule applied at the root, or — congruence — in
/// exactly one child, all other children unchanged.
pub open spec fn step_at(l: PatV, r: PatV, t1: TermV, t2: TermV) -> bool
    decreases t1,
{
    ||| rule_applies(l, r, t1, t2)
    ||| (t1.op == t2.op && t1.args.len() == t2.args.len() && exists|i: int|
        0 <= i < t1.args.len() && step_at(l, r, #[trigger] t1.args[i], t2.args[i]) && (forall|
            j: int,
        |
            0 <= j < t1.args.len() && j != i ==> t1.args[j] == t2.args[j]))
}

/// Some loaded rule derives `b` from `a`, forward or backward.
pub open spec fn rules_step(rules: Seq<Rewrite>, a: TermV, b: TermV) -> bool {
    exists|ri: int|
        0 <= ri < rules.len() && (step_at((#[trigger] rules[ri]).lhs@, rules[ri].rhs@, a, b)
            || step_at(rules[ri].rhs@, rules[ri].lhs@, a, b))
}

/// Every adjacent pair of the chain is one rule step.
pub open spec fn chain_ok(rules: Seq<Rewrite>, ch: Seq<TermV>) -> bool {
    forall|i: int| 0 <= i < ch.len() - 1 ==> rules_step(rules, #[trigger] ch[i], ch[i + 1])
}

/// Map extension: everything bound stays bound to the same term.
pub open spec fn map_extends(m1: Map<Seq<u8>, TermV>, m2: Map<Seq<u8>, TermV>) -> bool {
    m1.dom().subset_of(m2.dom()) && forall|k: Seq<u8>| m1.dom().contains(k) ==> m2[k] == #[trigger] m1[k]
}

/// Instantiation is stable once all of a pattern's variables are bound.
pub proof fn lemma_inst_stable(p: PatV, m1: Map<Seq<u8>, TermV>, m2: Map<Seq<u8>, TermV>)
    requires
        map_extends(m1, m2),
        pat_vars(p).subset_of(m1.dom()),
    ensures
        inst_sp(p, m2) == inst_sp(p, m1),
    decreases p,
{
    match p {
        PatV::Var { name } => {
            assert(pat_vars(p).contains(name));
        },
        PatV::App { op, args } => {
            lemma_insts_len(args, m1);
            lemma_insts_len(args, m2);
            assert forall|i: int| 0 <= i < args.len() implies insts_sp(args, m2)[i] == insts_sp(
                args,
                m1,
            )[i] by {
                lemma_insts_index(args, m1, i);
                lemma_insts_index(args, m2, i);
                crate::rewrite::lemma_arg_vars_subset(args, i);
                lemma_inst_stable(args[i], m1, m2);
            }
            assert(insts_sp(args, m2) =~= insts_sp(args, m1));
        },
    }
}

impl TSubst {
    pub fn empty_tsubst() -> (r: TSubst)
        ensures
            r.m@.len() == 0,
    {
        TSubst { m: Vec::new() }
    }

    fn get(&self, name: &Vec<u8>) -> (r: Option<usize>)
        requires
            tsubst_wf(self.m@),
        ensures
            r matches Some(i) ==> (i as int) < self.m@.len() && self.m@[i as int].0@ == name@
                && tmap(self.m@)[name@] == self.m@[i as int].1@ && tmap(self.m@).dom().contains(
                name@,
            ),
            r is None ==> !tmap(self.m@).dom().contains(name@),
    {
        let n = self.m.len();
        let mut i: usize = 0;
        while i < n
            invariant
                tsubst_wf(self.m@),
                0 <= i <= n,
                n == self.m@.len(),
                forall|j: int| 0 <= j < i ==> (#[trigger] self.m@[j]).0@ != name@,
            decreases n - i,
        {
            if bytes_eq(&self.m[i].0, name) {
                proof {
                    lemma_tmap_get(self.m@, i as int);
                }
                return Some(i);
            }
            i = i + 1;
        }
        proof {
            lemma_tmap_absent(self.m@, name@);
        }
        None
    }
}

proof fn lemma_tmap_get(s: Seq<(Vec<u8>, Term)>, i: int)
    requires
        tsubst_wf(s),
        0 <= i < s.len(),
    ensures
        tmap(s).dom().contains(s[i].0@),
        tmap(s)[s[i].0@] == s[i].1@,
    decreases s,
{
    if s.len() > 0 {
        if i < s.len() - 1 {
            lemma_tmap_get(s.drop_last(), i);
            assert(s.drop_last()[i] == s[i]);
            assert(s[i].0@ != s[s.len() - 1].0@);
        }
    }
}

proof fn lemma_tmap_absent(s: Seq<(Vec<u8>, Term)>, name: Seq<u8>)
    requires
        forall|j: int| 0 <= j < s.len() ==> (#[trigger] s[j]).0@ != name,
    ensures
        !tmap(s).dom().contains(name),
    decreases s,
{
    if s.len() > 0 {
        lemma_tmap_absent(s.drop_last(), name);
    }
}

proof fn lemma_tmap_push(s: Seq<(Vec<u8>, Term)>, k: Vec<u8>, v: Term)
    ensures
        tmap(s.push((k, v))) == tmap(s).insert(k@, v@),
{
    assert(s.push((k, v)).drop_last() =~= s);
    assert(s.push((k, v)).last() == (k, v));
}

/// Match a pattern against a ground term, extending the substitution;
/// when it succeeds, the substitution sends the pattern to exactly the term.
pub fn match_term(p: &Pattern, t: &Term, s: &mut TSubst) -> (r: bool)
    requires
        tsubst_wf(old(s).m@),
    ensures
        tsubst_wf(final(s).m@),
        map_extends(tmap(old(s).m@), tmap(final(s).m@)),
        r ==> inst_sp(p@, tmap(final(s).m@)) == t@ && pat_vars(p@).subset_of(
            tmap(final(s).m@).dom(),
        ),
    decreases *p,
{
    match p {
        Pattern::Var { name } => {
            let found = s.get(name);
            match found {
                Some(i) => {
                    let eq = s.m[i].1.equals(t);
                    proof {
                        assert(map_extends(tmap(s.m@), tmap(s.m@)));
                        if eq {
                            assert(inst_sp(p@, tmap(s.m@)) == t@);
                        }
                    }
                    eq
                },
                None => {
                    let k = copy_all(name);
                    let dup = t.duplicate();
                    let ghost pre = s.m@;
                    s.m.push((k, dup));
                    proof {
                        lemma_tmap_push(pre, k, dup);
                        assert forall|i: int, j: int|
                            0 <= i < j < s.m@.len() implies (#[trigger] s.m@[i]).0@ != (
                        #[trigger] s.m@[j]).0@ by {
                            if j == s.m@.len() - 1 {
                                lemma_tmap_get_all(pre, i);
                            }
                        }
                        assert(tsubst_wf(s.m@));
                        assert(inst_sp(p@, tmap(s.m@)) == t@);
                    }
                    true
                },
            }
        },
        Pattern::App { op, args } => {
            if !bytes_eq(op, &t.op) {
                proof {
                    assert(map_extends(tmap(s.m@), tmap(s.m@)));
                }
                return false;
            }
            if args.len() != t.args.len() {
                proof {
                    assert(map_extends(tmap(s.m@), tmap(s.m@)));
                }
                return false;
            }
            let n = args.len();
            let mut i: usize = 0;
            proof {
                lemma_pats_view_len(args@);
                lemma_terms_view_len(t.args@);
                assert(map_extends(tmap(s.m@), tmap(s.m@)));
            }
            while i < n
                invariant
                    tsubst_wf(s.m@),
                    0 <= i <= n,
                    n == args@.len(),
                    n == t.args@.len(),
                    *p == (Pattern::App { op: *op, args: *args }),
                    p@->App_args.len() == n,
                    t@.args.len() == n,
                    p@->App_args == pats_view(args@),
                    t@.args == terms_view(t.args@),
                    map_extends(tmap(old(s).m@), tmap(s.m@)),
                    forall|j: int|
                        0 <= j < i ==> pat_vars(#[trigger] p@->App_args[j]).subset_of(
                            tmap(s.m@).dom(),
                        ) && inst_sp(p@->App_args[j], tmap(s.m@)) == t@.args[j],
                decreases n - i,
            {
                proof {
                    assert(decreases_to!(*p => p->App_args));
                    assert(p->App_args == *args);
                    assert(decreases_to!(*args => args@[i as int]));
                    lemma_pats_view_index(args@, i as int);
                    lemma_terms_view_index(t.args@, i as int);
                }
                let ghost mpre = tmap(s.m@);
                let ok = match_term(&args[i], &t.args[i], s);
                if !ok {
                    return false;
                }
                proof {
                    assert forall|j: int| 0 <= j < i + 1 implies pat_vars(
                        #[trigger] p@->App_args[j],
                    ).subset_of(tmap(s.m@).dom()) && inst_sp(p@->App_args[j], tmap(s.m@))
                        == t@.args[j] by {
                        if j < i {
                            lemma_inst_stable(p@->App_args[j], mpre, tmap(s.m@));
                        }
                    }
                }
                i = i + 1;
            }
            proof {
                lemma_insts_len(p@->App_args, tmap(s.m@));
                assert forall|j: int| 0 <= j < n implies insts_sp(p@->App_args, tmap(s.m@))[j]
                    == t@.args[j] by {
                    lemma_insts_index(p@->App_args, tmap(s.m@), j);
                }
                assert(insts_sp(p@->App_args, tmap(s.m@)) =~= t@.args);
                assert(inst_sp(p@, tmap(s.m@)) =~= t@);
                assert forall|v: Seq<u8>| pat_vars(p@).contains(v) implies tmap(
                    s.m@,
                ).dom().contains(v) by {
                    crate::rewrite::lemma_pats_vars_member_rev(p@->App_args, v);
                    let j = choose|j: int|
                        0 <= j < p@->App_args.len() && pat_vars(
                            #[trigger] p@->App_args[j],
                        ).contains(v);
                }
            }
            true
        },
    }
}

proof fn lemma_tmap_get_all(s: Seq<(Vec<u8>, Term)>, i: int)
    requires
        0 <= i < s.len(),
    ensures
        tmap(s).dom().contains(s[i].0@),
    decreases s,
{
    if i < s.len() - 1 {
        lemma_tmap_get_all(s.drop_last(), i);
    }
}

/// Build the term a pattern denotes under a substitution.
pub fn instantiate(p: &Pattern, s: &TSubst) -> (r: Term)
    requires
        tsubst_wf(s.m@),
    ensures
        r@ == inst_sp(p@, tmap(s.m@)),
    decreases *p,
{
    match p {
        Pattern::Var { name } => {
            let found = s.get(name);
            match found {
                Some(i) => s.m[i].1.duplicate(),
                None => {
                    let k = copy_all(name);
                    let r = Term { op: k, args: Vec::new() };
                    proof {
                        assert(terms_view(Seq::<Term>::empty()) =~= Seq::<TermV>::empty());
                        assert(r@ =~= inst_sp(p@, tmap(s.m@)));
                    }
                    r
                },
            }
        },
        Pattern::App { op, args } => {
            let n = args.len();
            let mut out: Vec<Term> = Vec::new();
            let mut i: usize = 0;
            proof {
                lemma_pats_view_len(args@);
            }
            while i < n
                invariant
                    tsubst_wf(s.m@),
                    0 <= i <= n,
                    n == args@.len(),
                    *p == (Pattern::App { op: *op, args: *args }),
                    p@->App_args.len() == n,
                    p@->App_args == pats_view(args@),
                    out@.len() == i,
                    forall|j: int|
                        0 <= j < i ==> (#[trigger] terms_view(out@)[j]) == inst_sp(
                            p@->App_args[j],
                            tmap(s.m@),
                        ),
                decreases n - i,
            {
                proof {
                    assert(decreases_to!(*p => p->App_args));
                    assert(p->App_args == *args);
                    assert(decreases_to!(*args => args@[i as int]));
                    lemma_pats_view_index(args@, i as int);
                }
                let c = instantiate(&args[i], s);
                proof {
                    let ghost pre = out@;
                    assert(out@.push(c).drop_last() =~= out@);
                    lemma_terms_view_len(out@);
                    assert(terms_view(out@.push(c)).drop_last() =~= terms_view(out@)) by {
                        assert(out@.push(c).drop_last() =~= out@);
                    }
                    lemma_terms_view_len(out@.push(c));
                    assert forall|j: int| 0 <= j < i + 1 implies (
                    #[trigger] terms_view(out@.push(c))[j]) == inst_sp(
                        p@->App_args[j],
                        tmap(s.m@),
                    ) by {
                        lemma_terms_view_index(out@.push(c), j);
                        if j < i {
                            lemma_terms_view_index(out@, j);
                        }
                    }
                }
                out.push(c);
                i = i + 1;
            }
            let opc = copy_all(op);
            let r = Term { op: opc, args: out };
            proof {
                lemma_terms_view_len(r.args@);
                lemma_insts_len(p@->App_args, tmap(s.m@));
                assert forall|j: int| 0 <= j < n implies terms_view(r.args@)[j] == insts_sp(
                    p@->App_args,
                    tmap(s.m@),
                )[j] by {
                    lemma_insts_index(p@->App_args, tmap(s.m@), j);
                }
                assert(terms_view(r.args@) =~= insts_sp(p@->App_args, tmap(s.m@)));
                assert(r@ =~= inst_sp(p@, tmap(s.m@)));
            }
            r
        },
    }
}

/// Replace one child, keeping the rest.
fn replace_child(t: &Term, i: usize, nc: Term) -> (r: Term)
    requires
        (i as int) < t.args@.len(),
    ensures
        r@.op == t@.op,
        r@.args.len() == t@.args.len(),
        r@.args[i as int] == nc@,
        forall|j: int| 0 <= j < t@.args.len() && j != i ==> r@.args[j] == t@.args[j],
{
    proof {
        lemma_terms_view_len(t.args@);
    }
    let n = t.args.len();
    let mut args: Vec<Term> = Vec::new();
    let mut j: usize = 0;
    while j < n
        invariant
            0 <= j <= n,
            n == t.args@.len(),
            (i as int) < n,
            t@.args.len() == n,
            t@.args == terms_view(t.args@),
            args@.len() == j,
            nc@ == nc@,
            forall|x: int|
                0 <= x < j && x != i ==> (#[trigger] terms_view(args@)[x]) == t@.args[x],
            (i as int) < j ==> terms_view(args@)[i as int] == nc@,
        decreases n - j,
    {
        let c = if j == i {
            nc.duplicate()
        } else {
            proof {
                lemma_terms_view_index(t.args@, j as int);
            }
            t.args[j].duplicate()
        };
        proof {
            assert(args@.push(c).drop_last() =~= args@);
            lemma_terms_view_len(args@);
            assert(terms_view(args@.push(c)).drop_last() =~= terms_view(args@)) by {
                assert(args@.push(c).drop_last() =~= args@);
            }
            lemma_terms_view_len(args@.push(c));
            assert forall|x: int| 0 <= x < j + 1 implies #[trigger] terms_view(args@.push(c))[x]
                == (if x == j {
                c@
            } else {
                terms_view(args@)[x]
            }) by {
                lemma_terms_view_index(args@.push(c), x);
                if x < j {
                    lemma_terms_view_index(args@, x);
                }
            }
        }
        args.push(c);
        j = j + 1;
    }
    proof {
        lemma_terms_view_len(args@);
    }
    let op = copy_all(&t.op);
    let r = Term { op, args };
    r
}

/// All one-step rewrites of `t` by the rule `(l, r)`, at the root or at any
/// position below; each result is provably one derivation step away.
pub fn rewrites_of(l: &Pattern, rr: &Pattern, t: &Term, out: &mut Vec<Term>)
    ensures
        final(out)@.len() >= old(out)@.len(),
        forall|i: int|
            0 <= i < old(out)@.len() ==> (#[trigger] final(out)@[i])@ == old(out)@[i]@,
        forall|i: int|
            old(out)@.len() <= i < final(out)@.len() ==> step_at(
                l@,
                rr@,
                t@,
                (#[trigger] final(out)@[i])@,
            ),
    decreases *t,
{
    let mut s = TSubst::empty_tsubst();
    let matched = match_term(l, t, &mut s);
    if matched {
        let t2 = instantiate(rr, &s);
        proof {
            let m = tmap(s.m@);
            assert(inst_sp(l@, m) == t@ && inst_sp(rr@, m) == t2@);
            assert(rule_applies(l@, rr@, t@, t2@));
        }
        out.push(t2);
    }
    let n = t.args.len();
    let mut i: usize = 0;
    proof {
        lemma_terms_view_len(t.args@);
    }
    while i < n
        invariant
            0 <= i <= n,
            n == t.args@.len(),
            t@.args.len() == n,
            t@.args == terms_view(t.args@),
            out@.len() >= old(out)@.len(),
            forall|x: int|
                0 <= x < old(out)@.len() ==> (#[trigger] out@[x])@ == old(out)@[x]@,
            forall|x: int|
                old(out)@.len() <= x < out@.len() ==> step_at(l@, rr@, t@, (#[trigger] out@[x])@),
        decreases n - i,
    {
        proof {
            lemma_terms_view_index(t.args@, i as int);
        }
        let mut sub: Vec<Term> = Vec::new();
        rewrites_of(l, rr, &t.args[i], &mut sub);
        let sn = sub.len();
        let mut si: usize = 0;
        while si < sn
            invariant
                0 <= si <= sn,
                sn == sub@.len(),
                0 <= (i as int) < n,
                n == t.args@.len(),
                t@.args.len() == n,
                t@.args == terms_view(t.args@),
                forall|x: int| 0 <= x < sub@.len() ==> step_at(
                    l@,
                    rr@,
                    t@.args[i as int],
                    (#[trigger] sub@[x])@,
                ),
                out@.len() >= old(out)@.len(),
                forall|x: int|
                    0 <= x < old(out)@.len() ==> (#[trigger] out@[x])@ == old(out)@[x]@,
                forall|x: int|
                    old(out)@.len() <= x < out@.len() ==> step_at(
                        l@,
                        rr@,
                        t@,
                        (#[trigger] out@[x])@,
                    ),
            decreases sn - si,
        {
            let t2 = replace_child(t, i, sub[si].duplicate());
            proof {
                assert(step_at(l@, rr@, t@.args[i as int], sub@[si as int]@));
                assert(t2@.args[i as int] == sub@[si as int]@);
                assert(0 <= (i as int) < t@.args.len() && step_at(
                    l@,
                    rr@,
                    t@.args[i as int],
                    t2@.args[i as int],
                ) && (forall|j: int|
                    0 <= j < t@.args.len() && j != i as int ==> t@.args[j] == t2@.args[j]));
                assert(step_at(l@, rr@, t@, t2@));
            }
            out.push(t2);
            si = si + 1;
        }
        i = i + 1;
    }
}

/// Search for a derivation chain from `start` to `goal`, exploring only
/// terms the e-graph represents. A returned chain is valid and has the
/// requested endpoints.
pub fn find_chain(
    g: &EGraph,
    rules: &Vec<Rewrite>,
    start: &Term,
    goal: &Term,
    cls: usize,
    budget: usize,
) -> (r: Option<Vec<Term>>)
    requires
        wf(*g),
        (cls as int) < crate::egraph::n_classes(*g),
    ensures
        r matches Some(ch) ==> ch@.len() > 0 && chain_ok(rules@, terms_view(ch@)) && terms_view(
            ch@,
        ).first() == start@ && terms_view(ch@).last() == goal@,
        start@ == goal@ ==> r is Some,
{
    if start.equals(goal) {
        let mut ch: Vec<Term> = Vec::new();
        ch.push(start.duplicate());
        proof {
            lemma_terms_view_len(ch@);
            lemma_terms_view_index(ch@, 0);
        }
        return Some(ch);
    }
    let mut arena: Vec<(Term, usize)> = Vec::new();
    arena.push((start.duplicate(), 0));
    let mut qi: usize = 0;
    let mut spent: usize = 0;
    while qi < arena.len() && spent < budget
        invariant
            wf(*g),
            (cls as int) < crate::egraph::n_classes(*g),
            arena@.len() > 0,
            qi <= arena@.len(),
            arena@[0].0@ == start@,
            forall|x: int|
                0 < x < arena@.len() ==> ((#[trigger] arena@[x]).1 as int) < x,
            forall|x: int|
                0 < x < arena@.len() ==> rules_step(
                    rules@,
                    arena@[(#[trigger] arena@[x]).1 as int].0@,
                    arena@[x].0@,
                ),
        decreases budget - spent,
    {
        spent = spent + 1;
        let nrules = rules.len();
        let mut ri: usize = 0;
        while ri < nrules
            invariant
                wf(*g),
                (cls as int) < crate::egraph::n_classes(*g),
                arena@.len() > 0,
                qi < arena@.len(),
                0 <= ri <= nrules,
                nrules == rules@.len(),
                arena@[0].0@ == start@,
                forall|x: int|
                    0 < x < arena@.len() ==> ((#[trigger] arena@[x]).1 as int) < x,
                forall|x: int|
                    0 < x < arena@.len() ==> rules_step(
                        rules@,
                        arena@[(#[trigger] arena@[x]).1 as int].0@,
                        arena@[x].0@,
                    ),
            decreases nrules - ri,
        {
            let mut cands: Vec<Term> = Vec::new();
            rewrites_of(&rules[ri].lhs, &rules[ri].rhs, &arena[qi].0, &mut cands);
            let ghost fwd = cands@.len();
            rewrites_of(&rules[ri].rhs, &rules[ri].lhs, &arena[qi].0, &mut cands);
            proof {
                assert forall|x: int|
                    0 <= x < cands@.len() implies rules_step(
                    rules@,
                    arena@[qi as int].0@,
                    (#[trigger] cands@[x])@,
                ) by {
                    assert(0 <= ri < rules@.len());
                    if x < fwd {
                        assert(step_at(
                            rules@[ri as int].lhs@,
                            rules@[ri as int].rhs@,
                            arena@[qi as int].0@,
                            cands@[x]@,
                        ));
                    } else {
                        assert(step_at(
                            rules@[ri as int].rhs@,
                            rules@[ri as int].lhs@,
                            arena@[qi as int].0@,
                            cands@[x]@,
                        ));
                    }
                }
            }
            let cn = cands.len();
            let mut ci: usize = 0;
            let candv = cands;
            while ci < cn
                invariant
                    wf(*g),
                    (cls as int) < crate::egraph::n_classes(*g),
                    arena@.len() > 0,
                    qi < arena@.len(),
                    (ri as int) < rules@.len(),
                    0 <= ci <= cn,
                    cn == candv@.len(),
                    arena@[0].0@ == start@,
                    forall|x: int| 0 <= x < candv@.len() ==> rules_step(
                        rules@,
                        arena@[qi as int].0@,
                        (#[trigger] candv@[x])@,
                    ),
                    forall|x: int|
                        0 < x < arena@.len() ==> ((#[trigger] arena@[x]).1 as int) < x,
                    forall|x: int|
                        0 < x < arena@.len() ==> rules_step(
                            rules@,
                            arena@[(#[trigger] arena@[x]).1 as int].0@,
                            arena@[x].0@,
                        ),
                decreases cn - ci,
            {
                let cand = &candv[ci];
                // explore only terms the e-graph places in the target class
                let looked = g.lookup_nomut(cand);
                let represented = match looked {
                    Some(c0) => {
                        proof {
                            crate::egraph::lemma_lookup_term_bound(*g, cand@, c0);
                        }
                        g.find(c0) == g.find(cls)
                    },
                    None => false,
                };
                if represented {
                    let mut seen = false;
                    let an = arena.len();
                    let mut ai: usize = 0;
                    while ai < an
                        invariant
                            0 <= ai <= an,
                            an == arena@.len(),
                        decreases an - ai,
                    {
                        if arena[ai].0.equals(cand) {
                            seen = true;
                        }
                        ai = ai + 1;
                    }
                    if !seen {
                        let isgoal = cand.equals(goal);
                        arena.push((cand.duplicate(), qi));
                        if isgoal {
                            let chain = build_path(&arena, arena.len() - 1, rules);
                            proof {
                                lemma_terms_view_len(chain@);
                            }
                            return Some(chain);
                        }
                    }
                }
                ci = ci + 1;
            }
            ri = ri + 1;
        }
        qi = qi + 1;
    }
    None
}

/// Walk parent links back to the root, yielding the chain in order.
fn build_path(arena: &Vec<(Term, usize)>, idx: usize, rules: &Vec<Rewrite>) -> (r: Vec<Term>)
    requires
        arena@.len() > 0,
        (idx as int) < arena@.len(),
        forall|x: int| 0 < x < arena@.len() ==> ((#[trigger] arena@[x]).1 as int) < x,
        forall|x: int|
            0 < x < arena@.len() ==> rules_step(
                rules@,
                arena@[(#[trigger] arena@[x]).1 as int].0@,
                arena@[x].0@,
            ),
    ensures
        r@.len() > 0,
        chain_ok(rules@, terms_view(r@)),
        terms_view(r@).first() == arena@[0].0@,
        terms_view(r@).last() == arena@[idx as int].0@,
    decreases idx,
{
    if idx == 0 {
        let mut out: Vec<Term> = Vec::new();
        out.push(arena[0].0.duplicate());
        proof {
            lemma_terms_view_len(out@);
            lemma_terms_view_index(out@, 0);
        }
        out
    } else {
        let par = arena[idx].1;
        let mut out = build_path(arena, par, rules);
        let ghost pre = out@;
        out.push(arena[idx].0.duplicate());
        proof {
            lemma_terms_view_len(out@);
            lemma_terms_view_len(pre);
            assert(terms_view(out@).drop_last() =~= terms_view(pre)) by {
                assert(out@.drop_last() =~= pre);
            }
            assert forall|i: int|
                0 <= i < terms_view(out@).len() - 1 implies rules_step(
                rules@,
                #[trigger] terms_view(out@)[i],
                terms_view(out@)[i + 1],
            ) by {
                lemma_terms_view_index(out@, i);
                lemma_terms_view_index(out@, i + 1);
                if i < pre.len() - 1 {
                    lemma_terms_view_index(pre, i);
                    lemma_terms_view_index(pre, i + 1);
                    assert(terms_view(pre)[i] == terms_view(out@)[i]);
                    assert(rules_step(rules@, terms_view(pre)[i], terms_view(pre)[i + 1]));
                } else {
                    lemma_terms_view_index(pre, i);
                    assert(terms_view(out@)[i] == terms_view(pre).last());
                    assert(terms_view(pre).last() == arena@[par as int].0@);
                    assert(terms_view(out@)[i + 1] == arena@[idx as int].0@);
                    assert(rules_step(rules@, arena@[par as int].0@, arena@[idx as int].0@));
                }
            }
            lemma_terms_view_index(out@, 0);
            lemma_terms_view_index(pre, 0);
        }
        out
    }
}

} // verus!
