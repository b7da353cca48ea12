//! The request/response surface: session state holding the loaded rule
//! set, and one handler that maps each request onto the engine.

use vstd::prelude::*;
use crate::parse::{parse_term_text, copy_all};
use crate::printer::print_term;
use crate::rewrite::{Rewrite, make_rewrite, rw_wf};
use crate::runner::IterStats;
use crate::egraph::EGraph;
use crate::explain::find_chain;

verus! {

/// A rule as it arrives on the wire: three strings.
pub struct RuleText {
    pub name: Vec<u8>,
    pub lhs: Vec<u8>,
    pub rhs: Vec<u8>,
}

pub enum Request {
    Version,
    LoadRewrites { rewrites: Vec<RuleText> },
    SimplifyExpressions { exprs: Vec<Vec<u8>>, constant_fold: bool, prune: bool },
    PerformRewrite { rewrites: Vec<RuleText>, target_lhs: Vec<u8>, target_rhs: Vec<u8> },
}

pub struct Comparison {
    pub initial_expr: Vec<u8>,
    pub initial_cost: u64,
    pub final_expr: Vec<u8>,
    pub final_cost: u64,
}

pub enum Response {
    Error { error: Vec<u8> },
    Version { version: Vec<u8> },
    LoadRewrites { n: usize },
    SimplifyExpressions { iterations: Vec<IterStats>, best: Vec<Comparison> },
    PerformRewrite { success: bool, explanation: Vec<Vec<u8>> },
}

/// The session: created empty, replaced wholesale by a load request, read
/// by later requests.
pub struct State {
    pub rewrites: Vec<Rewrite>,
}

pub open spec fn state_wf(s: State) -> bool {
    forall|i: int| 0 <= i < s.rewrites@.len() ==> rw_wf(#[trigger] s.rewrites@[i])
}

impl Default for State {
    fn default() -> (r: State)
        ensures
            r.rewrites@.len() == 0,
            state_wf(r),
    {
        State { rewrites: Vec::new() }
    }
}

/// The exact error text for simplification without loaded rules.
pub open spec fn no_rules_msg() -> Seq<u8> {
    seq![
        0x59u8, 0x6f, 0x75, 0x20, 0x68, 0x61, 0x76, 0x65, 0x6e, 0x27, 0x74, 0x20, 0x6c, 0x6f,
        0x61, 0x64, 0x65, 0x64, 0x20, 0x61, 0x6e, 0x79, 0x20, 0x72, 0x65, 0x77, 0x72, 0x69,
        0x74, 0x65, 0x73, 0x20, 0x79, 0x65, 0x74, 0x21,
    ]
}

fn msg_no_rules() -> (r: Vec<u8>)
    ensures
        r@ == no_rules_msg(),
{
    let v: Vec<u8> = vec![
        0x59u8, 0x6f, 0x75, 0x20, 0x68, 0x61, 0x76, 0x65, 0x6e, 0x27, 0x74, 0x20, 0x6c, 0x6f,
        0x61, 0x64, 0x65, 0x64, 0x20, 0x61, 0x6e, 0x79, 0x20, 0x72, 0x65, 0x77, 0x72, 0x69,
        0x74, 0x65, 0x73, 0x20, 0x79, 0x65, 0x74, 0x21,
    ];
    proof {
        assert(v@ =~= no_rules_msg());
    }
    v
}

fn append_bytes(v: &mut Vec<u8>, s: &Vec<u8>)
    requires
        old(v)@.len() > 0,
    ensures
        final(v)@.len() > 0,
{
    let mut i: usize = 0;
    let n = s.len();
    while i < n
        invariant
            0 <= i <= n,
            n == s@.len(),
            v@.len() > 0,
        decreases n - i,
    {
        v.push(s[i]);
        i = i + 1;
    }
}

/// "Failed to parse <side> of <name>: <pattern text>", naming the side that
/// was refused, or the unbound right-side variable.
fn msg_bad_rule(t: &RuleText) -> (r: Vec<u8>)
    ensures
        r@.len() > 0,
{
    // "Failed to parse "
    let mut v: Vec<u8> = vec![
        0x46u8, 0x61, 0x69, 0x6c, 0x65, 0x64, 0x20, 0x74, 0x6f, 0x20, 0x70, 0x61, 0x72, 0x73,
        0x65, 0x20,
    ];
    let lhs_bad = parse_term_text(&t.lhs).is_none();
    let rhs_bad = parse_term_text(&t.rhs).is_none();
    if lhs_bad {
        // "lhs of "
        let side: Vec<u8> = vec![0x6cu8, 0x68, 0x73, 0x20, 0x6f, 0x66, 0x20];
        append_bytes(&mut v, &side);
        append_bytes(&mut v, &t.name);
        let sep: Vec<u8> = vec![0x3au8, 0x20];
        append_bytes(&mut v, &sep);
        append_bytes(&mut v, &t.lhs);
    } else if rhs_bad {
        // "rhs of "
        let side: Vec<u8> = vec![0x72u8, 0x68, 0x73, 0x20, 0x6f, 0x66, 0x20];
        append_bytes(&mut v, &side);
        append_bytes(&mut v, &t.name);
        let sep: Vec<u8> = vec![0x3au8, 0x20];
        append_bytes(&mut v, &sep);
        append_bytes(&mut v, &t.rhs);
    } else {
        // "rewrite <name>: rhs variable unbound in lhs: <rhs>"
        let side: Vec<u8> = vec![0x72u8, 0x65, 0x77, 0x72, 0x69, 0x74, 0x65, 0x20];
        append_bytes(&mut v, &side);
        append_bytes(&mut v, &t.name);
        let sep: Vec<u8> = vec![
            0x3au8, 0x20, 0x72, 0x68, 0x73, 0x20, 0x76, 0x61, 0x72, 0x69, 0x61, 0x62, 0x6c,
            0x65, 0x20, 0x75, 0x6e, 0x62, 0x6f, 0x75, 0x6e, 0x64, 0x20, 0x69, 0x6e, 0x20,
            0x6c, 0x68, 0x73, 0x3a, 0x20,
        ];
        append_bytes(&mut v, &sep);
        append_bytes(&mut v, &t.rhs);
    }
    v
}

/// "Failed to parse expression".
fn msg_bad_expr() -> (r: Vec<u8>)
    ensures
        r@.len() > 0,
{
    let v: Vec<u8> = vec![
        0x46u8, 0x61, 0x69, 0x6c, 0x65, 0x64, 0x20, 0x74, 0x6f, 0x20, 0x70, 0x61, 0x72, 0x73,
        0x65, 0x20, 0x65, 0x78, 0x70, 0x72, 0x65, 0x73, 0x73, 0x69, 0x6f, 0x6e,
    ];
    v
}

/// "Extraction failed".
fn msg_extract_failed() -> (r: Vec<u8>)
    ensures
        r@.len() > 0,
{
    let v: Vec<u8> = vec![
        0x45u8, 0x78, 0x74, 0x72, 0x61, 0x63, 0x74, 0x69, 0x6f, 0x6e, 0x20, 0x66, 0x61, 0x69,
        0x6c, 0x65, 0x64,
    ];
    v
}

/// A rule text is acceptable: both sides parse as patterns and the right
/// side binds no variable the left side does not.
pub open spec fn rule_ok(t: RuleText) -> bool {
    crate::rewrite::rule_text_ok(t.lhs@, t.rhs@)
}

/// The rule is exactly the one the text denotes.
pub open spec fn rule_of_text(rw: Rewrite, t: RuleText) -> bool {
    &&& rw.name@ == t.name@
    &&& (crate::parse::sexp_of(t.lhs@) matches Some(l) && rw.lhs@ == crate::parse::pat_of(l))
    &&& (crate::parse::sexp_of(t.rhs@) matches Some(r) && rw.rhs@ == crate::parse::pat_of(r))
    &&& rw_wf(rw)
}

/// Parse every rule text; succeeds exactly when every text is acceptable,
/// and then returns precisely the denoted rules.
fn parse_rules(texts: &Vec<RuleText>) -> (r: Result<Vec<Rewrite>, Vec<u8>>)
    ensures
        r is Ok <==> (forall|i: int| 0 <= i < texts@.len() ==> rule_ok(#[trigger] texts@[i])),
        r matches Ok(rules) ==> rules@.len() == texts@.len() && forall|i: int|
            0 <= i < rules@.len() ==> rule_of_text(#[trigger] rules@[i], texts@[i]),
        r matches Err(e) ==> e@.len() > 0,
{
    let n = texts.len();
    let mut rules: Vec<Rewrite> = Vec::new();
    let mut i: usize = 0;
    while i < n
        invariant
            0 <= i <= n,
            n == texts@.len(),
            rules@.len() == i,
            forall|j: int| 0 <= j < i ==> rule_of_text(#[trigger] rules@[j], texts@[j]),
            forall|j: int| 0 <= j < i ==> rule_ok(#[trigger] texts@[j]),
        decreases n - i,
    {
        let t = &texts[i];
        match make_rewrite(&t.name, &t.lhs, &t.rhs) {
            None => {
                proof {
                    assert(!rule_ok(texts@[i as int]));
                }
                return Err(msg_bad_rule(t));
            },
            Some(rw) => {
                rules.push(rw);
            },
        }
        i = i + 1;
    }
    Ok(rules)
}

/// Default iteration budget for a saturation run.
pub const ITER_LIMIT: usize = 30;

/// Node budget for simplification runs.
pub const NODE_LIMIT: usize = 10000;

/// Node budget for one-shot proof runs, whose worst case is saturation.
pub const PERFORM_NODE_LIMIT: usize = 2000;

/// Expansion budget for explanation search.
pub const EXPLAIN_BUDGET: usize = 4000;

impl State {
    /// Handle one request. Errors never change the session; only a
    /// successful load replaces the rule set, and then with exactly the
    /// rules the request's texts denote.
    pub fn handle_request(&mut self, req: Request) -> (resp: Response)
        requires
            state_wf(*old(self)),
        ensures
            state_wf(*final(self)),
            !(resp is LoadRewrites) ==> *final(self) == *old(self),
            resp matches Response::LoadRewrites { n } ==> n == final(self).rewrites@.len(),
            req is Version ==> (resp matches Response::Version { version } && version@
                == crate::version_spec()),
            req matches Request::LoadRewrites { rewrites } ==> ((resp is LoadRewrites <==> (
            forall|i: int| 0 <= i < rewrites@.len() ==> rule_ok(#[trigger] rewrites@[i])))
                && (resp is LoadRewrites || resp is Error) && (resp is LoadRewrites
                ==> final(self).rewrites@.len() == rewrites@.len() && (forall|i: int|
                0 <= i < rewrites@.len() ==> rule_of_text(
                    #[trigger] final(self).rewrites@[i],
                    rewrites@[i],
                )))),
            req matches Request::SimplifyExpressions { .. } ==> (resp is SimplifyExpressions
                || resp is Error),
            (req matches Request::SimplifyExpressions { .. } && old(self).rewrites@.len() == 0)
                ==> (resp matches Response::Error { error } && error@ == no_rules_msg()),
            (req matches Request::SimplifyExpressions { exprs, .. } && (exists|i: int|
                0 <= i < exprs@.len() && crate::parse::sexp_of((#[trigger] exprs@[i])@)
                    is None)) ==> resp is Error,
            req matches Request::SimplifyExpressions { exprs, .. } ==> (resp matches
                Response::SimplifyExpressions { best, .. } ==> best@.len() == exprs@.len()),
            req matches Request::PerformRewrite { .. } ==> ((resp matches
                Response::PerformRewrite { success, explanation } && (success <==> explanation@.len() > 0))
                || resp is Error),
            req matches Request::PerformRewrite { rewrites, target_lhs, target_rhs } ==> (
            resp is PerformRewrite <==> ((forall|i: int|
                0 <= i < rewrites@.len() ==> rule_ok(#[trigger] rewrites@[i]))
                && crate::parse::sexp_of(target_lhs@) is Some && crate::parse::sexp_of(
                target_rhs@,
            ) is Some)),
            req matches Request::PerformRewrite { rewrites, target_lhs, target_rhs } ==> ((
            (forall|i: int| 0 <= i < rewrites@.len() ==> rule_ok(#[trigger] rewrites@[i]))
                && crate::parse::sexp_of(target_lhs@) is Some && crate::parse::sexp_of(
                target_lhs@,
            ) == crate::parse::sexp_of(target_rhs@)) ==> (resp matches
                Response::PerformRewrite { success, .. } && success)),
            req matches Request::PerformRewrite { rewrites, target_lhs, target_rhs } ==> (resp
                matches Response::PerformRewrite { success: true, explanation } ==> exists|
                rs: Seq<Rewrite>,
                ch: Seq<crate::term::TermV>,
            |
                {
                    &&& rs.len() == rewrites@.len()
                    &&& (forall|i: int|
                        0 <= i < rs.len() ==> rule_of_text(#[trigger] rs[i], rewrites@[i]))
                    &&& ch.len() == explanation@.len()
                    &&& ch.len() > 0
                    &&& #[trigger] crate::explain::chain_ok(rs, ch)
                    &&& ch.first() == crate::parse::sexp_of(target_lhs@)->Some_0
                    &&& ch.last() == crate::parse::sexp_of(target_rhs@)->Some_0
                    &&& forall|i: int|
                        0 <= i < ch.len() ==> (#[trigger] explanation@[i])@
                            == crate::printer::print_term_sp(ch[i])
                }),
    {
        match req {
            Request::Version => {
                Response::Version { version: crate::version_bytes() }
            },
            Request::LoadRewrites { rewrites } => {
                match parse_rules(&rewrites) {
                    Err(e) => Response::Error { error: e },
                    Ok(rules) => {
                        let n = rules.len();
                        self.rewrites = rules;
                        Response::LoadRewrites { n }
                    },
                }
            },
            Request::SimplifyExpressions { exprs, constant_fold, prune } => {
                if self.rewrites.len() == 0 {
                    return Response::Error { error: msg_no_rules() };
                }
                self.simplify(&exprs)
            },
            Request::PerformRewrite { rewrites, target_lhs, target_rhs } => {
                match parse_rules(&rewrites) {
                    Err(e) => Response::Error { error: e },
                    Ok(rules) => {
                        let resp = Self::perform_rewrite(&rules, &target_lhs, &target_rhs);
                        proof {
                            if resp is PerformRewrite && resp->PerformRewrite_success {
                                let expl = resp->PerformRewrite_explanation;
                                let ch = choose|ch: Seq<crate::term::TermV>|
                                    {
                                        &&& ch.len() == expl@.len()
                                        &&& ch.len() > 0
                                        &&& #[trigger] crate::explain::chain_ok(rules@, ch)
                                        &&& ch.first() == crate::parse::sexp_of(
                                            target_lhs@,
                                        )->Some_0
                                        &&& ch.last() == crate::parse::sexp_of(
                                            target_rhs@,
                                        )->Some_0
                                        &&& forall|i: int|
                                            0 <= i < ch.len() ==> (#[trigger] expl@[i])@
                                                == crate::printer::print_term_sp(ch[i])
                                    };
                                assert(rules@.len() == rewrites@.len() && (forall|i: int|
                                    0 <= i < rules@.len() ==> rule_of_text(
                                        #[trigger] rules@[i],
                                        rewrites@[i],
                                    )) && ch.len() == expl@.len() && ch.len() > 0
                                    && crate::explain::chain_ok(rules@, ch) && ch.first()
                                    == crate::parse::sexp_of(target_lhs@)->Some_0 && ch.last()
                                    == crate::parse::sexp_of(target_rhs@)->Some_0 && (forall|
                                    i: int,
                                |
                                    0 <= i < ch.len() ==> (#[trigger] expl@[i])@
                                        == crate::printer::print_term_sp(ch[i])));
                            }
                        }
                        resp
                    },
                }
            },
        }
    }

    /// Build one e-graph holding every expression, saturate under the
    /// session's rules, and report best-cost forms before and after.
    fn simplify(&self, exprs: &Vec<Vec<u8>>) -> (resp: Response)
        ensures
            resp is SimplifyExpressions || resp is Error,
            (exists|i: int|
                0 <= i < exprs@.len() && crate::parse::sexp_of((#[trigger] exprs@[i])@) is None)
                ==> resp is Error,
            resp matches Response::SimplifyExpressions { iterations, best } ==> best@.len()
                == exprs@.len(),
    {
        let mut g = EGraph::new_graph();
        let mut roots: Vec<usize> = Vec::new();
        let ne = exprs.len();
        let mut i: usize = 0;
        while i < ne
            invariant
                crate::egraph::wf(g),
                g.pending@.len() == 0,
                0 <= i <= ne,
                ne == exprs@.len(),
                roots@.len() == i,
                forall|j: int|
                    0 <= j < i ==> ((#[trigger] roots@[j]) as int) < crate::egraph::n_classes(g),
                forall|j: int|
                    0 <= j < i ==> crate::parse::sexp_of((#[trigger] exprs@[j])@) is Some,
            decreases ne - i,
        {
            let t = match parse_term_text(&exprs[i]) {
                None => {
                    return Response::Error { error: msg_bad_expr() };
                },
                Some(t) => t,
            };
            let id = g.add(&t);
            roots.push(id);
            i = i + 1;
        }
        let ghost all_parse = forall|j: int|
            0 <= j < ne ==> crate::parse::sexp_of((#[trigger] exprs@[j])@) is Some;
        // costs before any rewriting
        let costs0 = g.compute_costs();
        let mut initial: Vec<(u64, Vec<u8>)> = Vec::new();
        let nr = roots.len();
        let mut j: usize = 0;
        while j < nr
            invariant
                crate::egraph::wf(g),
                g.pending@.len() == 0,
                0 <= j <= nr,
                nr == roots@.len(),
                nr == exprs@.len(),
                initial@.len() == j,
                costs0@.len() == crate::egraph::n_classes(g),
                forall|x: int|
                    0 <= x < nr ==> ((#[trigger] roots@[x]) as int) < crate::egraph::n_classes(
                        g,
                    ),
            decreases nr - j,
        {
            let rc = g.find(roots[j]);
            let cost = match costs0[rc] {
                None => {
                    return Response::Error { error: msg_extract_failed() };
                },
                Some(x) => x,
            };
            let t = match g.extract_term(&costs0, roots[j], cost) {
                None => {
                    return Response::Error { error: msg_extract_failed() };
                },
                Some(t) => t,
            };
            initial.push((cost, print_term(&t)));
            j = j + 1;
        }
        // saturate
        let report = g.run_rules(&self.rewrites, ITER_LIMIT, NODE_LIMIT);
        // costs afterwards
        let costs1 = g.compute_costs();
        let mut best: Vec<Comparison> = Vec::new();
        let mut k: usize = 0;
        while k < nr
            invariant
                crate::egraph::wf(g),
                g.pending@.len() == 0,
                0 <= k <= nr,
                nr == roots@.len(),
                nr == exprs@.len(),
                nr == initial@.len(),
                best@.len() == k,
                costs1@.len() == crate::egraph::n_classes(g),
                forall|x: int|
                    0 <= x < nr ==> ((#[trigger] roots@[x]) as int) < crate::egraph::n_classes(
                        g,
                    ),
            decreases nr - k,
        {
            let rc = g.find(roots[k]);
            let fcost = match costs1[rc] {
                None => {
                    return Response::Error { error: msg_extract_failed() };
                },
                Some(x) => x,
            };
            let ft = match g.extract_term(&costs1, roots[k], fcost) {
                None => {
                    return Response::Error { error: msg_extract_failed() };
                },
                Some(t) => t,
            };
            let (icost, iexpr) = &initial[k];
            best.push(
                Comparison {
                    initial_expr: copy_all(iexpr),
                    initial_cost: *icost,
                    final_expr: print_term(&ft),
                    final_cost: fcost,
                },
            );
            k = k + 1;
        }
        Response::SimplifyExpressions { iterations: report.iterations, best }
    }

    /// One-shot proof request: saturate a fresh e-graph holding both
    /// targets, then search for a derivation chain between them. A positive
    /// answer always carries a derivation chain whose every step one of the
    /// given rules justifies; structurally identical targets always succeed.
    fn perform_rewrite(rules: &Vec<Rewrite>, target_lhs: &Vec<u8>, target_rhs: &Vec<u8>) -> (resp:
        Response)
        ensures
            (resp matches Response::PerformRewrite { success, explanation } ==> (success
                <==> explanation@.len() > 0)),
            resp is PerformRewrite || resp is Error,
            (crate::parse::sexp_of(target_lhs@) is None || crate::parse::sexp_of(target_rhs@)
                is None) <==> resp is Error,
            (crate::parse::sexp_of(target_lhs@) is Some && crate::parse::sexp_of(target_lhs@)
                == crate::parse::sexp_of(target_rhs@)) ==> (resp matches
                Response::PerformRewrite { success, .. } && success),
            resp matches Response::PerformRewrite { success: true, explanation } ==> (exists|
                ch: Seq<crate::term::TermV>,
            |
                {
                    &&& ch.len() == explanation@.len()
                    &&& ch.len() > 0
                    &&& #[trigger] crate::explain::chain_ok(rules@, ch)
                    &&& ch.first() == crate::parse::sexp_of(target_lhs@)->Some_0
                    &&& ch.last() == crate::parse::sexp_of(target_rhs@)->Some_0
                    &&& forall|i: int|
                        0 <= i < ch.len() ==> (#[trigger] explanation@[i])@
                            == crate::printer::print_term_sp(ch[i])
                }),
    {
        let lt = match parse_term_text(target_lhs) {
            None => {
                return Response::Error { error: msg_bad_expr() };
            },
            Some(t) => t,
        };
        let rt = match parse_term_text(target_rhs) {
            None => {
                return Response::Error { error: msg_bad_expr() };
            },
            Some(t) => t,
        };
        let mut g = EGraph::new_graph();
        let c1 = g.add(&lt);
        let ghost g_after_first = g;
        let c2 = g.add(&rt);
        proof {
            if lt@ == rt@ {
                assert(crate::egraph::lookup_term(g_after_first, rt@) == Some(c1));
                assert(c2 == c1);
            }
        }
        // saturate, stopping early once the two roots are already equal
        let mut it: usize = 0;
        let mut done = false;
        while it < ITER_LIMIT && !done
            invariant
                crate::egraph::wf(g),
                g.pending@.len() == 0,
                (c1 as int) < crate::egraph::n_classes(g),
                (c2 as int) < crate::egraph::n_classes(g),
                0 <= it <= ITER_LIMIT,
            decreases ITER_LIMIT - it,
        {
            let e1 = g.find(c1);
            let e2 = g.find(c2);
            if e1 == e2 {
                done = true;
            } else {
                let st = g.run_one(rules, PERFORM_NODE_LIMIT);
                if st.applied == 0 {
                    done = true;
                }
                if st.enodes > PERFORM_NODE_LIMIT {
                    done = true;
                }
            }
            it = it + 1;
        }
        let r1 = g.find(c1);
        let r2 = g.find(c2);
        if r1 == r2 {
            match find_chain(&g, rules, &lt, &rt, c1, EXPLAIN_BUDGET) {
                Some(chain) => {
                    let ghost chv = crate::term::terms_view(chain@);
                    proof {
                        crate::term::lemma_terms_view_len(chain@);
                    }
                    let mut out: Vec<Vec<u8>> = Vec::new();
                    let cn = chain.len();
                    let mut ci: usize = 0;
                    while ci < cn
                        invariant
                            0 <= ci <= cn,
                            cn == chain@.len(),
                            chv == crate::term::terms_view(chain@),
                            chv.len() == cn,
                            out@.len() == ci,
                            forall|x: int|
                                0 <= x < ci ==> (#[trigger] out@[x])@
                                    == crate::printer::print_term_sp(chv[x]),
                        decreases cn - ci,
                    {
                        proof {
                            crate::term::lemma_terms_view_index(chain@, ci as int);
                        }
                        out.push(print_term(&chain[ci]));
                        ci = ci + 1;
                    }
                    proof {
                        assert(chv.len() == out@.len() && chv.len() > 0
                            && crate::explain::chain_ok(rules@, chv) && chv.first() == lt@
                            && chv.last() == rt@);
                    }
                    Response::PerformRewrite { success: true, explanation: out }
                },
                None => {
                    proof {
                        assert(lt@ != rt@);
                    }
                    Response::PerformRewrite { success: false, explanation: Vec::new() }
                },
            }
        } else {
            proof {
                if lt@ == rt@ {
                    assert(false);
                }
            }
            Response::PerformRewrite { success: false, explanation: Vec::new() }
        }
    }
}

} // verus!
