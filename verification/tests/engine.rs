use saturate::egraph::EGraph;
use saturate::parse::parse_term_text;
use saturate::printer::print_term;
use saturate::protocol::{Request, Response, RuleText, State};
use saturate::rewrite::make_rewrite;
use saturate::extract::{AstSizeFive, AstTarget};

fn b(s: &str) -> Vec<u8> {
    s.as_bytes().to_vec()
}

fn parse(s: &str) -> saturate::term::Term {
    parse_term_text(&b(s)).expect("expected the expression to parse")
}

fn rule(name: &str, lhs: &str, rhs: &str) -> RuleText {
    RuleText { name: b(name), lhs: b(lhs), rhs: b(rhs) }
}

fn group_rules() -> Vec<RuleText> {
    vec![
        rule("assoc-mul", "(* ?a (* ?b ?c))", "(* (* ?a ?b) ?c)"),
        rule("assoc-mul'", "(* (* ?a ?b) ?c)", "(* ?a (* ?b ?c))"),
        rule("one-mul", "(* 1 ?a)", "?a"),
        rule("inv-left", "(* (^-1 ?a) ?a)", "1"),
        rule("inv-left'", "1", "(* (^-1 a) a)"),
        rule("mul-one", "(* ?a 1)", "?a"),
        rule("mul-one'", "?a", "(* ?a 1)"),
        rule("inv-right", "(* ?a (^-1 ?a))", "1"),
    ]
}

#[test]
fn version_response_is_nonempty() {
    let mut st = State::default();
    let resp = st.handle_request(Request::Version);
    match resp {
        Response::Version { version } => {
            assert!(!version.is_empty());
            assert_eq!(version, b"0.1.0".to_vec());
        }
        _ => panic!("expected a version response"),
    }
}

#[test]
fn load_one_commutativity_rule() {
    let mut st = State::default();
    let resp = st.handle_request(Request::LoadRewrites {
        rewrites: vec![rule("comm", "(+ ?a ?b)", "(+ ?b ?a)")],
    });
    match resp {
        Response::LoadRewrites { n } => assert_eq!(n, 1),
        _ => panic!("expected a load response"),
    }
}

#[test]
fn simplify_without_rules_is_an_error() {
    let mut st = State::default();
    let resp = st.handle_request(Request::SimplifyExpressions {
        exprs: vec![b("(+ a b)")],
        constant_fold: true,
        prune: true,
    });
    match resp {
        Response::Error { error } => {
            let text = String::from_utf8(error).unwrap();
            assert!(text.contains("loaded any rewrites"));
        }
        _ => panic!("expected an error response"),
    }
}

#[test]
fn rule_with_unbound_rhs_variable_is_rejected() {
    let mut st = State::default();
    let resp = st.handle_request(Request::LoadRewrites {
        rewrites: vec![rule("bad", "(+ ?a ?a)", "(+ ?a ?b)")],
    });
    match resp {
        Response::Error { error } => assert!(!error.is_empty()),
        _ => panic!("expected an error response"),
    }
}

#[test]
fn group_double_inverse_is_proven() {
    let mut st = State::default();
    let resp = st.handle_request(Request::PerformRewrite {
        rewrites: group_rules(),
        target_lhs: b("(^-1 (^-1 a))"),
        target_rhs: b("a"),
    });
    match resp {
        Response::PerformRewrite { success, explanation } => {
            assert!(success);
            assert!(!explanation.is_empty());
            let first = String::from_utf8(explanation[0].clone()).unwrap();
            let last = String::from_utf8(explanation[explanation.len() - 1].clone()).unwrap();
            assert_eq!(first, "(^-1 (^-1 a))");
            assert_eq!(last, "a");
        }
        _ => panic!("expected a perform-rewrite response"),
    }
}

#[test]
fn group_unrelated_symbol_is_not_proven() {
    let mut st = State::default();
    let resp = st.handle_request(Request::PerformRewrite {
        rewrites: group_rules(),
        target_lhs: b("(^-1 (^-1 a))"),
        target_rhs: b("b"),
    });
    match resp {
        Response::PerformRewrite { success, explanation } => {
            assert!(!success);
            assert!(explanation.is_empty());
        }
        _ => panic!("expected a perform-rewrite response"),
    }
}

#[test]
fn insertion_is_idempotent() {
    let mut g = EGraph::new_graph();
    let t = parse("(+ (f a) b)");
    let c1 = g.add(&t);
    let c2 = g.add(&t);
    assert_eq!(c1, c2);
    let t2 = parse("(+ (f a) b)");
    let c3 = g.add(&t2);
    assert_eq!(c1, c3);
}

#[test]
fn congruence_is_restored_by_rebuild() {
    let mut g = EGraph::new_graph();
    let fa = parse("(f a)");
    let fb = parse("(f b)");
    let a = parse("a");
    let bb = parse("b");
    let cfa = g.add(&fa);
    let cfb = g.add(&fb);
    let ca = g.add(&a);
    let cb = g.add(&bb);
    assert_ne!(g.find(cfa), g.find(cfb));
    g.union(ca, cb);
    g.rebuild();
    // congruence: f applied to equal children must land in equal classes
    assert_eq!(g.find(cfa), g.find(cfb));
}

#[test]
fn terms_stay_represented_across_unions() {
    let mut g = EGraph::new_graph();
    let t1 = parse("(g x y)");
    let t2 = parse("(g y x)");
    let c1 = g.add(&t1);
    let c2 = g.add(&t2);
    g.union(c1, c2);
    g.rebuild();
    // monotonicity: both terms are still represented, now in one class
    let l1 = g.lookup_nomut(&t1).expect("first term still present");
    let l2 = g.lookup_nomut(&t2).expect("second term still present");
    assert_eq!(g.find(l1), g.find(l2));
}

#[test]
fn parser_accepts_the_grammar() {
    assert!(parse_term_text(&b("(+ a b)")).is_some());
    assert!(parse_term_text(&b("x")).is_some());
    assert!(parse_term_text(&b("  (f (g a) b)  ")).is_some());
    assert!(parse_term_text(&b("(f)")).is_some());
    assert!(parse_term_text(&b("(")).is_none());
    assert!(parse_term_text(&b("(f a))")).is_none());
    assert!(parse_term_text(&b("")).is_none());
    assert!(parse_term_text(&b("()")).is_none());
    assert!(parse_term_text(&b("a b")).is_none());
}

#[test]
fn printing_inverts_parsing() {
    let t = parse("(+ (* a 1) (f b c))");
    let printed = print_term(&t);
    assert_eq!(String::from_utf8(printed.clone()).unwrap(), "(+ (* a 1) (f b c))");
    let again = parse_term_text(&printed).expect("printed form parses back");
    assert!(t.equals(&again));
}

#[test]
fn extraction_computes_structural_size() {
    let mut g = EGraph::new_graph();
    let t = parse("(+ a b)");
    let c = g.add(&t);
    let costs = g.compute_costs();
    let rc = g.find(c);
    assert_eq!(costs[rc], Some(3));
    let best = g.extract_term(&costs, c, 3).expect("extraction succeeds");
    assert_eq!(String::from_utf8(print_term(&best)).unwrap(), "(+ a b)");
}

#[test]
fn extraction_is_reproducible() {
    let mut g = EGraph::new_graph();
    let t = parse("(* (+ a b) c)");
    let c = g.add(&t);
    let costs1 = g.compute_costs();
    let costs2 = g.compute_costs();
    assert_eq!(costs1, costs2);
    let rc = g.find(c);
    let e1 = g.extract_term(&costs1, c, costs1[rc].unwrap()).unwrap();
    let e2 = g.extract_term(&costs2, c, costs2[rc].unwrap()).unwrap();
    assert!(e1.equals(&e2));
}

#[test]
fn simplification_finds_the_smaller_form() {
    let mut st = State::default();
    let load = st.handle_request(Request::LoadRewrites {
        rewrites: vec![rule("mul-one", "(* ?a 1)", "?a")],
    });
    assert!(matches!(load, Response::LoadRewrites { n: 1 }));
    let resp = st.handle_request(Request::SimplifyExpressions {
        exprs: vec![b("(* x 1)")],
        constant_fold: true,
        prune: true,
    });
    match resp {
        Response::SimplifyExpressions { iterations, best } => {
            assert!(!iterations.is_empty());
            assert_eq!(best.len(), 1);
            assert_eq!(String::from_utf8(best[0].initial_expr.clone()).unwrap(), "(* x 1)");
            assert_eq!(best[0].initial_cost, 3);
            assert_eq!(String::from_utf8(best[0].final_expr.clone()).unwrap(), "x");
            assert_eq!(best[0].final_cost, 1);
        }
        _ => panic!("expected a simplify response"),
    }
}

#[test]
fn malformed_expression_in_simplify_is_an_error() {
    let mut st = State::default();
    st.handle_request(Request::LoadRewrites {
        rewrites: vec![rule("comm", "(+ ?a ?b)", "(+ ?b ?a)")],
    });
    let resp = st.handle_request(Request::SimplifyExpressions {
        exprs: vec![b("(+ a")],
        constant_fold: true,
        prune: true,
    });
    assert!(matches!(resp, Response::Error { .. }));
}

#[test]
fn bad_rule_leaves_session_untouched() {
    let mut st = State::default();
    st.handle_request(Request::LoadRewrites {
        rewrites: vec![rule("comm", "(+ ?a ?b)", "(+ ?b ?a)")],
    });
    let resp = st.handle_request(Request::LoadRewrites {
        rewrites: vec![rule("broken", "(+ ?a", "?a")],
    });
    assert!(matches!(resp, Response::Error { .. }));
    // the earlier rule set still works
    let resp2 = st.handle_request(Request::SimplifyExpressions {
        exprs: vec![b("(+ a b)")],
        constant_fold: true,
        prune: true,
    });
    assert!(matches!(resp2, Response::SimplifyExpressions { .. }));
}

#[test]
fn target_cost_is_flat() {
    let target = parse("a");
    let cf = AstTarget::new(target);
    assert_eq!(cf.cost(&b("+"), &vec![1, 2]), 100);
    assert_eq!(cf.cost(&b("ANSWER"), &vec![]), 100);
}

#[test]
fn size_five_cost_prefers_total_size_five() {
    let cf = AstSizeFive;
    assert_eq!(cf.cost(&vec![2, 2]), 1);
    assert_eq!(cf.cost(&vec![1, 1]), 100);
    assert_eq!(cf.cost(&vec![]), 100);
    assert_eq!(cf.cost(&vec![4]), 1);
}

#[test]
fn make_rewrite_requires_both_sides_to_parse() {
    assert!(make_rewrite(&b("r"), &b("(+ ?a ?b)"), &b("(+ ?b ?a)")).is_some());
    assert!(make_rewrite(&b("r"), &b("(+ ?a"), &b("?a")).is_none());
    assert!(make_rewrite(&b("r"), &b("?a"), &b("(+ ?a")).is_none());
    assert!(make_rewrite(&b("r"), &b("?a"), &b("?b")).is_none());
}

#[test]
fn explanation_steps_are_rule_applications() {
    // every adjacent pair of a returned chain must be re-derivable by
    // applying one named rule somewhere in the first term
    let mut st = State::default();
    let resp = st.handle_request(Request::PerformRewrite {
        rewrites: group_rules(),
        target_lhs: b("(^-1 (^-1 a))"),
        target_rhs: b("a"),
    });
    let explanation = match resp {
        Response::PerformRewrite { success: true, explanation } => explanation,
        _ => panic!("expected a successful proof"),
    };
    let rules: Vec<_> = group_rules()
        .into_iter()
        .map(|r| make_rewrite(&r.name, &r.lhs, &r.rhs).expect("rule parses"))
        .collect();
    for pair in explanation.windows(2) {
        let t1 = parse_term_text(&pair[0]).expect("chain term parses");
        let t2 = parse_term_text(&pair[1]).expect("chain term parses");
        let mut derivable = false;
        for r in &rules {
            let mut fwd = Vec::new();
            saturate::explain::rewrites_of(&r.lhs, &r.rhs, &t1, &mut fwd);
            let mut bwd = Vec::new();
            saturate::explain::rewrites_of(&r.rhs, &r.lhs, &t1, &mut bwd);
            if fwd.iter().chain(bwd.iter()).any(|c| c.equals(&t2)) {
                derivable = true;
            }
        }
        assert!(derivable, "step not derivable by any single rule");
    }
}

#[test]
fn identical_targets_trivially_succeed() {
    // inserting the same ground term twice yields the same e-class id, so
    // a proof request with identical targets succeeds with no rules at all
    let mut st = State::default();
    let resp = st.handle_request(Request::PerformRewrite {
        rewrites: vec![],
        target_lhs: b("(+ a b)"),
        target_rhs: b("(+ a b)"),
    });
    match resp {
        Response::PerformRewrite { success, explanation } => {
            assert!(success);
            assert_eq!(explanation.len(), 1);
            assert_eq!(String::from_utf8(explanation[0].clone()).unwrap(), "(+ a b)");
        }
        _ => panic!("expected a perform-rewrite response"),
    }
}

#[test]
fn rule_error_names_the_failing_side() {
    let mut st = State::default();
    let resp = st.handle_request(Request::LoadRewrites {
        rewrites: vec![rule("broken", "(+ ?a", "?a")],
    });
    match resp {
        Response::Error { error } => {
            let text = String::from_utf8(error).unwrap();
            assert!(text.contains("lhs of broken"));
            assert!(text.contains("(+ ?a"));
        }
        _ => panic!("expected an error response"),
    }
    let resp2 = st.handle_request(Request::LoadRewrites {
        rewrites: vec![rule("broken2", "?a", "(+ ?b")],
    });
    match resp2 {
        Response::Error { error } => {
            let text = String::from_utf8(error).unwrap();
            assert!(text.contains("rhs of broken2"));
        }
        _ => panic!("expected an error response"),
    }
    let resp3 = st.handle_request(Request::LoadRewrites {
        rewrites: vec![rule("unbound", "?a", "?b")],
    });
    match resp3 {
        Response::Error { error } => {
            let text = String::from_utf8(error).unwrap();
            assert!(text.contains("unbound"));
        }
        _ => panic!("expected an error response"),
    }
}
