//! Parsing of parenthesized prefix notation: `(op child1 child2 ...)`,
//! where a bare atom is a 0-ary operator.
//!
//! The executable parser is proved equal to the specification-level parser
//! `sexp_of`, so a caller knows exactly which inputs parse and to what.

use vstd::prelude::*;
use crate::term::{Term, TermV, Pattern, PatV, is_atom_byte, terms_view, lemma_terms_view_len,
    lemma_terms_view_index};

verus! {

/// Inputs longer than this are rejected outright, so that the parser's
/// internal fuel arithmetic stays inside `usize`.
pub const MAX_INPUT_LEN: usize = 0x0100_0000;

pub open spec fn is_ws(b: u8) -> bool {
    b == 0x20 || b == 0x09 || b == 0x0a || b == 0x0d
}

pub open spec fn skip_ws_sp(s: Seq<u8>, i: int) -> int
    decreases s.len() - i,
    when 0 <= i <= s.len()
{
    if i < s.len() && is_ws(s[i]) {
        skip_ws_sp(s, i + 1)
    } else {
        i
    }
}

pub open spec fn atom_end_sp(s: Seq<u8>, i: int) -> int
    decreases s.len() - i,
    when 0 <= i <= s.len()
{
    if i < s.len() && is_atom_byte(s[i]) {
        atom_end_sp(s, i + 1)
    } else {
        i
    }
}

pub proof fn lemma_skip_ws_range(s: Seq<u8>, i: int)
    requires
        0 <= i <= s.len(),
    ensures
        i <= skip_ws_sp(s, i) <= s.len(),
    decreases s.len() - i,
{
    if i < s.len() && is_ws(s[i]) {
        lemma_skip_ws_range(s, i + 1);
    }
}

pub proof fn lemma_atom_end_range(s: Seq<u8>, i: int)
    requires
        0 <= i <= s.len(),
    ensures
        i <= atom_end_sp(s, i) <= s.len(),
    decreases s.len() - i,
{
    if i < s.len() && is_atom_byte(s[i]) {
        lemma_atom_end_range(s, i + 1);
    }
}

/// One parsed term and the index just past it.
pub open spec fn parse_term_sp(s: Seq<u8>, i0: int, fuel: nat) -> Option<(TermV, int)>
    decreases fuel,
{
    if fuel == 0 {
        None
    } else {
        let i = skip_ws_sp(s, i0);
        if !(0 <= i < s.len()) {
            None
        } else if s[i] == 0x28 {
            let j = skip_ws_sp(s, i + 1);
            let e = atom_end_sp(s, j);
            if e == j {
                None
            } else {
                match parse_args_sp(s, e, (fuel - 1) as nat) {
                    None => None,
                    Some((args, k)) => Some((TermV { op: s.subrange(j, e), args }, k)),
                }
            }
        } else if s[i] == 0x29 {
            None
        } else {
            let e = atom_end_sp(s, i);
            Some((TermV { op: s.subrange(i, e), args: Seq::empty() }, e))
        }
    }
}

/// A `)`-terminated argument list and the index just past the `)`.
pub open spec fn parse_args_sp(s: Seq<u8>, i0: int, fuel: nat) -> Option<(Seq<TermV>, int)>
    decreases fuel,
{
    if fuel == 0 {
        None
    } else {
        let i = skip_ws_sp(s, i0);
        if !(0 <= i < s.len()) {
            None
        } else if s[i] == 0x29 {
            Some((Seq::empty(), i + 1))
        } else {
            match parse_term_sp(s, i, (fuel - 1) as nat) {
                None => None,
                Some((t, k)) => match parse_args_sp(s, k, (fuel - 1) as nat) {
                    None => None,
                    Some((ts, m)) => Some((ts.insert(0, t), m)),
                },
            }
        }
    }
}

pub open spec fn parse_fuel(s: Seq<u8>) -> nat {
    (4 * s.len() + 4) as nat
}

/// What the whole-input parser returns: a term covering the entire input
/// (up to surrounding whitespace), or nothing.
pub open spec fn sexp_of(s: Seq<u8>) -> Option<TermV> {
    if s.len() > MAX_INPUT_LEN {
        None
    } else {
        match parse_term_sp(s, 0, parse_fuel(s)) {
            None => None,
            Some((t, k)) => if 0 <= k <= s.len() && skip_ws_sp(s, k) == s.len() {
                Some(t)
            } else {
                None
            },
        }
    }
}

fn skip_ws(s: &Vec<u8>, i: usize) -> (r: usize)
    requires
        i <= s@.len(),
    ensures
        r == skip_ws_sp(s@, i as int),
        i <= r <= s@.len(),
{
    let mut j = i;
    while j < s.len() && is_ws_byte(s[j])
        invariant
            i <= j <= s@.len(),
            skip_ws_sp(s@, i as int) == skip_ws_sp(s@, j as int),
        decreases s@.len() - j,
    {
        j = j + 1;
    }
    j
}

fn is_ws_byte(b: u8) -> (r: bool)
    ensures
        r == is_ws(b),
{
    b == 0x20 || b == 0x09 || b == 0x0a || b == 0x0d
}

fn is_atom_byte_ex(b: u8) -> (r: bool)
    ensures
        r == is_atom_byte(b),
{
    b != 0x28 && b != 0x29 && b != 0x20 && b != 0x09 && b != 0x0a && b != 0x0d
}

fn atom_end(s: &Vec<u8>, i: usize) -> (r: usize)
    requires
        i <= s@.len(),
    ensures
        r == atom_end_sp(s@, i as int),
        i <= r <= s@.len(),
{
    let mut j = i;
    while j < s.len() && is_atom_byte_ex(s[j])
        invariant
            i <= j <= s@.len(),
            atom_end_sp(s@, i as int) == atom_end_sp(s@, j as int),
        decreases s@.len() - j,
    {
        j = j + 1;
    }
    j
}

fn copy_range(s: &Vec<u8>, i: usize, j: usize) -> (r: Vec<u8>)
    requires
        i <= j <= s@.len(),
    ensures
        r@ == s@.subrange(i as int, j as int),
{
    let mut out: Vec<u8> = Vec::new();
    let mut k = i;
    while k < j
        invariant
            i <= k <= j <= s@.len(),
            out@ =~= s@.subrange(i as int, k as int),
        decreases j - k,
    {
        out.push(s[k]);
        k = k + 1;
    }
    proof {
        assert(out@ =~= s@.subrange(i as int, j as int));
    }
    out
}

fn parse_term_ex(s: &Vec<u8>, i0: usize, fuel: usize) -> (r: Option<(Term, usize)>)
    requires
        i0 <= s@.len(),
    ensures
        r is None ==> parse_term_sp(s@, i0 as int, fuel as nat) is None,
        r matches Some(p) ==> parse_term_sp(s@, i0 as int, fuel as nat) == Some(
            (p.0@, p.1 as int),
        ) && p.1 <= s@.len(),
    decreases fuel,
{
    if fuel == 0 {
        return None;
    }
    let i = skip_ws(s, i0);
    if i >= s.len() {
        return None;
    }
    let b = s[i];
    if b == 0x28 {
        let j = skip_ws(s, i + 1);
        let e = atom_end(s, j);
        if e == j {
            return None;
        }
        let op = copy_range(s, j, e);
        match parse_args_ex(s, e, fuel - 1) {
            None => None,
            Some((args, k)) => {
                let t = Term { op, args };
                proof {
                    let ghost sp = parse_term_sp(s@, i0 as int, fuel as nat);
                    assert(t@.op =~= s@.subrange(j as int, e as int));
                }
                Some((t, k))
            },
        }
    } else if b == 0x29 {
        None
    } else {
        let e = atom_end(s, i);
        let op = copy_range(s, i, e);
        let t = Term { op, args: Vec::new() };
        proof {
            assert(terms_view(Seq::<Term>::empty()) =~= Seq::<TermV>::empty());
            assert(t@ =~= TermV { op: s@.subrange(i as int, e as int), args: Seq::empty() });
        }
        Some((t, e))
    }
}

fn parse_args_ex(s: &Vec<u8>, i0: usize, fuel: usize) -> (r: Option<(Vec<Term>, usize)>)
    requires
        i0 <= s@.len(),
    ensures
        r is None ==> parse_args_sp(s@, i0 as int, fuel as nat) is None,
        r matches Some(p) ==> parse_args_sp(s@, i0 as int, fuel as nat) == Some(
            (terms_view(p.0@), p.1 as int),
        ) && p.1 <= s@.len(),
    decreases fuel,
{
    if fuel == 0 {
        return None;
    }
    let i = skip_ws(s, i0);
    if i >= s.len() {
        return None;
    }
    if s[i] == 0x29 {
        proof {
            assert(terms_view(Seq::<Term>::empty()) =~= Seq::<TermV>::empty());
        }
        return Some((Vec::new(), i + 1));
    }
    match parse_term_ex(s, i, fuel - 1) {
        None => None,
        Some((t, k)) => {
            match parse_args_ex(s, k, fuel - 1) {
                None => None,
                Some((mut ts, m)) => {
                    let ghost old_ts = ts@;
                    ts.insert(0, t);
                    proof {
                        lemma_terms_view_insert_front(old_ts, t);
                    }
                    Some((ts, m))
                },
            }
        },
    }
}

proof fn lemma_terms_view_insert_front(ts: Seq<Term>, t: Term)
    ensures
        terms_view(ts.insert(0, t)) =~= terms_view(ts).insert(0, t@),
    decreases ts,
{
    lemma_terms_view_len(ts);
    lemma_terms_view_len(ts.insert(0, t));
    assert forall|j: int| 0 <= j < ts.len() + 1 implies terms_view(ts.insert(0, t))[j]
        == terms_view(ts).insert(0, t@)[j] by {
        lemma_terms_view_index(ts.insert(0, t), j);
        if j > 0 {
            lemma_terms_view_index(ts, j - 1);
            assert(ts.insert(0, t)[j] == ts[j - 1]);
        } else {
            assert(ts.insert(0, t)[0] == t);
        }
    }
}

/// Parse a whole input as one term; `None` exactly when `sexp_of` says so.
pub fn parse_term_text(s: &Vec<u8>) -> (r: Option<Term>)
    ensures
        r is None ==> sexp_of(s@) is None,
        r matches Some(t) ==> sexp_of(s@) == Some(t@),
{
    if s.len() > MAX_INPUT_LEN {
        return None;
    }
    let fuel: usize = 4 * s.len() + 4;
    match parse_term_ex(s, 0, fuel) {
        None => None,
        Some((t, k)) => {
            let rest = skip_ws(s, k);
            if rest == s.len() {
                Some(t)
            } else {
                None
            }
        },
    }
}

/// The pattern a term denotes: a leaf atom beginning with `?` is a variable.
pub open spec fn pat_of(t: TermV) -> PatV
    decreases t,
{
    if t.args.len() == 0 && t.op.len() >= 2 && t.op[0] == 0x3f {
        PatV::Var { name: t.op }
    } else {
        PatV::App { op: t.op, args: pats_of(t.args) }
    }
}

pub open spec fn pats_of(ts: Seq<TermV>) -> Seq<PatV>
    decreases ts,
{
    if ts.len() == 0 {
        Seq::empty()
    } else {
        pats_of(ts.drop_last()).push(pat_of(ts.last()))
    }
}

pub proof fn lemma_pats_of_index(ts: Seq<TermV>, i: int)
    requires
        0 <= i < ts.len(),
    ensures
        pats_of(ts).len() == ts.len(),
        pats_of(ts)[i] == pat_of(ts[i]),
    decreases ts,
{
    lemma_pats_of_len(ts);
    if ts.len() > 0 && i < ts.len() - 1 {
        lemma_pats_of_index(ts.drop_last(), i);
    }
}

pub proof fn lemma_pats_of_len(ts: Seq<TermV>)
    ensures
        pats_of(ts).len() == ts.len(),
    decreases ts,
{
    if ts.len() > 0 {
        lemma_pats_of_len(ts.drop_last());
    }
}

/// Rebuild a parsed term as a pattern.
pub fn term_to_pattern(t: &Term) -> (r: Pattern)
    ensures
        r@ == pat_of(t@),
    decreases *t,
{
    let no_args = t.args.len() == 0;
    proof {
        lemma_terms_view_len(t.args@);
    }
    if no_args && t.op.len() >= 2 && t.op[0] == 0x3f {
        let name = copy_all(&t.op);
        let r = Pattern::Var { name };
        assert(r@ =~= pat_of(t@));
        r
    } else {
        let mut args: Vec<Pattern> = Vec::new();
        let n = t.args.len();
        let mut i: usize = 0;
        while i < n
            invariant
                n == t.args@.len(),
                0 <= i <= n,
                args@.len() == i,
                forall|j: int| 0 <= j < i ==> args@[j]@ == pat_of(#[trigger] terms_view(
                    t.args@,
                )[j]),
            decreases n - i,
        {
            proof {
                lemma_terms_view_index(t.args@, i as int);
            }
            let p = term_to_pattern(&t.args[i]);
            args.push(p);
            i = i + 1;
        }
        let op = copy_all(&t.op);
        let r = Pattern::App { op, args };
        proof {
            lemma_terms_view_len(t.args@);
            crate::term::lemma_pats_view_len(r->App_args@);
            assert forall|j: int| 0 <= j < n implies crate::term::pats_view(r->App_args@)[j] == pats_of(
                t@.args,
            )[j] by {
                crate::term::lemma_pats_view_index(r->App_args@, j);
                lemma_pats_of_index(t@.args, j);
            }
            lemma_pats_of_len(t@.args);
            assert(crate::term::pats_view(r->App_args@) =~= pats_of(t@.args));
            assert(r@ =~= pat_of(t@));
        }
        r
    }
}

/// Copy a byte vector.
pub fn copy_all(s: &Vec<u8>) -> (r: Vec<u8>)
    ensures
        r@ == s@,
{
    let mut out: Vec<u8> = Vec::new();
    let mut k: usize = 0;
    let n = s.len();
    while k < n
        invariant
            0 <= k <= n,
            n == s@.len(),
            out@ =~= s@.take(k as int),
        decreases n - k,
    {
        out.push(s[k]);
        k = k + 1;
    }
    proof {
        assert(out@ =~= s@);
    }
    out
}

/// Parse a whole input as a pattern.
pub fn parse_pattern_text(s: &Vec<u8>) -> (r: Option<Pattern>)
    ensures
        r is None ==> sexp_of(s@) is None,
        r matches Some(p) ==> (sexp_of(s@) matches Some(t) && p@ == pat_of(t)),
{
    match parse_term_text(s) {
        None => None,
        Some(t) => Some(term_to_pattern(&t)),
    }
}

} // verus!
