//! Printing a term back to parenthesized prefix notation.

use vstd::prelude::*;
use crate::term::{Term, TermV, terms_view, lemma_terms_view_len, lemma_terms_view_index};

verus! {

/// The exact byte string a term prints to.
pub open spec fn print_term_sp(t: TermV) -> Seq<u8>
    decreases t,
{
    if t.args.len() == 0 {
        t.op
    } else {
        seq![0x28u8] + t.op + print_args_sp(t.args) + seq![0x29u8]
    }
}

pub open spec fn print_args_sp(ts: Seq<TermV>) -> Seq<u8>
    decreases ts,
{
    if ts.len() == 0 {
        Seq::empty()
    } else {
        print_args_sp(ts.drop_last()) + seq![0x20u8] + print_term_sp(ts.last())
    }
}

fn write_bytes(out: &mut Vec<u8>, s: &Vec<u8>)
    ensures
        final(out)@ == old(out)@ + s@,
{
    let n = s.len();
    let mut k: usize = 0;
    while k < n
        invariant
            0 <= k <= n,
            n == s@.len(),
            out@ =~= old(out)@ + s@.take(k as int),
        decreases n - k,
    {
        out.push(s[k]);
        k = k + 1;
    }
    proof {
        assert(out@ =~= old(out)@ + s@);
    }
}

fn write_term(out: &mut Vec<u8>, t: &Term)
    ensures
        final(out)@ == old(out)@ + print_term_sp(t@),
    decreases *t,
{
    proof {
        lemma_terms_view_len(t.args@);
    }
    if t.args.len() == 0 {
        write_bytes(out, &t.op);
        assert(out@ =~= old(out)@ + print_term_sp(t@));
    } else {
        out.push(0x28);
        write_bytes(out, &t.op);
        let ghost base = out@;
        let n = t.args.len();
        let mut i: usize = 0;
        while i < n
            invariant
                0 <= i <= n,
                n == t.args@.len(),
                n == t@.args.len(),
                t@.args == terms_view(t.args@),
                out@ =~= base + print_args_sp(t@.args.take(i as int)),
            decreases n - i,
        {
            out.push(0x20);
            proof {
                lemma_terms_view_index(t.args@, i as int);
            }
            write_term(out, &t.args[i]);
            proof {
                let ghost pre = t@.args.take(i as int);
                let ghost cur = t@.args.take(i + 1);
                assert(cur.drop_last() =~= pre);
                assert(cur.last() == t@.args[i as int]);
                assert(out@ =~= base + print_args_sp(cur));
            }
            i = i + 1;
        }
        out.push(0x29);
        proof {
            assert(t@.args.take(n as int) =~= t@.args);
            assert(out@ =~= old(out)@ + print_term_sp(t@));
        }
    }
}

/// Render a term as bytes in the grammar of `crate::parse`.
pub fn print_term(t: &Term) -> (r: Vec<u8>)
    ensures
        r@ == print_term_sp(t@),
{
    let mut out: Vec<u8> = Vec::new();
    write_term(&mut out, t);
    out
}

} // verus!
