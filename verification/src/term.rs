//! The symbolic-expression grammar: ground terms and patterns with variables.
//!
//! A term is an operator symbol (a byte string) applied to an ordered list of
//! child terms; a leaf is a 0-ary operator. A pattern is a term tree in which
//! some leaves are variables (atoms beginning with `?`).

use vstd::prelude::*;

verus! {

/// Mathematical model of a ground term.
#[verifier::ext_equal]
pub ghost struct TermV {
    pub op: Seq<u8>,
    pub args: Seq<TermV>,
}

/// Mathematical model of a pattern.
#[verifier::ext_equal]
pub ghost enum PatV {
    /// A pattern variable, stored with its leading `?`.
    Var { name: Seq<u8> },
    /// An operator applied to child patterns.
    App { op: Seq<u8>, args: Seq<PatV> },
}

/// A ground term: an operator and its ordered children.
pub struct Term {
    pub op: Vec<u8>,
    pub args: Vec<Term>,
}

/// A pattern: a term tree where a leaf may be a variable.
pub enum Pattern {
    Var { name: Vec<u8> },
    App { op: Vec<u8>, args: Vec<Pattern> },
}

pub open spec fn term_view(t: Term) -> TermV
    decreases t,
{
    TermV { op: t.op@, args: terms_view(t.args@) }
}

pub open spec fn terms_view(ts: Seq<Term>) -> Seq<TermV>
    decreases ts,
{
    if ts.len() == 0 {
        Seq::empty()
    } else {
        terms_view(ts.drop_last()).push(term_view(ts.last()))
    }
}

pub open spec fn pat_view(p: Pattern) -> PatV
    decreases p,
{
    match p {
        Pattern::Var { name } => PatV::Var { name: name@ },
        Pattern::App { op, args } => PatV::App { op: op@, args: pats_view(args@) },
    }
}

pub open spec fn pats_view(ps: Seq<Pattern>) -> Seq<PatV>
    decreases ps,
{
    if ps.len() == 0 {
        Seq::empty()
    } else {
        pats_view(ps.drop_last()).push(pat_view(ps.last()))
    }
}

impl View for Term {
    type V = TermV;

    open spec fn view(&self) -> TermV {
        term_view(*self)
    }
}

impl View for Pattern {
    type V = PatV;

    open spec fn view(&self) -> PatV {
        pat_view(*self)
    }
}

pub proof fn lemma_terms_view_index(ts: Seq<Term>, i: int)
    requires
        0 <= i < ts.len(),
    ensures
        terms_view(ts).len() == ts.len(),
        terms_view(ts)[i] == term_view(ts[i]),
    decreases ts,
{
    lemma_terms_view_len(ts);
    if ts.len() > 0 {
        if i < ts.len() - 1 {
            lemma_terms_view_index(ts.drop_last(), i);
        }
    }
}

pub proof fn lemma_terms_view_len(ts: Seq<Term>)
    ensures
        terms_view(ts).len() == ts.len(),
    decreases ts,
{
    if ts.len() > 0 {
        lemma_terms_view_len(ts.drop_last());
    }
}

pub proof fn lemma_pats_view_index(ps: Seq<Pattern>, i: int)
    requires
        0 <= i < ps.len(),
    ensures
        pats_view(ps).len() == ps.len(),
        pats_view(ps)[i] == pat_view(ps[i]),
    decreases ps,
{
    lemma_pats_view_len(ps);
    if ps.len() > 0 {
        if i < ps.len() - 1 {
            lemma_pats_view_index(ps.drop_last(), i);
        }
    }
}

pub proof fn lemma_pats_view_len(ps: Seq<Pattern>)
    ensures
        pats_view(ps).len() == ps.len(),
    decreases ps,
{
    if ps.len() > 0 {
        lemma_pats_view_len(ps.drop_last());
    }
}

/// A byte that may stand inside an atom: anything but parentheses and whitespace.
pub open spec fn is_atom_byte(b: u8) -> bool {
    b != 0x28 && b != 0x29 && b != 0x20 && b != 0x09 && b != 0x0a && b != 0x0d
}

/// Byte-vector equality, decided byte by byte.
pub fn bytes_eq(a: &Vec<u8>, b: &Vec<u8>) -> (r: bool)
    ensures
        r == (a@ == b@),
{
    if a.len() != b.len() {
        assert(a@.len() != b@.len());
        return false;
    }
    let n = a.len();
    let mut i: usize = 0;
    while i < n
        invariant
            n == a@.len() == b@.len(),
            0 <= i <= n,
            forall|j: int| 0 <= j < i ==> a@[j] == b@[j],
        decreases n - i,
    {
        if a[i] != b[i] {
            return false;
        }
        i = i + 1;
    }
    proof {
        assert(a@ =~= b@);
    }
    true
}

impl Term {
    /// A deep copy whose model equals this term's model.
    pub fn duplicate(&self) -> (r: Term)
        ensures
            r@ == self@,
        decreases *self,
    {
        let mut args: Vec<Term> = Vec::new();
        let n = self.args.len();
        let mut i: usize = 0;
        while i < n
            invariant
                n == self.args@.len(),
                0 <= i <= n,
                args@.len() == i,
                forall|j: int| 0 <= j < i ==> args@[j]@ == self.args@[j]@,
            decreases n - i,

    {
            let c = self.args[i].duplicate();
            args.push(c);
            i = i + 1;
        }
        let mut op: Vec<u8> = Vec::new();
        let mut k: usize = 0;
        let m = self.op.len();
        while k < m
            invariant
                m == self.op@.len(),
                0 <= k <= m,
                op@ =~= self.op@.take(k as int),
            decreases m - k,
        {
            op.push(self.op[k]);
            k = k + 1;
        }
        assert(op@ =~= self.op@);
        let r = Term { op, args };
        proof {
            lemma_terms_view_len(r.args@);
            lemma_terms_view_len(self.args@);
            assert forall|j: int| 0 <= j < n implies terms_view(r.args@)[j] == terms_view(
                self.args@,
            )[j] by {
                lemma_terms_view_index(r.args@, j);
                lemma_terms_view_index(self.args@, j);
            }
            assert(terms_view(r.args@) =~= terms_view(self.args@));
            assert(r@ =~= self@);
        }
        r
    }

    /// Structural equality of two terms, decided against the model.
    pub fn equals(&self, other: &Term) -> (r: bool)
        ensures
            r == (self@ == other@),
        decreases *self,
    {
        if !bytes_eq(&self.op, &other.op) {
            assert(self@.op != other@.op);
            return false;
        }
        if self.args.len() != other.args.len() {
            proof {
                lemma_terms_view_len(self.args@);
                lemma_terms_view_len(other.args@);
            }
            return false;
        }
        let n = self.args.len();
        let mut i: usize = 0;
        while i < n
            invariant
                n == self.args@.len() == other.args@.len(),
                0 <= i <= n,
                self.op@ == other.op@,
                forall|j: int| 0 <= j < i ==> terms_view(self.args@)[j] == terms_view(
                    other.args@,
                )[j],
        decreases n - i,
    {
            proof {
                lemma_terms_view_index(self.args@, i as int);
                lemma_terms_view_index(other.args@, i as int);
            }
            if !self.args[i].equals(&other.args[i]) {
                return false;
            }
            i = i + 1;
        }
        proof {
            lemma_terms_view_len(self.args@);
            lemma_terms_view_len(other.args@);
            assert(terms_view(self.args@) =~= terms_view(other.args@));
            assert(self@ =~= other@);
        }
        true
    }
}

} // verus!
