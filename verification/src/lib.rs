//! An equality-saturation engine: an e-graph with congruence closure, a
//! rewrite-rule matcher and applier, a saturation scheduler, a cost-based
//! extractor, and an equivalence-explanation builder, behind a small
//! request/response surface.

use vstd::prelude::*;

pub mod term;
pub mod parse;
pub mod printer;
pub mod egraph;
pub mod rewrite;
pub mod runner;
pub mod extract;
pub mod explain;
pub mod protocol;

verus! {

/// The exact version string this library reports to clients: "0.1.0".
pub open spec fn version_spec() -> Seq<u8> {
    seq![0x30u8, 0x2eu8, 0x31u8, 0x2eu8, 0x30u8]
}

pub fn version_bytes() -> (r: Vec<u8>)
    ensures
        r@.len() > 0,
        r@ == version_spec(),
{
    let mut v: Vec<u8> = Vec::new();
    v.push(0x30);
    v.push(0x2e);
    v.push(0x31);
    v.push(0x2e);
    v.push(0x30);
    proof {
        assert(v@ =~= seq![0x30u8, 0x2eu8, 0x31u8, 0x2eu8, 0x30u8]);
    }
    v
}

} // verus!
