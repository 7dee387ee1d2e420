//! Pairs of every item of one list with every item of another.

use itertools::Itertools;
use vstd::prelude::*;

verus! {

/// The pairs of each item of `a` with each item of `b`: those of the first item
/// of `a` come first, and among them those of the first item of `b`.
pub open spec fn pairs(a: Seq<i64>, b: Seq<i64>) -> Seq<(i64, i64)> {
    Seq::new(a.len() * b.len(), |k: int| (a[k / b.len() as int], b[k % b.len() as int]))
}

/// Calls `Itertools::cartesian_product` on the items of `a` and of `b` and collects
/// what it yields. The iterator takes each item of `a` in turn and pairs it with
/// every item of `b` in order, which is what the contract states; the bound keeps
/// the collected pairs within what a vector can hold.
#[verifier::external_body]
pub(crate) fn cartesian_product(a: Vec<i64>, b: Vec<i64>) -> (out: Vec<(i64, i64)>)
    requires
        a@.len() * b@.len() * 16 <= isize::MAX,
    ensures
        out@ == pairs(a@, b@),
{
    a.into_iter().cartesian_product(b).collect()
}

} // verus!
