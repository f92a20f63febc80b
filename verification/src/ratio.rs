//! Exact rates: a count over a total.
use vstd::prelude::*;

verus! {

/// The rate `num / den`, kept as the two integers it is computed from. A
/// zero denominator stands for an undefined rate.
#[derive(Clone, Copy, Debug, PartialEq, Eq, Structural)]
pub struct Ratio {
    pub num: usize,
    pub den: usize,
}

/// Every element of `x` over the last element of `x`.
pub open spec fn over_last(x: Seq<usize>) -> Seq<Ratio> {
    x.map_values(|v: usize| Ratio { num: v, den: x.last() })
}

/// Divide every element of `x` by its last element.
pub fn rates_over_last(x: &Vec<usize>) -> (r: Vec<Ratio>)
    requires
        x@.len() > 0,
    ensures
        r@ == over_last(x@),
{
    let n = x.len();
    let total = x[n - 1];
    let mut r: Vec<Ratio> = Vec::new();
    let mut i: usize = 0;
    while i < n
        invariant
            i <= n,
            n == x@.len(),
            total == x@.last(),
            r@ =~= over_last(x@).take(i as int),
        decreases n - i,
    {
        r.push(Ratio { num: x[i], den: total });
        i = i + 1;
    }
    assert(over_last(x@).take(n as int) =~= over_last(x@));
    r
}

} // verus!
