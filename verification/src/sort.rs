//! Stable descending argsort: the sample indices ordered by decreasing key,
//! ties kept in increasing index order, as a merge sort.
use vstd::prelude::*;
use crate::count::index_range;

verus! {

broadcast use {vstd::seq_lib::group_to_multiset_ensures, vstd::multiset::group_multiset_axioms};

/// Sample `a` comes no later than sample `b` in the descending order: its key
/// is larger, or the keys are equal and `a` does not come after `b` in the input.
pub open spec fn ranks_before(keys: Seq<i64>, a: usize, b: usize) -> bool {
    ||| keys[a as int] > keys[b as int]
    ||| (keys[a as int] == keys[b as int] && a <= b)
}

/// `o` lists samples in descending order.
pub open spec fn sorted_desc(keys: Seq<i64>, o: Seq<usize>) -> bool {
    forall|p: int, q: int|
        0 <= p < q < o.len() ==> ranks_before(keys, #[trigger] o[p], #[trigger] o[q])
}

/// Every entry of `o` indexes `keys`.
pub open spec fn indexes_into(keys: Seq<i64>, o: Seq<usize>) -> bool {
    forall|p: int| 0 <= p < o.len() ==> #[trigger] o[p] < keys.len()
}

/// Merge two descending runs into one.
fn merge(keys: &Vec<i64>, l: Vec<usize>, r: Vec<usize>) -> (out: Vec<usize>)
    requires
        indexes_into(keys@, l@),
        indexes_into(keys@, r@),
        sorted_desc(keys@, l@),
        sorted_desc(keys@, r@),
    ensures
        out@.to_multiset() == l@.to_multiset().add(r@.to_multiset()),
        sorted_desc(keys@, out@),
        indexes_into(keys@, out@),
{
    let mut out: Vec<usize> = Vec::new();
    let mut i: usize = 0;
    let mut j: usize = 0;
    while i < l.len() || j < r.len()
        invariant
            i <= l.len(),
            j <= r.len(),
            indexes_into(keys@, l@),
            indexes_into(keys@, r@),
            sorted_desc(keys@, l@),
            sorted_desc(keys@, r@),
            out@.to_multiset() == l@.take(i as int).to_multiset().add(
                r@.take(j as int).to_multiset(),
            ),
            sorted_desc(keys@, out@),
            indexes_into(keys@, out@),
            out.len() > 0 ==> forall|p: int|
                i <= p < l.len() ==> ranks_before(keys@, out@.last(), #[trigger] l@[p]),
            out.len() > 0 ==> forall|p: int|
                j <= p < r.len() ==> ranks_before(keys@, out@.last(), #[trigger] r@[p]),
        decreases l.len() - i + r.len() - j,
    {
        let take_left = if i == l.len() {
            false
        } else if j == r.len() {
            true
        } else {
            let a = l[i];
            let b = r[j];
            keys[a] > keys[b] || (keys[a] == keys[b] && a <= b)
        };
        let ghost prev = out@;
        if take_left {
            let x = l[i];
            assert forall|p: int| 0 <= p < prev.len() implies ranks_before(keys@, prev[p], x) by {
                if p < prev.len() - 1 {
                    assert(ranks_before(keys@, prev[p], prev[prev.len() - 1]));
                }
            }
            out.push(x);
            assert(l@.take(i + 1) =~= l@.take(i as int).push(x));
            i = i + 1;
            assert forall|p: int| j <= p < r.len() implies ranks_before(
                keys@,
                x,
                #[trigger] r@[p],
            ) by {
                if p > j {
                    assert(ranks_before(keys@, r@[j as int], r@[p]));
                }
            }
            assert(out@.last() == x);
        } else {
            let x = r[j];
            assert forall|p: int| 0 <= p < prev.len() implies ranks_before(keys@, prev[p], x) by {
                if p < prev.len() - 1 {
                    assert(ranks_before(keys@, prev[p], prev[prev.len() - 1]));
                }
            }
            out.push(x);
            assert(r@.take(j + 1) =~= r@.take(j as int).push(x));
            j = j + 1;
            assert forall|p: int| i <= p < l.len() implies ranks_before(
                keys@,
                x,
                #[trigger] l@[p],
            ) by {
                if p > i {
                    assert(ranks_before(keys@, l@[i as int], l@[p]));
                }
            }
            assert(out@.last() == x);
        }
        assert(out@.to_multiset() =~= l@.take(i as int).to_multiset().add(
            r@.take(j as int).to_multiset(),
        ));
    }
    assert(l@.take(i as int) =~= l@);
    assert(r@.take(j as int) =~= r@);
    out
}

/// Sort `v` into descending order.
fn merge_sort(keys: &Vec<i64>, v: Vec<usize>) -> (o: Vec<usize>)
    requires
        indexes_into(keys@, v@),
    ensures
        o@.to_multiset() == v@.to_multiset(),
        sorted_desc(keys@, o@),
        indexes_into(keys@, o@),
    decreases v.len(),
{
    if v.len() <= 1 {
        return v;
    }
    let ghost whole = v@;
    let mut left = v;
    let mid = left.len() / 2;
    let right = left.split_off(mid);
    assert(whole =~= left@ + right@);
    proof {
        vstd::seq_lib::lemma_multiset_commutative(left@, right@);
    }
    let l = merge_sort(keys, left);
    let r = merge_sort(keys, right);
    merge(keys, l, r)
}

/// The indices `0..keys.len()` in descending key order, ties in increasing
/// index order (a stable descending sort).
pub fn argsort_desc(keys: &Vec<i64>) -> (o: Vec<usize>)
    ensures
        o@.to_multiset() == index_range(keys@.len()).to_multiset(),
        o@.len() == keys@.len(),
        sorted_desc(keys@, o@),
        indexes_into(keys@, o@),
{
    let n = keys.len();
    let mut v: Vec<usize> = Vec::new();
    let mut i: usize = 0;
    while i < n
        invariant
            i <= n,
            n == keys@.len(),
            v@ =~= index_range(i as nat),
        decreases n - i,
    {
        v.push(i);
        i = i + 1;
    }
    let o = merge_sort(keys, v);
    proof {
        assert(o@.len() == o@.to_multiset().len());
    }
    o
}

} // verus!
