//! Sorting keys of two numbers.

use vstd::multiset::Multiset;
use vstd::prelude::*;
use vstd::relations::{sorted_by, total_ordering};
use vstd::seq_lib::{
    group_to_multiset_ensures, lemma_multiset_commutative, lemma_sorted_unique, to_multiset_build,
};

verus! {

/// The order of keys: by the first number, then by the second.
pub open spec fn key_order() -> spec_fn((u32, usize), (u32, usize)) -> bool {
    |a: (u32, usize), b: (u32, usize)| a.0 < b.0 || (a.0 == b.0 && a.1 <= b.1)
}

/// The keys in their order.
pub open spec fn sorted_keys(keys: Seq<(u32, usize)>) -> Seq<(u32, usize)> {
    keys.sort_by(key_order())
}

/// The sorted keys are the same keys, each as often as before, in order.
pub proof fn law_sorted_keys(keys: Seq<(u32, usize)>)
    ensures
        total_ordering(key_order()),
        sorted_keys(keys).to_multiset() == keys.to_multiset(),
        sorted_by(sorted_keys(keys), key_order()),
        sorted_keys(keys).len() == keys.len(),
{
    broadcast use group_to_multiset_ensures;

    keys.lemma_sort_by_ensures(key_order());
    assert(keys.len() == keys.to_multiset().len());
    assert(sorted_keys(keys).len() == sorted_keys(keys).to_multiset().len());
}

/// Whether a key comes no later than another.
fn before(a: (u32, usize), b: (u32, usize)) -> (r: bool)
    ensures
        r == key_order()(a, b),
{
    a.0 < b.0 || (a.0 == b.0 && a.1 <= b.1)
}

/// Adding one more to either side.
proof fn lemma_insert_left(a: Multiset<(u32, usize)>, b: Multiset<(u32, usize)>, x: (u32, usize))
    ensures
        a.add(b).insert(x) == a.insert(x).add(b),
        a.add(b).insert(x) == a.add(b.insert(x)),
{
    broadcast use vstd::multiset::group_multiset_axioms;

    assert(a.add(b).insert(x) =~= a.insert(x).add(b));
    assert(a.add(b).insert(x) =~= a.add(b.insert(x)));
}

/// Merges two sorted lists.
fn merge(a: &Vec<(u32, usize)>, b: &Vec<(u32, usize)>) -> (out: Vec<(u32, usize)>)
    requires
        sorted_by(a@, key_order()),
        sorted_by(b@, key_order()),
    ensures
        sorted_by(out@, key_order()),
        out@.to_multiset() == a@.to_multiset().add(b@.to_multiset()),
{
    broadcast use group_to_multiset_ensures;

    let mut out: Vec<(u32, usize)> = Vec::new();
    let mut i: usize = 0;
    let mut j: usize = 0;
    let ghost leq = key_order();
    proof {
        assert(a@.take(0) =~= Seq::<(u32, usize)>::empty());
        assert(b@.take(0) =~= Seq::<(u32, usize)>::empty());
        assert(out@.to_multiset() =~= a@.take(0).to_multiset().add(b@.take(0).to_multiset()));
    }
    while i < a.len() || j < b.len()
        invariant
            i <= a@.len(),
            j <= b@.len(),
            leq == key_order(),
            sorted_by(a@, leq),
            sorted_by(b@, leq),
            sorted_by(out@, leq),
            out@.to_multiset() == a@.take(i as int).to_multiset().add(
                b@.take(j as int).to_multiset(),
            ),
            forall|k: int| 0 <= k < out@.len() && i < a@.len() ==> leq(#[trigger] out@[k], a@[i as int]),
            forall|k: int| 0 <= k < out@.len() && j < b@.len() ==> leq(#[trigger] out@[k], b@[j as int]),
        decreases a@.len() - i + b@.len() - j,
    {
        let ghost prev = out@;
        let from_a: bool = j >= b.len() || (i < a.len() && before(a[i], b[j]));
        if from_a {
            let x = a[i];
            out.push(x);
            proof {
                assert(a@.take(i + 1) =~= a@.take(i as int).push(x));
                to_multiset_build(prev, x);
                to_multiset_build(a@.take(i as int), x);
                lemma_insert_left(
                    a@.take(i as int).to_multiset(),
                    b@.take(j as int).to_multiset(),
                    x,
                );
                if i + 1 < a@.len() {
                    assert(leq(a@[i as int], a@[i + 1]));
                }
            }
            i = i + 1;
        } else {
            let x = b[j];
            out.push(x);
            proof {
                assert(b@.take(j + 1) =~= b@.take(j as int).push(x));
                to_multiset_build(prev, x);
                to_multiset_build(b@.take(j as int), x);
                lemma_insert_left(
                    a@.take(i as int).to_multiset(),
                    b@.take(j as int).to_multiset(),
                    x,
                );
                if j + 1 < b@.len() {
                    assert(leq(b@[j as int], b@[j + 1]));
                }
            }
            j = j + 1;
        }
        proof {
            assert forall|p: int, q: int| 0 <= p < q < out@.len() implies #[trigger] leq(
                out@[p],
                out@[q],
            ) by {
                if q < prev.len() {
                    assert(leq(prev[p], prev[q]));
                } else {
                    assert(out@[p] == prev[p]);
                }
            }
        }
    }
    assert(a@.take(i as int) =~= a@);
    assert(b@.take(j as int) =~= b@);
    out
}

/// The keys from `from` up to but not with `to`.
fn part(v: &Vec<(u32, usize)>, from: usize, to: usize) -> (r: Vec<(u32, usize)>)
    requires
        from <= to <= v@.len(),
    ensures
        r@ == v@.subrange(from as int, to as int),
{
    let mut r: Vec<(u32, usize)> = Vec::new();
    let mut i: usize = from;
    assert(r@ =~= v@.subrange(from as int, i as int));
    while i < to
        invariant
            from <= i <= to <= v@.len(),
            r@ == v@.subrange(from as int, i as int),
        decreases to - i,
    {
        r.push(v[i]);
        i = i + 1;
        assert(r@ =~= v@.subrange(from as int, i as int));
    }
    r
}

/// Sorts by merging.
fn merge_sort(v: Vec<(u32, usize)>) -> (r: Vec<(u32, usize)>)
    ensures
        sorted_by(r@, key_order()),
        r@.to_multiset() == v@.to_multiset(),
    decreases v@.len(),
{
    let n: usize = v.len();
    if n <= 1 {
        return v;
    }
    let mid: usize = n / 2;
    let left = part(&v, 0, mid);
    let right = part(&v, mid, n);
    proof {
        assert(v@ =~= left@ + right@);
        lemma_multiset_commutative(left@, right@);
    }
    let a = merge_sort(left);
    let b = merge_sort(right);
    merge(&a, &b)
}

/// Sorts keys.
pub fn sort_keys(keys: Vec<(u32, usize)>) -> (r: Vec<(u32, usize)>)
    ensures
        r@ == sorted_keys(keys@),
{
    let ghost want = sorted_keys(keys@);
    let r = merge_sort(keys);
    proof {
        law_sorted_keys(keys@);
        lemma_sorted_unique(r@, want, key_order());
    }
    r
}

} // verus!
