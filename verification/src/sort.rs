//! Ordering sizes from the largest down.

use vstd::prelude::*;
use vstd::multiset::*;
use vstd::seq_lib::*;

verus! {

/// Whether the sizes of `s`, each paired with a position, never rise.
pub open spec fn descending(s: Seq<(u64, usize)>) -> bool {
    forall|i: int, j: int| 0 <= i < j < s.len() ==> s[i].0 >= s[j].0
}

/// The items of `v` from `lo` up to `hi`.
fn copy_range(v: &Vec<(u64, usize)>, lo: usize, hi: usize) -> (part: Vec<(u64, usize)>)
    requires
        lo <= hi <= v.len(),
    ensures
        part@ == v@.subrange(lo as int, hi as int),
{
    let mut part: Vec<(u64, usize)> = Vec::new();
    let mut i: usize = lo;
    while i < hi
        invariant
            lo <= i <= hi <= v.len(),
            part@ == v@.subrange(lo as int, i as int),
        decreases hi - i,
    {
        part.push(v[i]);
        assert(part@ =~= v@.subrange(lo as int, i + 1));
        i += 1;
    }
    part
}

/// Merges two descending runs into one.
fn merge(a: &Vec<(u64, usize)>, b: &Vec<(u64, usize)>) -> (merged: Vec<(u64, usize)>)
    requires
        descending(a@),
        descending(b@),
    ensures
        descending(merged@),
        merged@.to_multiset() == a@.to_multiset().add(b@.to_multiset()),
{
    broadcast use group_multiset_axioms;
    broadcast use group_to_multiset_ensures;

    let mut merged: Vec<(u64, usize)> = Vec::new();
    let mut i: usize = 0;
    let mut j: usize = 0;
    assert(a@.take(0) =~= Seq::empty());
    assert(b@.take(0) =~= Seq::empty());
    assert(merged@.to_multiset() =~= a@.take(0).to_multiset().add(b@.take(0).to_multiset()));
    while i < a.len() || j < b.len()
        invariant
            0 <= i <= a.len(),
            0 <= j <= b.len(),
            descending(a@),
            descending(b@),
            descending(merged@),
            merged@.to_multiset() == a@.take(i as int).to_multiset().add(
                b@.take(j as int).to_multiset(),
            ),
            forall|k: int|
                0 <= k < merged@.len() && i < a.len() ==> (#[trigger] merged@[k]).0 >= a@[i as int].0,
            forall|k: int|
                0 <= k < merged@.len() && j < b.len() ==> (#[trigger] merged@[k]).0 >= b@[j as int].0,
        decreases a.len() - i + b.len() - j,
    {
        let ghost before = merged@;
        if j == b.len() || (i < a.len() && a[i].0 >= b[j].0) {
            merged.push(a[i]);
            proof {
                assert(a@.take(i + 1) =~= a@.take(i as int).push(a@[i as int]));
                assert(merged@ =~= before.push(a@[i as int]));
                before.to_multiset_ensures();
                a@.take(i as int).to_multiset_ensures();
                assert(merged@.to_multiset() =~= before.to_multiset().insert(a@[i as int]));
                assert(a@.take(i + 1).to_multiset() =~= a@.take(i as int).to_multiset().insert(
                    a@[i as int],
                ));
                assert(merged@.to_multiset() =~= a@.take(i + 1).to_multiset().add(
                    b@.take(j as int).to_multiset(),
                ));
            }
            i += 1;
        } else {
            merged.push(b[j]);
            proof {
                assert(b@.take(j + 1) =~= b@.take(j as int).push(b@[j as int]));
                assert(merged@ =~= before.push(b@[j as int]));
                before.to_multiset_ensures();
                b@.take(j as int).to_multiset_ensures();
                assert(merged@.to_multiset() =~= before.to_multiset().insert(b@[j as int]));
                assert(b@.take(j + 1).to_multiset() =~= b@.take(j as int).to_multiset().insert(
                    b@[j as int],
                ));
                assert(merged@.to_multiset() =~= a@.take(i as int).to_multiset().add(
                    b@.take(j + 1).to_multiset(),
                ));
            }
            j += 1;
        }
    }
    assert(a@.take(i as int) =~= a@);
    assert(b@.take(j as int) =~= b@);
    merged
}

/// The items of `v`, ordered by size from the largest down.
pub fn sort_descending(v: &Vec<(u64, usize)>) -> (sorted: Vec<(u64, usize)>)
    ensures
        descending(sorted@),
        sorted@.to_multiset() == v@.to_multiset(),
    decreases v.len(),
{
    let n = v.len();
    if n <= 1 {
        let sorted = copy_range(v, 0, n);
        assert(sorted@ =~= v@);
        sorted
    } else {
        let mid = n / 2;
        let left = copy_range(v, 0, mid);
        let right = copy_range(v, mid, n);
        proof {
            assert(v@ =~= left@ + right@);
            lemma_multiset_commutative(left@, right@);
        }
        let left_sorted = sort_descending(&left);
        let right_sorted = sort_descending(&right);
        merge(&left_sorted, &right_sorted)
    }
}

} // verus!
