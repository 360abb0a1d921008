//! Ordering by an integer key.

use vstd::prelude::*;

verus! {

/// The keys of `items` never decrease from left to right.
pub open spec fn sorted_by_key(items: Seq<(i128, usize)>) -> bool {
    forall|i: int, j: int| 0 <= i <= j < items.len() ==> (#[trigger] items[i]).0 <= (#[trigger] items[j]).0
}

/// Merges two sorted lists into one sorted list of the same items.
fn merge(a: &Vec<(i128, usize)>, b: &Vec<(i128, usize)>) -> (out: Vec<(i128, usize)>)
    requires
        sorted_by_key(a@),
        sorted_by_key(b@),
        a.len() + b.len() <= usize::MAX,
    ensures
        sorted_by_key(out@),
        out@.to_multiset() == a@.to_multiset().add(b@.to_multiset()),
{
    let mut out: Vec<(i128, usize)> = Vec::with_capacity(a.len() + b.len());
    let mut i: usize = 0;
    let mut j: usize = 0;
    proof {
        assert(a@.take(0) =~= Seq::empty());
        assert(b@.take(0) =~= Seq::empty());
        broadcast use vstd::seq_lib::group_to_multiset_ensures;
        assert(out@.to_multiset() =~= a@.take(0).to_multiset().add(b@.take(0).to_multiset()));
    }
    while i < a.len() || j < b.len()
        invariant
            i <= a.len(),
            j <= b.len(),
            sorted_by_key(a@),
            sorted_by_key(b@),
            sorted_by_key(out@),
            forall|k: int, l: int| 0 <= k < out@.len() && i <= l < a@.len() ==>
                (#[trigger] out@[k]).0 <= (#[trigger] a@[l]).0,
            forall|k: int, l: int| 0 <= k < out@.len() && j <= l < b@.len() ==>
                (#[trigger] out@[k]).0 <= (#[trigger] b@[l]).0,
            out@.to_multiset() == a@.take(i as int).to_multiset().add(b@.take(j as int).to_multiset()),
        decreases a.len() - i + b.len() - j,
    {
        let ghost before = out@;
        broadcast use vstd::seq_lib::group_to_multiset_ensures;
        if j >= b.len() || (i < a.len() && a[i].0 <= b[j].0) {
            out.push(a[i]);
            proof {
                assert(a@.take(i + 1) =~= a@.take(i as int).push(a@[i as int]));
                assert(out@.to_multiset() =~= a@.take(i + 1).to_multiset().add(b@.take(j as int).to_multiset()));
            }
            i = i + 1;
        } else {
            out.push(b[j]);
            proof {
                assert(b@.take(j + 1) =~= b@.take(j as int).push(b@[j as int]));
                assert(out@.to_multiset() =~= a@.take(i as int).to_multiset().add(b@.take(j + 1).to_multiset()));
            }
            j = j + 1;
        }
    }
    proof {
        assert(a@.take(a@.len() as int) =~= a@);
        assert(b@.take(b@.len() as int) =~= b@);
    }
    out
}

/// Sorts `items` by key: the same items, in an order in which keys never decrease.
pub fn sort_by_key(items: Vec<(i128, usize)>) -> (out: Vec<(i128, usize)>)
    ensures
        sorted_by_key(out@),
        forall|i: int, j: int| 0 <= i <= j < out@.len() ==> (#[trigger] out@[i]).0 <= (#[trigger] out@[j]).0,
        out@.to_multiset() == items@.to_multiset(),
    decreases items.len(),
{
    let n: usize = items.len();
    if n <= 1 {
        return items;
    }
    let mid: usize = n / 2;
    let mut left: Vec<(i128, usize)> = Vec::with_capacity(mid);
    let mut right: Vec<(i128, usize)> = Vec::with_capacity(n - mid);
    let mut i: usize = 0;
    while i < n
        invariant
            n == items.len(),
            mid <= n,
            i <= n,
            i <= mid ==> left@ == items@.take(i as int) && right@ == Seq::<(i128, usize)>::empty(),
            i > mid ==> left@ == items@.take(mid as int) && right@ == items@.subrange(mid as int, i as int),
        decreases n - i,
    {
        if i < mid {
            left.push(items[i]);
            assert(left@ =~= items@.take(i + 1));
        } else {
            right.push(items[i]);
            assert(right@ =~= items@.subrange(mid as int, i + 1));
        }
        i = i + 1;
    }
    proof {
        assert(items@ =~= left@ + right@);
        vstd::seq_lib::lemma_multiset_commutative(left@, right@);
    }
    let sorted_left: Vec<(i128, usize)> = sort_by_key(left);
    let sorted_right: Vec<(i128, usize)> = sort_by_key(right);
    proof {
        sorted_left@.to_multiset_ensures();
        sorted_right@.to_multiset_ensures();
        items@.to_multiset_ensures();
        left@.to_multiset_ensures();
        right@.to_multiset_ensures();
    }
    merge(&sorted_left, &sorted_right)
}

/// No two of the items carry the same value.
pub open spec fn distinct_values(items: Seq<(i128, usize)>) -> bool {
    forall|i: int, j: int| 0 <= i < j < items.len() ==> (#[trigger] items[i]).1 != (#[trigger] items[j]).1
}

/// Lists of the same items have the same length and the same members, and if the
/// values of one are distinct, so are those of the other.
pub proof fn lemma_same_items(items: Seq<(i128, usize)>, out: Seq<(i128, usize)>)
    requires
        out.to_multiset() == items.to_multiset(),
        distinct_values(items),
    ensures
        out.len() == items.len(),
        forall|x: (i128, usize)| items.contains(x) <==> out.contains(x),
        distinct_values(out),
{
    items.to_multiset_ensures();
    out.to_multiset_ensures();
    assert(items.no_duplicates());
    items.lemma_multiset_has_no_duplicates();
    out.lemma_multiset_has_no_duplicates_conv();
    assert forall|x: (i128, usize)| items.contains(x) <==> out.contains(x) by {
        assert(items.contains(x) <==> items.to_multiset().count(x) > 0);
        assert(out.contains(x) <==> out.to_multiset().count(x) > 0);
    }
    assert forall|i: int, j: int| 0 <= i < j < out.len() implies (#[trigger] out[i]).1 != (#[trigger] out[j]).1 by {
        assert(out.contains(out[i]));
        assert(out.contains(out[j]));
        let k = choose|k: int| 0 <= k < items.len() && items[k] == out[i];
        let l = choose|l: int| 0 <= l < items.len() && items[l] == out[j];
        assert(out[i] != out[j]);
        assert(k != l);
    }
}

/// A list of `n` different positions below `n` reaches every position.
pub proof fn lemma_reaches_all(order: Seq<usize>, n: nat, a: usize)
    requires
        order.len() == n,
        order.no_duplicates(),
        forall|k: int| 0 <= k < order.len() ==> (#[trigger] order[k]) < n,
        a < n,
    ensures
        order.contains(a),
{
    let places = order.map_values(|x: usize| x as int);
    assert forall|i: int, j: int| 0 <= i < places.len() && 0 <= j < places.len() && i != j
        implies places[i] != places[j] by {
        assert(order[i] != order[j]);
    }
    places.unique_seq_to_set();
    vstd::set_lib::lemma_int_range(0, n as int);
    let all = vstd::set_lib::set_int_range(0, n as int);
    assert(places.to_set().subset_of(all)) by {
        assert forall|x: int| places.to_set().contains(x) implies all.contains(x) by {
            let i = choose|i: int| 0 <= i < places.len() && places[i] == x;
            assert(order[i] < n);
        }
    }
    vstd::set_lib::lemma_subset_equality(places.to_set(), all);
    assert(places.to_set().contains(a as int));
    let i = choose|i: int| 0 <= i < places.len() && places[i] == a as int;
    assert(order[i] == a);
}

} // verus!
