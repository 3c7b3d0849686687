//! Stable sort of values by a double.
use vstd::prelude::*;

use crate::double::Double;

verus! {

/// First position from `k` on that holds a larger key, or the end.
pub open spec fn place_of<T>(s: Seq<(Double, T)>, key: Double, k: int) -> int
    decreases s.len() - k,
{
    if k >= s.len() || key.less(s[k].0) {
        k
    } else {
        place_of(s, key, k + 1)
    }
}

/// `s` with an item put in front of the first larger key.
pub open spec fn inserted<T>(s: Seq<(Double, T)>, item: (Double, T)) -> Seq<(Double, T)> {
    s.insert(place_of(s, item.0, 0), item)
}

/// The items by increasing key; items with the same key stay in order.
pub open spec fn sorted<T>(items: Seq<(Double, T)>) -> Seq<(Double, T)>
    decreases items.len(),
{
    if items.len() == 0 {
        Seq::empty()
    } else {
        inserted(sorted(items.drop_last()), items.last())
    }
}

proof fn lemma_place<T>(s: Seq<(Double, T)>, key: Double, k: int)
    requires
        0 <= k <= s.len(),
        forall|i: int| 0 <= i < k ==> !key.less(#[trigger] s[i].0),
    ensures
        k <= place_of(s, key, k) <= s.len(),
        forall|i: int| 0 <= i < place_of(s, key, k) ==> !key.less(#[trigger] s[i].0),
        place_of(s, key, k) < s.len() ==> key.less(s[place_of(s, key, k)].0),
    decreases s.len() - k,
{
    if k < s.len() && !key.less(s[k].0) {
        lemma_place(s, key, k + 1);
    }
}

/// Sort items by increasing key; items with the same key stay in order.
pub fn sort_by_key<T: Copy>(items: &Vec<(Double, T)>) -> (out: Vec<(Double, T)>)
    ensures
        out@ == sorted(items@),
        out@.len() == items@.len(),
{
    let mut out: Vec<(Double, T)> = Vec::new();
    let mut i: usize = 0;
    proof {
        assert(items@.take(0) =~= Seq::<(Double, T)>::empty());
    }
    while i < items.len()
        invariant
            i <= items@.len(),
            out@ == sorted(items@.take(i as int)),
            out@.len() == i,
        decreases items@.len() - i,
    {
        let item: (Double, T) = items[i];
        let mut k: usize = 0;
        while k < out.len() && !item.0.lt(&out[k].0)
            invariant
                k <= out@.len(),
                place_of(out@, item.0, 0) == place_of(out@, item.0, k as int),
            decreases out@.len() - k,
        {
            k = k + 1;
        }
        out.insert(k, item);
        proof {
            assert(items@.take(i + 1).drop_last() =~= items@.take(i as int));
        }
        i = i + 1;
    }
    proof {
        assert(items@.take(i as int) =~= items@);
    }
    out
}

/// No key is smaller than one in front of it.
pub open spec fn is_sorted<T>(s: Seq<(Double, T)>) -> bool {
    forall|i: int, j: int|
        0 <= i < j < s.len() ==> !(#[trigger] s[j]).0.less((#[trigger] s[i]).0)
}

/// Every key is a number.
pub open spec fn has_numbers<T>(s: Seq<(Double, T)>) -> bool {
    forall|i: int| 0 <= i < s.len() ==> !(#[trigger] s[i]).0.nan()
}

/// Sorting keeps the items, and puts them in order where every key is a number.
pub proof fn law_sorted<T>(items: Seq<(Double, T)>)
    ensures
        sorted(items).to_multiset() == items.to_multiset(),
        sorted(items).len() == items.len(),
        has_numbers(items) ==> is_sorted(sorted(items)) && has_numbers(sorted(items)),
    decreases items.len(),
{
    broadcast use vstd::seq_lib::group_to_multiset_ensures;

    if items.len() > 0 {
        let front = items.drop_last();
        let item = items.last();
        let before = sorted(front);
        law_sorted(front);
        lemma_place(before, item.0, 0);
        let k = place_of(before, item.0, 0);
        let after = before.insert(k, item);
        vstd::seq_lib::to_multiset_insert(before, k, item);
        assert(front.push(item) =~= items);
        assert(items.to_multiset() =~= front.to_multiset().insert(item));
        if has_numbers(items) {
            assert forall|i: int| 0 <= i < front.len() implies !(#[trigger] front[i]).0.nan() by {
                assert(front[i] == items[i]);
            }
            assert forall|i: int, j: int| 0 <= i < j < after.len() implies !(
            #[trigger] after[j]).0.less((#[trigger] after[i]).0) by {
                if j < k {
                    assert(!before[j].0.less(before[i].0));
                } else if i > k {
                    assert(!before[j - 1].0.less(before[i - 1].0));
                } else if i == k {
                    if j - 1 > k {
                        assert(!before[j - 1].0.less(before[k].0));
                    }
                } else if j > k {
                    assert(!before[j - 1].0.less(before[i].0));
                }
            }
        }
    }
}

} // verus!
