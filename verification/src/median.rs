//! Sorting a row of block values and taking its median.
//!
//! Rows are short (`n <= 16` values), so an insertion sort is used. The
//! sorted order is specified by the recursive functions `insert_sorted` and
//! `sort_ints`, and the executable sort is proved to produce exactly that
//! sequence. The grid sizes are all even, so the median of a row is taken
//! as the average of the two middle values of the sorted row; to keep the
//! arithmetic exact, contracts work with twice the median, the sum of those
//! two values.

use vstd::prelude::*;

verus! {

/// The mathematical values of a sequence of machine integers.
pub open spec fn to_ints(s: Seq<u128>) -> Seq<int> {
    s.map_values(|u: u128| u as int)
}

/// `x` placed in front of the first element that is at least as large.
pub open spec fn insert_sorted(x: int, s: Seq<int>) -> Seq<int>
    decreases s.len(),
{
    if s.len() == 0 {
        seq![x]
    } else if x <= s[0] {
        seq![x] + s
    } else {
        seq![s[0]] + insert_sorted(x, s.drop_first())
    }
}

/// The sequence sorted in nondecreasing order, by repeated insertion.
pub open spec fn sort_ints(s: Seq<int>) -> Seq<int>
    decreases s.len(),
{
    if s.len() == 0 {
        Seq::empty()
    } else {
        insert_sorted(s.last(), sort_ints(s.drop_last()))
    }
}

/// Nondecreasing order.
pub open spec fn is_sorted(s: Seq<int>) -> bool {
    forall|i: int, j: int| 0 <= i <= j < s.len() ==> s[i] <= s[j]
}

/// Twice the median of a row: the sum of the two middle values of the
/// sorted row. A block's bit is set exactly when twice its value exceeds
/// this sum, so a value equal to the median yields a zero bit.
pub open spec fn med_pair_sum(s: Seq<int>) -> int
    recommends
        s.len() >= 2,
{
    let t = sort_ints(s);
    t[s.len() as int / 2 - 1] + t[s.len() as int / 2]
}

pub proof fn lemma_insert_sorted_len(x: int, s: Seq<int>)
    ensures
        insert_sorted(x, s).len() == s.len() + 1,
    decreases s.len(),
{
    if s.len() == 0 {
    } else if x <= s[0] {
    } else {
        lemma_insert_sorted_len(x, s.drop_first());
    }
}

pub proof fn lemma_sort_ints_len(s: Seq<int>)
    ensures
        sort_ints(s).len() == s.len(),
    decreases s.len(),
{
    if s.len() == 0 {
    } else {
        lemma_sort_ints_len(s.drop_last());
        lemma_insert_sorted_len(s.last(), sort_ints(s.drop_last()));
    }
}

/// Inserting into a sequence whose first `j` elements are below `x`, at the
/// point where the remainder is at least `x`, is insertion at index `j`.
pub proof fn lemma_insert_sorted_at(x: int, s: Seq<int>, j: int)
    requires
        0 <= j <= s.len(),
        forall|k: int| 0 <= k < j ==> s[k] < x,
        j == s.len() || x <= s[j],
    ensures
        insert_sorted(x, s) == s.insert(j, x),
    decreases j,
{
    if j == 0 {
        if s.len() == 0 {
            assert(insert_sorted(x, s) =~= s.insert(0, x));
        } else {
            assert(x <= s[0]);
            assert(seq![x] + s =~= s.insert(0, x));
        }
    } else {
        assert(s[0] < x);
        let tail = s.drop_first();
        lemma_insert_sorted_at(x, tail, j - 1);
        assert(seq![s[0]] + tail.insert(j - 1, x) =~= s.insert(j, x));
    }
}

/// Inserting into a sorted sequence keeps it sorted.
pub proof fn lemma_insert_sorted_keeps_sorted(x: int, s: Seq<int>)
    requires
        is_sorted(s),
    ensures
        is_sorted(insert_sorted(x, s)),
    decreases s.len(),
{
    if s.len() == 0 {
    } else if x <= s[0] {
        assert forall|i: int, j: int|
            0 <= i <= j < (seq![x] + s).len() implies (seq![x] + s)[i] <= (seq![x] + s)[j] by {
            if i > 0 {
                assert(s[i - 1] <= s[j - 1]);
            } else if j > 0 {
                assert(s[0] <= s[j - 1]);
            }
        }
    } else {
        let tail = s.drop_first();
        assert(is_sorted(tail)) by {
            assert forall|i: int, j: int| 0 <= i <= j < tail.len() implies tail[i] <= tail[j] by {
                assert(s[i + 1] <= s[j + 1]);
            }
        }
        lemma_insert_sorted_keeps_sorted(x, tail);
        let r = seq![s[0]] + insert_sorted(x, tail);
        lemma_insert_sorted_len(x, tail);
        assert forall|i: int, j: int| 0 <= i <= j < r.len() implies r[i] <= r[j] by {
            if i == 0 && j > 0 {
                let ins = insert_sorted(x, tail);
                lemma_insert_sorted_element_lower(x, tail, j - 1);
                if ins[j - 1] != x {
                    let k = choose|k: int| 0 <= k < tail.len() && ins[j - 1] == tail[k];
                    assert(tail[k] == s[k + 1]);
                    assert(s[0] <= s[k + 1]);
                }
            } else if i > 0 {
                assert(insert_sorted(x, tail)[i - 1] <= insert_sorted(x, tail)[j - 1]);
            }
        }
    }
}

/// Every element of an insertion result is the inserted value or an element
/// of the original sequence.
pub proof fn lemma_insert_sorted_element_lower(x: int, s: Seq<int>, i: int)
    requires
        0 <= i < insert_sorted(x, s).len(),
    ensures
        insert_sorted(x, s)[i] == x || exists|k: int|
            0 <= k < s.len() && insert_sorted(x, s)[i] == s[k],
    decreases s.len(),
{
    if s.len() == 0 {
    } else if x <= s[0] {
        if i > 0 {
            assert(insert_sorted(x, s)[i] == s[i - 1]);
        }
    } else {
        if i > 0 {
            let tail = s.drop_first();
            lemma_insert_sorted_element_lower(x, tail, i - 1);
            if insert_sorted(x, s)[i] != x {
                let k = choose|k: int|
                    0 <= k < tail.len() && insert_sorted(x, tail)[i - 1] == tail[k];
                assert(insert_sorted(x, s)[i] == s[k + 1]);
            }
        }
    }
}

/// The sorted sequence is sorted.
pub proof fn lemma_sort_ints_sorted(s: Seq<int>)
    ensures
        is_sorted(sort_ints(s)),
    decreases s.len(),
{
    if s.len() == 0 {
    } else {
        lemma_sort_ints_sorted(s.drop_last());
        lemma_insert_sorted_keeps_sorted(s.last(), sort_ints(s.drop_last()));
    }
}

/// Inserts `x` into the already sorted vector `r`, in front of the first
/// element that is at least as large.
fn insert_val(r: &mut Vec<u128>, x: u128)
    ensures
        to_ints(final(r)@) == insert_sorted(x as int, to_ints(old(r)@)),
        final(r)@.len() == old(r)@.len() + 1,
        forall|i: int|
            0 <= i < final(r)@.len() ==> #[trigger] final(r)@[i] == x || exists|k: int|
                0 <= k < old(r)@.len() && final(r)@[i] == old(r)@[k],
{
    let ghost orig = r@;
    let mut j: usize = 0;
    while j < r.len() && r[j] < x
        invariant
            r@ == orig,
            j <= r@.len(),
            forall|k: int| 0 <= k < j ==> r@[k] < x,
        decreases r@.len() - j,
    {
        j = j + 1;
    }
    r.insert(j, x);
    proof {
        lemma_insert_sorted_at(x as int, to_ints(orig), j as int);
        assert(to_ints(orig.insert(j as int, x)) =~= to_ints(orig).insert(j as int, x as int));
        orig.insert_ensures(j as int, x);
        assert forall|i: int|
            0 <= i < r@.len() implies #[trigger] r@[i] == x || exists|k: int|
                0 <= k < orig.len() && r@[i] == orig[k] by {
            if i < j {
                assert(r@[i] == orig[i]);
            } else if i > j {
                assert(r@[i] == orig[i - 1]);
            }
        }
    }
}

/// Sorts a row of block values in nondecreasing order.
pub fn sort_row(v: &Vec<u128>) -> (r: Vec<u128>)
    ensures
        to_ints(r@) == sort_ints(to_ints(v@)),
        r@.len() == v@.len(),
        forall|i: int|
            0 <= i < r@.len() ==> exists|k: int| 0 <= k < v@.len() && #[trigger] r@[i] == v@[k],
{
    let mut r: Vec<u128> = Vec::new();
    let mut i: usize = 0;
    proof {
        assert(to_ints(v@.subrange(0, 0)) =~= Seq::<int>::empty());
        assert(to_ints(r@) =~= Seq::<int>::empty());
    }
    while i < v.len()
        invariant
            i <= v@.len(),
            to_ints(r@) == sort_ints(to_ints(v@.subrange(0, i as int))),
            r@.len() == i,
            forall|t: int|
                0 <= t < r@.len() ==> exists|k: int| 0 <= k < v@.len() && #[trigger] r@[t] == v@[k],
        decreases v@.len() - i,
    {
        let ghost before = r@;
        let x = v[i];
        insert_val(&mut r, x);
        proof {
            let pfx = to_ints(v@.subrange(0, i as int));
            let pfx1 = to_ints(v@.subrange(0, i as int + 1));
            assert(pfx1.drop_last() =~= pfx);
            assert(pfx1.last() == x as int);
            assert(pfx1.len() == i + 1 > 0);
            assert(sort_ints(pfx1) == insert_sorted(x as int, sort_ints(pfx)));
            assert forall|t: int|
                0 <= t < r@.len() implies exists|k: int| 0 <= k < v@.len() && #[trigger] r@[t] == v@[k] by {
                if r@[t] == x {
                    assert(r@[t] == v@[i as int]);
                } else {
                    let u = choose|u: int| 0 <= u < before.len() && r@[t] == before[u];
                    assert(exists|k: int| 0 <= k < v@.len() && before[u] == v@[k]);
                }
            }
        }
        i = i + 1;
    }
    proof {
        assert(v@.subrange(0, v@.len() as int) =~= v@);
    }
    r
}

} // verus!
