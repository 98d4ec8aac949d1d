use std::collections::HashSet;
use vstd::std_specs::iter::IteratorSpec;
use vstd::prelude::*;

verus! {

/// Builds a vector of `count` elements whose element at index `idx` is
/// `fill(idx)`, calling `fill` once per index in increasing order.
pub fn make_vec_with<F, V>(count: usize, mut fill: F) -> (obj: Vec<V>)
    where
        F: FnMut(usize) -> V,
    requires
        forall|idx: usize| idx < count ==> call_requires(fill, (idx,)),
    ensures
        obj.len() == count,
        forall|idx: usize| idx < count ==> call_ensures(fill, (idx,), #[trigger] obj[idx as int]),
{
    broadcast use vstd::function::group_function_axioms;
    let ghost fill0 = fill;
    let mut obj: Vec<V> = Vec::with_capacity(count);
    let mut idx: usize = 0;
    while idx < count
        invariant
            idx <= count,
            obj.len() == idx,
            fill == fill0,
            forall|k: usize| k < count ==> call_requires(fill0, (k,)),
            forall|k: usize| k < idx ==> call_ensures(fill0, (k,), #[trigger] obj[k as int]),
        decreases count - idx,
    {
        let v = fill(idx);
        obj.push(v);
        idx = idx + 1;
    }
    obj
}

/// The ids in increasing order, none twice.
pub open spec fn strictly_increasing(s: Seq<usize>) -> bool {
    forall|a: int, b: int| 0 <= a < b < s.len() ==> s[a] < s[b]
}

/// Inserts `x`, which `ids` does not hold, into the increasing list `ids` at
/// its place.
pub fn insert_sorted(ids: &mut Vec<usize>, x: usize)
    requires
        strictly_increasing(old(ids)@),
        !old(ids)@.contains(x),
    ensures
        strictly_increasing(final(ids)@),
        final(ids)@.to_set() == old(ids)@.to_set().insert(x),
        final(ids)@.len() == old(ids)@.len() + 1,
{
    let mut p: usize = 0;
    while p < ids.len() && ids[p] < x
        invariant
            p <= ids@.len(),
            forall|k: int| 0 <= k < p ==> ids@[k] < x,
        decreases ids@.len() - p,
    {
        p = p + 1;
    }
    let ghost before = ids@;
    proof {
        assert forall|k: int| p <= k < before.len() implies before[k] > x by {
            assert(before[p as int] >= x);
            if before[p as int] == x {
                assert(before.contains(x));
            }
            if k > p {
                assert(before[p as int] < before[k]);
            }
        }
    }
    ids.insert(p, x);
    proof {
        let after = ids@;
        assert(after =~= before.insert(p as int, x));
        assert forall|a: int, b: int| 0 <= a < b < after.len() implies after[a] < after[b] by {
            if b < p {
            } else if b == p {
            } else if a < p {
                assert(after[b] == before[b - 1]);
            } else if a == p {
                assert(after[b] == before[b - 1]);
            } else {
                assert(after[a] == before[a - 1]);
                assert(after[b] == before[b - 1]);
            }
        }
        assert forall|y: usize| after.to_set().contains(y) <==> before.to_set().insert(x).contains(y) by {
            if after.contains(y) {
                let k = choose|k: int| 0 <= k < after.len() && after[k] == y;
                if k < p {
                    assert(before[k] == y);
                } else if k > p {
                    assert(before[k - 1] == y);
                }
            }
            if before.contains(y) {
                let k = choose|k: int| 0 <= k < before.len() && before[k] == y;
                if k < p {
                    assert(after[k] == y);
                } else {
                    assert(after[k + 1] == y);
                }
            }
            if y == x {
                assert(after[p as int] == x);
            }
        }
        assert(after.to_set() =~= before.to_set().insert(x));
    }
}

/// The ids of `set` in increasing order.
pub fn sorted_ids(set: &HashSet<usize>) -> (r: Vec<usize>)
    ensures
        strictly_increasing(r@),
        r@.to_set() == set@,
        r@.len() == set@.len(),
{
    broadcast use vstd::std_specs::hash::group_hash_axioms;
    let mut r: Vec<usize> = Vec::new();
    let ghost keys = vstd::std_specs::hash::spec_hash_keys_iter(set).remaining();
    proof {
        assert(r@.to_set() =~= keys.unref().take(0).to_set());
    }
    for x in it: set.iter()
        invariant
            it.seq() == keys,
            keys.no_duplicates(),
            keys.unref().to_set() == set@,
            strictly_increasing(r@),
            r@.to_set() == keys.unref().take(it.index@ as int).to_set(),
    {
        let ghost i = it.index@;
        proof {
            assert(keys.unref()[i as int] == *x);
            if r@.contains(*x) {
                assert(r@.to_set().contains(*x));
                let k = choose|k: int| 0 <= k < i && keys.unref().take(i as int)[k] == *x;
                assert(keys[k] == keys[i as int]);
            }
        }
        insert_sorted(&mut r, *x);
        proof {
            assert(keys.unref().take(i + 1) =~= keys.unref().take(i as int).push(*x));
            Seq::<usize>::lemma_to_set_insert_commutes(keys.unref().take(i as int), *x);
            assert(keys.unref().take(i as int).push(*x) =~= keys.unref().take(i as int) + seq![*x]);
        }
    }
    proof {
        assert(keys.unref().take(keys.len() as int) =~= keys.unref());
        lemma_increasing_no_duplicates(r@);
        r@.unique_seq_to_set();
    }
    r
}

/// Two increasing lists with the same elements are equal.
pub proof fn lemma_increasing_set_eq(a: Seq<usize>, b: Seq<usize>)
    requires
        strictly_increasing(a),
        strictly_increasing(b),
        a.to_set() == b.to_set(),
    ensures
        a == b,
    decreases a.len(),
{
    if a.len() == 0 {
        if b.len() > 0 {
            assert(b.to_set().contains(b[0]));
        }
    } else if b.len() == 0 {
        assert(a.to_set().contains(a[0]));
    } else {
        let x = a.last();
        let y = b.last();
        assert(a.to_set().contains(x));
        assert(b.to_set().contains(y));
        assert(b.contains(x));
        assert(a.contains(y));
        let i = choose|i: int| 0 <= i < b.len() && b[i] == x;
        let j = choose|j: int| 0 <= j < a.len() && a[j] == y;
        if i < b.len() - 1 {
            assert(b[i] < y);
            assert(a[j] <= x);
        }
        if j < a.len() - 1 {
            assert(a[j] < x);
        }
        assert(x == y);
        let a2 = a.drop_last();
        let b2 = b.drop_last();
        assert forall|z: usize| a2.to_set().contains(z) <==> b2.to_set().contains(z) by {
            if a2.contains(z) {
                let k = choose|k: int| 0 <= k < a2.len() && a2[k] == z;
                assert(a.contains(z));
                assert(z < x);
                assert(b.to_set().contains(z));
                let m = choose|m: int| 0 <= m < b.len() && b[m] == z;
                assert(m != b.len() - 1);
                assert(b2[m] == z);
            }
            if b2.contains(z) {
                let k = choose|k: int| 0 <= k < b2.len() && b2[k] == z;
                assert(b.contains(z));
                assert(z < y);
                assert(a.to_set().contains(z));
                let m = choose|m: int| 0 <= m < a.len() && a[m] == z;
                assert(m != a.len() - 1);
                assert(a2[m] == z);
            }
        }
        assert(a2.to_set() =~= b2.to_set());
        lemma_increasing_set_eq(a2, b2);
        assert(a =~= a2.push(x));
        assert(b =~= b2.push(y));
    }
}

/// An increasing list holds nothing twice.
pub proof fn lemma_increasing_no_duplicates(s: Seq<usize>)
    requires
        strictly_increasing(s),
    ensures
        s.no_duplicates(),
{
    assert forall|a: int, b: int| 0 <= a < s.len() && 0 <= b < s.len() && a != b implies s[a]
        != s[b] by {
        if a < b {
            assert(s[a] < s[b]);
        } else {
            assert(s[b] < s[a]);
        }
    }
}

/// The position of `j` in `ids`, if `ids` holds it.
pub fn position_of(ids: &[usize], j: usize) -> (r: Option<usize>)
    ensures
        r matches Some(p) ==> p < ids@.len() && ids@[p as int] == j,
        r is None <==> !ids@.contains(j),
{
    let mut k: usize = 0;
    while k < ids.len()
        invariant
            k <= ids@.len(),
            forall|a: int| 0 <= a < k ==> ids@[a] != j,
        decreases ids@.len() - k,
    {
        if ids[k] == j {
            return Some(k);
        }
        k = k + 1;
    }
    None
}

/// `ids` without the entry at `p`, as a fresh vector.
pub fn remove_at(ids: &[usize], p: usize) -> (r: Vec<usize>)
    requires
        p < ids@.len(),
    ensures
        r@ == ids@.remove(p as int),
{
    let mut r: Vec<usize> = Vec::new();
    let mut k: usize = 0;
    while k < ids.len()
        invariant
            k <= ids@.len(),
            p < ids@.len(),
            r@ == (if k <= p { ids@.take(k as int) } else { ids@.take(k as int).remove(p as int) }),
        decreases ids@.len() - k,
    {
        if k != p {
            r.push(ids[k]);
        }
        proof {
            if k < p {
                assert(ids@.take(k + 1) =~= ids@.take(k as int).push(ids@[k as int]));
            } else if k == p {
                assert(ids@.take(k + 1).remove(p as int) =~= ids@.take(k as int));
            } else {
                assert(ids@.take(k + 1).remove(p as int) =~= ids@.take(k as int).remove(p as int).push(
                    ids@[k as int],
                ));
            }
        }
        k = k + 1;
    }
    proof {
        assert(ids@.take(ids@.len() as int) =~= ids@);
    }
    r
}

/// The ids of `ids` other than `i`, in their order.
pub fn without(ids: &[usize], i: usize) -> (r: Vec<usize>)
    ensures
        r@ == ids@.filter(|j: usize| j != i),
{
    let mut r: Vec<usize> = Vec::new();
    let mut k: usize = 0;
    proof {
        assert(ids@.take(0).filter(|j: usize| j != i) =~= Seq::<usize>::empty());
    }
    while k < ids.len()
        invariant
            k <= ids@.len(),
            r@ == ids@.take(k as int).filter(|j: usize| j != i),
        decreases ids@.len() - k,
    {
        proof {
            assert(ids@.take(k + 1).drop_last() =~= ids@.take(k as int));
            reveal_with_fuel(Seq::filter, 1);
        }
        if ids[k] != i {
            r.push(ids[k]);
        }
        k = k + 1;
    }
    proof {
        assert(ids@.take(ids@.len() as int) =~= ids@);
    }
    r
}

} // verus!
