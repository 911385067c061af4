//! Stable ordering of counted items, largest count first.
use vstd::prelude::*;

verus! {

/// The number of leading items of `s` whose count is at least `k`: where an
/// item with count `k` goes so that it follows every item with an equal count.
pub open spec fn desc_insert_pos<T>(s: Seq<(T, usize)>, k: usize) -> int
    decreases s.len(),
{
    if s.len() == 0 {
        0
    } else if s[0].1 < k {
        0
    } else {
        1 + desc_insert_pos(s.drop_first(), k)
    }
}

/// Stable sort of counted items by count, largest first, as `sort_by` with
/// `b.1.cmp(&a.1)` orders them.
pub open spec fn sort_desc<T>(s: Seq<(T, usize)>) -> Seq<(T, usize)>
    decreases s.len(),
{
    if s.len() == 0 {
        seq![]
    } else {
        let done = sort_desc(s.drop_last());
        done.insert(desc_insert_pos(done, s.last().1), s.last())
    }
}

/// Counts never increase along `s`.
pub open spec fn is_sorted_desc<T>(s: Seq<(T, usize)>) -> bool {
    forall|i: int, j: int| 0 <= i <= j < s.len() ==> s[j].1 <= s[i].1
}

proof fn lemma_desc_insert_pos_bounds<T>(s: Seq<(T, usize)>, k: usize)
    ensures
        0 <= desc_insert_pos(s, k) <= s.len(),
        forall|i: int| 0 <= i < desc_insert_pos(s, k) ==> s[i].1 >= k,
        desc_insert_pos(s, k) < s.len() ==> s[desc_insert_pos(s, k)].1 < k,
    decreases s.len(),
{
    if s.len() > 0 && s[0].1 >= k {
        lemma_desc_insert_pos_bounds(s.drop_first(), k);
        assert forall|i: int| 0 <= i < desc_insert_pos(s, k) implies s[i].1 >= k by {
            if i > 0 {
                assert(s[i] == s.drop_first()[i - 1]);
            }
        }
    }
}

proof fn lemma_desc_insert_pos_skip<T>(s: Seq<(T, usize)>, k: usize, j: int)
    requires
        0 <= j < s.len(),
        s[j].1 >= k,
    ensures
        desc_insert_pos(s.subrange(j, s.len() as int), k) == 1 + desc_insert_pos(
            s.subrange(j + 1, s.len() as int),
            k,
        ),
{
    assert(s.subrange(j, s.len() as int).drop_first() == s.subrange(j + 1, s.len() as int));
}

/// Sorting by count keeps the items, largest count first.
pub proof fn lemma_sort_desc<T>(s: Seq<(T, usize)>)
    ensures
        sort_desc(s).len() == s.len(),
        is_sorted_desc(sort_desc(s)),
        sort_desc(s).to_multiset() == s.to_multiset(),
    decreases s.len(),
{
    broadcast use vstd::seq_lib::group_seq_properties;

    if s.len() > 0 {
        let done = sort_desc(s.drop_last());
        let x = s.last();
        lemma_sort_desc(s.drop_last());
        let p = desc_insert_pos(done, x.1);
        lemma_desc_insert_pos_bounds(done, x.1);
        let r = done.insert(p, x);
        done.insert_ensures(p, x);
        assert forall|i: int, j: int| 0 <= i <= j < r.len() implies r[j].1 <= r[i].1 by {
            if j < p {
            } else if j == p {
                if i < p {
                }
            } else if i < p {
                assert(r[j] == done[j - 1]);
            } else if i == p {
                assert(r[j] == done[j - 1]);
                assert(done[p].1 < x.1);
            } else {
                assert(r[j] == done[j - 1]);
                assert(r[i] == done[i - 1]);
            }
        }
        assert(r.remove(p) =~= done);
        assert(r.to_multiset().remove(x) =~= done.to_multiset());
        assert(s.drop_last().push(x) =~= s);
        assert(r.to_multiset() =~= done.to_multiset().insert(x));
    }
}

/// No two items of `s` are the same by `same`.
pub open spec fn items_apart<T>(s: Seq<(T, usize)>, same: spec_fn(T, T) -> bool) -> bool {
    forall|i: int, j: int| 0 <= i < s.len() && 0 <= j < s.len() && i != j ==> !same(#[trigger] s[i].0, #[trigger] s[j].0)
}

/// Sorting by count never brings together two items that were apart.
pub proof fn lemma_sort_desc_keeps_apart<T>(s: Seq<(T, usize)>, same: spec_fn(T, T) -> bool)
    requires
        items_apart(s, same),
    ensures
        items_apart(sort_desc(s), same),
    decreases s.len(),
{
    if s.len() > 0 {
        let d = s.drop_last();
        assert forall|i: int, j: int| 0 <= i < d.len() && 0 <= j < d.len() && i != j implies !same(
            #[trigger] d[i].0,
            #[trigger] d[j].0,
        ) by {
            assert(d[i] == s[i] && d[j] == s[j]);
        }
        lemma_sort_desc_keeps_apart(d, same);
        lemma_sort_desc(d);
        let done = sort_desc(d);
        let x = s.last();
        let p = desc_insert_pos(done, x.1);
        lemma_desc_insert_pos_bounds(done, x.1);
        let r = done.insert(p, x);
        done.insert_ensures(p, x);
        done.to_multiset_ensures();
        d.to_multiset_ensures();
        assert forall|k: int| 0 <= k < done.len() implies !same(#[trigger] done[k].0, x.0) && !same(x.0, done[k].0) by {
            assert(done.contains(done[k]));
            assert(d.to_multiset().count(done[k]) > 0);
            let m = choose|m: int| 0 <= m < d.len() && d[m] == done[k];
            assert(s[m] == done[k]);
            assert(s[s.len() - 1] == x);
        }
        assert forall|i: int, j: int| 0 <= i < r.len() && 0 <= j < r.len() && i != j implies !same(
            #[trigger] r[i].0,
            #[trigger] r[j].0,
        ) by {
            if i == p {
                if j < p {
                    assert(r[j] == done[j]);
                } else {
                    assert(r[j] == done[j - 1]);
                }
            } else if j == p {
                if i < p {
                    assert(r[i] == done[i]);
                } else {
                    assert(r[i] == done[i - 1]);
                }
            } else {
                let a = if i < p { i } else { i - 1 };
                let b = if j < p { j } else { j - 1 };
                assert(r[i] == done[a]);
                assert(r[j] == done[b]);
            }
        }
    }
}

/// Items sorted by count, largest first; items with equal counts keep their order.
pub fn sort_by_count_desc<T>(items: Vec<(T, usize)>) -> (r: Vec<(T, usize)>)
    ensures
        r@ == sort_desc(items@),
{
    let ghost orig = items@;
    let mut rest = items;
    let mut r: Vec<(T, usize)> = Vec::new();
    let mut k: usize = 0;
    let n = rest.len();
    while rest.len() > 0
        invariant
            k + rest@.len() == orig.len(),
            n == orig.len(),
            rest@ == orig.subrange(k as int, orig.len() as int),
            r@ == sort_desc(orig.subrange(0, k as int)),
        decreases rest@.len(),
    {
        let x = rest.remove(0);
        let key = x.1;
        let mut j: usize = 0;
        assert(r@.subrange(0, r@.len() as int) == r@);
        while j < r.len() && r[j].1 >= key
            invariant
                j <= r@.len(),
                desc_insert_pos(r@, key) == j + desc_insert_pos(r@.subrange(j as int, r@.len() as int), key),
            decreases r.len() - j,
        {
            proof {
                lemma_desc_insert_pos_skip(r@, key, j as int);
            }
            j = j + 1;
        }
        proof {
            if j < r@.len() {
                assert(r@.subrange(j as int, r@.len() as int)[0] == r@[j as int]);
            }
            assert(desc_insert_pos(r@.subrange(j as int, r@.len() as int), key) == 0);
            assert(orig.subrange(0, k + 1).drop_last() == orig.subrange(0, k as int));
            assert(orig.subrange(0, k + 1).last() == x);
        }
        r.insert(j, x);
        k = k + 1;
    }
    assert(orig.subrange(0, orig.len() as int) == orig);
    r
}

} // verus!
