//! Picking a value by its place in the sorted order, without sorting.

use crate::scalar::Scalar;
use vstd::multiset::Multiset;
use vstd::prelude::*;

verus! {

/// How many of the first `n` values have a rank of at most `r`.
pub open spec fn ranked_by<S: Scalar>(v: Seq<S>, r: int, n: nat) -> nat
    decreases n,
{
    if n == 0 {
        0
    } else {
        ranked_by(v, r, (n - 1) as nat) + if v[n - 1].rank() <= r {
            1nat
        } else {
            0
        }
    }
}

/// `r` is the rank of the value that stands at place `k` of the sorted order:
/// at most `k` values rank below it, and more than `k` rank no higher.
pub open spec fn is_rank_at<S: Scalar>(v: Seq<S>, k: int, r: int) -> bool {
    ranked_by(v, r - 1, v.len()) <= k < ranked_by(v, r, v.len())
}

pub open spec fn rank_at<S: Scalar>(v: Seq<S>, k: int) -> int {
    choose|r: int| is_rank_at(v, k, r)
}

/// The first place from `i` on that holds a value of rank `r`.
pub open spec fn first_ranked<S: Scalar>(v: Seq<S>, r: int, i: int) -> int
    decreases v.len() - i,
{
    if i >= v.len() || v[i].rank() == r {
        i
    } else {
        first_ranked(v, r, i + 1)
    }
}

/// The value at place `k` of the sorted order: the first one of that rank.
pub open spec fn sorted_at<S: Scalar>(v: Seq<S>, k: int) -> S {
    v[first_ranked(v, rank_at(v, k), 0)]
}

proof fn lemma_ranked_grows<S: Scalar>(v: Seq<S>, r: int, q: int, n: nat)
    requires
        r <= q,
        n <= v.len(),
    ensures
        ranked_by(v, r, n) <= ranked_by(v, q, n) <= n,
    decreases n,
{
    if n > 0 {
        lemma_ranked_grows(v, r, q, (n - 1) as nat);
    }
}

proof fn lemma_rank_is_unique<S: Scalar>(v: Seq<S>, k: int, r: int)
    requires
        is_rank_at(v, k, r),
    ensures
        rank_at(v, k) == r,
{
    let q = rank_at(v, k);
    assert(is_rank_at(v, k, q));
    if q < r {
        lemma_ranked_grows(v, q, r - 1, v.len());
    }
    if r < q {
        lemma_ranked_grows(v, r, q - 1, v.len());
    }
}

/// Where more values rank up to `r` than below `r`, one of them has rank `r`.
proof fn lemma_some_value<S: Scalar>(v: Seq<S>, r: int, n: nat)
    requires
        n <= v.len(),
        ranked_by(v, r - 1, n) < ranked_by(v, r, n),
    ensures
        exists|i: int| 0 <= i < n && (#[trigger] v[i]).rank() == r,
    decreases n,
{
    if n > 0 {
        if v[n - 1].rank() != r {
            lemma_some_value(v, r, (n - 1) as nat);
        }
    }
}

proof fn lemma_first_ranked<S: Scalar>(v: Seq<S>, r: int, i: int, j: int)
    requires
        0 <= i <= j < v.len(),
        v[j].rank() == r,
        forall|m: int| i <= m < j ==> (#[trigger] v[m]).rank() != r,
    ensures
        first_ranked(v, r, i) == j,
    decreases j - i,
{
    if i < j {
        lemma_first_ranked(v, r, i + 1, j);
    }
}

fn count_ranked<S: Scalar>(v: &Vec<S>, r: i64) -> (n: usize)
    ensures
        n == ranked_by(v@, r as int, v@.len()),
        n <= v@.len(),
{
    let mut n: usize = 0;
    let mut i: usize = 0;
    while i < v.len()
        invariant
            i <= v@.len(),
            n <= i,
            n == ranked_by(v@, r as int, i as nat),
        decreases v@.len() - i,
    {
        if v[i].order_key() <= r {
            n += 1;
        }
        i += 1;
    }
    n
}

proof fn lemma_all_ranked<S: Scalar>(v: Seq<S>, r: int, n: nat)
    requires
        n <= v.len(),
    ensures
        r >= i64::MAX ==> ranked_by(v, r, n) == n,
        r < i64::MIN ==> ranked_by(v, r, n) == 0,
    decreases n,
{
    if n > 0 {
        lemma_all_ranked(v, r, (n - 1) as nat);
    }
}

/// The value at place `k` of the sorted order, found by halving the range of
/// ranks.
pub fn select_nth<S: Scalar>(v: &Vec<S>, k: usize) -> (r: S)
    requires
        k < v@.len(),
    ensures
        r == sorted_at(v@, k as int),
        v@.contains(r),
{
    let mut lo: i64 = i64::MIN;
    let mut hi: i64 = i64::MAX;
    proof {
        lemma_all_ranked(v@, hi as int, v@.len());
        lemma_all_ranked(v@, lo - 1, v@.len());
    }
    while lo < hi
        invariant
            lo <= hi,
            k < v@.len(),
            ranked_by(v@, lo - 1, v@.len()) <= k < ranked_by(v@, hi as int, v@.len()),
        decreases hi - lo,
    {
        let mid: i64 = (lo as i128 + (hi as i128 - lo as i128) / 2) as i64;
        if count_ranked(v, mid) > k {
            hi = mid;
        } else {
            lo = mid + 1;
        }
    }
    proof {
        assert(is_rank_at(v@, k as int, lo as int));
        lemma_rank_is_unique(v@, k as int, lo as int);
        lemma_some_value(v@, lo as int, v@.len());
    }
    let mut i: usize = 0;
    while i < v.len()
        invariant
            i <= v@.len(),
            forall|m: int| 0 <= m < i ==> (#[trigger] v@[m]).rank() != lo,
            lo == rank_at(v@, k as int),
            exists|j: int| 0 <= j < v@.len() && (#[trigger] v@[j]).rank() == lo,
        decreases v@.len() - i,
    {
        if v[i].order_key() == lo {
            proof {
                lemma_first_ranked(v@, lo as int, 0, i as int);
            }
            return v[i];
        }
        i += 1;
    }
    assert(false);
    v[k]
}

/// The place in a sorted order of `n` values that a quantile falls on.
pub open spec fn quantile_place<S: Scalar>(n: int, q: S) -> int {
    let place = S::of_int(n - 1).mul(q).round() as int;
    if place < 0 {
        0
    } else if place > n - 1 {
        n - 1
    } else {
        place
    }
}

/// The place in a sorted order of `n` values that a quantile falls on.
pub fn place_of<S: Scalar>(n: usize, q: S) -> (r: usize)
    requires
        0 < n <= i64::MAX,
    ensures
        r == quantile_place(n as int, q),
        r < n,
{
    let place: i64 = S::whole(n as i64 - 1).times(q).round_near();
    if place < 0 {
        0
    } else if place > n as i64 - 1 {
        n - 1
    } else {
        place as usize
    }
}

/// A value of the sorted order is one of the values.
pub proof fn sorted_values_are_values<S: Scalar>(v: Seq<S>, k: int)
    requires
        0 <= k < v.len(),
    ensures
        v.contains(sorted_at(v, k)),
        is_rank_at(v, k, sorted_at(v, k).rank() as int),
{
    lemma_rank_exists(v, k, i64::MIN as int, i64::MAX as int);
    let r = rank_at(v, k);
    lemma_some_value(v, r, v.len());
    let j0 = choose|j: int| 0 <= j < v.len() && (#[trigger] v[j]).rank() == r;
    let j = lemma_least(v, r, j0);
    lemma_first_ranked(v, r, 0, j);
}

proof fn lemma_least<S: Scalar>(v: Seq<S>, r: int, j0: int) -> (j: int)
    requires
        0 <= j0 < v.len(),
        v[j0].rank() == r,
    ensures
        0 <= j < v.len(),
        v[j].rank() == r,
        forall|m: int| 0 <= m < j ==> (#[trigger] v[m]).rank() != r,
    decreases j0,
{
    if exists|m: int| 0 <= m < j0 && (#[trigger] v[m]).rank() == r {
        let m = choose|m: int| 0 <= m < j0 && (#[trigger] v[m]).rank() == r;
        lemma_least(v, r, m)
    } else {
        j0
    }
}

proof fn lemma_rank_exists<S: Scalar>(v: Seq<S>, k: int, lo: int, hi: int)
    requires
        0 <= k < v.len(),
        lo <= hi,
        ranked_by(v, lo - 1, v.len()) <= k || lo == i64::MIN,
        k < ranked_by(v, hi, v.len()) || hi == i64::MAX,
    ensures
        exists|r: int| is_rank_at(v, k, r),
    decreases hi - lo,
{
    lemma_all_ranked(v, i64::MAX as int, v.len());
    lemma_all_ranked(v, i64::MIN - 1, v.len());
    if lo == hi {
        assert(is_rank_at(v, k, lo));
    } else {
        let mid = lo + (hi - lo) / 2;
        if ranked_by(v, mid, v.len()) > k {
            lemma_rank_exists(v, k, lo, mid);
        } else {
            lemma_rank_exists(v, k, mid + 1, hi);
        }
    }
}

/// Later places of the sorted order hold values that rank no lower.
pub proof fn sorted_ranks_never_fall<S: Scalar>(v: Seq<S>, j: int, k: int)
    requires
        0 <= j <= k < v.len(),
    ensures
        sorted_at(v, j).rank() <= sorted_at(v, k).rank(),
{
    sorted_values_are_values(v, j);
    sorted_values_are_values(v, k);
    let r = sorted_at(v, j).rank() as int;
    let q = sorted_at(v, k).rank() as int;
    if q < r {
        lemma_ranked_grows(v, q, r - 1, v.len());
    }
}

proof fn lemma_ranked_in_multiset<S: Scalar>(v: Seq<S>, r: int, n: nat)
    requires
        n <= v.len(),
    ensures
        ranked_by(v, r, n) == v.take(n as int).to_multiset().filter(|x: S| x.rank() <= r).len(),
    decreases n,
{
    broadcast use vstd::multiset::group_multiset_axioms;

    let f = |x: S| x.rank() <= r;
    let now = v.take(n as int).to_multiset();
    if n == 0 {
        v.take(0).to_multiset_ensures();
        assert(now.filter(f) =~= Multiset::empty()) by {
            assert forall|x: S| now.filter(f).count(x) == 0 by {
                assert(now.count(x) <= now.len());
            }
        }
    } else {
        lemma_ranked_in_multiset(v, r, (n - 1) as nat);
        let x = v[n - 1];
        let shorter = v.take(n - 1);
        let before = shorter.to_multiset();
        shorter.to_multiset_ensures();
        assert(v.take(n as int) =~= shorter.push(x));
        assert(now =~= before.insert(x));
        if f(x) {
            assert(now.filter(f) =~= before.filter(f).insert(x));
        } else {
            assert(now.filter(f) =~= before.filter(f));
        }
    }
}

/// No two values share a rank.
pub open spec fn ranks_tell_apart<S: Scalar>() -> bool {
    forall|a: S, b: S| #![trigger a.rank(), b.rank()] a.rank() == b.rank() ==> a == b
}

/// The sorted order does not depend on the order the values came in.
pub proof fn sorted_values_ignore_the_order<S: Scalar>(v: Seq<S>, u: Seq<S>, k: int)
    requires
        v.to_multiset() == u.to_multiset(),
        0 <= k < v.len(),
    ensures
        u.len() == v.len(),
        sorted_at(v, k).rank() == sorted_at(u, k).rank(),
        ranks_tell_apart::<S>() ==> sorted_at(v, k) == sorted_at(u, k),
{
    v.to_multiset_ensures();
    u.to_multiset_ensures();
    assert(v.take(v.len() as int) =~= v);
    assert(u.take(u.len() as int) =~= u);
    sorted_values_are_values(v, k);
    sorted_values_are_values(u, k);
    let r = sorted_at(v, k).rank() as int;
    lemma_ranked_in_multiset(v, r, v.len());
    lemma_ranked_in_multiset(u, r, u.len());
    lemma_ranked_in_multiset(v, r - 1, v.len());
    lemma_ranked_in_multiset(u, r - 1, u.len());
    assert(is_rank_at(u, k, r));
    lemma_rank_is_unique(u, k, r);
    lemma_rank_is_unique(u, k, sorted_at(u, k).rank() as int);
}

} // verus!
