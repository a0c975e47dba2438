//! Numeric utilities: integer square root, exact average and scaled
//! variance over a value sequence, and quickselect-based order-statistic
//! selection with a median-of-medians pivot strategy.

use vstd::prelude::*;

use vstd::relations::{sorted_by, total_ordering};
use vstd::seq_lib::lemma_multiset_commutative;
use vstd::seq_lib::lemma_sorted_unique;

use crate::point::{sq, COORD_LIMIT};

verus! {

broadcast use vstd::seq_lib::group_to_multiset_ensures;

/// The ordering under which value sequences are sorted.
pub open spec fn i64_le() -> spec_fn(i64, i64) -> bool {
    |a: i64, b: i64| a <= b
}

/// The sorted permutation of a value sequence.
pub open spec fn sorted_of(s: Seq<i64>) -> Seq<i64> {
    s.sort_by(i64_le())
}

/// The `k`-th smallest value of a sequence (0-based): position `k` of its
/// sorted permutation.
pub open spec fn kth_smallest(s: Seq<i64>, k: int) -> i64 {
    sorted_of(s)[k]
}

/// The sum of a value sequence.
pub open spec fn sum_seq(s: Seq<i64>) -> int
    decreases s.len(),
{
    if s.len() == 0 {
        0
    } else {
        sum_seq(s.drop_last()) + s.last()
    }
}

/// The sum of the squares of a value sequence.
pub open spec fn sum_sq_seq(s: Seq<i64>) -> int
    decreases s.len(),
{
    if s.len() == 0 {
        0
    } else {
        sum_sq_seq(s.drop_last()) + sq(s.last() as int)
    }
}

/// `i64_le` is a total ordering.
proof fn lemma_i64_le_total()
    ensures
        total_ordering(i64_le()),
{
}

/// A sorted permutation of `s` is the sorted permutation of `s`.
proof fn lemma_sorted_is_sort_by(s: Seq<i64>, t: Seq<i64>)
    requires
        t.to_multiset() == s.to_multiset(),
        sorted_by(t, i64_le()),
    ensures
        t == sorted_of(s),
        sorted_of(s).to_multiset() == s.to_multiset(),
        sorted_by(sorted_of(s), i64_le()),
{
    lemma_i64_le_total();
    s.lemma_sort_by_ensures(i64_le());
    lemma_sorted_unique(t, s.sort_by(i64_le()), i64_le());
}

/// The integer square root: the largest `r` with `r * r <= n`.
pub fn isqrt(n: u64) -> (r: u64)
    ensures
        r * r <= n < (r + 1) * (r + 1),
{
    let mut lo: u64 = 0;
    let mut hi: u64 = 4294967296;
    proof {
        assert((hi as int) * (hi as int) > n as int) by (nonlinear_arith)
            requires
                hi == 4294967296u64,
                n <= u64::MAX,
        ;
    }
    while lo + 1 < hi
        invariant
            lo < hi <= 4294967296,
            (lo as int) * (lo as int) <= n as int,
            (hi as int) * (hi as int) > n as int,
        decreases hi - lo,
    {
        let mid: u64 = lo + (hi - lo) / 2;
        proof {
            assert((mid as int) * (mid as int) <= 4294967296int * 4294967296int)
                by (nonlinear_arith)
                requires
                    0 <= mid <= 4294967296int,
            ;
        }
        if (mid as u128) * (mid as u128) <= n as u128 {
            lo = mid;
        } else {
            hi = mid;
        }
    }
    lo
}

/// The average of the values, rounded toward negative infinity; zero for
/// an empty sequence.
pub fn average(v: &Vec<i64>) -> (r: i64)
    requires
        v@.len() <= u32::MAX,
    ensures
        v@.len() == 0 ==> r == 0,
        v@.len() > 0 ==> r == sum_seq(v@) / (v@.len() as int),
{
    let n: usize = v.len();
    if n == 0 {
        return 0;
    }
    let mut acc: i128 = 0;
    let mut i: usize = 0;
    while i < n
        invariant
            i <= n,
            n == v@.len() <= u32::MAX,
            acc == sum_seq(v@.subrange(0, i as int)),
            (i as int) * (i64::MIN as int) <= acc as int <= (i as int) * (i64::MAX as int),
        decreases n - i,
    {
        proof {
            assert(v@.subrange(0, i + 1).drop_last() =~= v@.subrange(0, i as int));
            assert(((i + 1) as int) * (i64::MIN as int) == (i as int) * (i64::MIN as int)
                + i64::MIN as int) by (nonlinear_arith);
            assert(((i + 1) as int) * (i64::MAX as int) == (i as int) * (i64::MAX as int)
                + i64::MAX as int) by (nonlinear_arith);
        }
        acc = acc + (v[i] as i128);
        i = i + 1;
    }
    proof {
        assert(v@.subrange(0, n as int) =~= v@);
    }
    div_floor(acc, n)
}

/// Floor division of a bounded sum by a positive count; the quotient of a
/// sum of `n` values of `i64` by `n` fits back in an `i64`.
fn div_floor(acc: i128, n: usize) -> (r: i64)
    requires
        n > 0,
        n <= u32::MAX,
        (n as int) * (i64::MIN as int) <= acc as int <= (n as int) * (i64::MAX as int),
    ensures
        r == acc as int / n as int,
{
    let nn: u128 = n as u128;
    if acc >= 0 {
        let q: u128 = (acc as u128) / nn;
        proof {
            vstd::arithmetic::div_mod::lemma_fundamental_div_mod(acc as int, n as int);
            assert(q as int <= i64::MAX as int) by (nonlinear_arith)
                requires
                    (n as int) * (q as int) <= acc as int <= (n as int) * (i64::MAX as int),
                    n as int >= 1,
                    q == (acc as u128) / (n as u128),
                    acc as int == (n as int) * ((acc as int) / (n as int)) + (acc as int) % (
                    n as int),
                    0 <= (acc as int) % (n as int) < n as int,
                    q as int == (acc as int) / (n as int),
            ;
        }
        q as i64
    } else {
        let m: u128 = (-acc) as u128;
        let t: u128 = (m + nn - 1) / nn;
        proof {
            let mi = m as int;
            let ni = n as int;
            let ti = t as int;
            vstd::arithmetic::div_mod::lemma_fundamental_div_mod(mi + ni - 1, ni);
            let u = (mi + ni - 1) % ni;
            assert(mi + ni - 1 == ni * ti + u && 0 <= u < ni);
            // -m == n * (-t) + (n - 1 - u), and 0 <= n - 1 - u < n
            assert(ni * ti + ni * (-ti) == 0) by (nonlinear_arith);
            vstd::arithmetic::div_mod::lemma_fundamental_div_mod_converse(
                -mi,
                ni,
                -ti,
                ni - 1 - u,
            );
            assert(ti <= -(i64::MIN as int)) by (nonlinear_arith)
                requires
                    ni * (i64::MIN as int) <= -mi,
                    ni >= 1,
                    -mi == ni * (-ti) + (ni - 1 - u),
                    0 <= ni - 1 - u < ni,
            ;
        }
        (-(t as i128)) as i64
    }
}

/// The population variance of the values, scaled by the square of their
/// count so it is exact in integers: `n² · Var = n · Σx² − (Σx)²`. Zero
/// for an empty or constant sequence; comparisons between sequences of
/// equal length order exactly as the true variances do.
pub fn variance(v: &Vec<i64>) -> (r: i128)
    requires
        v@.len() <= u32::MAX,
        forall|i: int| 0 <= i < v@.len() ==> -COORD_LIMIT <= #[trigger] v@[i] <= COORD_LIMIT,
    ensures
        r as int == (v@.len() as int) * sum_sq_seq(v@) - sum_seq(v@) * sum_seq(v@),
{
    let n: usize = v.len();
    let mut acc: i128 = 0;
    let mut acc_sq: i128 = 0;
    let mut i: usize = 0;
    while i < n
        invariant
            i <= n,
            n == v@.len() <= u32::MAX,
            forall|j: int| 0 <= j < v@.len() ==> -COORD_LIMIT <= #[trigger] v@[j] <= COORD_LIMIT,
            acc == sum_seq(v@.subrange(0, i as int)),
            acc_sq == sum_sq_seq(v@.subrange(0, i as int)),
            -(i as int) * (COORD_LIMIT as int) <= acc as int <= (i as int) * (COORD_LIMIT as int),
            0 <= acc_sq as int <= (i as int) * ((COORD_LIMIT as int) * (COORD_LIMIT as int)),
        decreases n - i,
    {
        let x: i64 = v[i];
        proof {
            assert(v@.subrange(0, i + 1).drop_last() =~= v@.subrange(0, i as int));
            assert(((i + 1) as int) * (COORD_LIMIT as int) == (i as int) * (COORD_LIMIT as int)
                + COORD_LIMIT as int) by (nonlinear_arith);
            assert(((i + 1) as int) * ((COORD_LIMIT as int) * (COORD_LIMIT as int)) == (i as int)
                * ((COORD_LIMIT as int) * (COORD_LIMIT as int)) + (COORD_LIMIT as int) * (
            COORD_LIMIT as int)) by (nonlinear_arith);
            assert(0 <= (x as int) * (x as int) <= (COORD_LIMIT as int) * (COORD_LIMIT as int))
                by (nonlinear_arith)
                requires
                    -COORD_LIMIT <= x <= COORD_LIMIT,
            ;
        }
        acc = acc + (x as i128);
        acc_sq = acc_sq + (x as i128) * (x as i128);
        i = i + 1;
    }
    proof {
        assert(v@.subrange(0, n as int) =~= v@);
        let ni = n as int;
        let li = COORD_LIMIT as int;
        assert(ni * acc_sq as int <= ni * (ni * (li * li)) && ni * (ni * (li * li)) < i128::MAX
            && ni * acc_sq >= 0) by (nonlinear_arith)
            requires
                0 <= ni <= u32::MAX,
                0 <= acc_sq as int <= ni * (li * li),
                li == COORD_LIMIT as int,
        ;
        assert(0 <= acc as int * acc as int <= (ni * li) * (ni * li) && (ni * li) * (ni * li)
            < i128::MAX) by (nonlinear_arith)
            requires
                0 <= ni <= u32::MAX,
                -ni * li <= acc as int <= ni * li,
                li == COORD_LIMIT as int,
        ;
    }
    (n as i128) * acc_sq - acc * acc
}

/// Swapping two positions of a sequence preserves its multiset.
proof fn lemma_update_to_multiset(s: Seq<i64>, i: int, x: i64)
    requires
        0 <= i < s.len(),
    ensures
        s.update(i, x).to_multiset() =~= s.to_multiset().remove(s[i]).insert(x),
{
    broadcast use vstd::multiset::group_multiset_axioms;

    let t = s.update(i, x);
    assert(t.remove(i) =~= s.remove(i));
    assert(t.remove(i).to_multiset() =~= t.to_multiset().remove(x));
    assert(s.remove(i).to_multiset() =~= s.to_multiset().remove(s[i]));
    assert(t.contains(x)) by {
        assert(t[i] == x);
    }
    assert(t.to_multiset().count(x) > 0);
    assert(t.to_multiset() =~= t.to_multiset().remove(x).insert(x));
}

proof fn lemma_swap_to_multiset(s: Seq<i64>, a: int, b: int)
    requires
        0 <= a < s.len(),
        0 <= b < s.len(),
        a != b,
    ensures
        s.update(a, s[b]).update(b, s[a]).to_multiset() =~= s.to_multiset(),
{
    broadcast use vstd::multiset::group_multiset_axioms;

    let s1 = s.update(a, s[b]);
    lemma_update_to_multiset(s, a, s[b]);
    lemma_update_to_multiset(s1, b, s[a]);
    assert(s1[b] == s[b]);
    assert(s.to_multiset().count(s[a]) > 0) by {
        assert(s.contains(s[a]));
    }
    assert(s1.to_multiset().count(s[b]) > 0) by {
        assert(s1.contains(s[b])) by {
            assert(s1[a] == s[b]);
        }
    }
}

/// Sorts the values in place (ascending) and returns the median: the
/// value at position `(len - 1) / 2` of the sorted order, the lower of
/// the middle two for an even length.
pub fn sorted_median(v: &mut Vec<i64>) -> (r: i64)
    requires
        old(v).len() > 0,
    ensures
        final(v)@ == sorted_of(old(v)@),
        final(v)@.to_multiset() == old(v)@.to_multiset(),
        sorted_by(final(v)@, i64_le()),
        r == kth_smallest(old(v)@, (old(v)@.len() - 1) / 2),
        r == final(v)@[((old(v)@.len() - 1) / 2) as int],
    {
    let n: usize = v.len();
    let mut i: usize = 1;
    while i < n
        invariant
            1 <= i <= n,
            n == v@.len(),
            v@.to_multiset() == old(v)@.to_multiset(),
            forall|a: int, b: int| 0 <= a < b < i ==> v@[a] <= v@[b],
        decreases n - i,
    {
        let mut j: usize = i;
        while j > 0 && v[j - 1] > v[j]
            invariant
                j <= i < n,
                n == v@.len(),
                v@.to_multiset() == old(v)@.to_multiset(),
                forall|a: int, b: int| 0 <= a < b <= i && b != j ==> v@[a] <= v@[b],
            decreases j,
        {
            let ghost before = v@;
            let x: i64 = v[j - 1];
            let y: i64 = v[j];
            v.set(j - 1, y);
            v.set(j, x);
            proof {
                lemma_swap_to_multiset(before, j - 1, j as int);
            }
            j = j - 1;
        }
        i = i + 1;
    }
    proof {
        lemma_sorted_is_sort_by(old(v)@, v@);
    }
    v[(n - 1) / 2]
}

/// Copies a vector of values.
fn clone_vals(v: &Vec<i64>) -> (r: Vec<i64>)
    ensures
        r@ == v@,
{
    let mut r: Vec<i64> = Vec::new();
    let mut i: usize = 0;
    while i < v.len()
        invariant
            i <= v@.len(),
            r@ == v@.subrange(0, i as int),
        decreases v@.len() - i,
    {
        r.push(v[i]);
        proof {
            assert(r@ =~= v@.subrange(0, i + 1));
        }
        i = i + 1;
    }
    proof {
        assert(v@.subrange(0, v@.len() as int) =~= v@);
    }
    r
}

/// A pivot value drawn from `v`: the median of a small sequence, else the
/// median of the medians of chunks of ten — a pivot with good worst-case
/// balance for quickselect.
pub fn pivot(v: &Vec<i64>) -> (r: i64)
    requires
        v.len() > 0,
    ensures
        v@.contains(r),
{
    if v.len() < 20 {
        let mut c = clone_vals(v);
        let ghost c0 = c@;
        let m = sorted_median(&mut c);
        proof {
            assert(c@.to_multiset().len() == c0.to_multiset().len());
            assert(c@.contains(m)) by {
                assert(c@[((c0.len() - 1) / 2) as int] == m);
            }
            assert(c0.to_multiset().count(m) > 0);
            assert(c0.contains(m));
        }
        return m;
    }
    let n: usize = v.len();
    let mut medians: Vec<i64> = Vec::new();
    let mut i: usize = 0;
    while i < n
        invariant
            i <= n,
            n == v@.len(),
            i == 0 ==> medians@.len() == 0,
            i > 0 ==> medians@.len() > 0,
            forall|k: int| 0 <= k < medians@.len() ==> v@.contains(#[trigger] medians@[k]),
        decreases n - i,
    {
        let end: usize = if n - i > 10 {
            i + 10
        } else {
            n
        };
        let mut chunk: Vec<i64> = Vec::new();
        let mut j: usize = i;
        while j < end
            invariant
                i <= j <= end <= n,
                n == v@.len(),
                chunk@.len() == j - i,
                forall|k: int| 0 <= k < chunk@.len() ==> v@.contains(#[trigger] chunk@[k]),
            decreases end - j,
        {
            chunk.push(v[j]);
            j = j + 1;
        }
        let ghost chunk0 = chunk@;
        let m = sorted_median(&mut chunk);
        proof {
            assert(chunk@.to_multiset().len() == chunk0.to_multiset().len());
            assert(chunk@.contains(m)) by {
                assert(chunk@[((chunk0.len() - 1) / 2) as int] == m);
            }
            assert(chunk0.to_multiset().count(m) > 0);
            assert(chunk0.contains(m));
            let ki = choose|ki: int| 0 <= ki < chunk0.len() && chunk0[ki] == m;
            assert(v@.contains(chunk0[ki]));
        }
        medians.push(m);
        i = end;
    }
    let ghost meds0 = medians@;
    let m2 = sorted_median(&mut medians);
    proof {
        assert(medians@.to_multiset().len() == meds0.to_multiset().len());
        assert(medians@.contains(m2)) by {
            assert(medians@[((meds0.len() - 1) / 2) as int] == m2);
        }
        assert(meds0.to_multiset().count(m2) > 0);
        assert(meds0.contains(m2));
        let ki = choose|ki: int| 0 <= ki < meds0.len() && meds0[ki] == m2;
        assert(v@.contains(meds0[ki]));
    }
    m2
}

/// Splitting a sequence into values below, equal to and above a pivot
/// locates each order statistic in one of the three parts.
proof fn lemma_kth_partition(s: Seq<i64>, l: Seq<i64>, e: Seq<i64>, g: Seq<i64>, p: i64, k: int)
    requires
        l.to_multiset().add(e.to_multiset()).add(g.to_multiset()) == s.to_multiset(),
        forall|i: int| 0 <= i < l.len() ==> #[trigger] l[i] < p,
        forall|i: int| 0 <= i < e.len() ==> #[trigger] e[i] == p,
        forall|i: int| 0 <= i < g.len() ==> #[trigger] g[i] > p,
        0 <= k < s.len(),
    ensures
        s.len() == l.len() + e.len() + g.len(),
        k < l.len() ==> kth_smallest(s, k) == kth_smallest(l, k),
        l.len() <= k < l.len() + e.len() ==> kth_smallest(s, k) == p,
        l.len() + e.len() <= k ==> kth_smallest(s, k) == kth_smallest(g, k - l.len() - e.len()),
{
    broadcast use vstd::multiset::group_multiset_axioms;

    lemma_i64_le_total();
    l.lemma_sort_by_ensures(i64_le());
    g.lemma_sort_by_ensures(i64_le());
    let sl = sorted_of(l);
    let sg = sorted_of(g);
    let w = sl + e + sg;
    assert(sl.to_multiset().len() == l.to_multiset().len());
    assert(sg.to_multiset().len() == g.to_multiset().len());
    assert(sl.len() == l.len() && sg.len() == g.len());
    assert(forall|i: int| 0 <= i < sl.len() ==> #[trigger] sl[i] < p) by {
        assert forall|i: int| 0 <= i < sl.len() implies #[trigger] sl[i] < p by {
            assert(sl.contains(sl[i]));
            assert(sl.to_multiset().count(sl[i]) > 0);
            assert(l.to_multiset().count(sl[i]) > 0);
            assert(l.contains(sl[i]));
        }
    }
    assert(forall|i: int| 0 <= i < sg.len() ==> #[trigger] sg[i] > p) by {
        assert forall|i: int| 0 <= i < sg.len() implies #[trigger] sg[i] > p by {
            assert(sg.contains(sg[i]));
            assert(sg.to_multiset().count(sg[i]) > 0);
            assert(g.to_multiset().count(sg[i]) > 0);
            assert(g.contains(sg[i]));
        }
    }
    assert(sorted_by(w, i64_le())) by {
        assert forall|a: int, b: int| 0 <= a < b < w.len() implies i64_le()(w[a], w[b]) by {
            let la = sl.len() as int;
            let ea = e.len() as int;
            if a < la {
                if b < la {
                    assert(i64_le()(sl[a], sl[b]));
                }
            } else if a < la + ea {
                assert(w[a] == p);
            } else {
                assert(i64_le()(sg[a - la - ea], sg[b - la - ea]));
            }
        }
    }
    assert(w.to_multiset() == s.to_multiset()) by {
        lemma_multiset_commutative(sl + e, sg);
        lemma_multiset_commutative(sl, e);
        assert((sl + e) + sg =~= w);
        assert(w.to_multiset() =~= l.to_multiset().add(e.to_multiset()).add(g.to_multiset()));
    }
    lemma_sorted_is_sort_by(s, w);
    assert(w.to_multiset().len() == s.to_multiset().len());
    assert(w.len() == s.len());
    if k < l.len() {
        assert(w[k] == sl[k]);
    } else if k < l.len() + e.len() {
        assert(w[k] == e[k - sl.len()]);
    } else {
        assert(w[k] == sg[k - sl.len() - e.len()]);
    }
}

/// The `k`-th smallest value of the sequence (0-based), found by
/// quickselect around a median-of-medians pivot; the sequence itself is
/// left unchanged.
pub fn quickselect(v: &mut Vec<i64>, k: usize) -> (r: i64)
    requires
        k < old(v).len(),
    ensures
        final(v)@ == old(v)@,
        r == kth_smallest(old(v)@, k as int),
    decreases old(v)@.len(),
{
    let n: usize = v.len();
    if n == 1 {
        proof {
            lemma_sorted_is_sort_by(v@, v@);
        }
        return v[0];
    }
    let p = pivot(v);
    let mut l: Vec<i64> = Vec::new();
    let mut e: Vec<i64> = Vec::new();
    let mut g: Vec<i64> = Vec::new();
    let mut i: usize = 0;
    while i < n
        invariant
            i <= n,
            n == v@.len(),
            l@.to_multiset().add(e@.to_multiset()).add(g@.to_multiset()) == v@.subrange(
                0,
                i as int,
            ).to_multiset(),
            forall|t: int| 0 <= t < l@.len() ==> #[trigger] l@[t] < p,
            forall|t: int| 0 <= t < e@.len() ==> #[trigger] e@[t] == p,
            forall|t: int| 0 <= t < g@.len() ==> #[trigger] g@[t] > p,
            l@.len() + e@.len() + g@.len() == i,
        decreases n - i,
    {
        let ghost pre = v@.subrange(0, i as int);
        let x: i64 = v[i];
        if x < p {
            l.push(x);
        } else if x == p {
            e.push(x);
        } else {
            g.push(x);
        }
        proof {
            assert(v@.subrange(0, i + 1) =~= pre.push(x));
            assert(pre.push(x).to_multiset() == pre.to_multiset().insert(x));
            broadcast use vstd::multiset::group_multiset_axioms;

        }
        i = i + 1;
    }
    proof {
        assert(v@.subrange(0, n as int) =~= v@);
    }
    proof {
        broadcast use vstd::multiset::group_multiset_axioms;

        assert(e@.len() >= 1) by {
            assert(v@.contains(p));
            assert(v@.to_multiset().count(p) > 0);
            assert(l@.to_multiset().count(p) == 0) by {
                if l@.to_multiset().count(p) > 0 {
                    assert(l@.contains(p));
                }
            }
            assert(g@.to_multiset().count(p) == 0) by {
                if g@.to_multiset().count(p) > 0 {
                    assert(g@.contains(p));
                }
            }
            assert(e@.to_multiset().count(p) > 0);
            assert(e@.to_multiset().len() >= e@.to_multiset().count(p));
            assert(e@.to_multiset().len() == e@.len());
        }
        lemma_kth_partition(v@, l@, e@, g@, p, k as int);
    }
    if k < l.len() {
        quickselect(&mut l, k)
    } else if k < l.len() + e.len() {
        p
    } else {
        let kk: usize = k - l.len() - e.len();
        quickselect(&mut g, kk)
    }
}

/// The median of the values: the `(len - 1) / 2`-th order statistic, the
/// lower of the middle two for an even length. The sequence itself is
/// left unchanged.
pub fn median(v: &mut Vec<i64>) -> (r: i64)
    requires
        old(v).len() > 0,
    ensures
        final(v)@ == old(v)@,
        r == kth_smallest(old(v)@, (old(v)@.len() - 1) / 2),
{
    let k: usize = (v.len() - 1) / 2;
    quickselect(v, k)
}

} // verus!
