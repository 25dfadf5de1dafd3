use vstd::prelude::*;

verus! {

/// The values of a sequence of fixed-point numbers, as integers.
pub open spec fn ints(v: Seq<i64>) -> Seq<int> {
    v.map_values(|x: i64| x as int)
}

/// Sum of a sequence.
pub open spec fn seq_sum(s: Seq<int>) -> int
    decreases s.len(),
{
    if s.len() == 0 {
        0
    } else {
        seq_sum(s.drop_last()) + s.last()
    }
}

/// Least element of a non-empty sequence.
pub open spec fn seq_min(s: Seq<int>) -> int
    decreases s.len(),
{
    if s.len() <= 1 {
        s[0]
    } else {
        let m = seq_min(s.drop_last());
        if s.last() < m {
            s.last()
        } else {
            m
        }
    }
}

/// Greatest element of a non-empty sequence.
pub open spec fn seq_max(s: Seq<int>) -> int
    decreases s.len(),
{
    if s.len() <= 1 {
        s[0]
    } else {
        let m = seq_max(s.drop_last());
        if s.last() > m {
            s.last()
        } else {
            m
        }
    }
}

/// Every element lies in `[lo, hi]`.
pub open spec fn all_within(s: Seq<int>, lo: int, hi: int) -> bool {
    forall|i: int| 0 <= i < s.len() ==> lo <= #[trigger] s[i] <= hi
}

/// The least and greatest elements are elements, and bound all others.
pub proof fn lemma_min_max(s: Seq<int>)
    requires
        s.len() >= 1,
    ensures
        all_within(s, seq_min(s), seq_max(s)),
        s.contains(seq_min(s)),
        s.contains(seq_max(s)),
    decreases s.len(),
{
    if s.len() > 1 {
        lemma_min_max(s.drop_last());
        let p = s.drop_last();
        assert forall|i: int| 0 <= i < s.len() implies seq_min(s) <= #[trigger] s[i] <= seq_max(s) by {
            if i < s.len() - 1 {
                assert(s[i] == p[i]);
            }
        }
        if s.last() >= seq_min(p) {
            let j = choose|j: int| 0 <= j < p.len() && p[j] == seq_min(p);
            assert(s[j] == seq_min(s));
        } else {
            assert(s[s.len() - 1] == seq_min(s));
        }
        if s.last() <= seq_max(p) {
            let j = choose|j: int| 0 <= j < p.len() && p[j] == seq_max(p);
            assert(s[j] == seq_max(s));
        } else {
            assert(s[s.len() - 1] == seq_max(s));
        }
    }
}

/// A sum of values within `[lo, hi]` lies within `[len * lo, len * hi]`.
pub proof fn lemma_sum_within(s: Seq<int>, lo: int, hi: int)
    requires
        all_within(s, lo, hi),
    ensures
        s.len() * lo <= seq_sum(s) <= s.len() * hi,
    decreases s.len(),
{
    if s.len() > 0 {
        let p = s.drop_last();
        assert(all_within(p, lo, hi)) by {
            assert forall|i: int| 0 <= i < p.len() implies lo <= #[trigger] p[i] <= hi by {
                assert(p[i] == s[i]);
            }
        }
        lemma_sum_within(p, lo, hi);
        assert(lo <= s[s.len() - 1] <= hi);
        let n = p.len() as int;
        assert(seq_sum(s) == seq_sum(p) + s[s.len() - 1]);
        assert(s.len() * lo == n * lo + lo && s.len() * hi == n * hi + hi) by (nonlinear_arith)
            requires s.len() == n + 1;
    } else {
        assert(s.len() * lo == 0 && s.len() * hi == 0) by (nonlinear_arith)
            requires s.len() == 0;
    }
}

/// Dropping the greatest value leaves at most `len - 1` times the greatest,
/// and at least `len - 1` times the least; the same holds for the least.
pub proof fn lemma_sum_without_extreme(s: Seq<int>)
    requires
        s.len() >= 1,
    ensures
        (s.len() - 1) * seq_min(s) <= seq_sum(s) - seq_max(s),
        seq_sum(s) - seq_min(s) <= (s.len() - 1) * seq_max(s),
    decreases s.len(),
{
    if s.len() == 1 {
        assert(seq_sum(s.drop_last()) == 0);
        assert(seq_sum(s) == s[0]);
    } else {
        let p = s.drop_last();
        let x = s.last();
        let n = p.len() as int;
        lemma_sum_without_extreme(p);
        lemma_min_max(p);
        lemma_sum_within(p, seq_min(p), seq_max(p));
        let mn = seq_min(s);
        let mx = seq_max(s);
        assert(mn <= seq_min(p) && mn <= x && mx >= seq_max(p) && mx >= x);
        assert((n - 1) * seq_min(p) >= (n - 1) * mn) by (nonlinear_arith)
            requires n >= 1, seq_min(p) >= mn;
        assert(n * seq_min(p) >= n * mn) by (nonlinear_arith)
            requires n >= 1, seq_min(p) >= mn;
        assert((n - 1) * seq_max(p) <= (n - 1) * mx) by (nonlinear_arith)
            requires n >= 1, seq_max(p) <= mx;
        assert(n * seq_max(p) <= n * mx) by (nonlinear_arith)
            requires n >= 1, seq_max(p) <= mx;
        assert(s.len() - 1 == n);
        assert((n - 1) * mn + mn == n * mn && (n - 1) * mx + mx == n * mx) by (nonlinear_arith);
    }
}

/// A quotient of a value within `[n * lo, n * hi]` by `n` lies within `[lo, hi]`.
pub proof fn lemma_div_within(t: int, n: int, lo: int, hi: int)
    requires
        n > 0,
        n * lo <= t <= n * hi,
    ensures
        lo <= t / n <= hi,
{
    vstd::arithmetic::div_mod::lemma_fundamental_div_mod(t, n);
    let q = t / n;
    let r = t % n;
    assert(lo <= q) by (nonlinear_arith)
        requires t == n * q + r, 0 <= r < n, n * lo <= t, n > 0;
    assert(q <= hi) by (nonlinear_arith)
        requires t == n * q + r, 0 <= r < n, t <= n * hi, n > 0;
}

/// Sum of the first `count` values, exactly.
pub fn sum_first(v: &Vec<i64>, count: usize) -> (r: i128)
    requires
        count <= v.len(),
    ensures
        r == seq_sum(ints(v@).take(count as int)),
{
    let mut sum: i128 = 0;
    let mut i: usize = 0;
    while i < count
        invariant
            i <= count <= v.len(),
            sum == seq_sum(ints(v@).take(i as int)),
            i64::MIN * i <= sum <= i64::MAX * i,
        decreases count - i,
    {
        assert(ints(v@).take(i as int + 1).drop_last() =~= ints(v@).take(i as int));
        let x = v[i];
        assert(i64::MIN * (i + 1) <= sum + x <= i64::MAX * (i + 1)) by (nonlinear_arith)
            requires
                i64::MIN * i <= sum <= i64::MAX * i,
                i64::MIN <= x <= i64::MAX;
        assert(i64::MIN * (i + 1) >= i128::MIN && i64::MAX * (i + 1) <= i128::MAX) by (nonlinear_arith)
            requires i < usize::MAX;
        sum = sum + x as i128;
        i = i + 1;
    }
    sum
}

/// Sum of the values, exactly.
pub fn sum_values(v: &Vec<i64>) -> (r: i128)
    ensures
        r == seq_sum(ints(v@)),
{
    let r = sum_first(v, v.len());
    assert(ints(v@).take(v.len() as int) =~= ints(v@));
    r
}

/// Least and greatest of the values of a non-empty vector.
pub fn min_max_values(v: &Vec<i64>) -> (r: (i64, i64))
    requires
        v.len() >= 1,
    ensures
        r.0 == seq_min(ints(v@)),
        r.1 == seq_max(ints(v@)),
{
    let mut mn = v[0];
    let mut mx = v[0];
    let mut i: usize = 1;
    while i < v.len()
        invariant
            1 <= i <= v.len(),
            mn == seq_min(ints(v@).take(i as int)),
            mx == seq_max(ints(v@).take(i as int)),
        decreases v.len() - i,
    {
        assert(ints(v@).take(i as int + 1).drop_last() =~= ints(v@).take(i as int));
        if v[i] < mn {
            mn = v[i];
        }
        if v[i] > mx {
            mx = v[i];
        }
        i = i + 1;
    }
    assert(ints(v@).take(i as int) =~= ints(v@));
    (mn, mx)
}

} // verus!
