//! Fixed-point robust statistics: exponential smoothing, median and MAD.
use vstd::prelude::*;
use vstd::relations::sorted_by;
use vstd::seq_lib::lemma_sorted_unique;
use crate::order::{lex_le, sort_pairs};

verus! {

/// Fixed-point denominator: the integer `x` stands for the real `x / SCALE`.
pub const SCALE: i128 = 1_000_000;

/// Largest magnitude of a fixed-point value that the smoothing, the MAD and
/// the z-scores accept; well above any smoothed rate of a `usize` count.
pub const VALUE_MAX: i128 = 0x10_0000_0000_0000_0000_0000_0000;

/// Largest magnitude of a value that the median accepts (twice `VALUE_MAX`,
/// so that deviations from a median are accepted too).
pub const MEDIAN_MAX: i128 = 0x20_0000_0000_0000_0000_0000_0000;

/// A sequence of machine integers read as mathematical integers.
pub open spec fn ints(s: Seq<i128>) -> Seq<int> {
    s.map_values(|x: i128| x as int)
}

/// A sequence of message counts read as mathematical integers.
pub open spec fn counts(s: Seq<usize>) -> Seq<int> {
    s.map_values(|x: usize| x as int)
}

/// Every value lies in `[-bound, bound]`.
pub open spec fn within(s: Seq<int>, bound: int) -> bool {
    forall|i: int| 0 <= i < s.len() ==> -bound <= #[trigger] s[i] <= bound
}

/// `s` is in ascending order.
pub open spec fn ascending(s: Seq<int>) -> bool {
    forall|i: int, j: int| 0 <= i < j < s.len() ==> s[i] <= s[j]
}

/// Median: the middle value of the sorted values, or the mean (rounded
/// down) of the two middle values when their number is even; 0 when empty.
pub open spec fn median_of(s: Seq<int>) -> int {
    let t = s.sort();
    let n = s.len() as int;
    if n == 0 {
        0
    } else if n % 2 == 1 {
        t[n / 2]
    } else {
        (t[n / 2 - 1] + t[n / 2]) / 2
    }
}

/// Absolute deviations of the values from `m`.
pub open spec fn deviations(s: Seq<int>, m: int) -> Seq<int> {
    s.map_values(|x: int| if x >= m { x - m } else { m - x })
}

/// Median absolute deviation, floored to one unit (`SCALE`) when it is below
/// the resolution of the representation or when there are no values.
pub open spec fn mad_of(s: Seq<int>) -> int {
    let d = median_of(deviations(s, median_of(s)));
    if s.len() == 0 || d < 1 {
        SCALE as int
    } else {
        d
    }
}

/// Exponentially smoothed rate at index `i` with weight `alpha / SCALE` on the
/// newest count; the first value is the first count itself.
pub open spec fn ewma_at(rate: Seq<int>, alpha: int, i: int) -> int
    decreases i,
{
    if i <= 0 {
        rate[0] * SCALE
    } else {
        (alpha * (rate[i] * SCALE) + (SCALE - alpha) * ewma_at(rate, alpha, i - 1)) / (SCALE as int)
    }
}

/// First components of pairs, as integers.
pub open spec fn firsts(s: Seq<(i128, usize)>) -> Seq<int> {
    s.map_values(|x: (i128, usize)| x.0 as int)
}

/// Rearranging pairs rearranges their first components.
proof fn lemma_rearranged_firsts(a: Seq<(i128, usize)>, b: Seq<(i128, usize)>)
    requires
        a.to_multiset() == b.to_multiset(),
    ensures
        firsts(a).to_multiset() == firsts(b).to_multiset(),
    decreases a.len(),
{
    broadcast use vstd::seq_lib::group_to_multiset_ensures, vstd::multiset::group_multiset_axioms;

    vstd::seq_lib::to_multiset_len(a);
    vstd::seq_lib::to_multiset_len(b);
    if a.len() == 0 {
        assert(firsts(a) =~= firsts(b));
    } else {
        let x = a.last();
        let a2 = a.drop_last();
        assert(a2.push(x) =~= a);
        assert(a.to_multiset() == a2.to_multiset().insert(x));
        assert(b.to_multiset().count(x) > 0);
        assert(b.contains(x));
        let j = choose|j: int| 0 <= j < b.len() && b[j] == x;
        let b2 = b.remove(j);
        assert(b2.to_multiset() == b.to_multiset().remove(x));
        assert(a2.to_multiset() =~= a.to_multiset().remove(x));
        lemma_rearranged_firsts(a2, b2);
        assert(firsts(a) =~= firsts(a2).push(x.0 as int));
        assert(firsts(b).remove(j) =~= firsts(b2));
        assert(firsts(b)[j] == x.0 as int);
        assert(firsts(b2).to_multiset() == firsts(b).to_multiset().remove(x.0 as int));
        assert(firsts(b).to_multiset().count(x.0 as int) > 0);
        assert(firsts(b).to_multiset() =~= firsts(b2).to_multiset().insert(x.0 as int));
    }
}

/// An ascending sequence with the values of `s` is `s.sort()`.
proof fn lemma_ascending_is_sort(t: Seq<int>, s: Seq<int>)
    requires
        ascending(t),
        t.to_multiset() == s.to_multiset(),
    ensures
        t == s.sort(),
        t.len() == s.len(),
{
    let leq = |x: int, y: int| x <= y;
    s.lemma_sort_ensures();
    assert(sorted_by(t, leq));
    lemma_sorted_unique(t, s.sort(), leq);
    vstd::seq_lib::to_multiset_len(t);
    vstd::seq_lib::to_multiset_len(s);
}

/// A rearrangement keeps every value in range.
proof fn lemma_rearranged_in_range(t: Seq<int>, s: Seq<int>, bound: int)
    requires
        within(s, bound),
        t.to_multiset() == s.to_multiset(),
    ensures
        within(t, bound),
{
    broadcast use vstd::seq_lib::group_to_multiset_ensures;

    assert forall|i: int| 0 <= i < t.len() implies -bound <= #[trigger] t[i] <= bound by {
        assert(t.to_multiset().count(t[i]) > 0);
        assert(s.to_multiset().count(t[i]) > 0);
        assert(s.contains(t[i]));
    }
}

/// Floor division for a positive divisor.
pub fn floor_div(a: i128, b: i128) -> (q: i128)
    requires
        b > 0,
    ensures
        q as int == a as int / b as int,
        a >= 0 ==> 0 <= q <= a,
        a < 0 ==> a <= q < 0,
{
    proof {
        vstd::arithmetic::div_mod::lemma_fundamental_div_mod(a as int, b as int);
        let qq = a as int / b as int;
        let rr = a as int % b as int;
        assert(a >= 0 ==> 0 <= qq <= a) by (nonlinear_arith)
            requires
                a == b * qq + rr,
                0 <= rr < b,
                b >= 1,
        ;
        assert(a < 0 ==> a <= qq < 0) by (nonlinear_arith)
            requires
                a == b * qq + rr,
                0 <= rr < b,
                b >= 1,
        ;
    }
    if a >= 0 {
        a / b
    } else {
        let t = (-(a + 1)) / b;
        proof {
            let ai = a as int;
            let bi = b as int;
            let ti = t as int;
            let x = -(ai + 1);
            assert(x >= 0);
            vstd::arithmetic::div_mod::lemma_fundamental_div_mod(x, bi);
            vstd::arithmetic::div_mod::lemma_fundamental_div_mod(ai, bi);
            let r = x % bi;
            let q2 = ai / bi;
            let r2 = ai % bi;
            assert(x == bi * ti + r && 0 <= r < bi);
            assert(ai == bi * q2 + r2 && 0 <= r2 < bi);
            assert(q2 == -ti - 1) by (nonlinear_arith)
                requires
                    x == bi * ti + r,
                    0 <= r < bi,
                    ai == bi * q2 + r2,
                    0 <= r2 < bi,
                    x == -(ai + 1),
                    bi > 0,
            ;
        }
        -t - 1
    }
}

/// Median of fixed-point values (see `median_of`).
pub fn median(values: &Vec<i128>) -> (r: i128)
    requires
        within(ints(values@), MEDIAN_MAX as int),
    ensures
        r as int == median_of(ints(values@)),
        -MEDIAN_MAX <= r <= MEDIAN_MAX,
        within(ints(values@), VALUE_MAX as int) ==> -VALUE_MAX <= r <= VALUE_MAX,
{
    if values.len() == 0 {
        return 0;
    }
    let mut keys: Vec<(i128, usize)> = Vec::new();
    let mut i: usize = 0;
    while i < values.len()
        invariant
            0 <= i <= values@.len(),
            keys@.len() == i,
            forall|q: int| 0 <= q < i ==> #[trigger] keys@[q] == (values@[q], q as usize),
        decreases values@.len() - i,
    {
        keys.push((values[i], i));
        i += 1;
    }
    let ghost all = keys@;
    assert(firsts(all) =~= ints(values@));
    sort_pairs(&mut keys);
    let ghost sorted = firsts(keys@);
    proof {
        lemma_rearranged_firsts(keys@, all);
        assert forall|p: int, q: int| 0 <= p < q < sorted.len() implies sorted[p] <= sorted[q] by {
            assert(lex_le(keys@[p], keys@[q]));
        }
        lemma_ascending_is_sort(sorted, ints(values@));
        lemma_rearranged_in_range(sorted, ints(values@), MEDIAN_MAX as int);
        if within(ints(values@), VALUE_MAX as int) {
            lemma_rearranged_in_range(sorted, ints(values@), VALUE_MAX as int);
        }
    }
    let n = keys.len();
    let mid = n / 2;
    assert(sorted[mid as int] == keys@[mid as int].0);
    if n % 2 == 0 {
        assert(sorted[mid - 1] == keys@[mid - 1].0);
        floor_div(keys[mid - 1].0 + keys[mid].0, 2)
    } else {
        keys[mid].0
    }
}
/// Median absolute deviation of fixed-point values (see `mad_of`).
pub fn mad(values: &Vec<i128>) -> (r: i128)
    requires
        within(ints(values@), VALUE_MAX as int),
    ensures
        r as int == mad_of(ints(values@)),
        1 <= r <= MEDIAN_MAX,
{
    if values.len() == 0 {
        return SCALE;
    }
    assert(within(ints(values@), MEDIAN_MAX as int));
    let med = median(values);
    let mut devs: Vec<i128> = Vec::new();
    let mut i: usize = 0;
    while i < values.len()
        invariant
            0 <= i <= values@.len(),
            within(ints(values@), VALUE_MAX as int),
            -MEDIAN_MAX <= med <= MEDIAN_MAX,
            -VALUE_MAX <= median_of(ints(values@)) <= VALUE_MAX,
            med as int == median_of(ints(values@)),
            devs@.len() == i,
            forall|k: int| 0 <= k < i ==> #[trigger] devs@[k] as int == deviations(ints(values@), med as int)[k],
        decreases values@.len() - i,
    {
        let v = values[i];
        assert(ints(values@)[i as int] == v);
        let d = if v >= med {
            v - med
        } else {
            med - v
        };
        devs.push(d);
        assert(deviations(ints(values@), med as int)[i as int] == d as int);
        i += 1;
    }
    assert(ints(devs@) =~= deviations(ints(values@), med as int));
    assert(within(ints(devs@), MEDIAN_MAX as int));
    let m = median(&devs);
    if m < 1 {
        SCALE
    } else {
        m
    }
}

/// Bound step of the smoothing recurrence.
proof fn lemma_blend_bounded(alpha: int, x: int, p: int, hi: int)
    requires
        0 < alpha <= SCALE,
        0 <= x <= hi,
        0 <= p <= hi,
    ensures
        0 <= (alpha * x + (SCALE - alpha) * p) / (SCALE as int) <= hi,
{
    let s = SCALE as int;
    assert(0 <= alpha * x + (s - alpha) * p <= s * hi) by (nonlinear_arith)
        requires
            0 < alpha <= s,
            0 <= x <= hi,
            0 <= p <= hi,
    ;
    assert((s * hi) / s == hi) by (nonlinear_arith)
        requires
            s > 0,
    ;
    assert((alpha * x + (s - alpha) * p) / s <= (s * hi) / s) by (nonlinear_arith)
        requires
            alpha * x + (s - alpha) * p <= s * hi,
            s > 0,
    ;
}

/// Exponential moving average of per-second counts, in fixed point:
/// `smooth[0] = rate[0]`, `smooth[i] = alpha * rate[i] + (1 - alpha) * smooth[i - 1]`
/// with `alpha` in `(0, 1]` given in units of `1 / SCALE`.
pub fn ewma(rate: &Vec<usize>, alpha: i128) -> (r: Vec<i128>)
    requires
        0 < alpha <= SCALE,
    ensures
        r@.len() == rate@.len(),
        forall|i: int| 0 <= i < r@.len() ==> r@[i] as int == ewma_at(counts(rate@), alpha as int, i),
        rate@.len() > 0 ==> r@[0] as int == rate@[0] * SCALE,
        within(ints(r@), VALUE_MAX as int),
{
    let mut smoothed: Vec<i128> = Vec::new();
    if rate.len() == 0 {
        assert(ints(smoothed@) =~= Seq::<int>::empty());
        return smoothed;
    }
    let hi: i128 = 0x1_0000_0000_0000_0000 * SCALE;
    let mut prev: i128 = rate[0] as i128 * SCALE;
    smoothed.push(prev);
    let mut i: usize = 1;
    while i < rate.len()
        invariant
            0 < alpha <= SCALE,
            hi == 0x1_0000_0000_0000_0000 * SCALE,
            1 <= i <= rate@.len(),
            smoothed@.len() == i,
            prev == smoothed@[i - 1],
            0 <= prev <= hi,
            forall|k: int| 0 <= k < i ==> smoothed@[k] as int == ewma_at(counts(rate@), alpha as int, k),
            forall|k: int| 0 <= k < i ==> 0 <= #[trigger] smoothed@[k] <= hi,
        decreases rate@.len() - i,
    {
        let x: i128 = rate[i] as i128 * SCALE;
        proof {
            lemma_blend_bounded(alpha as int, x as int, prev as int, hi as int);
        }
        prev = (alpha * x + (SCALE - alpha) * prev) / SCALE;
        smoothed.push(prev);
        i += 1;
    }
    assert(within(ints(smoothed@), VALUE_MAX as int)) by {
        assert forall|k: int| 0 <= k < ints(smoothed@).len() implies -VALUE_MAX <= #[trigger] ints(smoothed@)[k] <= VALUE_MAX by {
            assert(0 <= smoothed@[k] <= hi);
        }
    }
    smoothed
}

/// A constant sequence is its own sorted arrangement.
proof fn lemma_constant_sorted(s: Seq<int>, c: int)
    requires
        forall|i: int| 0 <= i < s.len() ==> #[trigger] s[i] == c,
    ensures
        s.sort() == s,
{
    lemma_ascending_is_sort(s, s);
}

/// The median of a non-empty constant sequence is that constant.
pub proof fn lemma_median_of_constant(s: Seq<int>, c: int)
    requires
        s.len() > 0,
        forall|i: int| 0 <= i < s.len() ==> #[trigger] s[i] == c,
    ensures
        median_of(s) == c,
{
    lemma_constant_sorted(s, c);
    let n = s.len() as int;
    if n % 2 == 0 {
        assert(s[n / 2 - 1] == c && s[n / 2] == c);
    } else {
        assert(s[n / 2] == c);
    }
}

/// The MAD of a constant series is the floor value `SCALE` (1.0), never 0.
pub proof fn lemma_mad_of_constant(s: Seq<int>, c: int)
    requires
        forall|i: int| 0 <= i < s.len() ==> #[trigger] s[i] == c,
    ensures
        mad_of(s) == SCALE,
{
    if s.len() > 0 {
        lemma_median_of_constant(s, c);
        let d = deviations(s, c);
        assert forall|i: int| 0 <= i < d.len() implies #[trigger] d[i] == 0 by {
            assert(s[i] == c);
        }
        lemma_median_of_constant(d, 0);
    }
}

} // verus!
