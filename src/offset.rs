//! Global time offset between two recordings: the heaviest bin of a weighted
//! histogram of peak-time differences, refined by a weighted mean.
use vstd::prelude::*;
use crate::stats::{floor_div, SCALE};

verus! {

/// Number of strongest events per side used to estimate the offset.
pub const TOP_K: usize = 40;

/// Width of an offset histogram bin, in seconds.
pub const BIN_SIZE: i64 = 10;

/// Peak z-scores (fixed point) that the matcher accepts lie in `[0, Z_LIMIT]`.
pub const Z_LIMIT: i128 = 0x400_0000_0000_0000_0000_0000;

/// `BIN_SIZE * Z_LIMIT`: largest magnitude of one weighted difference from
/// the best bin.
pub const MOMENT_STEP: i128 = 0x2800_0000_0000_0000_0000_0000;

/// Largest magnitude of an absolute time (base time plus event second) in
/// the matcher.
pub const ABS_LIMIT: i64 = 24_000_000_000_000;

/// The smaller of two integers.
pub open spec fn min_int(x: int, y: int) -> int {
    if x <= y {
        x
    } else {
        y
    }
}

/// Peak-time differences and weights of `x` against every entry of `b`;
/// entries are (absolute peak time, peak z-score).
pub open spec fn pair_row(x: (i64, i128), b: Seq<(i64, i128)>) -> Seq<(int, int)> {
    b.map_values(|y: (i64, i128)| (y.0 - x.0, min_int(x.1 as int, y.1 as int)))
}

/// Differences `b_peak - a_peak` with weight `min(z_a, z_b)` over all pairs.
pub open spec fn peak_pairs(a: Seq<(i64, i128)>, b: Seq<(i64, i128)>) -> Seq<(int, int)>
    decreases a.len(),
{
    if a.len() == 0 {
        Seq::empty()
    } else {
        peak_pairs(a.drop_last(), b) + pair_row(a.last(), b)
    }
}

/// The histogram bin of difference `d`: its left edge, a multiple of
/// `BIN_SIZE`.
pub open spec fn bin_of(d: int) -> int {
    (d / (BIN_SIZE as int)) * BIN_SIZE
}

/// Total weight of the pairs that fall in bin `bin`.
pub open spec fn bin_weight(ps: Seq<(int, int)>, bin: int) -> int
    decreases ps.len(),
{
    if ps.len() == 0 {
        0
    } else {
        bin_weight(ps.drop_last(), bin) + if bin_of(ps.last().0) == bin {
            ps.last().1
        } else {
            0
        }
    }
}

/// `bb` is the bin of largest total weight, the lowest such bin on a tie.
pub open spec fn is_best_bin(ps: Seq<(int, int)>, bb: int) -> bool {
    &&& exists|i: int| 0 <= i < ps.len() && bin_of(#[trigger] ps[i].0) == bb
    &&& forall|i: int|
        0 <= i < ps.len() ==> bin_weight(ps, bin_of(#[trigger] ps[i].0)) < bin_weight(ps, bb) || (
        bin_weight(ps, bin_of(ps[i].0)) == bin_weight(ps, bb) && bb <= bin_of(ps[i].0))
}

/// Difference `d` is within one bin width of `bb`.
pub open spec fn near(d: int, bb: int) -> bool {
    bb - BIN_SIZE <= d <= bb + BIN_SIZE
}

/// Total weight of the pairs near `bb`.
pub open spec fn near_weight(ps: Seq<(int, int)>, bb: int) -> int
    decreases ps.len(),
{
    if ps.len() == 0 {
        0
    } else {
        near_weight(ps.drop_last(), bb) + if near(ps.last().0, bb) {
            ps.last().1
        } else {
            0
        }
    }
}

/// Weighted sum of `d - bb` over the pairs near `bb`.
pub open spec fn near_moment(ps: Seq<(int, int)>, bb: int) -> int
    decreases ps.len(),
{
    if ps.len() == 0 {
        0
    } else {
        near_moment(ps.drop_last(), bb) + if near(ps.last().0, bb) {
            (ps.last().0 - bb) * ps.last().1
        } else {
            0
        }
    }
}

/// The weighted mean (fixed point, rounded down) of the differences near
/// bin `bb`, or `bb` itself when their weight is not positive.
pub open spec fn offset_from(ps: Seq<(int, int)>, bb: int) -> int {
    let w = near_weight(ps, bb);
    if w > 0 {
        bb * SCALE + (near_moment(ps, bb) * SCALE) / w
    } else {
        bb * SCALE
    }
}

/// The offset estimated from peak pairs `ps`; 0 when there are none.
pub open spec fn is_offset_of(r: int, ps: Seq<(int, int)>) -> bool {
    if ps.len() == 0 {
        r == 0
    } else {
        exists|bb: int| is_best_bin(ps, bb) && r == offset_from(ps, bb)
    }
}

/// Entries of a top list are in range.
pub open spec fn top_in_range(a: Seq<(i64, i128)>) -> bool {
    forall|i: int|
        0 <= i < a.len() ==> -ABS_LIMIT <= (#[trigger] a[i]).0 <= ABS_LIMIT && 0 <= a[i].1
            <= Z_LIMIT
}

/// Pairs as machine integers read as mathematical integers.
pub open spec fn pair_ints(v: Seq<(i64, i128)>) -> Seq<(int, int)> {
    v.map_values(|x: (i64, i128)| (x.0 as int, x.1 as int))
}

/// Every pair has a difference within `2 * ABS_LIMIT` and a weight in
/// `[0, Z_LIMIT]`.
pub open spec fn pairs_in_range(ps: Seq<(int, int)>) -> bool {
    forall|i: int|
        0 <= i < ps.len() ==> -2 * ABS_LIMIT <= (#[trigger] ps[i]).0 <= 2 * ABS_LIMIT && 0 <= ps[i].1
            <= Z_LIMIT
}

proof fn lemma_pairs_len(a: Seq<(i64, i128)>, b: Seq<(i64, i128)>)
    ensures
        peak_pairs(a, b).len() == a.len() * b.len(),
    decreases a.len(),
{
    if a.len() > 0 {
        lemma_pairs_len(a.drop_last(), b);
        assert(a.len() * b.len() == (a.len() - 1) * b.len() + b.len()) by (nonlinear_arith);
    }
}

/// All weighted differences between the peaks of two top lists.
fn build_pairs(a: &Vec<(i64, i128)>, b: &Vec<(i64, i128)>) -> (ps: Vec<(i64, i128)>)
    requires
        top_in_range(a@),
        top_in_range(b@),
        a@.len() <= TOP_K,
        b@.len() <= TOP_K,
    ensures
        pair_ints(ps@) == peak_pairs(a@, b@),
        pairs_in_range(pair_ints(ps@)),
        ps@.len() <= TOP_K * TOP_K,
{
    let mut ps: Vec<(i64, i128)> = Vec::new();
    let mut i: usize = 0;
    while i < a.len()
        invariant
            0 <= i <= a@.len(),
            top_in_range(a@),
            top_in_range(b@),
            pair_ints(ps@) == peak_pairs(a@.take(i as int), b@),
            forall|q: int|
                0 <= q < ps@.len() ==> -2 * ABS_LIMIT <= (#[trigger] ps@[q]).0 <= 2 * ABS_LIMIT
                    && 0 <= ps@[q].1 <= Z_LIMIT,
        decreases a@.len() - i,
    {
        let x = a[i];
        let ghost start = ps@;
        let mut j: usize = 0;
        while j < b.len()
            invariant
                0 <= j <= b@.len(),
                i < a@.len(),
                x == a@[i as int],
                top_in_range(a@),
                top_in_range(b@),
                ps@.len() == start.len() + j,
                forall|q: int| 0 <= q < start.len() ==> #[trigger] ps@[q] == start[q],
                forall|q: int|
                    0 <= q < j ==> (#[trigger] ps@[start.len() + q]).0 == b@[q].0 - x.0 && ps@[start.len()
                        + q].1 == min_int(x.1 as int, b@[q].1 as int),
                forall|q: int|
                    0 <= q < ps@.len() ==> -2 * ABS_LIMIT <= (#[trigger] ps@[q]).0 <= 2 * ABS_LIMIT
                        && 0 <= ps@[q].1 <= Z_LIMIT,
            decreases b@.len() - j,
        {
            let y = b[j];
            let d = y.0 - x.0;
            let w = if x.1 <= y.1 {
                x.1
            } else {
                y.1
            };
            ps.push((d, w));
            j += 1;
        }
        assert(a@.take(i + 1).drop_last() =~= a@.take(i as int));
        assert(a@.take(i + 1).last() == x);
        assert forall|q: int| 0 <= q < ps@.len() implies #[trigger] pair_ints(ps@)[q] == (pair_ints(start) + pair_row(x, b@))[q] by {
            if q < start.len() {
                assert(ps@[q] == start[q]);
            } else {
                assert(ps@[start.len() + (q - start.len())] == ps@[q]);
            }
        }
        assert(pair_ints(ps@) =~= pair_ints(start) + pair_row(x, b@));
        i += 1;
    }
    assert(a@.take(a@.len() as int) =~= a@);
    assert(pairs_in_range(pair_ints(ps@))) by {
        assert forall|q: int| 0 <= q < pair_ints(ps@).len() implies -2 * ABS_LIMIT <= (#[trigger] pair_ints(ps@)[q]).0 <= 2 * ABS_LIMIT
            && 0 <= pair_ints(ps@)[q].1 <= Z_LIMIT by {
            assert(pair_ints(ps@)[q] == (ps@[q].0 as int, ps@[q].1 as int));
        }
    }
    proof {
        lemma_pairs_len(a@, b@);
        assert(a@.len() * b@.len() <= TOP_K * TOP_K) by (nonlinear_arith)
            requires
                a@.len() <= TOP_K,
                b@.len() <= TOP_K,
        ;
    }
    ps
}

/// The bin of a difference.
fn bin_floor(d: i64) -> (r: i128)
    requires
        -2 * ABS_LIMIT <= d <= 2 * ABS_LIMIT,
    ensures
        r as int == bin_of(d as int),
        d - BIN_SIZE < r <= d,
{
    let q = floor_div(d as i128, BIN_SIZE as i128);
    q * (BIN_SIZE as i128)
}

/// Total weight of the pairs in bin `bin`.
fn weight_of_bin(ps: &Vec<(i64, i128)>, bin: i128) -> (r: i128)
    requires
        pairs_in_range(pair_ints(ps@)),
        ps@.len() <= TOP_K * TOP_K,
    ensures
        r as int == bin_weight(pair_ints(ps@), bin as int),
        -(TOP_K * TOP_K) * Z_LIMIT <= r <= TOP_K * TOP_K * Z_LIMIT,
{
    let ghost p = pair_ints(ps@);
    let mut acc: i128 = 0;
    let mut j: usize = 0;
    while j < ps.len()
        invariant
            0 <= j <= ps@.len(),
            ps@.len() <= TOP_K * TOP_K,
            p == pair_ints(ps@),
            pairs_in_range(p),
            acc as int == bin_weight(p.take(j as int), bin as int),
            -(j as int) * Z_LIMIT <= acc <= j * Z_LIMIT,
        decreases ps@.len() - j,
    {
        let (d, w) = ps[j];
        assert(p[j as int] == (d as int, w as int));
        assert(p.take(j + 1).drop_last() =~= p.take(j as int));
        let bd = bin_floor(d);
        if bd == bin {
            acc = acc + w;
        }
        j += 1;
    }
    assert(p.take(ps@.len() as int) =~= p);
    acc
}

/// Total weight and weighted offset sum of the pairs near `bb`.
fn near_sums(ps: &Vec<(i64, i128)>, bb: i128) -> (r: (i128, i128))
    requires
        pairs_in_range(pair_ints(ps@)),
        ps@.len() <= TOP_K * TOP_K,
        -4 * ABS_LIMIT <= bb <= 4 * ABS_LIMIT,
    ensures
        r.0 as int == near_weight(pair_ints(ps@), bb as int),
        r.1 as int == near_moment(pair_ints(ps@), bb as int),
        -(TOP_K * TOP_K) * MOMENT_STEP <= r.1 <= TOP_K * TOP_K * MOMENT_STEP,
        0 <= r.0,
        -10 * r.0 <= r.1 <= 10 * r.0,
{
    let ghost p = pair_ints(ps@);
    let mut wsum: i128 = 0;
    let mut msum: i128 = 0;
    let mut j: usize = 0;
    while j < ps.len()
        invariant
            0 <= j <= ps@.len(),
            ps@.len() <= TOP_K * TOP_K,
            -4 * ABS_LIMIT <= bb <= 4 * ABS_LIMIT,
            p == pair_ints(ps@),
            pairs_in_range(p),
            wsum as int == near_weight(p.take(j as int), bb as int),
            msum as int == near_moment(p.take(j as int), bb as int),
            -(j as int) * Z_LIMIT <= wsum <= j * Z_LIMIT,
            -(j as int) * MOMENT_STEP <= msum <= j * MOMENT_STEP,
            0 <= wsum,
            -10 * wsum <= msum <= 10 * wsum,
        decreases ps@.len() - j,
    {
        let (d, w) = ps[j];
        assert(p[j as int] == (d as int, w as int));
        assert(p.take(j + 1).drop_last() =~= p.take(j as int));
        let dd = d as i128;
        if bb - (BIN_SIZE as i128) <= dd && dd <= bb + (BIN_SIZE as i128) {
            let off = dd - bb;
            assert(-MOMENT_STEP <= off * w <= MOMENT_STEP) by (nonlinear_arith)
                requires
                    -BIN_SIZE <= off <= BIN_SIZE,
                    -Z_LIMIT <= w <= Z_LIMIT,
            ;
            assert(-10 * w <= off * w <= 10 * w) by (nonlinear_arith)
                requires
                    -10 <= off <= 10,
                    0 <= w,
            ;
            wsum = wsum + w;
            msum = msum + off * w;
        }
        j += 1;
    }
    assert(p.take(ps@.len() as int) =~= p);
    (wsum, msum)
}

/// Estimates the shift (fixed point, seconds) to add to the first recording
/// to align it with the second: the heaviest bin of the weighted histogram of
/// peak-time differences, refined by the weighted mean of the differences
/// within one bin width of it. Entries are (absolute peak time, z-score).
pub fn estimate_offset(a_top: &Vec<(i64, i128)>, b_top: &Vec<(i64, i128)>) -> (r: i128)
    requires
        top_in_range(a_top@),
        top_in_range(b_top@),
        a_top@.len() <= TOP_K,
        b_top@.len() <= TOP_K,
    ensures
        is_offset_of(r as int, peak_pairs(a_top@, b_top@)),
        -(2 * ABS_LIMIT + 2 * BIN_SIZE) * SCALE <= r <= (2 * ABS_LIMIT + 2 * BIN_SIZE) * SCALE,
{
    let ps = build_pairs(a_top, b_top);
    let ghost p = pair_ints(ps@);
    if ps.len() == 0 {
        return 0;
    }
    assert(p[0] == (ps@[0].0 as int, ps@[0].1 as int));
    let mut best_bin = bin_floor(ps[0].0);
    let mut best_w = weight_of_bin(&ps, best_bin);
    let ghost mut witness: int = 0;
    let mut i: usize = 1;
    while i < ps.len()
        invariant
            1 <= i <= ps@.len(),
            ps@.len() <= TOP_K * TOP_K,
            p == pair_ints(ps@),
            pairs_in_range(p),
            0 <= witness < ps@.len(),
            bin_of(p[witness].0) == best_bin,
            -4 * ABS_LIMIT <= best_bin <= 4 * ABS_LIMIT,
            best_w as int == bin_weight(p, best_bin as int),
            forall|k: int|
                0 <= k < i ==> bin_weight(p, bin_of(#[trigger] p[k].0)) < best_w || (bin_weight(
                    p,
                    bin_of(p[k].0),
                ) == best_w && best_bin <= bin_of(p[k].0)),
        decreases ps@.len() - i,
    {
        assert(p[i as int] == (ps@[i as int].0 as int, ps@[i as int].1 as int));
        let bi = bin_floor(ps[i].0);
        let wi = weight_of_bin(&ps, bi);
        if wi > best_w || (wi == best_w && bi < best_bin) {
            best_bin = bi;
            best_w = wi;
            proof {
                witness = i as int;
            }
        }
        i += 1;
    }
    assert(is_best_bin(p, best_bin as int));
    assert(-2 * ABS_LIMIT - BIN_SIZE <= best_bin <= 2 * ABS_LIMIT) by {
        assert(-2 * ABS_LIMIT <= p[witness].0 <= 2 * ABS_LIMIT);
    }
    let (nw, nm) = near_sums(&ps, best_bin);
    if nw > 0 {
        let frac = floor_div(nm * SCALE, nw);
        proof {
            let x = nm as int * SCALE;
            let w = nw as int;
            let s = SCALE as int;
            assert(-BIN_SIZE * s * w <= x <= BIN_SIZE * s * w) by (nonlinear_arith)
                requires
                    x == nm * s,
                    -10 * w <= nm <= 10 * w,
                    s > 0,
            ;
            vstd::arithmetic::div_mod::lemma_fundamental_div_mod(x, w);
            let q = x / w;
            let rr = x % w;
            assert(-BIN_SIZE * s <= q <= BIN_SIZE * s) by (nonlinear_arith)
                requires
                    x == w * q + rr,
                    0 <= rr < w,
                    -BIN_SIZE * s * w <= x <= BIN_SIZE * s * w,
                    w > 0,
            ;
        }
        best_bin * SCALE + frac
    } else {
        best_bin * SCALE
    }
}

} // verus!
