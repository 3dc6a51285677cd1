//! Robust z-scores: each smoothed value against the median and the MAD of a
//! trailing baseline window.
use vstd::prelude::*;
use crate::stats::{ints, mad, mad_of, median, median_of, within, MEDIAN_MAX, SCALE, VALUE_MAX};

verus! {

/// Length of the trailing baseline window, in seconds.
pub const BASELINE_WINDOW_SEC: i64 = 600;

/// The most recent seconds left out of the baseline window.
pub const BASELINE_LAG_SEC: i64 = 60;

/// Added to the scale estimate before dividing (1e-6).
pub const EPS: i128 = 1;

/// First second of the baseline window of second `i`.
pub open spec fn window_lo(i: int) -> int {
    if i - BASELINE_WINDOW_SEC >= 0 {
        i - BASELINE_WINDOW_SEC
    } else {
        0
    }
}

/// Last second of the baseline window of second `i`.
pub open spec fn window_hi(i: int) -> int {
    if i - BASELINE_LAG_SEC >= 0 {
        i - BASELINE_LAG_SEC
    } else {
        0
    }
}

/// The smoothed values in the baseline window of second `i`: the seconds
/// from `i - 600` to `i - 60`, clamped to the start of the series.
pub open spec fn baseline_window(smooth: Seq<int>, i: int) -> Seq<int> {
    smooth.subrange(window_lo(i), window_hi(i) + 1)
}

/// Division rounding toward zero, for a positive divisor.
pub open spec fn div_toward_zero(a: int, b: int) -> int {
    if a >= 0 {
        a / b
    } else {
        -((-a) / b)
    }
}

/// Robust z-score of second `i`: distance of the smoothed value from the
/// window median, in units of the window MAD (plus `EPS`), in fixed point.
pub open spec fn z_at(smooth: Seq<int>, i: int) -> int {
    let w = baseline_window(smooth, i);
    div_toward_zero((smooth[i] - median_of(w)) * SCALE, mad_of(w) + EPS)
}

/// The z-scores of every second.
pub open spec fn z_series(smooth: Seq<int>) -> Seq<int> {
    Seq::new(smooth.len(), |i: int| z_at(smooth, i))
}

/// Copies the baseline window of second `i`.
fn baseline_values(smooth: &Vec<i128>, i: usize) -> (w: Vec<i128>)
    requires
        i < smooth@.len(),
    ensures
        ints(w@) == baseline_window(ints(smooth@), i as int),
{
    let lo: usize = if i >= 600 {
        i - 600
    } else {
        0
    };
    let hi: usize = if i >= 60 {
        i - 60
    } else {
        0
    };
    let mut w: Vec<i128> = Vec::new();
    let mut j: usize = lo;
    while j <= hi
        invariant
            lo <= j <= hi + 1,
            hi < smooth.len(),
            w@ == smooth@.subrange(lo as int, j as int),
        decreases hi + 1 - j,
    {
        w.push(smooth[j]);
        assert(smooth@.subrange(lo as int, j + 1) =~= smooth@.subrange(lo as int, j as int).push(smooth@[j as int]));
        j += 1;
    }
    assert(ints(w@) =~= baseline_window(ints(smooth@), i as int));
    w
}

/// Robust z-score of every second of a smoothed series.
pub fn robust_z_scores(smooth: &Vec<i128>) -> (z: Vec<i128>)
    requires
        within(ints(smooth@), VALUE_MAX as int),
    ensures
        ints(z@) == z_series(ints(smooth@)),
{
    let mut z: Vec<i128> = Vec::new();
    let mut i: usize = 0;
    while i < smooth.len()
        invariant
            0 <= i <= smooth@.len(),
            within(ints(smooth@), VALUE_MAX as int),
            z@.len() == i,
            forall|k: int| 0 <= k < i ==> #[trigger] z@[k] as int == z_at(ints(smooth@), k),
        decreases smooth@.len() - i,
    {
        let w = baseline_values(smooth, i);
        assert(within(ints(w@), VALUE_MAX as int)) by {
            assert forall|k: int| 0 <= k < ints(w@).len() implies -VALUE_MAX <= #[trigger] ints(w@)[k] <= VALUE_MAX by {
                assert(ints(w@)[k] == ints(smooth@)[window_lo(i as int) + k]);
            }
        }
        assert(within(ints(w@), MEDIAN_MAX as int));
        let base = median(&w);
        let scale = mad(&w);
        let cur = smooth[i];
        assert(ints(smooth@)[i as int] == cur);
        let diff = cur - base;
        let zi: i128 = if diff >= 0 {
            (diff * SCALE) / (scale + EPS)
        } else {
            -(((-diff) * SCALE) / (scale + EPS))
        };
        proof {
            let s = SCALE as int;
            assert(s > 0);
            assert(diff * s == (cur - base) * s);
        }
        z.push(zi);
        i += 1;
    }
    assert(ints(z@) =~= z_series(ints(smooth@)));
    z
}

} // verus!
