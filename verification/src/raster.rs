//! Per-channel normalization of accumulated pixel sums to 8-bit rasters.
//!
//! After accumulation each pixel's sum is divided by its sample count; a
//! pixel with no samples is undefined ("no data"). The channel's minimum
//! and maximum are taken over defined pixels only, every defined value is
//! mapped affinely onto the byte range and clamped, and undefined pixels
//! become zero. A channel whose defined values all coincide (or which has
//! none) is all zeros.
use vstd::prelude::*;
use vstd::arithmetic::div_mod::{
    lemma_div_by_multiple, lemma_div_is_ordered, lemma_div_pos_is_pos, lemma_multiply_divide_le,
};

verus! {

/// Largest per-pixel mean the normalizer accepts, in `SCALE` ticks (a
/// machine limit matching the largest per-sample contribution).
pub const MEAN_FX_MAX: i64 = 100_000_000_000;

/// Smallest mean among the defined pixels of the first `k`, if any pixel
/// there is defined.
pub open spec fn min_defined(s: Seq<int>, c: Seq<int>, k: int) -> Option<int>
    decreases
            if k >= 0 {
                k
            } else {
                0
            },
{
    if k <= 0 {
        Option::None
    } else {
        let rest = min_defined(s, c, k - 1);
        if c[k - 1] > 0 {
            let v = s[k - 1] / c[k - 1];
            match rest {
                Option::None => Option::Some(v),
                Option::Some(m) => Option::Some(
                    if v < m {
                        v
                    } else {
                        m
                    },
                ),
            }
        } else {
            rest
        }
    }
}

/// Largest mean among the defined pixels of the first `k`, if any pixel
/// there is defined.
pub open spec fn max_defined(s: Seq<int>, c: Seq<int>, k: int) -> Option<int>
    decreases
            if k >= 0 {
                k
            } else {
                0
            },
{
    if k <= 0 {
        Option::None
    } else {
        let rest = max_defined(s, c, k - 1);
        if c[k - 1] > 0 {
            let v = s[k - 1] / c[k - 1];
            match rest {
                Option::None => Option::Some(v),
                Option::Some(m) => Option::Some(
                    if v > m {
                        v
                    } else {
                        m
                    },
                ),
            }
        } else {
            rest
        }
    }
}

/// A value mapped affinely from `[lo, hi]` onto the byte range and
/// clamped; zero when the range is empty or inverted.
pub open spec fn norm_byte(v: int, lo: int, hi: int) -> int {
    if hi <= lo {
        0
    } else {
        let t = (255 * (v - lo)) / (hi - lo);
        if t < 0 {
            0
        } else if t > 255 {
            255
        } else {
            t
        }
    }
}

/// The normalized byte raster of one channel: per-pixel means mapped onto
/// the byte range spanned by the defined pixels; undefined pixels are
/// zero. The result depends on this channel's sums and counts alone.
pub open spec fn normalize_channel(s: Seq<int>, c: Seq<int>) -> Seq<u8> {
    Seq::new(
        s.len(),
        |j: int|
            if c[j] <= 0 {
                0u8
            } else {
                match (min_defined(s, c, s.len() as int), max_defined(s, c, s.len() as int)) {
                    (Option::Some(lo), Option::Some(hi)) => norm_byte(s[j] / c[j], lo, hi) as u8,
                    _ => 0u8,
                }
            },
    )
}

/// A channel in which no pixel is defined normalizes to all zeros,
/// whatever its sums hold.
pub proof fn lemma_empty_channel_all_zero(s: Seq<int>, c: Seq<int>)
    requires
        s.len() == c.len(),
        forall|j: int| 0 <= j < c.len() ==> #[trigger] c[j] <= 0,
    ensures
        normalize_channel(s, c) =~= Seq::new(s.len(), |j: int| 0u8),
{
}

/// Per-pixel mean of one channel: the accumulated sum divided by the
/// sample count.
pub fn mean_of(sig: i128, cnt: u64) -> (m: i64)
    requires
        cnt >= 1,
        0 <= sig <= (cnt as int) * (MEAN_FX_MAX as int),
    ensures
        m == sig as int / cnt as int,
        0 <= m <= MEAN_FX_MAX,
{
    proof {
        lemma_div_pos_is_pos(sig as int, cnt as int);
        lemma_multiply_divide_le(sig as int, cnt as int, MEAN_FX_MAX as int);
    }
    ((sig as u128) / (cnt as u128)) as i64
}

/// A channel with no defined pixel in its first `k` is exactly one whose
/// first `k` counts are all zero.
pub proof fn lemma_min_defined_none(s: Seq<int>, c: Seq<int>, k: int)
    requires
        0 <= k <= c.len(),
    ensures
        (min_defined(s, c, k) is None) <==> (forall|j: int| 0 <= j < k ==> #[trigger] c[j] <= 0),
        (max_defined(s, c, k) is None) <==> (forall|j: int| 0 <= j < k ==> #[trigger] c[j] <= 0),
    decreases k,
{
    if k > 0 {
        lemma_min_defined_none(s, c, k - 1);
    }
}

/// Normalize one channel of accumulated sums and counts to bytes.
pub fn normalize_channel_exec(s: &Vec<i128>, c: &Vec<u64>) -> (out: Vec<u8>)
    requires
        s@.len() == c@.len(),
        forall|j: int|
            0 <= j < s@.len() ==> 0 <= #[trigger] s@[j] <= (c@[j] as int) * (MEAN_FX_MAX as int),
    ensures
        out@ == normalize_channel(
            s@.map_values(|v: i128| v as int),
            c@.map_values(|v: u64| v as int),
        ),
{
    let ghost ss = s@.map_values(|v: i128| v as int);
    let ghost cc = c@.map_values(|v: u64| v as int);
    let n = s.len();
    let mut lo: i64 = 0;
    let mut hi: i64 = 0;
    let mut have: bool = false;
    let mut j: usize = 0;
    while j < n
        invariant
            n == s@.len(),
            n == c@.len(),
            ss == s@.map_values(|v: i128| v as int),
            cc == c@.map_values(|v: u64| v as int),
            forall|t: int|
                0 <= t < s@.len() ==> 0 <= #[trigger] s@[t] <= (c@[t] as int) * (
                MEAN_FX_MAX as int),
            j <= n,
            have <==> !(min_defined(ss, cc, j as int) is None),
            have <==> !(max_defined(ss, cc, j as int) is None),
            have ==> min_defined(ss, cc, j as int) == Option::Some(lo as int),
            have ==> max_defined(ss, cc, j as int) == Option::Some(hi as int),
            have ==> 0 <= lo <= hi <= MEAN_FX_MAX,
        decreases n - j,
    {
        if c[j] > 0 {
            let m = mean_of(s[j], c[j]);
            if !have {
                lo = m;
                hi = m;
                have = true;
            } else {
                if m < lo {
                    lo = m;
                }
                if m > hi {
                    hi = m;
                }
            }
        }
        j = j + 1;
    }
    proof {
        lemma_min_defined_none(ss, cc, n as int);
    }
    let mut out: Vec<u8> = Vec::new();
    let mut k: usize = 0;
    while k < n
        invariant
            n == s@.len(),
            n == c@.len(),
            ss == s@.map_values(|v: i128| v as int),
            cc == c@.map_values(|v: u64| v as int),
            forall|t: int|
                0 <= t < s@.len() ==> 0 <= #[trigger] s@[t] <= (c@[t] as int) * (
                MEAN_FX_MAX as int),
            have <==> !(min_defined(ss, cc, n as int) is None),
            have <==> !(max_defined(ss, cc, n as int) is None),
            have ==> min_defined(ss, cc, n as int) == Option::Some(lo as int),
            have ==> max_defined(ss, cc, n as int) == Option::Some(hi as int),
            have ==> 0 <= lo <= hi <= MEAN_FX_MAX,
            !have ==> (forall|t: int| 0 <= t < n ==> #[trigger] cc[t] <= 0),
            k <= n,
            out@.len() == k,
            forall|t: int| 0 <= t < k ==> #[trigger] out@[t] == normalize_channel(ss, cc)[t],
        decreases n - k,
    {
        if c[k] > 0 {
            proof {
                assert(cc[k as int] == c@[k as int] as int);
                if !have {
                    assert(cc[k as int] <= 0);
                }
            }
            let m = mean_of(s[k], c[k]);
            let byte = normalize_to_u8(m, lo, hi);
            out.push(byte);
            proof {
                assert(ss[k as int] == s@[k as int] as int);
                assert(out@[k as int] == normalize_channel(ss, cc)[k as int]);
            }
        } else {
            out.push(0);
            proof {
                assert(cc[k as int] == 0);
                assert(out@[k as int] == normalize_channel(ss, cc)[k as int]);
            }
        }
        k = k + 1;
    }
    proof {
        assert(out@ =~= normalize_channel(ss, cc));
    }
    out
}

/// Map a value from the channel's defined range onto one byte.
pub fn normalize_to_u8(x: i64, lo: i64, hi: i64) -> (r: u8)
    requires
        -MEAN_FX_MAX <= x <= MEAN_FX_MAX,
        -MEAN_FX_MAX <= lo <= MEAN_FX_MAX,
        -MEAN_FX_MAX <= hi <= MEAN_FX_MAX,
    ensures
        r == norm_byte(x as int, lo as int, hi as int),
{
    if hi <= lo {
        return 0;
    }
    if x <= lo {
        proof {
            assert(255 * (x as int - lo) <= 0);
            lemma_div_is_ordered(255 * (x as int - lo), 0, hi as int - lo);
            vstd::arithmetic::div_mod::lemma_div_of0(hi as int - lo);
            if x == lo {
                lemma_div_pos_is_pos(0, hi as int - lo);
            }
        }
        return 0;
    }
    if x >= hi {
        proof {
            lemma_div_by_multiple(255, hi as int - lo);
            lemma_div_is_ordered(255 * (hi as int - lo), 255 * (x as int - lo), hi as int - lo);
            assert(255 * (hi as int - lo) == (hi as int - lo) * 255) by (nonlinear_arith);
        }
        return 255;
    }
    let num: u64 = (255u64) * ((x - lo) as u64);
    let den: u64 = (hi - lo) as u64;
    let t = num / den;
    proof {
        lemma_div_pos_is_pos(num as int, den as int);
        lemma_multiply_divide_le(num as int, den as int, 255int);
        assert(num as int <= den as int * 255) by (nonlinear_arith)
            requires
                num as int == 255 * (x as int - lo as int),
                den as int == hi as int - lo as int,
                x <= hi,
        ;
    }
    t as u8
}

} // verus!
