//! Frame sequencing for outward distance sweeps.
//!
//! A sweep expands one base configuration into an ordered sequence of
//! per-frame configurations with evenly spaced, overlapping distance
//! windows; the frames differ only in their window edges and in an output
//! identifier carrying a zero-padded frame index. Frames are independent
//! and may be rendered in any order.
use vstd::prelude::*;
use vstd::arithmetic::div_mod::{lemma_div_is_ordered, lemma_div_multiples_vanish};
use crate::config::{Config, ConfigError};
use crate::projector::div_floor;

verus! {

/// Ten to the power `d`.
pub open spec fn pow10(d: nat) -> int
    decreases d,
{
    if d == 0 {
        1
    } else {
        10 * pow10((d - 1) as nat)
    }
}

/// The decimal digits of `n`, as ASCII bytes, most significant first.
pub open spec fn dec_digits(n: nat) -> Seq<u8>
    decreases n,
{
    if n < 10 {
        seq![(48 + n) as u8]
    } else {
        dec_digits(n / 10).push((48 + n % 10) as u8)
    }
}

/// The decimal digits of `n` left-padded with ASCII zeros to `w` places;
/// wider numbers keep all their digits.
pub open spec fn padded_decimal(n: nat, w: nat) -> Seq<u8> {
    if dec_digits(n).len() >= w {
        dec_digits(n)
    } else {
        Seq::new((w - dec_digits(n).len()) as nat, |i: int| 48u8) + dec_digits(n)
    }
}

/// Width of the zero-padded frame suffix for a frame count: the smallest
/// number of decimal places whose range covers the count (the ceiling of
/// its decimal logarithm).
pub fn ceil_log10(f: u32) -> (d: u32)
    requires
        1 <= f <= 1_000_000,
    ensures
        pow10(d as nat) >= f,
        d > 0 ==> pow10((d - 1) as nat) < f,
        d <= 7,
{
    let mut d: u32 = 0;
    let mut p: u64 = 1;
    while p < f as u64
        invariant
            1 <= f <= 1_000_000,
            p == pow10(d as nat),
            1 <= p,
            d <= 7,
            d > 0 ==> pow10((d - 1) as nat) < f,
        decreases 7 - d as int,
    {
        proof {
            reveal_with_fuel(pow10, 10);
            assert(pow10(7) == 10_000_000);
            assert(d < 7);
        }
        p = p * 10;
        d = d + 1;
    }
    d
}

/// Zero-padded decimal representation of `n`, at least `width` places.
pub fn pad_decimal(n: u32, width: u32) -> (r: Vec<u8>)
    requires
        width <= 16,
    ensures
        r@ == padded_decimal(n as nat, width as nat),
{
    let mut rev: Vec<u8> = Vec::new();
    let mut m: u32 = n;
    rev.push(48 + (m % 10) as u8);
    proof {
        if n >= 10 {
            assert(dec_digits(n as nat) =~= dec_digits((n as nat) / 10) + rev@.reverse());
        } else {
            assert(dec_digits(n as nat) =~= rev@.reverse());
        }
    }
    m = m / 10;
    while m > 0
        invariant
            rev@.len() >= 1,
            m > 0 ==> dec_digits(n as nat) =~= dec_digits(m as nat) + rev@.reverse(),
            m == 0 ==> dec_digits(n as nat) =~= rev@.reverse(),
        decreases m,
    {
        let ghost old_rev = rev@;
        let ghost old_m = m as nat;
        rev.push(48 + (m % 10) as u8);
        proof {
            assert(rev@.reverse() =~= seq![(48 + old_m % 10) as u8] + old_rev.reverse());
            if old_m >= 10 {
                assert(dec_digits(old_m) =~= dec_digits(old_m / 10).push(
                    (48 + old_m % 10) as u8,
                ));
                assert(dec_digits(n as nat) =~= dec_digits(old_m / 10) + rev@.reverse());
            } else {
                assert(dec_digits(old_m) =~= seq![(48 + old_m) as u8]);
                assert(dec_digits(n as nat) =~= rev@.reverse());
            }
        }
        m = m / 10;
    }
    let dlen = rev.len();
    let mut out: Vec<u8> = Vec::new();
    while out.len() + dlen < width as usize
        invariant
            dlen == rev@.len(),
            out@ =~= Seq::new(out@.len(), |i: int| 48u8),
            out@.len() + dlen <= if width as nat >= dlen { width as nat } else { dlen as nat },
        decreases width as int - out@.len() - dlen,
    {
        out.push(48);
        proof {
            assert(out@ =~= Seq::new(out@.len(), |i: int| 48u8));
        }
    }
    let mut j = dlen;
    while j > 0
        invariant
            j <= dlen,
            dlen == rev@.len(),
            dec_digits(n as nat) =~= rev@.reverse(),
            out@ =~= Seq::new(
                (if width as nat >= dlen {
                    (width - dlen) as nat
                } else {
                    0nat
                }),
                |i: int| 48u8,
            ) + rev@.subrange(j as int, dlen as int).reverse(),
        decreases j,
    {
        j = j - 1;
        out.push(rev[j]);
        proof {
            assert(rev@.subrange(j as int, dlen as int).reverse() =~= rev@.subrange(
                j as int + 1,
                dlen as int,
            ).reverse() + seq![rev@[j as int]]);
            assert(out@ =~= Seq::new(
                (if width as nat >= dlen {
                    (width - dlen) as nat
                } else {
                    0nat
                }),
                |i: int| 48u8,
            ) + rev@.subrange(j as int, dlen as int).reverse());
        }
    }
    proof {
        assert(rev@.subrange(0, dlen as int) =~= rev@);
        assert(out@ =~= padded_decimal(n as nat, width as nat));
    }
    out
}

/// Index of the last occurrence of `b` before position `hi`, or minus one
/// when there is none.
pub open spec fn last_in_prefix(s: Seq<u8>, b: u8, hi: int) -> int
    decreases
            if hi >= 0 {
                hi
            } else {
                0
            },
{
    if hi <= 0 {
        -1
    } else if s[hi - 1] == b {
        hi - 1
    } else {
        last_in_prefix(s, b, hi - 1)
    }
}

/// Index of the last occurrence of a byte in a vector.
pub fn last_byte_index(v: &Vec<u8>, b: u8) -> (r: Option<usize>)
    ensures
        match r {
            Some(j) => j == last_in_prefix(v@, b, v@.len() as int) && j < v@.len(),
            None => last_in_prefix(v@, b, v@.len() as int) == -1,
        },
{
    let mut i = v.len();
    while i > 0
        invariant
            i <= v@.len(),
            last_in_prefix(v@, b, v@.len() as int) == last_in_prefix(v@, b, i as int),
        decreases i,
    {
        i = i - 1;
        if v[i] == b {
            return Some(i);
        }
    }
    None
}

/// Length of an output identifier's stem: everything before the final
/// extension dot of its last path component, or the whole identifier when
/// that component has no extension.
pub open spec fn stem_len(s: Seq<u8>) -> int {
    let sep = last_in_prefix(s, 47u8, s.len() as int);
    let dot = last_in_prefix(s, 46u8, s.len() as int);
    if dot > sep + 1 {
        dot
    } else {
        s.len() as int
    }
}

/// The output identifier of one frame: the base identifier's stem, a dot,
/// the zero-padded frame index, and the image extension.
pub open spec fn frame_name(s: Seq<u8>, i: nat, w: nat) -> Seq<u8> {
    s.take(stem_len(s)) + seq![46u8] + padded_decimal(i, w) + seq![46u8, 112u8, 110u8, 103u8]
}

/// Build one frame's output identifier from the base identifier.
pub fn frame_file_name(base: &Vec<u8>, index: u32, width: u32) -> (r: Vec<u8>)
    requires
        width <= 16,
    ensures
        r@ == frame_name(base@, index as nat, width as nat),
{
    let sep = last_byte_index(base, 47);
    let dot = last_byte_index(base, 46);
    let stem: usize = match (dot, sep) {
        (Some(d), Some(p)) => {
            if d > p && d - p > 1 {
                d
            } else {
                base.len()
            }
        },
        (Some(d), None) => {
            if d > 0 {
                d
            } else {
                base.len()
            }
        },
        _ => base.len(),
    };
    let mut r: Vec<u8> = Vec::new();
    let mut i: usize = 0;
    while i < stem
        invariant
            stem <= base@.len(),
            i <= stem,
            r@ =~= base@.subrange(0, i as int),
        decreases stem - i,
    {
        r.push(base[i]);
        proof {
            assert(r@ =~= base@.subrange(0, i + 1 as int));
        }
        i = i + 1;
    }
    r.push(46);
    let digits = pad_decimal(index, width);
    let mut k: usize = 0;
    while k < digits.len()
        invariant
            k <= digits@.len(),
            r@ =~= base@.subrange(0, stem as int) + seq![46u8] + digits@.subrange(0, k as int),
        decreases digits@.len() - k,
    {
        r.push(digits[k]);
        proof {
            assert(r@ =~= base@.subrange(0, stem as int) + seq![46u8] + digits@.subrange(
                0,
                k + 1 as int,
            ));
        }
        k = k + 1;
    }
    r.push(46);
    r.push(112);
    r.push(110);
    r.push(103);
    proof {
        assert(digits@.subrange(0, digits@.len() as int) =~= digits@);
        assert(base@.subrange(0, stem as int) =~= base@.take(stem_len(base@)));
        assert(r@ =~= frame_name(base@, index as nat, width as nat));
    }
    r
}

/// Whether a configuration asks for an outward sweep: its end distance
/// sits above the minus-one-unit sentinel.
pub open spec fn sweep_enabled(c: Config) -> bool {
    c.to_dist > -1_000_000
}

/// Lower window edge of frame `i` in a sweep: the start distance plus the
/// frame's share of the end distance, centered by half the view width.
pub open spec fn frame_begin(c: Config, i: int) -> int {
    c.from_dist + (c.to_dist * i) / (c.total_frames as int) - (c.range_view as int) / 2
}

/// An outward sweep's windows never move back: with a nonnegative end
/// distance, later frames start at least as far out as earlier ones.
pub proof fn lemma_sweep_windows_advance(c: Config, i1: int, i2: int)
    requires
        c.to_dist >= 0,
        c.total_frames >= 1,
        0 <= i1 <= i2,
    ensures
        frame_begin(c, i1) <= frame_begin(c, i2),
{
    assert((c.to_dist as int) * i1 <= (c.to_dist as int) * i2) by (nonlinear_arith)
        requires
            c.to_dist >= 0,
            0 <= i1 <= i2,
    ;
    lemma_div_is_ordered(
        (c.to_dist as int) * i1,
        (c.to_dist as int) * i2,
        c.total_frames as int,
    );
}

/// Two configurations that agree on everything but the distance window
/// and the output identifier.
pub open spec fn same_geometry(a: Config, b: Config) -> bool {
    &&& a.y_top == b.y_top
    &&& a.y_bot == b.y_bot
    &&& a.x_size == b.x_size
    &&& a.y_size == b.y_size
    &&& a.total_size == b.total_size
    &&& a.zen_min == b.zen_min
    &&& a.zen_max == b.zen_max
    &&& a.sigma == b.sigma
    &&& a.from_dist == b.from_dist
    &&& a.to_dist == b.to_dist
    &&& a.total_frames == b.total_frames
    &&& a.range_view == b.range_view
    &&& a.split == b.split
}

/// Expand a base configuration into the ordered sequence of per-frame
/// configurations.
///
/// Without a sweep the plan is the base configuration alone, unchanged.
/// With one, a zero frame count is a configuration error (it would feed
/// the logarithm that sizes the index suffix); otherwise the plan holds
/// one configuration per frame, identical to the base except for the
/// distance window, whose edges advance evenly and span exactly the view
/// width, and the output identifier, which carries the zero-padded frame
/// index.
pub fn frame_plan(base: &Config) -> (res: Result<Vec<Config>, ConfigError>)
    requires
        base.wf(),
    ensures
        !sweep_enabled(*base) ==> (res matches Ok(plan) && plan@.len() == 1 && same_geometry(
            plan@[0],
            *base,
        ) && plan@[0].output@ == base.output@ && plan@[0].dist_min == base.dist_min
            && plan@[0].dist_max == base.dist_max && plan@[0].dist_mid == base.dist_mid
            && plan@[0].wf()),
        sweep_enabled(*base) && base.total_frames == 0 ==> res == Result::<
            Vec<Config>,
            ConfigError,
        >::Err(ConfigError::ZeroFrames),
        sweep_enabled(*base) && base.total_frames > 0 ==> (res matches Ok(plan) && plan@.len()
            == base.total_frames && forall|i: int|
            0 <= i < plan@.len() ==> {
                &&& same_geometry(#[trigger] plan@[i], *base)
                &&& plan@[i].dist_min == frame_begin(*base, i)
                &&& plan@[i].dist_max == frame_begin(*base, i) + base.range_view
                &&& plan@[i].dist_mid == (plan@[i].dist_min + plan@[i].dist_max) as int / 2
                &&& plan@[i].output@ == frame_name(
                    base.output@,
                    i as nat,
                    suffix_width(base.total_frames as nat) as nat,
                )
                &&& plan@[i].wf()
            }),
{
    if !(base.to_dist > -1_000_000i64) {
        let mut plan: Vec<Config> = Vec::new();
        plan.push(base.duplicate());
        return Ok(plan);
    }
    if base.total_frames == 0 {
        return Err(ConfigError::ZeroFrames);
    }
    let digits = ceil_log10(base.total_frames);
    proof {
        lemma_suffix_width(base.total_frames as nat, digits as nat);
    }
    let mut plan: Vec<Config> = Vec::new();
    let f = base.total_frames;
    let mut i: u32 = 0;
    while i < f
        invariant
            base.wf(),
            sweep_enabled(*base),
            1 <= f <= 1_000_000,
            f == base.total_frames,
            digits == suffix_width(f as nat),
            digits <= 7,
            i <= f,
            plan@.len() == i,
            forall|k: int|
                0 <= k < plan@.len() ==> {
                    &&& same_geometry(#[trigger] plan@[k], *base)
                    &&& plan@[k].dist_min == frame_begin(*base, k)
                    &&& plan@[k].dist_max == frame_begin(*base, k) + base.range_view
                    &&& plan@[k].dist_mid == (plan@[k].dist_min + plan@[k].dist_max) as int / 2
                    &&& plan@[k].output@ == frame_name(base.output@, k as nat, digits as nat)
                    &&& plan@[k].wf()
                },
        decreases f - i,
    {
        proof {
            assert(-1_000_000_000_000_000_000 <= (base.to_dist as int) * (i as int)
                <= 1_000_000_000_000_000_000int && ((base.to_dist as int) >= 0 ==> 0 <= (
            base.to_dist as int) * (i as int) <= (base.to_dist as int) * (f as int)) && ((
            base.to_dist as int) < 0 ==> (base.to_dist as int) * (f as int) <= (
            base.to_dist as int) * (i as int) <= 0)) by (nonlinear_arith)
                requires
                    -1_000_000_000_000 <= base.to_dist <= 1_000_000_000_000,
                    0 <= i <= f <= 1_000_000,
            ;
        }
        let share = div_floor(base.to_dist * (i as i64), f as i64);
        proof {
            lemma_div_multiples_vanish(base.to_dist as int, f as int);
            if base.to_dist >= 0 {
                lemma_div_is_ordered(0, (base.to_dist as int) * (i as int), f as int);
                lemma_div_is_ordered(
                    (base.to_dist as int) * (i as int),
                    (f as int) * (base.to_dist as int),
                    f as int,
                );
                assert((f as int) * (base.to_dist as int) == (base.to_dist as int) * (f as int))
                    by (nonlinear_arith);
            } else {
                lemma_div_is_ordered((base.to_dist as int) * (i as int), 0, f as int);
                lemma_div_is_ordered(
                    (f as int) * (base.to_dist as int),
                    (base.to_dist as int) * (i as int),
                    f as int,
                );
                assert((f as int) * (base.to_dist as int) == (base.to_dist as int) * (f as int))
                    by (nonlinear_arith);
            }
        }
        let half_view = ((base.range_view as u64) / 2u64) as i64;
        let begin = base.from_dist + share - half_view;
        let end = begin + base.range_view;
        let dist_mid = div_floor(begin + end, 2);
        let name = frame_file_name(&base.output, i, digits);
        let mut c = base.duplicate();
        c.output = name;
        c.dist_min = begin;
        c.dist_max = end;
        c.dist_mid = dist_mid;
        plan.push(c);
        i = i + 1;
    }
    Ok(plan)
}

/// Width of the frame-index suffix for a frame count: zero places for a
/// single frame, otherwise the ceiling of the count's decimal logarithm.
pub open spec fn suffix_width(f: nat) -> int {
    choose|d: int|
        0 <= d <= 7 && #[trigger] pow10(d as nat) >= f && (d > 0 ==> pow10((d - 1) as nat) < f)
}

/// `ceil_log10`'s postcondition pins the suffix width uniquely.
proof fn lemma_suffix_width(f: nat, d: nat)
    requires
        1 <= f <= 1_000_000,
        d <= 7,
        pow10(d) >= f,
        d > 0 ==> pow10((d - 1) as nat) < f,
    ensures
        suffix_width(f) == d,
{
    let di = d as int;
    assert(0 <= di <= 7 && pow10(di as nat) >= f && (di > 0 ==> pow10((di - 1) as nat) < f)) by {
        assert(di as nat == d);
        if di > 0 {
            assert((di - 1) as nat == (d - 1) as nat);
        }
    }
    assert(exists|e: int|
        0 <= e <= 7 && #[trigger] pow10(e as nat) >= f && (e > 0 ==> pow10((e - 1) as nat) < f));
    let w = suffix_width(f);
    assert(0 <= w <= 7 && pow10(w as nat) >= f && (w > 0 ==> pow10((w - 1) as nat) < f));
    lemma_pow10_strictly_increasing();
    if w < d {
        assert(pow10(w as nat) < f);
    }
    if d < w {
        assert(pow10(d) < f);
    }
}

/// The first eight powers of ten, in order.
proof fn lemma_pow10_strictly_increasing()
    ensures
        pow10(0) == 1,
        pow10(1) == 10,
        pow10(2) == 100,
        pow10(3) == 1000,
        pow10(4) == 10_000,
        pow10(5) == 100_000,
        pow10(6) == 1_000_000,
        pow10(7) == 10_000_000,
{
    reveal_with_fuel(pow10, 10);
}

} // verus!
