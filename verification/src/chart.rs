//! Chart pipeline: axis bounds, exponential smoothing, style assignment and
//! legend factorization.
//!
//! Chart points are pairs `(step, value)` with the value in fixed-point units
//! of [`crate::models::VALUE_SCALE`]. Colors and markers are palette indices:
//! a color index is a deterministic function of run identity and a marker
//! index a deterministic function of metric identity, so a run keeps its
//! color and a metric its marker across refreshes and reorderings.

use crate::models::Metric;
use crate::models::MetricPoint;
use crate::models::MetricView;
use crate::models::Run;
use crate::models::VALUE_SCALE;
use crate::strings::lemma_seq_char_le_refl;
use crate::strings::lemma_seq_char_le_total;
use crate::strings::lemma_seq_char_le_trans;
use crate::strings::seq_char_le;
use crate::strings::str_eq;
use crate::strings::str_le;
use vstd::prelude::*;
use vstd::string::StrSliceExecFns;

verus! {

/// Number of colors in the drawing layer's palette.
pub const COLOR_COUNT: usize = 6;

/// Number of marker shapes in the drawing layer's palette.
pub const MARKER_COUNT: usize = 4;

/// All points of all series, in order.
pub open spec fn flat_points(data: Seq<Vec<(i64, i64)>>) -> Seq<(i64, i64)>
    decreases data.len(),
{
    if data.len() == 0 {
        Seq::empty()
    } else {
        flat_points(data.drop_last()) + data.last()@
    }
}

/// `m` is at or below every step in `pts`.
pub open spec fn lower_bound_x(pts: Seq<(i64, i64)>, m: i64) -> bool {
    forall|t: int| 0 <= t < pts.len() ==> m <= (#[trigger] pts[t]).0
}

/// `m` is at or above every step in `pts`.
pub open spec fn upper_bound_x(pts: Seq<(i64, i64)>, m: i64) -> bool {
    forall|t: int| 0 <= t < pts.len() ==> (#[trigger] pts[t]).0 <= m
}

/// Some point in `pts` has step `m`.
pub open spec fn attained_x(pts: Seq<(i64, i64)>, m: i64) -> bool {
    exists|t: int| 0 <= t < pts.len() && (#[trigger] pts[t]).0 == m
}

/// `m` is at or below every value in `pts`.
pub open spec fn lower_bound_y(pts: Seq<(i64, i64)>, m: i64) -> bool {
    forall|t: int| 0 <= t < pts.len() ==> m <= (#[trigger] pts[t]).1
}

/// `m` is at or above every value in `pts`.
pub open spec fn upper_bound_y(pts: Seq<(i64, i64)>, m: i64) -> bool {
    forall|t: int| 0 <= t < pts.len() ==> (#[trigger] pts[t]).1 <= m
}

/// Some point in `pts` has value `m`.
pub open spec fn attained_y(pts: Seq<(i64, i64)>, m: i64) -> bool {
    exists|t: int| 0 <= t < pts.len() && (#[trigger] pts[t]).1 == m
}

/// The upper bound of an axis: the maximum when the interval is
/// non-degenerate, else the minimum plus `unit`, so the axis is never empty.
pub open spec fn expanded_upper(lo: int, hi: int, unit: int) -> int {
    if hi > lo {
        hi
    } else {
        lo + unit
    }
}

/// Calculate X and Y bounds over every point of every series. Empty data
/// gives the fixed default viewport; a degenerate axis (a single step, or
/// all-identical values) is expanded by one unit so the interval is never
/// empty.
pub fn calculate_bounds(data: &Vec<Vec<(i64, i64)>>) -> (r: ((i64, i64), (i64, i64)))
    requires
        forall|t: int|
            0 <= t < flat_points(data@).len() ==> (#[trigger] flat_points(data@)[t]).0 < i64::MAX
                && flat_points(data@)[t].1 <= i64::MAX - VALUE_SCALE,
    ensures
        flat_points(data@).len() == 0 ==> r == ((0i64, 1i64), (0i64, VALUE_SCALE)),
        flat_points(data@).len() > 0 ==> {
            let pts = flat_points(data@);
            &&& lower_bound_x(pts, r.0.0) && attained_x(pts, r.0.0)
            &&& lower_bound_y(pts, r.1.0) && attained_y(pts, r.1.0)
            &&& exists|mx: i64|
                upper_bound_x(pts, mx) && #[trigger] attained_x(pts, mx) && r.0.1 == expanded_upper(
                    r.0.0 as int,
                    mx as int,
                    1,
                )
            &&& exists|my: i64|
                upper_bound_y(pts, my) && #[trigger] attained_y(pts, my) && r.1.1 == expanded_upper(
                    r.1.0 as int,
                    my as int,
                    VALUE_SCALE as int,
                )
        },
{
    let pts = flatten_points(data);
    if pts.len() == 0 {
        return ((0i64, 1i64), (0i64, VALUE_SCALE));
    }
    let n = pts.len();
    let mut x_min: i64 = pts[0].0;
    let mut x_max: i64 = pts[0].0;
    let mut y_min: i64 = pts[0].1;
    let mut y_max: i64 = pts[0].1;
    let mut t: usize = 1;
    proof {
        assert(pts@.take(1)[0] == pts@[0]);
        assert(attained_x(pts@.take(1), x_min));
        assert(attained_x(pts@.take(1), x_max));
        assert(attained_y(pts@.take(1), y_min));
        assert(attained_y(pts@.take(1), y_max));
    }
    while t < n
        invariant
            1 <= t <= n,
            n == pts@.len(),
            pts@ == flat_points(data@),
            lower_bound_x(pts@.take(t as int), x_min),
            attained_x(pts@.take(t as int), x_min),
            upper_bound_x(pts@.take(t as int), x_max),
            attained_x(pts@.take(t as int), x_max),
            lower_bound_y(pts@.take(t as int), y_min),
            attained_y(pts@.take(t as int), y_min),
            upper_bound_y(pts@.take(t as int), y_max),
            attained_y(pts@.take(t as int), y_max),
        decreases n - t,
    {
        let ghost prefix = pts@.take(t as int);
        let p = pts[t];
        if p.0 < x_min {
            x_min = p.0;
        }
        if p.0 > x_max {
            x_max = p.0;
        }
        if p.1 < y_min {
            y_min = p.1;
        }
        if p.1 > y_max {
            y_max = p.1;
        }
        proof {
            assert(pts@.take(t + 1) == prefix.push(pts@[t as int]));
            lemma_bound_push(prefix, pts@[t as int], x_min, x_max, y_min, y_max);
        }
        t = t + 1;
    }
    proof {
        assert(pts@.take(n as int) == pts@);
        assert(flat_points(data@)[0] == pts@[0]);
    }
    let x_hi: i64 = if x_max > x_min {
        x_max
    } else {
        x_min + 1
    };
    let y_hi: i64 = if y_max > y_min {
        y_max
    } else {
        y_min + VALUE_SCALE
    };
    ((x_min, x_hi), (y_min, y_hi))
}

/// Bounds extended by one point stay bounds, given the updated candidates.
proof fn lemma_bound_push(
    prefix: Seq<(i64, i64)>,
    p: (i64, i64),
    x_min: i64,
    x_max: i64,
    y_min: i64,
    y_max: i64,
)
    requires
        lower_bound_x(prefix, x_min) || x_min == p.0,
        upper_bound_x(prefix, x_max) || x_max == p.0,
        lower_bound_y(prefix, y_min) || y_min == p.1,
        upper_bound_y(prefix, y_max) || y_max == p.1,
        x_min <= p.0 <= x_max,
        y_min <= p.1 <= y_max,
        lower_bound_x(prefix, x_min),
        upper_bound_x(prefix, x_max),
        lower_bound_y(prefix, y_min),
        upper_bound_y(prefix, y_max),
        attained_x(prefix, x_min) || x_min == p.0,
        attained_x(prefix, x_max) || x_max == p.0,
        attained_y(prefix, y_min) || y_min == p.1,
        attained_y(prefix, y_max) || y_max == p.1,
    ensures
        lower_bound_x(prefix.push(p), x_min),
        upper_bound_x(prefix.push(p), x_max),
        lower_bound_y(prefix.push(p), y_min),
        upper_bound_y(prefix.push(p), y_max),
        attained_x(prefix.push(p), x_min),
        attained_x(prefix.push(p), x_max),
        attained_y(prefix.push(p), y_min),
        attained_y(prefix.push(p), y_max),
{
    let s = prefix.push(p);
    assert(s[s.len() - 1] == p);
    assert forall|t: int| 0 <= t < s.len() implies x_min <= (#[trigger] s[t]).0 && (s[t]).0 <= x_max
        && y_min <= (s[t]).1 && (s[t]).1 <= y_max by {
        if t < prefix.len() {
            assert(s[t] == prefix[t]);
        }
    }
    if attained_x(prefix, x_min) {
        let t = choose|t: int| 0 <= t < prefix.len() && prefix[t].0 == x_min;
        assert(s[t].0 == x_min);
    }
    if attained_x(prefix, x_max) {
        let t = choose|t: int| 0 <= t < prefix.len() && prefix[t].0 == x_max;
        assert(s[t].0 == x_max);
    }
    if attained_y(prefix, y_min) {
        let t = choose|t: int| 0 <= t < prefix.len() && prefix[t].1 == y_min;
        assert(s[t].1 == y_min);
    }
    if attained_y(prefix, y_max) {
        let t = choose|t: int| 0 <= t < prefix.len() && prefix[t].1 == y_max;
        assert(s[t].1 == y_max);
    }
}

/// Concatenate every series' points into one list, in order.
fn flatten_points(data: &Vec<Vec<(i64, i64)>>) -> (pts: Vec<(i64, i64)>)
    ensures
        pts@ == flat_points(data@),
{
    let mut pts: Vec<(i64, i64)> = Vec::new();
    let n = data.len();
    let mut i: usize = 0;
    while i < n
        invariant
            i <= n,
            n == data@.len(),
            pts@ == flat_points(data@.take(i as int)),
        decreases n - i,
    {
        let row = &data[i];
        let m = row.len();
        let mut j: usize = 0;
        while j < m
            invariant
                j <= m,
                i < n,
                n == data@.len(),
                m == data@[i as int]@.len(),
                row@ == data@[i as int]@,
                pts@ == flat_points(data@.take(i as int)) + row@.take(j as int),
            decreases m - j,
        {
            pts.push(row[j]);
            proof {
                assert(row@.take(j + 1) == row@.take(j as int).push(row@[j as int]));
                assert(pts@ =~= flat_points(data@.take(i as int)) + row@.take(j + 1));
            }
            j = j + 1;
        }
        proof {
            assert(data@.take(i + 1).drop_last() == data@.take(i as int));
            assert(data@.take(i + 1).last() == data@[i as int]);
            assert(row@.take(m as int) == row@);
            assert(pts@ == flat_points(data@.take(i + 1)));
        }
        i = i + 1;
    }
    proof {
        assert(data@.take(n as int) == data@);
    }
    pts
}

/// The smoothing factor actually applied: factors above 99 hundredths are
/// clamped to 99.
pub open spec fn clamped_factor(factor: int) -> int {
    if factor > 99 {
        99
    } else {
        factor
    }
}

/// Division by 100 that truncates towards zero, as the executable code does.
pub open spec fn div100_trunc(n: int) -> int {
    if n >= 0 {
        n / 100
    } else {
        -((-n) / 100)
    }
}

/// One smoothing step: a weighted average of the raw value and the previous
/// smoothed value, in hundredths.
pub open spec fn ema_next(prev: int, raw: int, factor: int) -> int {
    div100_trunc((100 - factor) * raw + factor * prev)
}

/// Exponential moving average of a value sequence: the first value is kept
/// raw, each later one is averaged with its predecessor's smoothed value.
pub open spec fn ema_seq(vals: Seq<int>, factor: int) -> Seq<int>
    decreases vals.len(),
{
    if vals.len() == 0 {
        Seq::empty()
    } else if vals.len() == 1 {
        seq![vals[0]]
    } else {
        let prefix = ema_seq(vals.drop_last(), factor);
        prefix.push(ema_next(prefix.last(), vals.last(), factor))
    }
}

/// The values of a point sequence, as mathematical integers.
pub open spec fn values_of(ps: Seq<MetricPoint>) -> Seq<int> {
    ps.map(|i: int, p: MetricPoint| p.value as int)
}

/// Law: smoothing with factor 0 is the identity transform: the output values
/// equal the input values, point for point.
pub proof fn lemma_smoothing_identity(vals: Seq<int>)
    requires
        forall|i: int| 0 <= i < vals.len() ==> i64::MIN <= #[trigger] vals[i] <= i64::MAX,
    ensures
        ema_seq(vals, 0) == vals,
    decreases vals.len(),
{
    if vals.len() == 0 {
        assert(ema_seq(vals, 0) =~= vals);
    } else if vals.len() == 1 {
        assert(ema_seq(vals, 0) =~= vals);
    } else {
        lemma_smoothing_identity(vals.drop_last());
        let prefix = ema_seq(vals.drop_last(), 0);
        assert(prefix.last() == vals[vals.len() - 2]);
        lemma_ema_zero_factor_step(prefix.last(), vals.last());
        assert(ema_seq(vals, 0) =~= vals);
    }
}

/// With factor 0 one smoothing step returns the raw value unchanged.
proof fn lemma_ema_zero_factor_step(prev: int, raw: int)
    ensures
        ema_next(prev, raw, 0) == raw,
{
    assert((100 - 0) * raw + 0 * prev == 100 * raw);
    if raw >= 0 {
        vstd::arithmetic::div_mod::lemma_div_by_multiple(raw, 100);
        assert(div100_trunc(100 * raw) == raw);
    } else {
        assert(-(100 * raw) == 100 * (-raw));
        vstd::arithmetic::div_mod::lemma_div_by_multiple(-raw, 100);
        assert(div100_trunc(100 * raw) == -((100 * (-raw)) / 100));
    }
}

/// Truncating division by 100 of a signed 128-bit sum, within the range a
/// weighted average of two 64-bit values can reach.
fn div100_trunc_exec(sum: i128) -> (r: i64)
    requires
        -100 * 0x8000_0000_0000_0000i128 <= sum <= 100 * 0x7fff_ffff_ffff_ffffi128,
    ensures
        r as int == div100_trunc(sum as int),
{
    if sum >= 0 {
        let q: u128 = (sum as u128) / 100;
        proof {
            vstd::arithmetic::div_mod::lemma_div_is_ordered(
                sum as int,
                (100 * 0x7fff_ffff_ffff_ffff) as int,
                100,
            );
            assert((100 * 0x7fff_ffff_ffff_ffff) / 100 == 0x7fff_ffff_ffff_ffff) by {
                vstd::arithmetic::div_mod::lemma_div_by_multiple(0x7fff_ffff_ffff_ffff, 100);
            }
        }
        q as i64
    } else {
        let mag: u128 = ((-sum) as u128) / 100;
        proof {
            vstd::arithmetic::div_mod::lemma_div_is_ordered(
                -sum as int,
                (100 * 0x8000_0000_0000_0000) as int,
                100,
            );
            assert((100 * 0x8000_0000_0000_0000) / 100 == 0x8000_0000_0000_0000) by {
                vstd::arithmetic::div_mod::lemma_div_by_multiple(0x8000_0000_0000_0000, 100);
            }
        }
        if mag >= 0x8000_0000_0000_0000u128 {
            i64::MIN
        } else {
            -(mag as i64)
        }
    }
}

/// Smooth a metric's values with an exponential moving average. The factor is
/// in hundredths and clamped to 99; factor 0 is the identity. Smoothing never
/// changes the steps or timestamps, only the values.
pub fn smooth_metric(points: &Vec<MetricPoint>, factor: u8) -> (r: Vec<MetricPoint>)
    ensures
        r@.len() == points@.len(),
        forall|i: int|
            0 <= i < r@.len() ==> (#[trigger] r@[i]).step == points@[i].step && r@[i].timestamp
                == points@[i].timestamp,
        values_of(r@) == ema_seq(values_of(points@), clamped_factor(factor as int)),
{
    let f: u8 = if factor > 99 {
        99
    } else {
        factor
    };
    let mut r: Vec<MetricPoint> = Vec::new();
    let n = points.len();
    let mut i: usize = 0;
    while i < n
        invariant
            i <= n,
            n == points@.len(),
            r@.len() == i,
            f as int == clamped_factor(factor as int),
            0 <= f <= 99,
            forall|j: int|
                0 <= j < i ==> (#[trigger] r@[j]).step == points@[j].step && r@[j].timestamp
                    == points@[j].timestamp,
            values_of(r@) == ema_seq(values_of(points@).take(i as int), f as int),
        decreases n - i,
    {
        let p = points[i];
        let sm: i64 = if i == 0 {
            p.value
        } else {
            let prev = r[i - 1].value;
            proof {
                lemma_ema_sum_in_range(prev as int, p.value as int, f as int);
            }
            let sum: i128 = (100 - f as i128) * (p.value as i128) + (f as i128) * (prev as i128);
            div100_trunc_exec(sum)
        };
        let ghost r0 = r@;
        r.push(MetricPoint { step: p.step, value: sm, timestamp: p.timestamp });
        proof {
            let vals = values_of(points@);
            let cur = vals.take(i + 1);
            assert(cur.drop_last() == vals.take(i as int));
            assert(cur.last() == points@[i as int].value as int);
            assert(values_of(r@) =~= values_of(r0).push(sm as int));
            if i == 0 {
                assert(cur.len() == 1);
                assert(ema_seq(cur, f as int) =~= seq![cur[0]]);
                assert(values_of(r@) =~= ema_seq(cur, f as int));
            } else {
                let prefix = ema_seq(vals.take(i as int), f as int);
                assert(prefix.len() == i);
                assert(prefix.last() == values_of(r0)[i - 1]);
                assert(values_of(r0)[i - 1] == r0[i - 1].value as int);
                assert(ema_seq(cur, f as int) == prefix.push(
                    ema_next(prefix.last(), cur.last(), f as int),
                ));
                assert(sm as int == ema_next(prefix.last(), cur.last(), f as int));
                assert(values_of(r@) =~= ema_seq(cur, f as int));
            }
        }
        i = i + 1;
    }
    proof {
        assert(values_of(points@).take(n as int) == values_of(points@));
    }
    r
}

/// The weighted sum of one smoothing step stays within the range that
/// truncating division by 100 maps back into 64 bits.
proof fn lemma_ema_sum_in_range(prev: int, raw: int, f: int)
    requires
        0 <= f <= 99,
        i64::MIN <= prev <= i64::MAX,
        i64::MIN <= raw <= i64::MAX,
    ensures
        -100 * 0x8000_0000_0000_0000 <= (100 - f) * raw + f * prev <= 100 * 0x7fff_ffff_ffff_ffff,
        -100 * 0x8000_0000_0000_0000 <= (100 - f) * raw <= 100 * 0x7fff_ffff_ffff_ffff,
        -100 * 0x8000_0000_0000_0000 <= f * prev <= 100 * 0x7fff_ffff_ffff_ffff,
{
    assert((100 - f) * raw <= (100 - f) * 0x7fff_ffff_ffff_ffff) by (nonlinear_arith)
        requires
            0 <= f <= 99,
            raw <= 0x7fff_ffff_ffff_ffff,
    ;
    assert(f * prev <= f * 0x7fff_ffff_ffff_ffff) by (nonlinear_arith)
        requires
            0 <= f,
            prev <= 0x7fff_ffff_ffff_ffff,
    ;
    assert((100 - f) * raw >= (100 - f) * (-0x8000_0000_0000_0000)) by (nonlinear_arith)
        requires
            0 <= f <= 99,
            raw >= -0x8000_0000_0000_0000,
    ;
    assert(f * prev >= f * (-0x8000_0000_0000_0000)) by (nonlinear_arith)
        requires
            0 <= f,
            prev >= -0x8000_0000_0000_0000,
    ;
    assert((100 - f) * 0x7fff_ffff_ffff_ffff + f * 0x7fff_ffff_ffff_ffff == 100
        * 0x7fff_ffff_ffff_ffff) by (nonlinear_arith);
    assert((100 - f) * (-0x8000_0000_0000_0000) + f * (-0x8000_0000_0000_0000) == -100
        * 0x8000_0000_0000_0000) by (nonlinear_arith);
    assert((100 - f) * raw >= 0 || (100 - f) * raw >= (100 - f) * (-0x8000_0000_0000_0000));
    assert(f * prev >= 0 || f * prev >= f * (-0x8000_0000_0000_0000));
    assert((100 - f) * (-0x8000_0000_0000_0000) >= -100 * 0x8000_0000_0000_0000)
        by (nonlinear_arith)
        requires
            0 <= f <= 99,
    ;
    assert(f * (-0x8000_0000_0000_0000) >= -100 * 0x8000_0000_0000_0000) by (nonlinear_arith)
        requires
            0 <= f <= 99,
    ;
    assert((100 - f) * 0x7fff_ffff_ffff_ffff <= 100 * 0x7fff_ffff_ffff_ffff) by (nonlinear_arith)
        requires
            0 <= f <= 99,
    ;
    assert(f * 0x7fff_ffff_ffff_ffff <= 100 * 0x7fff_ffff_ffff_ffff) by (nonlinear_arith)
        requires
            0 <= f <= 99,
    ;
}

/// The code of an identity string: the sum of its characters' scalar values.
pub open spec fn spec_id_code(s: Seq<char>) -> int
    decreases s.len(),
{
    if s.len() == 0 {
        0
    } else {
        spec_id_code(s.drop_last()) + (s.last() as int)
    }
}

/// The palette index for an identity: its code modulo the palette size.
fn palette_index(s: &str, palette_size: usize) -> (idx: usize)
    requires
        0 < palette_size <= 0x1000,
    ensures
        idx == spec_id_code(s@) % (palette_size as int),
        idx < palette_size,
    {
    let n = s.unicode_len();
    let mut acc: usize = 0;
    let mut i: usize = 0;
    proof {
        assert(s@.take(0) =~= Seq::<char>::empty());
        vstd::arithmetic::div_mod::lemma_small_mod(0, palette_size as nat);
    }
    while i < n
        invariant
            i <= n,
            n == s@.len(),
            0 < palette_size <= 0x1000,
            acc == spec_id_code(s@.take(i as int)) % (palette_size as int),
            acc < palette_size,
        decreases n - i,
    {
        let c = s.get_char(i);
        let code: usize = (c as u32) as usize;
        let acc_next = (acc + (code % palette_size)) % palette_size;
        proof {
            let m = palette_size as int;
            let prefix_code = spec_id_code(s@.take(i as int));
            assert(s@.take(i + 1).drop_last() == s@.take(i as int));
            assert(s@.take(i + 1).last() == s@[i as int]);
            assert(spec_id_code(s@.take(i + 1)) == prefix_code + (s@[i as int] as int));
            vstd::arithmetic::div_mod::lemma_add_mod_noop(prefix_code, code as int, m);
            vstd::arithmetic::div_mod::lemma_mod_twice(prefix_code, m);
            vstd::arithmetic::div_mod::lemma_mod_twice(code as int, m);
            vstd::arithmetic::div_mod::lemma_add_mod_noop(prefix_code % m, code as int, m);
        }
        acc = acc_next;
        i = i + 1;
    }
    proof {
        assert(s@.take(n as int) == s@);
    }
    acc
}

/// The palette color index for a run: a deterministic function of the run's
/// stable identity, never of its position in the current list.
pub fn color_index(run_id: &str) -> (idx: usize)
    ensures
        idx == spec_id_code(run_id@) % (COLOR_COUNT as int),
        idx < COLOR_COUNT,
{
    palette_index(run_id, COLOR_COUNT)
}

/// The palette marker index for a metric: a deterministic function of the
/// metric's name.
pub fn marker_index(metric_name: &str) -> (idx: usize)
    ensures
        idx == spec_id_code(metric_name@) % (MARKER_COUNT as int),
        idx < MARKER_COUNT,
{
    palette_index(metric_name, MARKER_COUNT)
}

/// One series to draw: a display label, the run's stable id, and the metric.
#[derive(Debug, Clone)]
pub struct ChartSeries {
    pub label: String,
    pub run_id: String,
    pub metric: Metric,
}

impl ChartSeries {
    /// The mathematical content of this series.
    pub open spec fn view_of(&self) -> (Seq<char>, Seq<char>, MetricView) {
        (self.label@, self.run_id@, self.metric.view_of())
    }
}

/// The distinct run (label, id) entries of `series`, first occurrence first.
pub open spec fn dedup_runs(series: Seq<ChartSeries>, seen: Set<Seq<char>>) -> Seq<(Seq<
    char,
>, Seq<char>)>
    decreases series.len(),
{
    if series.len() == 0 {
        Seq::empty()
    } else if seen.contains(series.first().run_id@) {
        dedup_runs(series.drop_first(), seen)
    } else {
        seq![(series.first().label@, series.first().run_id@)] + dedup_runs(
            series.drop_first(),
            seen.insert(series.first().run_id@),
        )
    }
}

/// The distinct metric names of `series`, first occurrence first.
pub open spec fn dedup_metrics(series: Seq<ChartSeries>, seen: Set<Seq<char>>) -> Seq<Seq<char>>
    decreases series.len(),
{
    if series.len() == 0 {
        Seq::empty()
    } else if seen.contains(series.first().metric.name@) {
        dedup_metrics(series.drop_first(), seen)
    } else {
        seq![series.first().metric.name@] + dedup_metrics(
            series.drop_first(),
            seen.insert(series.first().metric.name@),
        )
    }
}

/// The views of labelled legend entries.
pub open spec fn legend_run_views(entries: Seq<(String, String)>) -> Seq<(Seq<char>, Seq<char>)> {
    entries.map(|i: int, e: (String, String)| (e.0@, e.1@))
}

/// The views of legend metric names.
pub open spec fn legend_metric_views(entries: Seq<String>) -> Seq<Seq<char>> {
    entries.map(|i: int, e: String| e@)
}

/// Factorize the legend: list the distinct runs (label and id, for colors)
/// and the distinct metric names (for markers) separately, each in first
/// occurrence order, instead of one legend entry per series.
pub fn factorize_legend(series: &Vec<ChartSeries>) -> (r: (Vec<(String, String)>, Vec<String>))
    ensures
        legend_run_views(r.0@) == dedup_runs(series@, Set::empty()),
        legend_metric_views(r.1@) == dedup_metrics(series@, Set::empty()),
{
    let mut runs: Vec<(String, String)> = Vec::new();
    let mut metrics: Vec<String> = Vec::new();
    let n = series.len();
    let mut i: usize = 0;
    let ghost seen_runs = Set::<Seq<char>>::empty();
    let ghost seen_metrics = Set::<Seq<char>>::empty();
    proof {
        assert(series@.skip(0) =~= series@);
    }
    while i < n
        invariant
            i <= n,
            n == series@.len(),
            forall|id: Seq<char>|
                seen_runs.contains(id) == exists|a: int|
                    0 <= a < runs@.len() && (#[trigger] runs@[a].1@) == id,
            forall|name: Seq<char>|
                seen_metrics.contains(name) == exists|a: int|
                    0 <= a < metrics@.len() && (#[trigger] metrics@[a]@) == name,
            legend_run_views(runs@) + dedup_runs(series@.skip(i as int), seen_runs) == dedup_runs(
                series@,
                Set::empty(),
            ),
            legend_metric_views(metrics@) + dedup_metrics(series@.skip(i as int), seen_metrics)
                == dedup_metrics(series@, Set::empty()),
        decreases n - i,
    {
        proof {
            assert(series@.skip(i as int).first() == series@[i as int]);
            assert(series@.skip(i as int).drop_first() =~= series@.skip(i + 1));
        }
        let entry = &series[i];
        let run_known = contains_run(&runs, entry.run_id.as_str());
        if !run_known {
            let ghost runs0 = runs@;
            runs.push((entry.label.clone(), entry.run_id.clone()));
            proof {
                assert(legend_run_views(runs@) =~= legend_run_views(runs0).push(
                    (entry.label@, entry.run_id@),
                ));
                assert(legend_run_views(runs@) + dedup_runs(
                    series@.skip(i + 1),
                    seen_runs.insert(entry.run_id@),
                ) =~= legend_run_views(runs0) + (seq![(entry.label@, entry.run_id@)] + dedup_runs(
                    series@.skip(i + 1),
                    seen_runs.insert(entry.run_id@),
                )));
                assert forall|id: Seq<char>|
                    seen_runs.insert(entry.run_id@).contains(id) == exists|a: int|
                        0 <= a < runs@.len() && (#[trigger] runs@[a].1@) == id by {
                    if seen_runs.contains(id) {
                        let a = choose|a: int| 0 <= a < runs0.len() && runs0[a].1@ == id;
                        assert(runs@[a].1@ == id);
                    }
                    if id == entry.run_id@ {
                        assert(runs@[runs@.len() - 1].1@ == id);
                    }
                    if exists|a: int| 0 <= a < runs@.len() && (#[trigger] runs@[a].1@) == id {
                        let a = choose|a: int| 0 <= a < runs@.len() && runs@[a].1@ == id;
                        if a < runs0.len() {
                            assert(runs0[a].1@ == id);
                        }
                    }
                }
            }
            proof {
                seen_runs = seen_runs.insert(entry.run_id@);
            }
        }
        let metric_known = contains_metric_name(&metrics, entry.metric.name.as_str());
        if !metric_known {
            let ghost metrics0 = metrics@;
            metrics.push(entry.metric.name.clone());
            proof {
                assert(legend_metric_views(metrics@) =~= legend_metric_views(metrics0).push(
                    entry.metric.name@,
                ));
                assert(legend_metric_views(metrics@) + dedup_metrics(
                    series@.skip(i + 1),
                    seen_metrics.insert(entry.metric.name@),
                ) =~= legend_metric_views(metrics0) + (seq![entry.metric.name@] + dedup_metrics(
                    series@.skip(i + 1),
                    seen_metrics.insert(entry.metric.name@),
                )));
                assert forall|name: Seq<char>|
                    seen_metrics.insert(entry.metric.name@).contains(name) == exists|a: int|
                        0 <= a < metrics@.len() && (#[trigger] metrics@[a]@) == name by {
                    if seen_metrics.contains(name) {
                        let a = choose|a: int| 0 <= a < metrics0.len() && metrics0[a]@ == name;
                        assert(metrics@[a]@ == name);
                    }
                    if name == entry.metric.name@ {
                        assert(metrics@[metrics@.len() - 1]@ == name);
                    }
                    if exists|a: int| 0 <= a < metrics@.len() && (#[trigger] metrics@[a]@) == name {
                        let a = choose|a: int| 0 <= a < metrics@.len() && metrics@[a]@ == name;
                        if a < metrics0.len() {
                            assert(metrics0[a]@ == name);
                        }
                    }
                }
            }
            proof {
                seen_metrics = seen_metrics.insert(entry.metric.name@);
            }
        }
        i = i + 1;
    }
    proof {
        assert(series@.skip(n as int).len() == 0);
        assert(dedup_runs(series@.skip(n as int), seen_runs) =~= Seq::<(Seq<char>, Seq<
            char,
        >)>::empty());
        assert(dedup_metrics(series@.skip(n as int), seen_metrics) =~= Seq::<Seq<char>>::empty());
        assert(legend_run_views(runs@) + dedup_runs(series@.skip(n as int), seen_runs)
            =~= legend_run_views(runs@));
        assert(legend_metric_views(metrics@) + dedup_metrics(series@.skip(n as int), seen_metrics)
            =~= legend_metric_views(metrics@));
    }
    (runs, metrics)
}

/// True when some legend run entry has the given id.
fn contains_run(runs: &Vec<(String, String)>, id: &str) -> (b: bool)
    ensures
        b == exists|a: int| 0 <= a < runs@.len() && (#[trigger] runs@[a].1@) == id@,
{
    let n = runs.len();
    let mut i: usize = 0;
    while i < n
        invariant
            i <= n,
            n == runs@.len(),
            forall|a: int| 0 <= a < i ==> (#[trigger] runs@[a].1@) != id@,
        decreases n - i,
    {
        if str_eq(runs[i].1.as_str(), id) {
            return true;
        }
        i = i + 1;
    }
    false
}

/// True when some legend metric entry has the given name.
fn contains_metric_name(metrics: &Vec<String>, name: &str) -> (b: bool)
    ensures
        b == exists|a: int| 0 <= a < metrics@.len() && (#[trigger] metrics@[a]@) == name@,
{
    let n = metrics.len();
    let mut i: usize = 0;
    while i < n
        invariant
            i <= n,
            n == metrics@.len(),
            forall|a: int| 0 <= a < i ==> (#[trigger] metrics@[a]@) != name@,
        decreases n - i,
    {
        if str_eq(metrics[i].as_str(), name) {
            return true;
        }
        i = i + 1;
    }
    false
}

/// The first metric in `metrics` with the given name, if any.
pub fn metric_index_by_name(metrics: &Vec<Metric>, name: &str) -> (r: Option<usize>)
    ensures
        r is Some ==> r.unwrap() < metrics@.len() && metrics@[r.unwrap() as int].name@ == name@
            && forall|j: int| 0 <= j < r.unwrap() ==> (#[trigger] metrics@[j]).name@ != name@,
        r is None ==> forall|j: int| 0 <= j < metrics@.len() ==> (#[trigger] metrics@[j]).name@ != name@,
{
    let n = metrics.len();
    let mut i: usize = 0;
    while i < n
        invariant
            i <= n,
            n == metrics@.len(),
            forall|j: int| 0 <= j < i ==> (#[trigger] metrics@[j]).name@ != name@,
        decreases n - i,
    {
        if str_eq(metrics[i].name.as_str(), name) {
            return Some(i);
        }
        i = i + 1;
    }
    None
}

/// The display name of the first run in `runs` with the given id, if any.
pub fn display_name_for(runs: &Vec<Run>, run_id: &str) -> (r: Option<String>)
    ensures
        r is Some ==> exists|j: int|
            0 <= j < runs@.len() && (#[trigger] runs@[j]).id@ == run_id@ && r.unwrap()@
                == runs@[j].display_name@,
        r is None ==> forall|j: int| 0 <= j < runs@.len() ==> (#[trigger] runs@[j]).id@ != run_id@,
{
    let n = runs.len();
    let mut i: usize = 0;
    while i < n
        invariant
            i <= n,
            n == runs@.len(),
            forall|j: int| 0 <= j < i ==> (#[trigger] runs@[j]).id@ != run_id@,
        decreases n - i,
    {
        if str_eq(runs[i].id.as_str(), run_id) {
            return Some(runs[i].display_name.clone());
        }
        i = i + 1;
    }
    None
}

/// True when `e` reproduces some comparison entry with the wanted metric
/// name.
pub open spec fn series_entry_from(
    e: ChartSeries,
    comparison: Seq<(String, Metric)>,
    name: Seq<char>,
) -> bool {
    exists|b: int|
        0 <= b < comparison.len() && (#[trigger] comparison[b]).0@ == e.run_id@
            && comparison[b].1.view_of() == e.metric.view_of() && comparison[b].1.name@ == name
}

/// True when some series in `out` shows the comparison pair `p`.
pub open spec fn comparison_entry_shown(p: (String, Metric), out: Seq<ChartSeries>) -> bool {
    exists|i: int|
        0 <= i < out.len() && (#[trigger] out[i]).run_id@ == p.0@ && out[i].metric.view_of()
            == p.1.view_of()
}

/// The comparison series to plot: every comparison run's cached metric with
/// the wanted name whose run still exists, labelled with that run's display
/// name, in run-id order.
fn filter_comparison_series(
    comparison: &Vec<(String, Metric)>,
    runs: &Vec<Run>,
    metric_name: &str,
) -> (out: Vec<ChartSeries>)
    requires
        forall|i: int, j: int|
            0 <= i <= j < comparison@.len() ==> seq_char_le(
                (#[trigger] comparison@[i]).0@,
                (#[trigger] comparison@[j]).0@,
            ),
    ensures
        forall|i: int, j: int|
            0 <= i <= j < out@.len() ==> seq_char_le(
                (#[trigger] out@[i]).run_id@,
                (#[trigger] out@[j]).run_id@,
            ),
        forall|a: int|
            0 <= a < out@.len() ==> series_entry_from(
                #[trigger] out@[a],
                comparison@,
                metric_name@,
            ),
        forall|b: int|
            0 <= b < comparison@.len() && (#[trigger] comparison@[b]).1.name@ == metric_name@ && (
            exists|k: int| 0 <= k < runs@.len() && (#[trigger] runs@[k]).id@ == comparison@[b].0@)
                ==> comparison_entry_shown(comparison@[b], out@),
{
    let mut out: Vec<ChartSeries> = Vec::new();
    let n = comparison.len();
    let mut j: usize = 0;
    while j < n
        invariant
            j <= n,
            n == comparison@.len(),
            forall|a: int, b: int|
                0 <= a <= b < n ==> seq_char_le(
                    (#[trigger] comparison@[a]).0@,
                    (#[trigger] comparison@[b]).0@,
                ),
            forall|a: int, b: int|
                0 <= a <= b < out@.len() ==> seq_char_le(
                    (#[trigger] out@[a]).run_id@,
                    (#[trigger] out@[b]).run_id@,
                ),
            forall|a: int|
                0 <= a < out@.len() ==> series_entry_from(
                    #[trigger] out@[a],
                    comparison@.take(j as int),
                    metric_name@,
                ),
            forall|a: int, b: int|
                0 <= a < out@.len() && 0 <= b < n && j <= b ==> seq_char_le(
                    (#[trigger] out@[a]).run_id@,
                    (#[trigger] comparison@[b]).0@,
                ),
            forall|b: int|
                0 <= b < j && (#[trigger] comparison@[b]).1.name@ == metric_name@ && (exists|k: int|
                    0 <= k < runs@.len() && (#[trigger] runs@[k]).id@ == comparison@[b].0@)
                    ==> comparison_entry_shown(comparison@[b], out@),
        decreases n - j,
    {
        proof {
            assert(comparison@.take(j + 1) == comparison@.take(j as int).push(
                comparison@[j as int],
            ));
        }
        let pair_id = &comparison[j].0;
        let pair_metric = &comparison[j].1;
        if str_eq(pair_metric.name.as_str(), metric_name) {
            let label = display_name_for(runs, pair_id.as_str());
            match label {
                Some(label) => {
                    let ghost out0 = out@;
                    out.push(
                        ChartSeries {
                            label,
                            run_id: pair_id.clone(),
                            metric: pair_metric.clone(),
                        },
                    );
                    proof {
                        assert(out@[out@.len() - 1].run_id@ == comparison@[j as int].0@);
                        assert(out@[out@.len() - 1].metric.view_of() == comparison@[
                        j as int].1.view_of());
                        assert(forall|a: int| 0 <= a < out0.len() ==> #[trigger] out@[a] == out0[a]);
                        assert forall|a: int, b: int|
                            0 <= a <= b < out@.len() implies seq_char_le(
                            (#[trigger] out@[a]).run_id@,
                            (#[trigger] out@[b]).run_id@,
                        ) by {
                            if b == out@.len() - 1 {
                                if a < b {
                                    assert(seq_char_le(out0[a].run_id@, comparison@[j as int].0@));
                                } else {
                                    lemma_seq_char_le_refl(out@[a].run_id@);
                                }
                            }
                        }
                        assert forall|a: int|
                            0 <= a < out@.len() implies series_entry_from(
                            #[trigger] out@[a],
                            comparison@.take(j + 1),
                            metric_name@,
                        ) by {
                            if a < out0.len() {
                                assert(series_entry_from(
                                    out0[a],
                                    comparison@.take(j as int),
                                    metric_name@,
                                ));
                                let b0 = choose|b: int|
                                    0 <= b < comparison@.take(j as int).len() && (
                                    #[trigger] comparison@.take(j as int)[b]).0@ == out0[a].run_id@
                                        && comparison@.take(j as int)[b].1.view_of()
                                        == out0[a].metric.view_of() && comparison@.take(
                                        j as int,
                                    )[b].1.name@ == metric_name@;
                                assert(comparison@.take(j + 1)[b0] == comparison@.take(j as int)[
                                b0]);
                            } else {
                                assert(comparison@.take(j + 1)[j as int] == comparison@[j as int]);
                            }
                        }
                        assert forall|a: int, b: int|
                            0 <= a < out@.len() && 0 <= b < n && j + 1 <= b implies seq_char_le(
                            (#[trigger] out@[a]).run_id@,
                            (#[trigger] comparison@[b]).0@,
                        ) by {
                            if a < out0.len() {
                                assert(out@[a] == out0[a]);
                                assert(seq_char_le(out0[a].run_id@, comparison@[b].0@));
                            } else {
                                assert(out@[a].run_id@ == comparison@[j as int].0@);
                                assert(seq_char_le(comparison@[j as int].0@, comparison@[b].0@));
                            }
                        }
                        assert forall|b: int|
                            0 <= b < j + 1 && (#[trigger] comparison@[b]).1.name@ == metric_name@
                                && (exists|k: int|
                                0 <= k < runs@.len() && (#[trigger] runs@[k]).id@ == comparison@[
                            b].0@) implies comparison_entry_shown(comparison@[b], out@) by {
                            if b < j {
                                assert(comparison_entry_shown(comparison@[b], out0));
                                let a0 = choose|a: int|
                                    0 <= a < out0.len() && (#[trigger] out0[a]).run_id@
                                        == comparison@[b].0@ && out0[a].metric.view_of()
                                        == comparison@[b].1.view_of();
                                assert(out@[a0] == out0[a0]);
                            } else {
                                assert(out@[out@.len() - 1].run_id@ == comparison@[b].0@);
                            }
                        }
                    }
                },
                None => {
                    proof {
                        assert forall|b: int|
                            0 <= b < j + 1 && (#[trigger] comparison@[b]).1.name@ == metric_name@
                                && (exists|k: int|
                                0 <= k < runs@.len() && (#[trigger] runs@[k]).id@ == comparison@[
                            b].0@) implies comparison_entry_shown(comparison@[b], out@) by {
                            if b == j {
                                let k = choose|k: int|
                                    0 <= k < runs@.len() && (#[trigger] runs@[k]).id@
                                        == comparison@[b].0@;
                                assert(runs@[k].id@ != comparison@[j as int].0@);
                            }
                        }
                        assert forall|a: int|
                            0 <= a < out@.len() implies series_entry_from(
                            #[trigger] out@[a],
                            comparison@.take(j + 1),
                            metric_name@,
                        ) by {
                            lemma_series_entry_extend(
                                out@[a],
                                comparison@.take(j as int),
                                comparison@[j as int],
                                metric_name@,
                            );
                        }
                    }
                },
            }
        } else {
            proof {
                assert(comparison@[j as int].1.name@ != metric_name@);
                assert forall|a: int|
                    0 <= a < out@.len() implies series_entry_from(
                    #[trigger] out@[a],
                    comparison@.take(j + 1),
                    metric_name@,
                ) by {
                    lemma_series_entry_extend(
                        out@[a],
                        comparison@.take(j as int),
                        comparison@[j as int],
                        metric_name@,
                    );
                }
            }
        }
        j = j + 1;
    }
    proof {
        assert(comparison@.take(n as int) == comparison@);
    }
    out
}

/// A series reproducing an entry of a prefix still does so after the prefix
/// grows by one entry.
proof fn lemma_series_entry_extend(
    e: ChartSeries,
    prefix: Seq<(String, Metric)>,
    next: (String, Metric),
    name: Seq<char>,
)
    requires
        series_entry_from(e, prefix, name),
    ensures
        series_entry_from(e, prefix.push(next), name),
{
    let b0 = choose|b: int|
        0 <= b < prefix.len() && (#[trigger] prefix[b]).0@ == e.run_id@ && prefix[b].1.view_of()
            == e.metric.view_of() && prefix[b].1.name@ == name;
    assert(prefix.push(next)[b0] == prefix[b0]);
}

/// Gather the series to plot: the selected run's current metric, plus every
/// comparison run's cached metric of the same name whose run still exists,
/// labelled with that run's display name and sorted by run id so colors stay
/// stable whichever run is selected.
pub fn gather_chart_series(
    current: Option<ChartSeries>,
    comparison: &Vec<(String, Metric)>,
    runs: &Vec<Run>,
    metric_name: &str,
) -> (out: Vec<ChartSeries>)
    requires
        forall|i: int, j: int|
            0 <= i <= j < comparison@.len() ==> seq_char_le(
                (#[trigger] comparison@[i]).0@,
                (#[trigger] comparison@[j]).0@,
            ),
    ensures
        forall|i: int, j: int|
            0 <= i <= j < out@.len() ==> seq_char_le(
                (#[trigger] out@[i]).run_id@,
                (#[trigger] out@[j]).run_id@,
            ),
        forall|i: int|
            0 <= i < out@.len() ==> (current is Some && (#[trigger] out@[i]).view_of()
                == current.unwrap().view_of()) || series_entry_from(
                out@[i],
                comparison@,
                metric_name@,
            ),
        current is Some ==> exists|i: int|
            0 <= i < out@.len() && (#[trigger] out@[i]).view_of() == current.unwrap().view_of(),
        forall|b: int|
            0 <= b < comparison@.len() && (#[trigger] comparison@[b]).1.name@ == metric_name@ && (
            exists|k: int| 0 <= k < runs@.len() && (#[trigger] runs@[k]).id@ == comparison@[b].0@)
                ==> comparison_entry_shown(comparison@[b], out@),
{
    let mut out = filter_comparison_series(comparison, runs, metric_name);
    match current {
        Some(cur) => {
            let pos = series_insert_position(&out, cur.run_id.as_str());
            let ghost out0 = out@;
            out.insert(pos, cur);
            proof {
                let k = pos as int;
                assert(forall|a: int| 0 <= a < k ==> #[trigger] out@[a] == out0[a]);
                assert(forall|a: int| k < a < out@.len() ==> #[trigger] out@[a] == out0[a - 1]);
                assert forall|a: int, b: int|
                    0 <= a <= b < out@.len() implies seq_char_le(
                    (#[trigger] out@[a]).run_id@,
                    (#[trigger] out@[b]).run_id@,
                ) by {
                    if a == b {
                        lemma_seq_char_le_refl(out@[a].run_id@);
                    } else if a == k {
                        assert(seq_char_le(out@[k].run_id@, out0[b - 1].run_id@));
                    } else if b == k {
                        assert(seq_char_le(out0[a].run_id@, out@[k].run_id@));
                    }
                }
                assert(out@[k].view_of() == current.unwrap().view_of());
                assert forall|i: int|
                    0 <= i < out@.len() implies (current is Some && (#[trigger] out@[i]).view_of()
                    == current.unwrap().view_of()) || series_entry_from(
                    out@[i],
                    comparison@,
                    metric_name@,
                ) by {
                    if i < k {
                        assert(out@[i] == out0[i]);
                        assert(series_entry_from(out0[i], comparison@, metric_name@));
                    } else if i > k {
                        assert(out@[i] == out0[i - 1]);
                        assert(series_entry_from(out0[i - 1], comparison@, metric_name@));
                    }
                }
                assert forall|b: int|
                    0 <= b < comparison@.len() && (#[trigger] comparison@[b]).1.name@
                        == metric_name@ && (exists|k2: int|
                        0 <= k2 < runs@.len() && (#[trigger] runs@[k2]).id@ == comparison@[b].0@)
                        implies comparison_entry_shown(comparison@[b], out@) by {
                    assert(comparison_entry_shown(comparison@[b], out0));
                    let a0 = choose|a: int|
                        0 <= a < out0.len() && (#[trigger] out0[a]).run_id@ == comparison@[b].0@
                            && out0[a].metric.view_of() == comparison@[b].1.view_of();
                    if a0 < k {
                        assert(out@[a0] == out0[a0]);
                    } else {
                        assert(out@[a0 + 1] == out0[a0]);
                    }
                }
            }
        },
        None => {
        },
    }
    out
}

/// The position where the selected run's series belongs so that the output
/// stays sorted by run id.
fn series_insert_position(out: &Vec<ChartSeries>, run_id: &str) -> (pos: usize)
    requires
        forall|a: int, b: int|
            0 <= a <= b < out@.len() ==> seq_char_le(
                (#[trigger] out@[a]).run_id@,
                (#[trigger] out@[b]).run_id@,
            ),
    ensures
        pos <= out@.len(),
        forall|a: int| 0 <= a < pos ==> seq_char_le((#[trigger] out@[a]).run_id@, run_id@),
        forall|a: int|
            pos <= a < out@.len() ==> seq_char_le(run_id@, (#[trigger] out@[a]).run_id@),
{
    let n = out.len();
    let mut pos: usize = 0;
    while pos < n
        invariant
            pos <= n,
            n == out@.len(),
            forall|a: int, b: int|
                0 <= a <= b < out@.len() ==> seq_char_le(
                    (#[trigger] out@[a]).run_id@,
                    (#[trigger] out@[b]).run_id@,
                ),
            forall|a: int| 0 <= a < pos ==> seq_char_le((#[trigger] out@[a]).run_id@, run_id@),
        decreases n - pos,
    {
        if str_le(run_id, out[pos].run_id.as_str()) {
            proof {
                assert forall|a: int|
                    pos <= a < out@.len() implies seq_char_le(
                    run_id@,
                    (#[trigger] out@[a]).run_id@,
                ) by {
                    if a > pos {
                        lemma_seq_char_le_trans(
                            run_id@,
                            out@[pos as int].run_id@,
                            out@[a].run_id@,
                        );
                    }
                }
            }
            return pos;
        }
        proof {
            lemma_seq_char_le_total(run_id@, out@[pos as int].run_id@);
        }
        pos = pos + 1;
    }
    pos
}

} // verus!
