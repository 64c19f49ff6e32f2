//! Rendering configuration entries as text.
//!
//! Each configuration value has one canonical formatting rule, decided here
//! rather than re-derived at every render: integers in decimal, booleans as
//! `true`/`false`, nulls as `null`, and fixed-point values with four decimal
//! places, switching to scientific notation with two mantissa decimals when
//! the magnitude is below 0.001 or at least 1000 (ties round away from zero).

use crate::models::Config;
use crate::models::ConfigValue;
use crate::models::VALUE_SCALE;
use vstd::prelude::*;
use vstd::string::StringExecFns;

verus! {

/// The decimal digit character for `d`.
pub open spec fn digit_char(d: int) -> char {
    (48 + d) as char
}

/// The decimal digits of a non-negative number, most significant first.
pub open spec fn dec_digits(n: int) -> Seq<char>
    recommends
        n >= 0,
    decreases n,
{
    if n < 10 {
        seq![digit_char(n)]
    } else {
        dec_digits(n / 10).push(digit_char(n % 10))
    }
}

/// The decimal rendering of an integer: a minus sign before the digits of
/// its magnitude when negative.
pub open spec fn int_chars(v: int) -> Seq<char> {
    if v < 0 {
        seq!['-'] + dec_digits(-v)
    } else {
        dec_digits(v)
    }
}

/// Ten to the `k`.
pub open spec fn pow10(k: nat) -> int
    decreases k,
{
    if k == 0 {
        1
    } else {
        10 * pow10((k - 1) as nat)
    }
}

/// The four decimal digits of a fraction below 10000, zero padded.
pub open spec fn frac4_chars(f: int) -> Seq<char>
    recommends
        0 <= f < 10000,
{
    seq![
        digit_char(f / 1000 % 10),
        digit_char(f / 100 % 10),
        digit_char(f / 10 % 10),
        digit_char(f % 10),
    ]
}

/// A mantissa of three significant digits `m3` (100 to 999) rendered with one
/// integer digit and two decimals.
pub open spec fn mantissa_chars(m3: int) -> Seq<char>
    recommends
        100 <= m3 <= 999,
{
    seq![digit_char(m3 / 100), '.', digit_char(m3 / 10 % 10), digit_char(m3 % 10)]
}

/// The scientific-notation rendering of a non-negative magnitude in
/// fixed-point units: `d.ddeE`. Zero renders as `0.00e0`; magnitudes below
/// one thousandth have a single significant digit; large magnitudes round to
/// three significant digits, ties away from zero.
pub open spec fn sci_chars(mag: int) -> Seq<char>
    recommends
        0 <= mag < 10 || mag >= 1000 * (VALUE_SCALE as int),
{
    if mag == 0 {
        seq!['0', '.', '0', '0', 'e', '0']
    } else if mag < 10 {
        seq![digit_char(mag), '.', '0', '0', 'e', '-', '4']
    } else {
        let k = dec_digits(mag).len() as int;
        let p = pow10((k - 3) as nat);
        let rounded = mag / p + (if (mag % p) * 2 >= p {
            1int
        } else {
            0int
        });
        let m3 = if rounded == 1000 {
            100
        } else {
            rounded
        };
        let e = if rounded == 1000 {
            k - 4
        } else {
            k - 5
        };
        mantissa_chars(m3) + seq!['e'] + dec_digits(e)
    }
}

/// The rendering of a fixed-point value: scientific notation when the
/// magnitude is below 0.001 or at least 1000, else four decimal places.
pub open spec fn float_chars(units: int) -> Seq<char> {
    let mag = if units < 0 {
        -units
    } else {
        units
    };
    let body = if mag < (VALUE_SCALE as int) / 1000 || mag >= 1000 * (VALUE_SCALE as int) {
        sci_chars(mag)
    } else {
        dec_digits(mag / (VALUE_SCALE as int)) + seq!['.'] + frac4_chars(mag % (VALUE_SCALE as int))
    };
    if units < 0 {
        seq!['-'] + body
    } else {
        body
    }
}

/// The canonical rendering of a configuration value.
pub open spec fn value_chars(v: ConfigValue) -> Seq<char> {
    match v {
        ConfigValue::Int(i) => int_chars(i as int),
        ConfigValue::Float(units) => float_chars(units as int),
        ConfigValue::Str(s) => s@,
        ConfigValue::Bool(b) => if b {
            seq!['t', 'r', 'u', 'e']
        } else {
            seq!['f', 'a', 'l', 's', 'e']
        },
        ConfigValue::Null => seq!['n', 'u', 'l', 'l'],
    }
}

/// The rendered `key: value` line of a configuration entry.
pub open spec fn config_line_chars(c: Config) -> Seq<char> {
    c.key@ + seq![':', ' '] + value_chars(c.value)
}

/// The digit character of `d` as a string slice.
fn digit_str(d: u64) -> (r: &'static str)
    requires
        d < 10,
    ensures
        r@ == seq![digit_char(d as int)],
{
    proof {
        reveal_strlit("0");
        reveal_strlit("1");
        reveal_strlit("2");
        reveal_strlit("3");
        reveal_strlit("4");
        reveal_strlit("5");
        reveal_strlit("6");
        reveal_strlit("7");
        reveal_strlit("8");
        reveal_strlit("9");
    }
    match d {
        0 => "0",
        1 => "1",
        2 => "2",
        3 => "3",
        4 => "4",
        5 => "5",
        6 => "6",
        7 => "7",
        8 => "8",
        _ => "9",
    }
}

/// The digits of `ds` as characters, from the last digit to the first.
spec fn rev_chars(ds: Seq<u64>) -> Seq<char>
    decreases ds.len(),
{
    if ds.len() == 0 {
        Seq::empty()
    } else {
        seq![digit_char(ds.last() as int)] + rev_chars(ds.drop_last())
    }
}

/// Format a non-negative number in decimal.
pub fn fmt_u64(n: u64) -> (r: String)
    ensures
        r@ == dec_digits(n as int),
{
    if n < 10 {
        let mut r = String::new();
        r.append(digit_str(n));
        proof {
            assert(r@ =~= dec_digits(n as int));
        }
        return r;
    }
    let mut ds: Vec<u64> = Vec::new();
    let mut m = n;
    while m > 0
        invariant
            m > 0 ==> dec_digits(n as int) =~= dec_digits(m as int) + rev_chars(ds@),
            m == 0 ==> dec_digits(n as int) =~= rev_chars(ds@),
            forall|x: int| 0 <= x < ds@.len() ==> #[trigger] ds@[x] < 10,
        decreases m,
    {
        let ghost ds0 = ds@;
        let d = m % 10;
        ds.push(d);
        proof {
            assert(ds@.drop_last() == ds0);
            assert(ds@.last() == d);
            assert(rev_chars(ds@) == seq![digit_char(d as int)] + rev_chars(ds0));
            if m >= 10 {
                assert(dec_digits(m as int) == dec_digits((m as int) / 10).push(
                    digit_char((m as int) % 10),
                ));
                assert(dec_digits((m as int) / 10).push(digit_char((m as int) % 10)) + rev_chars(ds0)
                    =~= dec_digits((m as int) / 10) + rev_chars(ds@));
            } else {
                assert(dec_digits(m as int) =~= seq![digit_char(m as int)]);
                assert(dec_digits(m as int) + rev_chars(ds0) =~= rev_chars(ds@));
            }
        }
        m = m / 10;
    }
    let mut r = String::new();
    let total = ds.len();
    let mut i: usize = total;
    proof {
        assert(ds@.take(total as int) == ds@);
        assert(r@ + rev_chars(ds@.take(i as int)) =~= rev_chars(ds@));
    }
    while i > 0
        invariant
            i <= total,
            total == ds@.len(),
            r@ + rev_chars(ds@.take(i as int)) == rev_chars(ds@),
            forall|x: int| 0 <= x < ds@.len() ==> #[trigger] ds@[x] < 10,
        decreases i,
    {
        let ghost r0 = r@;
        r.append(digit_str(ds[i - 1]));
        proof {
            assert(ds@.take(i as int).last() == ds@[i - 1]);
            assert(ds@.take(i as int).drop_last() == ds@.take(i - 1));
            assert(rev_chars(ds@.take(i as int)) == seq![digit_char(ds@[i - 1] as int)]
                + rev_chars(ds@.take(i - 1)));
            assert(r@ + rev_chars(ds@.take(i - 1)) =~= r0 + rev_chars(ds@.take(i as int)));
        }
        i = i - 1;
    }
    proof {
        assert(ds@.take(0) =~= Seq::<u64>::empty());
        assert(rev_chars(ds@.take(0)) =~= Seq::<char>::empty());
        assert(r@ =~= rev_chars(ds@));
    }
    r
}

/// Format a signed integer in decimal, with a minus sign when negative.
pub fn fmt_i64(v: i64) -> (r: String)
    ensures
        r@ == int_chars(v as int),
{
    if v >= 0 {
        fmt_u64(v as u64)
    } else {
        let mag: u64 = (-(v as i128)) as u64;
        let mut r = String::new();
        proof {
            reveal_strlit("-");
        }
        r.append("-");
        let digits = fmt_u64(mag);
        r.append(digits.as_str());
        proof {
            assert(r@ =~= int_chars(v as int));
        }
        r
    }
}

/// Format a value in fixed-point units per the canonical rule: four decimal
/// places, or scientific notation outside `[0.001, 1000)` magnitude.
pub fn fmt_fixed(units: i64) -> (r: String)
    ensures
        r@ == float_chars(units as int),
{
    let mut r = String::new();
    let mag: u64 = if units < 0 {
        proof {
            reveal_strlit("-");
        }
        r.append("-");
        (-(units as i128)) as u64
    } else {
        units as u64
    };
    let body = if mag < (VALUE_SCALE / 1000) as u64 || mag >= (1000 * VALUE_SCALE) as u64 {
        fmt_sci(mag)
    } else {
        let mut b = fmt_u64(mag / (VALUE_SCALE as u64));
        proof {
            reveal_strlit(".");
        }
        b.append(".");
        let f = mag % (VALUE_SCALE as u64);
        b.append(digit_str(f / 1000 % 10));
        b.append(digit_str(f / 100 % 10));
        b.append(digit_str(f / 10 % 10));
        b.append(digit_str(f % 10));
        proof {
            assert(b@ =~= dec_digits((mag as int) / (VALUE_SCALE as int)) + seq!['.']
                + frac4_chars((mag as int) % (VALUE_SCALE as int)));
        }
        b
    };
    r.append(body.as_str());
    proof {
        assert(r@ =~= float_chars(units as int));
    }
    r
}

/// Format a non-negative magnitude of fixed-point units in scientific
/// notation.
fn fmt_sci(mag: u64) -> (r: String)
    requires
        mag < 10 || mag >= (1000 * VALUE_SCALE) as u64,
    ensures
        r@ == sci_chars(mag as int),
{
    let mut r = String::new();
    proof {
        reveal_strlit("0.00e0");
        reveal_strlit(".00e-4");
        reveal_strlit(".");
        reveal_strlit("e");
        reveal_strlit("-");
    }
    if mag == 0 {
        r.append("0.00e0");
        proof {
            assert(r@ =~= sci_chars(mag as int));
        }
        return r;
    }
    if mag < 10 {
        r.append(digit_str(mag));
        r.append(".00e-4");
        proof {
            assert(r@ =~= sci_chars(mag as int));
        }
        return r;
    }
    let (k, p10) = digit_count(mag);
    let p = p10 / 100;
    proof {
        lemma_pow10_values();
        assert(pow10((k - 1) as nat) % 100 == 0 && pow10((k - 1) as nat) / 100 == pow10(
            (k - 3) as nat,
        )) by {
            lemma_pow10_values();
            lemma_pow10_split((k - 1) as nat, 2);
        }
        assert(p as int == pow10((k - 3) as nat));
        assert(p > 0) by {
            lemma_pow10_positive((k - 3) as nat);
        }
        assert((mag as int) / (p as int) < 1000 && (mag as int) / (p as int) >= 100) by {
            lemma_quotient_range(mag as int, k as nat);
        }
    }
    let q = mag / p;
    let rem = mag % p;
    proof {
        assert(q < 1000 && q >= 100);
        assert(rem < p);
        assert(p <= p10);
    }
    let rounded: u64 = if rem * 2 >= p {
        q + 1
    } else {
        q
    };
    let (m3, e): (u64, u64) = if rounded == 1000 {
        (100, k - 4)
    } else {
        (rounded, k - 5)
    };
    r.append(digit_str(m3 / 100));
    r.append(".");
    r.append(digit_str(m3 / 10 % 10));
    r.append(digit_str(m3 % 10));
    r.append("e");
    let exp = fmt_u64(e);
    r.append(exp.as_str());
    proof {
        assert(r@ =~= sci_chars(mag as int));
    }
    r
}

/// The number of decimal digits of `n` and ten to one less than that count.
fn digit_count(n: u64) -> (r: (u64, u64))
    requires
        n >= (1000 * VALUE_SCALE) as u64,
    ensures
        r.0 as int == dec_digits(n as int).len(),
        r.1 as int == pow10((r.0 - 1) as nat),
        r.0 >= 8,
        pow10((r.0 - 1) as nat) <= (n as int) < pow10(r.0 as nat),
{
    let mut k: u64 = 1;
    let mut p10: u64 = 1;
    while n / p10 >= 10
        invariant
            k >= 1,
            k as int - 1 <= p10 as int,
            p10 as int == pow10((k - 1) as nat),
            p10 >= 1,
            n as int >= pow10((k - 1) as nat),
        decreases n - p10,
    {
        proof {
            lemma_pow10_positive((k - 1) as nat);
            assert((n as int) / (p10 as int) >= 10);
            vstd::arithmetic::div_mod::lemma_fundamental_div_mod(n as int, p10 as int);
            assert(n as int >= 10 * pow10((k - 1) as nat)) by (nonlinear_arith)
                requires
                    (n as int) / (p10 as int) >= 10,
                    p10 as int == pow10((k - 1) as nat),
                    p10 > 0,
                    n as int == (p10 as int) * ((n as int) / (p10 as int)) + ((n as int) % (p10 as int)),
                    ((n as int) % (p10 as int)) >= 0,
            ;
        }
        proof {
            assert(p10 < n);
        }
        k = k + 1;
        p10 = p10 * 10;
    }
    proof {
        lemma_pow10_positive((k - 1) as nat);
        assert((n as int) / (p10 as int) < 10);
        vstd::arithmetic::div_mod::lemma_fundamental_div_mod(n as int, p10 as int);
        assert((n as int) < 10 * pow10((k - 1) as nat)) by (nonlinear_arith)
            requires
                (n as int) / (p10 as int) < 10,
                p10 as int == pow10((k - 1) as nat),
                p10 > 0,
                n as int == (p10 as int) * ((n as int) / (p10 as int)) + ((n as int) % (p10 as int)),
                ((n as int) % (p10 as int)) < (p10 as int),
        ;
        assert((n as int) < pow10(k as nat));
        lemma_dec_digits_len(n as int, k as nat);
        if k < 8 {
            lemma_pow10_mono(k as nat, 7);
            lemma_pow10_values();
            assert(false);
        }
    }
    (k, p10)
}

/// Ten to any power is positive.
proof fn lemma_pow10_positive(k: nat)
    ensures
        pow10(k) >= 1,
    decreases k,
{
    if k > 0 {
        lemma_pow10_positive((k - 1) as nat);
    }
}

/// Splitting an exponent splits the power: `pow10(k)` is divisible by
/// `pow10(j)` for `j <= k`, with quotient `pow10(k - j)`.
proof fn lemma_pow10_split(k: nat, j: nat)
    requires
        j <= k,
    ensures
        pow10(k) % pow10(j) == 0,
        pow10(k) / pow10(j) == pow10((k - j) as nat),
    decreases j,
{
    lemma_pow10_positive(k);
    lemma_pow10_positive(j);
    lemma_pow10_positive((k - j) as nat);
    if j == 0 {
        assert(pow10(k) % 1 == 0) by (nonlinear_arith)
            requires
                pow10(k) >= 1,
        ;
        assert(pow10(k) / 1 == pow10(k));
    } else {
        assert(pow10(k) == pow10(j) * pow10((k - j) as nat)) by {
            lemma_pow10_mul(j, (k - j) as nat);
        }
        vstd::arithmetic::div_mod::lemma_fundamental_div_mod_converse(
            pow10(k),
            pow10(j),
            pow10((k - j) as nat),
            0,
        );
    }
}

/// Powers of ten multiply by adding exponents.
proof fn lemma_pow10_mul(a: nat, b: nat)
    ensures
        pow10((a + b) as nat) == pow10(a) * pow10(b),
    decreases a,
{
    if a == 0 {
    } else {
        lemma_pow10_mul((a - 1) as nat, b);
        assert(pow10((a + b) as nat) == 10 * pow10((a + b - 1) as nat));
        assert(pow10(a) * pow10(b) == 10 * (pow10((a - 1) as nat) * pow10(b)))
            by (nonlinear_arith)
            requires
                pow10(a) == 10 * pow10((a - 1) as nat),
        ;
    }
}

/// Powers of ten are monotone in the exponent.
proof fn lemma_pow10_mono(j: nat, k: nat)
    requires
        j <= k,
    ensures
        pow10(j) <= pow10(k),
    decreases k,
{
    if j < k {
        lemma_pow10_mono(j, (k - 1) as nat);
        lemma_pow10_positive((k - 1) as nat);
    }
}

/// The first powers of ten, written out.
proof fn lemma_pow10_values()
    ensures
        pow10(0) == 1,
        pow10(1) == 10,
        pow10(2) == 100,
        pow10(3) == 1000,
        pow10(4) == 10000,
        pow10(5) == 100000,
        pow10(6) == 1000000,
        pow10(7) == 10000000,
{
    assert(pow10(0) == 1);
    assert(pow10(1) == 10);
    assert(pow10(2) == 100);
    assert(pow10(3) == 1000);
    assert(pow10(4) == 10000);
    assert(pow10(5) == 100000);
    assert(pow10(6) == 1000000);
    assert(pow10(7) == 10000000);
}

/// A number in `[pow10(k - 1), pow10(k))` has exactly `k` decimal digits.
proof fn lemma_dec_digits_len(n: int, k: nat)
    requires
        k >= 1,
        pow10((k - 1) as nat) <= n < pow10(k),
    ensures
        dec_digits(n).len() == k,
    decreases k,
{
    lemma_pow10_positive((k - 1) as nat);
    if k == 1 {
        assert(1 <= n < 10);
    } else {
        assert(n >= 10) by {
            lemma_pow10_positive((k - 2) as nat);
        }
        assert(pow10((k - 2) as nat) <= n / 10 < pow10((k - 1) as nat)) by (nonlinear_arith)
            requires
                pow10((k - 1) as nat) <= n < pow10(k),
                pow10((k - 1) as nat) == 10 * pow10((k - 2) as nat),
                pow10(k) == 10 * pow10((k - 1) as nat),
                n / 10 == (n - (n % 10)) / 10,
                n == 10 * (n / 10) + n % 10,
                0 <= n % 10 < 10,
        ;
        lemma_dec_digits_len(n / 10, (k - 1) as nat);
    }
}

/// The quotient of a `k`-digit number by `pow10(k - 3)` has three digits.
proof fn lemma_quotient_range(n: int, k: nat)
    requires
        k >= 4,
        pow10((k - 1) as nat) <= n < pow10(k),
    ensures
        100 <= n / pow10((k - 3) as nat) < 1000,
{
    let p = pow10((k - 3) as nat);
    lemma_pow10_positive((k - 3) as nat);
    assert(pow10((k - 1) as nat) == 100 * p) by {
        lemma_pow10_values();
        lemma_pow10_mul(2, (k - 3) as nat);
    }
    assert(pow10(k) == 1000 * p) by {
        lemma_pow10_values();
        lemma_pow10_mul(3, (k - 3) as nat);
    }
    vstd::arithmetic::div_mod::lemma_fundamental_div_mod(n, p);
    assert(100 <= n / p < 1000) by (nonlinear_arith)
        requires
            100 * p <= n < 1000 * p,
            p > 0,
            n == p * (n / p) + n % p,
            0 <= n % p < p,
    ;
}

/// Format a configuration value per its canonical rule.
pub fn fmt_value(v: &ConfigValue) -> (r: String)
    ensures
        r@ == value_chars(*v),
{
    match v {
        ConfigValue::Int(i) => fmt_i64(*i),
        ConfigValue::Float(units) => fmt_fixed(*units),
        ConfigValue::Str(s) => s.clone(),
        ConfigValue::Bool(b) => {
            proof {
                reveal_strlit("true");
                reveal_strlit("false");
            }
            if *b {
                let r = "true".to_owned();
                proof {
                    assert(r@ =~= value_chars(*v));
                }
                r
            } else {
                let r = "false".to_owned();
                proof {
                    assert(r@ =~= value_chars(*v));
                }
                r
            }
        },
        ConfigValue::Null => {
            proof {
                reveal_strlit("null");
            }
            let r = "null".to_owned();
            proof {
                assert(r@ =~= value_chars(*v));
            }
            r
        },
    }
}

/// Render a configuration entry as its `key: value` line.
pub fn config_line(c: &Config) -> (r: String)
    ensures
        r@ == config_line_chars(*c),
{
    let mut r = c.key.clone();
    proof {
        reveal_strlit(": ");
    }
    r.append(": ");
    let value = fmt_value(&c.value);
    r.append(value.as_str());
    proof {
        assert(r@ =~= config_line_chars(*c));
    }
    r
}

/// Render every configuration entry of a run, in order.
pub fn config_lines(config: &Vec<Config>) -> (r: Vec<String>)
    ensures
        r@.len() == config@.len(),
        forall|i: int| 0 <= i < r@.len() ==> (#[trigger] r@[i])@ == config_line_chars(config@[i]),
{
    let mut r: Vec<String> = Vec::new();
    let n = config.len();
    let mut i: usize = 0;
    while i < n
        invariant
            i <= n,
            n == config@.len(),
            r@.len() == i,
            forall|x: int| 0 <= x < i ==> (#[trigger] r@[x])@ == config_line_chars(config@[x]),
        decreases n - i,
    {
        r.push(config_line(&config[i]));
        i = i + 1;
    }
    r
}

} // verus!
