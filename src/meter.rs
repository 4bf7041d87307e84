//! Mapping of a channel peak to a position on the text meter, and the bar
//! that shows it.
use vstd::prelude::*;
use vstd::arithmetic::power2::{pow2, lemma_pow2_pos, lemma_pow2_adds, lemma_pow2_unfold, lemma2_to64};
use vstd::arithmetic::div_mod::{lemma_div_is_ordered, lemma_div_denominator, lemma_div_multiples_vanish};
use crate::sample::{scaled_value, is_number, lemma_scaled_value_monotonic, FRACTION_SPAN, INFINITY_BITS};

verus! {

/// Highest position on the meter.
pub const TOP_INDEX: usize = 39;

/// Width of a bar in characters: the markers plus the blanks after them.
pub const BAR_WIDTH: usize = 41;

/// `round(v * 30)` for the value `v` that magnitude bits `m` encode, rounding
/// halves up: `v * 30 + 1/2 == (60 * s + 2^149) / 2^150` where `s` is the
/// value in units of 2^-149.
pub open spec fn rounded_times_thirty(m: nat) -> nat {
    (60 * scaled_value(m) + pow2(149)) / pow2(150)
}

/// The meter position of a peak: `clamp(round(peak * 30), 0, 39)`.
pub open spec fn peak_index_of(m: nat) -> nat {
    let r = rounded_times_thirty(m);
    if r > TOP_INDEX as nat {
        TOP_INDEX as nat
    } else {
        r
    }
}

/// The bar drawn for a meter position: `index + 1` markers, then blanks up
/// to the bar's width.
pub open spec fn bar_text(index: nat) -> Seq<char> {
    Seq::new(BAR_WIDTH as nat, |i: int| if i <= index { '*' } else { ' ' })
}

/// `(c * x) / (c * y) == x / y` for positive `c` and `y`.
proof fn lemma_cancel_common_factor(c: nat, x: nat, y: nat)
    requires
        c > 0,
        y > 0,
    ensures
        (c * x) / (c * y) == x / y,
{
    lemma_div_denominator((c * x) as int, c as int, y as int);
    lemma_div_multiples_vanish(x as int, c as int);
}

/// 2^s for a small exponent.
fn power_of_two(s: u32) -> (r: u64)
    requires
        s <= 62,
    ensures
        r as nat == pow2(s as nat),
{
    let mut r: u64 = 1;
    let mut i: u32 = 0;
    proof {
        lemma2_to64();
    }
    while i < s
        invariant
            i <= s <= 62,
            r as nat == pow2(i as nat),
        decreases s - i,
    {
        proof {
            lemma_pow2_unfold((i + 1) as nat);
            lemma_pow2_nondecreasing(i as nat + 1, 62);
            lemma2_to64();
            vstd::arithmetic::power2::lemma2_to64_rest();
            assert(r * 2 <= pow2(62));
        }
        r = r * 2;
        i = i + 1;
    }
    r
}

/// Powers of two do not decrease with the exponent.
proof fn lemma_pow2_nondecreasing(a: nat, b: nat)
    requires
        a <= b,
    ensures
        pow2(a) <= pow2(b),
{
    if a < b {
        vstd::arithmetic::power2::lemma_pow2_strictly_increases(a, b);
    }
}

/// The meter position of a peak given by its magnitude bits.
pub fn peak_index(peak: u32) -> (r: usize)
    requires
        is_number(peak as nat),
    ensures
        r as nat == peak_index_of(peak as nat),
        r <= TOP_INDEX,
{
    let e = peak / FRACTION_SPAN;
    let f = peak % FRACTION_SPAN;
    let ghost sv = scaled_value(peak as nat);
    proof {
        lemma2_to64();
        lemma_pow2_unfold(150);
        lemma_pow2_pos(149);
    }
    if e >= 128 {
        proof {
            let p = pow2((e - 1) as nat);
            lemma_pow2_nondecreasing(127, (e - 1) as nat);
            lemma_pow2_adds(23, 127);
            assert(sv >= pow2(150)) by (nonlinear_arith)
                requires sv == (f + 0x80_0000) * p, p >= pow2(127), pow2(150) == pow2(23) * pow2(127), pow2(23) == 0x80_0000;
            lemma_div_is_ordered(60 * pow2(150) as int, (60 * sv + pow2(149)) as int, pow2(150) as int);
            lemma_div_multiples_vanish(60, pow2(150) as int);
            assert(60 * pow2(150) == pow2(150) * 60) by (nonlinear_arith);
        }
        return TOP_INDEX;
    }
    if e == 0 {
        proof {
            lemma_pow2_nondecreasing(29, 149);
            vstd::arithmetic::div_mod::lemma_basic_div((60 * sv + pow2(149)) as int, pow2(150) as int);
        }
        return 0;
    }
    let m: u64 = (f + FRACTION_SPAN) as u64;
    let ghost k = (e - 1) as nat;
    proof {
        lemma_pow2_pos(k);
        lemma_pow2_adds(k, (149 - k) as nat);
        lemma_pow2_adds(k, (150 - k) as nat);
        lemma_pow2_unfold((150 - k) as nat);
    }
    let s: u32 = 151 - e;
    if s >= 31 {
        proof {
            let pk = pow2(k);
            lemma_pow2_adds(k, 30);
            lemma_pow2_nondecreasing(k + 30, 149);
            assert(60 * sv < pow2(k + 30)) by (nonlinear_arith)
                requires sv == m * pk, m < 0x100_0000, pow2(k + 30) == pk * pow2(30), pow2(30) == 0x4000_0000, pk > 0;
            vstd::arithmetic::div_mod::lemma_basic_div((60 * sv + pow2(149)) as int, pow2(150) as int);
        }
        return 0;
    }
    let d = power_of_two(s);
    let half = power_of_two(s - 1);
    let q = (60 * m + half) / d;
    proof {
        let pk = pow2(k);
        assert(60 * sv + pow2(149) == pk * (60 * m + half)) by (nonlinear_arith)
            requires sv == m * pk, pow2(149) == pk * half;
        lemma_cancel_common_factor(pk, (60 * m + half) as nat, d as nat);
    }
    if q > TOP_INDEX as u64 {
        TOP_INDEX
    } else {
        q as usize
    }
}

/// The bar for a meter position.
pub fn meter_bar(index: usize) -> (r: String)
    requires
        index <= TOP_INDEX,
    ensures
        r@ == bar_text(index as nat),
{
    let mut r = String::new();
    let mut i: usize = 0;
    while i < BAR_WIDTH
        invariant
            i <= BAR_WIDTH,
            index <= TOP_INDEX,
            r@ == bar_text(index as nat).take(i as int),
        decreases BAR_WIDTH - i,
    {
        proof {
            reveal_strlit("*");
            reveal_strlit(" ");
        }
        if i <= index {
            r.append("*");
        } else {
            r.append(" ");
        }
        assert(r@ =~= bar_text(index as nat).take(i + 1));
        i = i + 1;
    }
    assert(r@ =~= bar_text(index as nat));
    r
}

/// The meter position never moves down as the peak grows.
pub proof fn lemma_peak_index_monotonic(a: nat, b: nat)
    requires
        a <= b,
        is_number(b),
    ensures
        peak_index_of(a) <= peak_index_of(b),
{
    lemma_scaled_value_monotonic(a, b);
    lemma_pow2_pos(150);
    lemma_div_is_ordered(
        (60 * scaled_value(a) + pow2(149)) as int,
        (60 * scaled_value(b) + pow2(149)) as int,
        pow2(150) as int,
    );
}

/// Silence sits at the bottom of the meter.
pub proof fn lemma_peak_index_of_silence()
    ensures
        peak_index_of(0) == 0,
{
    lemma_pow2_unfold(150);
    lemma_pow2_pos(149);
    vstd::arithmetic::div_mod::lemma_basic_div(pow2(149) as int, pow2(150) as int);
}

/// A peak of at least 1.33 (a value of at least `133/100 * 2^149` units of
/// 2^-149) is held at the top of the meter.
pub proof fn lemma_peak_index_saturates(a: nat)
    requires
        is_number(a),
        100 * scaled_value(a) >= 133 * pow2(149),
    ensures
        peak_index_of(a) == TOP_INDEX,
{
    lemma_pow2_unfold(150);
    let d = pow2(150);
    let x = 60 * scaled_value(a) + pow2(149);
    assert(x >= 40 * d);
    lemma_pow2_pos(150);
    lemma_div_is_ordered((40 * d) as int, x as int, d as int);
    lemma_div_multiples_vanish(40, d as int);
    assert(40 * d == d * 40) by (nonlinear_arith);
}

} // verus!
