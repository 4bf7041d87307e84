//! Decoding of little-endian 32-bit float samples into bit patterns, and the
//! exact magnitude that a pattern stands for.
use vstd::prelude::*;
use vstd::arithmetic::power2::{pow2, lemma_pow2_pos, lemma_pow2_unfold, lemma_pow2_strictly_increases};
use vstd::arithmetic::div_mod::lemma_div_is_ordered;

verus! {

/// Width in bytes of one encoded sample.
pub const SAMPLE_WIDTH: usize = 4;

/// Number of patterns below the sign bit: the magnitude bits of a word are
/// the word modulo this value.
pub const SIGN_SPAN: u32 = 0x8000_0000;

/// Magnitude bits of an infinity; every larger magnitude pattern is a NaN.
pub const INFINITY_BITS: u32 = 0x7f80_0000;

/// Number of fraction patterns per exponent (2^23).
pub const FRACTION_SPAN: u32 = 0x80_0000;

/// The word stored little-endian in the four bytes of `b` from `at` on.
pub open spec fn word_le(b: Seq<u8>, at: int) -> int {
    b[at] as int + 256 * b[at + 1] as int + 65536 * b[at + 2] as int + 16777216 * b[at + 3] as int
}

/// The magnitude bits of a sample word: the word with its sign bit cleared.
pub open spec fn magnitude_bits(w: u32) -> nat {
    (w as nat) % (SIGN_SPAN as nat)
}

/// Whether magnitude bits encode a number (finite or infinite), not a NaN.
pub open spec fn is_number(m: nat) -> bool {
    m <= INFINITY_BITS as nat
}

/// The exact value encoded by magnitude bits `m`, as a multiple of 2^-149
/// (the smallest positive subnormal): a subnormal is its fraction, a normal
/// number is its fraction with the hidden bit, shifted by its exponent.
pub open spec fn scaled_value(m: nat) -> nat {
    let e = m / (FRACTION_SPAN as nat);
    let f = m % (FRACTION_SPAN as nat);
    if e == 0 {
        f
    } else {
        (f + FRACTION_SPAN as nat) * pow2((e - 1) as nat)
    }
}

/// Reads the little-endian word at byte offset `at`.
pub fn word_at(b: &[u8], at: usize) -> (r: u32)
    requires
        at + 4 <= b@.len(),
    ensures
        r as int == word_le(b@, at as int),
{
    b[at] as u32 + 256 * (b[at + 1] as u32) + 65536 * (b[at + 2] as u32) + 16777216 * (b[at + 3] as u32)
}

/// The magnitude bits of a sample word.
pub fn magnitude_of(w: u32) -> (r: u32)
    ensures
        r as nat == magnitude_bits(w),
        r < SIGN_SPAN,
{
    w % SIGN_SPAN
}

/// Larger magnitude patterns encode larger values: the order of the bits is
/// the order of the magnitudes, for every pattern that is not a NaN.
pub proof fn lemma_scaled_value_monotonic(a: nat, b: nat)
    requires
        a <= b,
        is_number(b),
    ensures
        scaled_value(a) <= scaled_value(b),
{
    let span = FRACTION_SPAN as nat;
    let ea = a / span;
    let eb = b / span;
    let fa = a % span;
    let fb = b % span;
    lemma_div_is_ordered(a as int, b as int, span as int);
    assert(a == ea * span + fa && b == eb * span + fb) by (nonlinear_arith)
        requires span > 0, ea == a / span, eb == b / span, fa == a % span, fb == b % span;
    if eb == 0 {
    } else if ea == 0 {
        lemma_pow2_pos((eb - 1) as nat);
        let p = pow2((eb - 1) as nat);
        assert(fa < (fb + span) * p) by (nonlinear_arith)
            requires fa < span, p >= 1;
    } else if ea == eb {
        assert(fa <= fb) by (nonlinear_arith)
            requires a == ea * span + fa, b == ea * span + fb, a <= b;
        let p = pow2((ea - 1) as nat);
        assert((fa + span) * p <= (fb + span) * p) by (nonlinear_arith)
            requires fa <= fb;
    } else {
        let pa = pow2((ea - 1) as nat);
        let pa1 = pow2(ea);
        let pb = pow2((eb - 1) as nat);
        lemma_pow2_unfold(ea);
        if ea < (eb - 1) {
            lemma_pow2_strictly_increases(ea, (eb - 1) as nat);
        }
        assert(pa1 <= pb);
        assert((fa + span) * pa <= span * pa1) by (nonlinear_arith)
            requires fa < span, pa1 == 2 * pa;
        assert(span * pa1 <= (fb + span) * pb) by (nonlinear_arith)
            requires pa1 <= pb;
    }
}

/// The peak of a run of sample words: the largest magnitude among those that
/// are numbers, or zero when there is none. A NaN never becomes the peak.
pub open spec fn peak_of(ws: Seq<u32>) -> nat
    decreases ws.len(),
{
    if ws.len() == 0 {
        0
    } else {
        let p = peak_of(ws.drop_last());
        let m = magnitude_bits(ws.last());
        if is_number(m) && m > p {
            m
        } else {
            p
        }
    }
}

/// Folds one more sample word into a running peak.
pub fn update_peak(peak: u32, w: u32) -> (r: u32)
    ensures
        r as nat == (if is_number(magnitude_bits(w)) && magnitude_bits(w) > peak as nat {
            magnitude_bits(w)
        } else {
            peak as nat
        }),
{
    let m = magnitude_of(w);
    if m <= INFINITY_BITS && m > peak {
        m
    } else {
        peak
    }
}

/// The peak of a channel is a non-negative number at least as large as the
/// magnitude of every sample that is a number, and no larger than the largest
/// of them: it is zero or the magnitude of one of the samples.
pub proof fn lemma_peak_is_max_magnitude(ws: Seq<u32>)
    ensures
        is_number(peak_of(ws)),
        forall|i: int|
            0 <= i < ws.len() && is_number(#[trigger] magnitude_bits(ws[i])) ==> magnitude_bits(ws[i])
                <= peak_of(ws) && scaled_value(magnitude_bits(ws[i])) <= scaled_value(peak_of(ws)),
        peak_of(ws) == 0 || exists|i: int|
            0 <= i < ws.len() && is_number(magnitude_bits(ws[i])) && #[trigger] magnitude_bits(ws[i])
                == peak_of(ws),
    decreases ws.len(),
{
    if ws.len() > 0 {
        let init = ws.drop_last();
        lemma_peak_is_max_magnitude(init);
        let p = peak_of(ws);
        assert forall|i: int|
            0 <= i < ws.len() && is_number(#[trigger] magnitude_bits(ws[i])) implies magnitude_bits(ws[i])
                <= p && scaled_value(magnitude_bits(ws[i])) <= scaled_value(p) by {
            if i < ws.len() - 1 {
                assert(ws[i] == init[i]);
            }
            lemma_scaled_value_monotonic(magnitude_bits(ws[i]), p);
        }
        if p != 0 && p != magnitude_bits(ws.last()) {
            let i = choose|i: int|
                0 <= i < init.len() && is_number(magnitude_bits(init[i])) && #[trigger] magnitude_bits(init[i])
                    == peak_of(init);
            assert(ws[i] == init[i]);
        }
    }
}

} // verus!
