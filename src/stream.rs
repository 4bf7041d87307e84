//! De-interleaving of one buffer of samples: the bytes forwarded to the bus
//! in channel-major order and the peak of each channel.
use vstd::prelude::*;
use vstd::arithmetic::div_mod::{lemma_fundamental_div_mod, lemma_fundamental_div_mod_converse};
use crate::sample::{word_le, peak_of, word_at, update_peak, SAMPLE_WIDTH};

verus! {

/// Number of whole samples that both the announced chunk size and the mapped
/// bytes hold: a trailing partial sample, and anything announced beyond the
/// mapped bytes, is left out.
pub open spec fn usable_samples(chunk_size: nat, len: nat) -> nat {
    let announced = chunk_size / 4;
    let mapped = len / 4;
    if announced <= mapped {
        announced
    } else {
        mapped
    }
}

/// Number of positions `c, c + channels, c + 2 * channels, ...` below `total`.
pub open spec fn channel_len(total: nat, channels: nat, c: nat) -> nat
    recommends
        channels >= 1,
{
    if c < total {
        ((total - c - 1) as nat) / channels + 1
    } else {
        0
    }
}

/// The sample position visited `k`-th in channel `c`.
pub open spec fn position(channels: nat, c: nat, k: int) -> int {
    c + k * channels
}

/// The sample words of channel `c`, in time order.
pub open spec fn channel_words(b: Seq<u8>, total: nat, channels: nat, c: nat) -> Seq<u32> {
    Seq::new(
        channel_len(total, channels, c),
        |k: int| word_le(b, 4 * position(channels, c, k)) as u32,
    )
}

/// The bytes of channel `c`'s samples, sample after sample in time order.
pub open spec fn channel_bytes(b: Seq<u8>, total: nat, channels: nat, c: nat) -> Seq<u8> {
    Seq::new(
        4 * channel_len(total, channels, c),
        |i: int| b[4 * position(channels, c, i / 4) + i % 4],
    )
}

/// The bytes of channels `0..n`, channel after channel.
pub open spec fn forwarded_bytes(b: Seq<u8>, total: nat, channels: nat, n: nat) -> Seq<u8>
    decreases n,
{
    if n == 0 {
        Seq::empty()
    } else {
        forwarded_bytes(b, total, channels, (n - 1) as nat) + channel_bytes(b, total, channels, (n - 1) as nat)
    }
}

/// A visited position lies below `total`.
proof fn lemma_position_below(total: nat, channels: nat, c: nat, k: nat)
    requires
        channels >= 1,
        k < channel_len(total, channels, c),
    ensures
        0 <= position(channels, c, k as int) < total,
        k * channels < total,
{
    let x = (total - c - 1) as nat;
    lemma_fundamental_div_mod(x as int, channels as int);
    assert(k * channels <= x) by (nonlinear_arith)
        requires k <= x / channels, x == channels * (x / channels) + x % channels, x % channels >= 0, channels >= 1;
}

/// Number of usable samples of a buffer.
fn usable_count(chunk_size: u32, len: usize) -> (r: usize)
    ensures
        r as nat == usable_samples(chunk_size as nat, len as nat),
{
    let announced = (chunk_size / 4) as usize;
    let mapped = len / SAMPLE_WIDTH;
    if announced <= mapped {
        announced
    } else {
        mapped
    }
}

/// Number of samples of channel `c`.
fn channel_count(total: usize, channels: usize, c: usize) -> (r: usize)
    requires
        channels >= 1,
    ensures
        r as nat == channel_len(total as nat, channels as nat, c as nat),
        r <= total,
{
    if c < total {
        proof {
            vstd::arithmetic::div_mod::lemma_div_is_ordered_by_denominator((total - c - 1) as int, 1, channels as int);
        }
        (total - c - 1) / channels + 1
    } else {
        0
    }
}

/// The sample words of channel `c` of an interleaved buffer of `channels`
/// channels, of which the chunk holds `chunk_size` bytes.
pub fn channel_samples(bytes: &[u8], chunk_size: u32, channels: u32, c: u32) -> (r: Vec<u32>)
    requires
        channels >= 1,
    ensures
        r@ == channel_words(
            bytes@,
            usable_samples(chunk_size as nat, bytes@.len()),
            channels as nat,
            c as nat,
        ),
{
    let len = bytes.len();
    let total = usable_count(chunk_size, len);
    let step = channels as usize;
    let c = c as usize;
    let n = channel_count(total, step, c);
    let ghost ws = channel_words(bytes@, total as nat, step as nat, c as nat);
    let mut r: Vec<u32> = Vec::new();
    let mut k: usize = 0;
    while k < n
        invariant
            step >= 1,
            k <= n,
            n as nat == channel_len(total as nat, step as nat, c as nat),
            4 * total <= bytes@.len(),
            len == bytes@.len(),
            ws == channel_words(bytes@, total as nat, step as nat, c as nat),
            r@ == ws.take(k as int),
        decreases n - k,
    {
        proof {
            lemma_position_below(total as nat, step as nat, c as nat, k as nat);
        }
        let pos = c + k * step;
        r.push(word_at(bytes, pos * 4));
        assert(r@ =~= ws.take(k + 1));
        k = k + 1;
    }
    assert(r@ =~= ws);
    r
}

/// Walks every channel of an interleaved buffer: returns the bytes to forward
/// to the bus, channel after channel and each in time order, and the peak of
/// each channel.
pub fn scan_buffer(bytes: &[u8], chunk_size: u32, channels: u32) -> (r: (Vec<u8>, Vec<u32>))
    requires
        channels >= 1,
    ensures
        r.0@ == forwarded_bytes(
            bytes@,
            usable_samples(chunk_size as nat, bytes@.len()),
            channels as nat,
            channels as nat,
        ),
        r.1@.len() == channels,
        forall|c: int|
            0 <= c < channels ==> #[trigger] r.1@[c] as nat == peak_of(
                channel_words(bytes@, usable_samples(chunk_size as nat, bytes@.len()), channels as nat, c as nat),
            ),
{
    let len = bytes.len();
    let total = usable_count(chunk_size, len);
    let step = channels as usize;
    let ghost b = bytes@;
    let mut out: Vec<u8> = Vec::new();
    let mut peaks: Vec<u32> = Vec::new();
    let mut c: usize = 0;
    while c < step
        invariant
            step >= 1,
            step == channels,
            c <= step,
            b == bytes@,
            total as nat == usable_samples(chunk_size as nat, b.len()),
            4 * total <= b.len(),
            len == b.len(),
            out@ == forwarded_bytes(b, total as nat, step as nat, c as nat),
            peaks@.len() == c,
            forall|j: int|
                0 <= j < c ==> #[trigger] peaks@[j] as nat == peak_of(channel_words(b, total as nat, step as nat, j as nat)),
        decreases step - c,
    {
        let n = channel_count(total, step, c);
        let ghost ws = channel_words(b, total as nat, step as nat, c as nat);
        let ghost cb = channel_bytes(b, total as nat, step as nat, c as nat);
        let ghost before = out@;
        let mut peak: u32 = 0;
        let mut k: usize = 0;
        while k < n
            invariant
                step >= 1,
                k <= n,
                b == bytes@,
                n as nat == channel_len(total as nat, step as nat, c as nat),
                4 * total <= b.len(),
            len == b.len(),
                ws == channel_words(b, total as nat, step as nat, c as nat),
                cb == channel_bytes(b, total as nat, step as nat, c as nat),
                out@ == before + cb.take(4 * k),
                peak as nat == peak_of(ws.take(k as int)),
            decreases n - k,
        {
            proof {
                lemma_position_below(total as nat, step as nat, c as nat, k as nat);
            }
            let at = (c + k * step) * 4;
            out.push(bytes[at]);
            out.push(bytes[at + 1]);
            out.push(bytes[at + 2]);
            out.push(bytes[at + 3]);
            let w = word_at(bytes, at);
            peak = update_peak(peak, w);
            proof {
                assert(ws.take(k + 1).drop_last() =~= ws.take(k as int));
                assert forall|i: int| 4 * k <= i < 4 * k + 4 implies #[trigger] cb[i] == b[at + (i - 4 * k)] by {
                    assert(i / 4 == k && i % 4 == i - 4 * k);
                }
                assert(out@ =~= before + cb.take(4 * (k + 1)));
            }
            k = k + 1;
        }
        assert(cb.take(4 * n) =~= cb);
        assert(ws.take(n as int) =~= ws);
        assert(out@ == forwarded_bytes(b, total as nat, step as nat, (c + 1) as nat));
        peaks.push(peak);
        c = c + 1;
    }
    (out, peaks)
}

/// A buffer of `4 * channels * k` bytes, all of them announced, gives each
/// channel `c` exactly `k` samples: the words at positions `c`, `c + channels`,
/// `c + 2 * channels`, ..., in ascending order.
pub proof fn lemma_whole_buffer_deinterleaves(b: Seq<u8>, channels: nat, k: nat, c: nat)
    requires
        channels >= 1,
        c < channels,
        b.len() == 4 * channels * k,
    ensures
        channel_words(b, usable_samples(b.len(), b.len()), channels, c).len() == k,
        forall|j: int|
            0 <= j < k ==> #[trigger] channel_words(b, usable_samples(b.len(), b.len()), channels, c)[j]
                == word_le(b, 4 * (c + j * channels)) as u32,
        forall|j: int| 0 <= j < k ==> c + j * channels < #[trigger] position(channels, c, j + 1),
        forall|j: int| 0 <= j < k ==> 4 * #[trigger] position(channels, c, j) + 4 <= b.len(),
{
    let total = usable_samples(b.len(), b.len());
    assert(total == channels * k) by (nonlinear_arith)
        requires total == b.len() / 4, b.len() == 4 * channels * k;
    lemma_channel_len_of_whole(channels, k, c);
    assert forall|j: int| 0 <= j < k implies c + j * channels < #[trigger] position(channels, c, j + 1) by {
        assert((j + 1) * channels == j * channels + channels) by (nonlinear_arith);
    }
    assert forall|j: int| 0 <= j < k implies 4 * #[trigger] position(channels, c, j) + 4 <= b.len() by {
        lemma_position_below(total, channels, c, j as nat);
    }
}

/// Channel `c` of `channels * k` samples has `k` of them.
proof fn lemma_channel_len_of_whole(channels: nat, k: nat, c: nat)
    requires
        channels >= 1,
        c < channels,
    ensures
        channel_len(channels * k, channels, c) == k,
{
    if k > 0 {
        let x = (channels * k - c - 1) as int;
        assert(x == (k - 1) * channels + (channels - c - 1)) by (nonlinear_arith)
            requires x == channels * k - c - 1;
        assert(c < channels * k) by (nonlinear_arith)
            requires c < channels, k >= 1;
        lemma_fundamental_div_mod_converse(x, channels as int, (k - 1) as int, (channels - c - 1) as int);
    } else {
        assert(channels * k == 0) by (nonlinear_arith)
            requires k == 0;
    }
}

/// For a buffer of `4 * channels * k` bytes, the forwarded bytes are every
/// sample of the buffer exactly once: the `j`-th sample of channel `c` is the
/// `(c * k + j)`-th four bytes forwarded, with nothing before, between or
/// after them.
pub proof fn lemma_forwarded_is_channel_major(b: Seq<u8>, channels: nat, k: nat, n: nat)
    requires
        channels >= 1,
        n <= channels,
        b.len() == 4 * channels * k,
    ensures
        forwarded_bytes(b, usable_samples(b.len(), b.len()), channels, n).len() == 4 * n * k,
        forall|c: int, j: int, t: int|
            0 <= c < n && 0 <= j < k && 0 <= t < 4 ==> #[trigger] forwarded_bytes(
                b,
                usable_samples(b.len(), b.len()),
                channels,
                n,
            )[4 * (c * k + j) + t] == b[4 * (c + j * channels) + t],
    decreases n,
{
    let total = usable_samples(b.len(), b.len());
    assert(total == channels * k) by (nonlinear_arith)
        requires total == b.len() / 4, b.len() == 4 * channels * k;
    if n > 0 {
        let m = (n - 1) as nat;
        lemma_forwarded_is_channel_major(b, channels, k, m);
        lemma_channel_len_of_whole(channels, k, m);
        let prev = forwarded_bytes(b, total, channels, m);
        let cb = channel_bytes(b, total, channels, m);
        let fw = forwarded_bytes(b, total, channels, n);
        assert(fw == prev + cb);
        assert(4 * m * k + 4 * k == 4 * n * k) by (nonlinear_arith)
            requires m + 1 == n;
        assert forall|c: int, j: int, t: int|
            0 <= c < n && 0 <= j < k && 0 <= t < 4 implies #[trigger] fw[4 * (c * k + j) + t]
                == b[4 * (c + j * channels) + t] by {
            if c < m {
                assert(4 * (c * k + j) + t < 4 * m * k) by (nonlinear_arith)
                    requires c + 1 <= m, j < k, t < 4;
            } else {
                let i = 4 * j + t;
                assert(4 * (c * k + j) + t == 4 * m * k + i) by (nonlinear_arith)
                    requires c == m, i == 4 * j + t;
                assert(i / 4 == j && i % 4 == t);
            }
        }
    } else {
        assert(4 * n * k == 0) by (nonlinear_arith)
            requires n == 0;
    }
}

} // verus!
