//! The capture adapter's compute path: validating OS buffer layouts,
//! decoding little-endian PCM16, mixing to mono, and the stateful 3:1
//! running-average decimator that resamples 48 kHz to 16 kHz.

use vstd::prelude::*;

verus! {

/// Errors from decoding an OS audio buffer.
#[derive(Clone, Copy, Debug, PartialEq, Eq, Structural)]
pub enum CaptureError {
    /// The source delivered a rate other than the expected one.
    UnexpectedSampleRate,
    /// Big-endian samples are not supported.
    BigEndianUnsupported,
    /// The combination of buffer count, channel count, sample kind and bit
    /// depth is not one of the supported layouts.
    UnsupportedLayout,
    /// A sample buffer's byte length is not a whole number of samples.
    TruncatedBuffer,
}

/// The supported arrangements of an OS audio buffer.
#[derive(Clone, Copy, Debug, PartialEq, Eq, Structural)]
pub enum BufferLayout {
    /// One buffer, 32-bit float samples, channels interleaved.
    InterleavedF32,
    /// One buffer, 16-bit integer samples, channels interleaved.
    InterleavedI16,
    /// One 32-bit float buffer per channel.
    PlanarF32,
    /// One 16-bit integer buffer per channel.
    PlanarI16,
}

/// Which layout a buffer description falls under, if any.
pub open spec fn classify_spec(num_buffers: int, channels: int, is_float: bool, bits: int) -> Option<
    BufferLayout,
> {
    if num_buffers == 1 && is_float && bits == 32 {
        Some(BufferLayout::InterleavedF32)
    } else if num_buffers == 1 && !is_float && bits == 16 {
        Some(BufferLayout::InterleavedI16)
    } else if num_buffers == channels && channels > 1 && is_float && bits == 32 {
        Some(BufferLayout::PlanarF32)
    } else if num_buffers == channels && channels > 1 && !is_float && bits == 16 {
        Some(BufferLayout::PlanarI16)
    } else {
        None
    }
}

/// Validate an OS buffer description: the rate must be exactly 48 kHz,
/// big-endian data is rejected, and the layout must be one of the four
/// supported arrangements.
pub fn classify_buffer_layout(
    sample_rate: u32,
    big_endian: bool,
    num_buffers: usize,
    channels: usize,
    is_float: bool,
    bits: u32,
) -> (r: Result<BufferLayout, CaptureError>)
    ensures
        sample_rate != 48000 ==> r == Err::<BufferLayout, CaptureError>(
            CaptureError::UnexpectedSampleRate,
        ),
        sample_rate == 48000 && big_endian ==> r == Err::<BufferLayout, CaptureError>(
            CaptureError::BigEndianUnsupported,
        ),
        sample_rate == 48000 && !big_endian ==> r == (match classify_spec(
            num_buffers as int,
            channels as int,
            is_float,
            bits as int,
        ) {
            Some(layout) => Ok::<BufferLayout, CaptureError>(layout),
            None => Err(CaptureError::UnsupportedLayout),
        }),
{
    if sample_rate != 48000 {
        return Err(CaptureError::UnexpectedSampleRate);
    }
    if big_endian {
        return Err(CaptureError::BigEndianUnsupported);
    }
    if num_buffers == 1 && is_float && bits == 32 {
        Ok(BufferLayout::InterleavedF32)
    } else if num_buffers == 1 && !is_float && bits == 16 {
        Ok(BufferLayout::InterleavedI16)
    } else if num_buffers == channels && channels > 1 && is_float && bits == 32 {
        Ok(BufferLayout::PlanarF32)
    } else if num_buffers == channels && channels > 1 && !is_float && bits == 16 {
        Ok(BufferLayout::PlanarI16)
    } else {
        Err(CaptureError::UnsupportedLayout)
    }
}

/// The 16-bit sample encoded little-endian by two bytes.
pub open spec fn le_i16(lo: u8, hi: u8) -> i16 {
    ((lo as u16) | ((hi as u16) << 8)) as i16
}

/// Decode a little-endian PCM16 byte buffer into samples.
pub fn decode_i16_le(bytes: &[u8]) -> (r: Result<Vec<i16>, CaptureError>)
    ensures
        bytes@.len() % 2 != 0 ==> r == Err::<Vec<i16>, CaptureError>(CaptureError::TruncatedBuffer),
        bytes@.len() % 2 == 0 ==> (r matches Ok(v) && v@.len() == bytes@.len() / 2 && forall|i: int|
            0 <= i < v@.len() ==> #[trigger] v@[i] == le_i16(bytes@[2 * i], bytes@[2 * i + 1])),
{
    if bytes.len() % 2 != 0 {
        return Err(CaptureError::TruncatedBuffer);
    }
    let n = bytes.len() / 2;
    proof {
        vstd::arithmetic::div_mod::lemma_fundamental_div_mod(bytes@.len() as int, 2);
        vstd::arithmetic::div_mod::lemma_mod_bound(bytes@.len() as int, 2);
    }
    let mut out: Vec<i16> = Vec::new();
    let mut i: usize = 0;
    while i < n
        invariant
            i <= n,
            n == bytes@.len() / 2,
            2 * n <= bytes.len(),
            out@.len() == i,
            forall|j: int|
                0 <= j < i ==> #[trigger] out@[j] == le_i16(bytes@[2 * j], bytes@[2 * j + 1]),
        decreases n - i,
    {
        let lo = bytes[2 * i];
        let hi = bytes[2 * i + 1];
        let v: i16 = ((lo as u16) | ((hi as u16) << 8)) as i16;
        out.push(v);
        i += 1;
    }
    Ok(out)
}

/// Integer division rounding toward zero, as a hardware divide would.
pub open spec fn div_toward_zero(sum: int, n: int) -> int {
    if sum >= 0 {
        sum / n
    } else {
        -((-sum) / n)
    }
}

/// The average of `n` samples, rounded toward zero.
pub open spec fn avg_spec(sum: int, n: int) -> int {
    div_toward_zero(sum, n)
}

/// Divide a channel sum by the channel count, rounding toward zero.
fn avg_i64(sum: i64, n: usize) -> (r: i16)
    requires
        1 <= n <= 0xFFFF_FFFF,
        -32768 * (n as int) <= sum <= 32767 * (n as int),
    ensures
        r as int == avg_spec(sum as int, n as int),
{
    proof {
        if sum >= 0 {
            assert(sum as int / (n as int) <= 32767 && sum as int / (n as int) >= 0)
                by (nonlinear_arith)
                requires
                    0 <= sum as int <= 32767 * (n as int),
                    1 <= n as int,
            ;
        } else {
            assert((-(sum as int)) / (n as int) <= 32768 && (-(sum as int)) / (n as int)
                >= 0) by (nonlinear_arith)
                requires
                    0 < -(sum as int) <= 32768 * (n as int),
                    1 <= n as int,
            ;
        }
    }
    if sum >= 0 {
        ((sum as u64) / (n as u64)) as i16
    } else {
        let q = ((-sum) as u64) / (n as u64);
        (-(q as i64)) as i16
    }
}

/// The sum of `k` consecutive samples starting at `base`.
pub open spec fn span_sum(s: Seq<i16>, base: int, k: int) -> int
    decreases k,
{
    if k <= 0 {
        0
    } else {
        span_sum(s, base, k - 1) + s[base + k - 1]
    }
}

/// Interleaved frames mixed to mono: each whole frame of `ch` samples
/// becomes the average of its channels, rounded toward zero.
pub open spec fn mix_interleaved_spec(s: Seq<i16>, ch: int) -> Seq<i16> {
    Seq::new((s.len() as int / ch) as nat, |i: int| avg_spec(span_sum(s, i * ch, ch), ch) as i16)
}

/// Mix interleaved samples to mono; a channel count of zero yields
/// nothing. The bound on the channel count only keeps the sum of that many
/// 16-bit samples within the 64-bit accumulator.
pub fn mix_interleaved(samples: &Vec<i16>, channels: usize) -> (r: Vec<i16>)
    requires
        channels <= 0xFFFF_FFFF,
    ensures
        channels == 0 ==> r@ == Seq::<i16>::empty(),
        channels >= 1 ==> r@ == mix_interleaved_spec(samples@, channels as int),
{
    let mut out: Vec<i16> = Vec::new();
    if channels == 0 {
        proof {
            assert(out@ =~= Seq::<i16>::empty());
        }
        return out;
    }
    let n = samples.len() / channels;
    proof {
        let lenc = samples@.len() as int;
        let chc = channels as int;
        vstd::arithmetic::div_mod::lemma_fundamental_div_mod(lenc, chc);
        vstd::arithmetic::div_mod::lemma_mod_bound(lenc, chc);
        vstd::arithmetic::div_mod::lemma_div_pos_is_pos(lenc, chc);
        assert(chc * (lenc / chc) == (lenc / chc) * chc) by (nonlinear_arith);
        assert((n as int) * (channels as int) <= samples.len());
    }
    let mut i: usize = 0;
    while i < n
        invariant
            i <= n,
            1 <= channels <= 0xFFFF_FFFF,
            n == samples@.len() as int / channels as int,
            (n as int) * (channels as int) <= samples.len(),
            out@.len() == i,
            forall|j: int|
                0 <= j < i ==> #[trigger] out@[j] == avg_spec(
                    span_sum(samples@, j * (channels as int), channels as int),
                    channels as int,
                ) as i16,
        decreases n - i,
    {
        proof {
            assert((i + 1) * (channels as int) <= (n as int) * (channels as int) && 0 <= i
                * (channels as int) && (i + 1) * (channels as int) == i * (channels as int)
                + (channels as int)) by (nonlinear_arith)
                requires
                    0 <= i,
                    i + 1 <= n as int,
                    1 <= channels as int,
            ;
        }
        let base = i * channels;
        let mut sum: i64 = 0;
        let mut k: usize = 0;
        while k < channels
            invariant
                k <= channels,
                1 <= channels <= 0xFFFF_FFFF,
                base == i * (channels as int),
                base + channels <= samples.len(),
                sum == span_sum(samples@, base as int, k as int),
                -32768 * (k as int) <= sum <= 32767 * (k as int),
            decreases channels - k,
        {
            sum = sum + (samples[base + k] as i64);
            k += 1;
        }
        let m = avg_i64(sum, channels);
        out.push(m);
        i += 1;
    }
    proof {
        assert(out@ =~= mix_interleaved_spec(samples@, channels as int));
    }
    out
}

/// The shortest channel length of a planar buffer.
pub open spec fn min_len_spec(chs: Seq<Seq<i16>>) -> int
    decreases chs.len(),
{
    if chs.len() == 0 {
        0
    } else if chs.len() == 1 {
        chs[0].len() as int
    } else {
        let rest = min_len_spec(chs.drop_first());
        if chs[0].len() <= rest {
            chs[0].len() as int
        } else {
            rest
        }
    }
}

/// The sum across channels at one sample position.
pub open spec fn col_sum(chs: Seq<Seq<i16>>, i: int) -> int
    decreases chs.len(),
{
    if chs.len() == 0 {
        0
    } else {
        col_sum(chs.drop_last(), i) + chs.last()[i]
    }
}

/// Planar channels mixed to mono: at each position up to the shortest
/// channel, the average across channels, rounded toward zero.
pub open spec fn mix_planar_spec(chs: Seq<Seq<i16>>) -> Seq<i16> {
    Seq::new(min_len_spec(chs) as nat, |i: int| avg_spec(col_sum(chs, i), chs.len() as int) as i16)
}

/// The shortest channel length is one of the channel lengths and below all
/// of them.
pub proof fn lemma_min_len_char(chs: Seq<Seq<i16>>)
    requires
        chs.len() >= 1,
    ensures
        forall|c: int| 0 <= c < chs.len() ==> min_len_spec(chs) <= (#[trigger] chs[c]).len(),
        exists|c: int| 0 <= c < chs.len() && min_len_spec(chs) == (#[trigger] chs[c]).len(),
    decreases chs.len(),
{
    if chs.len() == 1 {
        assert(min_len_spec(chs) == chs[0].len());
    } else {
        let rest = chs.drop_first();
        lemma_min_len_char(rest);
        assert forall|c: int| 0 <= c < chs.len() implies min_len_spec(chs) <= (
        #[trigger] chs[c]).len() by {
            if c > 0 {
                assert(rest[c - 1] == chs[c]);
            }
        }
        if chs[0].len() <= min_len_spec(rest) {
            assert(min_len_spec(chs) == chs[0].len());
        } else {
            let c0 = choose|c: int|
                0 <= c < rest.len() && min_len_spec(rest) == (#[trigger] rest[c]).len();
            assert(chs[c0 + 1] == rest[c0]);
            assert(min_len_spec(chs) == chs[c0 + 1].len());
        }
    }
}

fn min_channel_len(channels: &Vec<Vec<i16>>) -> (r: usize)
    requires
        channels@.len() >= 1,
    ensures
        r == min_len_spec(channels.deep_view()),
{
    let ghost chs = channels.deep_view();
    let mut m: usize = channels[0].len();
    proof {
        assert(chs[0] =~= channels@[0]@);
    }
    let mut c: usize = 1;
    while c < channels.len()
        invariant
            1 <= c <= channels@.len(),
            chs == channels.deep_view(),
            chs.len() == channels@.len(),
            forall|cc: int| 0 <= cc < c ==> m <= (#[trigger] chs[cc]).len(),
            exists|cc: int| 0 <= cc < c && m == (#[trigger] chs[cc]).len(),
        decreases channels@.len() - c,
    {
        let len_c = channels[c].len();
        proof {
            assert(chs[c as int] =~= channels@[c as int]@);
        }
        if len_c < m {
            m = len_c;
        }
        c += 1;
    }
    proof {
        lemma_min_len_char(chs);
        let cm = choose|cc: int| 0 <= cc < chs.len() && m == (#[trigger] chs[cc]).len();
        let cs = choose|cc: int|
            0 <= cc < chs.len() && min_len_spec(chs) == (#[trigger] chs[cc]).len();
        assert(m <= chs[cs].len());
        assert(min_len_spec(chs) <= chs[cm].len());
    }
    m
}

/// Mix planar channels to mono; no channels yields nothing. The bound on
/// the channel count only keeps the sum of that many 16-bit samples within
/// the 64-bit accumulator.
pub fn mix_planar(channels: &Vec<Vec<i16>>) -> (r: Vec<i16>)
    requires
        channels@.len() <= 0xFFFF_FFFF,
    ensures
        channels@.len() == 0 ==> r@ == Seq::<i16>::empty(),
        channels@.len() >= 1 ==> r@ == mix_planar_spec(channels.deep_view()),
{
    let mut out: Vec<i16> = Vec::new();
    if channels.len() == 0 {
        proof {
            assert(out@ =~= Seq::<i16>::empty());
        }
        return out;
    }
    let n = min_channel_len(channels);
    let ghost chs = channels.deep_view();
    let mut i: usize = 0;
    while i < n
        invariant
            i <= n,
            1 <= channels@.len() <= 0xFFFF_FFFF,
            chs == channels.deep_view(),
            n == min_len_spec(chs),
            out@.len() == i,
            forall|j: int|
                0 <= j < i ==> #[trigger] out@[j] == avg_spec(
                    col_sum(chs, j),
                    chs.len() as int,
                ) as i16,
        decreases n - i,
    {
        let mut sum: i64 = 0;
        let mut c: usize = 0;
        proof {
            lemma_min_len_char(chs);
            assert forall|cc: int| 0 <= cc < chs.len() implies 0 <= i < (
            #[trigger] chs[cc]).len() by {
                assert(min_len_spec(chs) <= chs[cc].len());
            }
        }
        while c < channels.len()
            invariant
                c <= channels@.len(),
                1 <= channels@.len() <= 0xFFFF_FFFF,
                chs == channels.deep_view(),
                i < min_len_spec(chs),
                forall|cc: int| 0 <= cc < chs.len() ==> 0 <= i < (#[trigger] chs[cc]).len(),
                sum == col_sum(chs.take(c as int), i as int),
                -32768 * (c as int) <= sum <= 32767 * (c as int),
            decreases channels@.len() - c,
        {
            proof {
                assert(chs.take(c + 1).drop_last() =~= chs.take(c as int));
                assert(chs.take(c + 1).last() == chs[c as int]);
                assert(chs[c as int] =~= channels@[c as int]@);
            }
            sum = sum + (channels[c][i] as i64);
            c += 1;
        }
        proof {
            assert(chs.take(chs.len() as int) =~= chs);
        }
        let m = avg_i64(sum, channels.len());
        out.push(m);
        i += 1;
    }
    proof {
        assert(out@ =~= mix_planar_spec(chs));
    }
    out
}

/// One sample through the decimator: every third input emits the average
/// of the last three, rounded toward zero.
pub open spec fn decim_step_spec(ph: int, acc: int, v: int) -> (int, int, Seq<i16>) {
    if ph == 2 {
        (0, 0, seq![avg_spec(acc + v, 3) as i16])
    } else {
        (ph + 1, acc + v, Seq::empty())
    }
}

/// The decimator folded over a chunk of samples.
pub open spec fn decim_run_spec(ph: int, acc: int, s: Seq<i16>) -> (int, int, Seq<i16>)
    decreases s.len(),
{
    if s.len() == 0 {
        (ph, acc, Seq::empty())
    } else {
        let first = decim_step_spec(ph, acc, s[0] as int);
        let rest = decim_run_spec(first.0, first.1, s.drop_first());
        (rest.0, rest.1, first.2 + rest.2)
    }
}

proof fn lemma_decim_run_snoc(ph: int, acc: int, s: Seq<i16>, v: i16)
    ensures
        ({
            let whole = decim_run_spec(ph, acc, s.push(v));
            let prefix = decim_run_spec(ph, acc, s);
            let last = decim_step_spec(prefix.0, prefix.1, v as int);
            whole.0 == last.0 && whole.1 == last.1 && whole.2 == prefix.2 + last.2
        }),
    decreases s.len(),
{
    reveal_with_fuel(decim_run_spec, 3);
    let pushed = s.push(v);
    if s.len() == 0 {
        assert(pushed[0] == v);
        assert(pushed.drop_first() =~= Seq::<i16>::empty());
        assert(decim_run_spec(ph, acc, pushed).2 =~= decim_run_spec(ph, acc, s).2
            + decim_step_spec(ph, acc, v as int).2);
    } else {
        assert(pushed[0] == s[0]);
        assert(pushed.drop_first() =~= s.drop_first().push(v));
        let first = decim_step_spec(ph, acc, s[0] as int);
        lemma_decim_run_snoc(first.0, first.1, s.drop_first(), v);
        let prefix = decim_run_spec(ph, acc, s);
        let last = decim_step_spec(prefix.0, prefix.1, v as int);
        assert(decim_run_spec(ph, acc, pushed).2 =~= prefix.2 + last.2);
    }
}

/// A stateful 3:1 running-average decimator: it accumulates three
/// consecutive samples, emits their mean, and starts over; state persists
/// across chunks.
pub struct Decimator3 {
    phase: u8,
    acc: i32,
}

impl Decimator3 {
    /// The number of samples accumulated so far (zero to two).
    pub closed spec fn phase_view(self) -> int {
        self.phase as int
    }

    /// Their running sum.
    pub closed spec fn acc_view(self) -> int {
        self.acc as int
    }

    /// The phase stays below three and the accumulator holds at most that
    /// many samples' worth.
    pub closed spec fn wf(self) -> bool {
        &&& 0 <= self.phase < 3
        &&& -32768 * self.phase_view() <= self.acc_view() <= 32767 * self.phase_view()
    }

    /// A fresh decimator with nothing accumulated.
    pub fn new() -> (r: Decimator3)
        ensures
            r.wf(),
            r.phase_view() == 0,
            r.acc_view() == 0,
    {
        Decimator3 { phase: 0, acc: 0 }
    }

    /// Feed one sample; every third call yields the average of the last
    /// three.
    pub fn push(&mut self, s: i16) -> (r: Option<i16>)
        requires
            old(self).wf(),
        ensures
            final(self).wf(),
            ({
                let step = decim_step_spec(old(self).phase_view(), old(self).acc_view(), s as int);
                &&& final(self).phase_view() == step.0
                &&& final(self).acc_view() == step.1
                &&& (match r {
                    Some(v) => step.2 == seq![v],
                    None => step.2 == Seq::<i16>::empty(),
                })
            }),
    {
        if self.phase == 2 {
            let sum: i64 = (self.acc as i64) + (s as i64);
            let avg = avg_i64(sum, 3);
            self.phase = 0;
            self.acc = 0;
            Some(avg)
        } else {
            self.acc = self.acc + (s as i32);
            self.phase = self.phase + 1;
            None
        }
    }

    /// Feed a whole chunk, collecting every emitted sample.
    pub fn decimate(&mut self, samples: &Vec<i16>) -> (out: Vec<i16>)
        requires
            old(self).wf(),
        ensures
            final(self).wf(),
            ({
                let run = decim_run_spec(old(self).phase_view(), old(self).acc_view(), samples@);
                &&& final(self).phase_view() == run.0
                &&& final(self).acc_view() == run.1
                &&& out@ == run.2
            }),
    {
        let ghost ph0 = old(self).phase_view();
        let ghost acc0 = old(self).acc_view();
        let mut out: Vec<i16> = Vec::new();
        let mut i: usize = 0;
        while i < samples.len()
            invariant
                i <= samples@.len(),
                self.wf(),
                decim_run_spec(ph0, acc0, samples@.take(i as int)) == (
                    self.phase_view(),
                    self.acc_view(),
                    out@,
                ),
            decreases samples@.len() - i,
        {
            let ghost pre = (self.phase_view(), self.acc_view(), out@);
            let ghost out_pre = out@;
            let r = self.push(samples[i]);
            match r {
                Some(v) => {
                    out.push(v);
                },
                None => {},
            }
            proof {
                lemma_decim_run_snoc(ph0, acc0, samples@.take(i as int), samples@[i as int]);
                assert(samples@.take(i as int).push(samples@[i as int]) =~= samples@.take(i + 1));
                let step = decim_step_spec(pre.0, pre.1, samples@[i as int] as int);
                assert(out@ =~= out_pre + step.2);
            }
            i += 1;
        }
        proof {
            assert(samples@.take(samples@.len() as int) =~= samples@);
        }
        out
    }
}

} // verus!
