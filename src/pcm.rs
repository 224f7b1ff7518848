//! Normalisation of decoded audio into canonical 16-bit mono PCM.
//!
//! A normalised sample is held exactly, as a numerator over `2^32`: every
//! integer format maps onto `[-1, 1]` by a power-of-two scale, so this
//! representation loses nothing. Resampled samples are numerators over
//! `2^32 * target_rate`, and quantisation rounds those rationals exactly.
//!
//! The rounding rules are those of the formulas, taken in exact arithmetic.
//! A pipeline that evaluates the same formulas in `f32` rounds each product
//! first and can land one step higher: a signed 16-bit sample of 16385 at
//! equal rates gives 16385 in `f32`, where `16385/32768 * 32767 + 0.5`
//! rounds to 16385.0, but 16384 here, where it is exactly 16384.99997.
use vstd::prelude::*;
use crate::silk::{i16_bytes, push_i16_le};

verus! {

/// The denominator of a normalised sample.
pub const UNIT: i64 = 4294967296;

/// The integer sample formats of a decoded unit.
#[derive(Debug, Clone, Copy, PartialEq, Eq, Structural)]
pub enum SampleFormat {
    U8,
    S8,
    U16,
    S16,
    U32,
    S32,
}

/// The offset subtracted from a raw sample before scaling.
pub open spec fn offset_of(format: SampleFormat) -> int {
    match format {
        SampleFormat::U8 => 128,
        SampleFormat::U16 => 32768,
        SampleFormat::U32 => 2147483648,
        _ => 0,
    }
}

/// Half the factor from an offset sample to a numerator over `2^32`.
pub open spec fn half_scale_of(format: SampleFormat) -> int {
    match format {
        SampleFormat::U8 | SampleFormat::S8 => 16777216,
        SampleFormat::U16 | SampleFormat::S16 => 65536,
        SampleFormat::U32 | SampleFormat::S32 => 1,
    }
}

/// The raw values a format can hold.
pub open spec fn in_range(format: SampleFormat, x: int) -> bool {
    match format {
        SampleFormat::U8 => 0 <= x < 256,
        SampleFormat::S8 => -128 <= x < 128,
        SampleFormat::U16 => 0 <= x < 65536,
        SampleFormat::S16 => -32768 <= x < 32768,
        SampleFormat::U32 => 0 <= x < 4294967296,
        SampleFormat::S32 => -2147483648 <= x < 2147483648,
    }
}

/// A raw sample as a numerator over `2^32`: `(x - 128) / 128` for unsigned
/// 8-bit, `x / 128` for signed 8-bit, and likewise at 16 and 32 bits.
pub open spec fn normalized(format: SampleFormat, x: int) -> int {
    (x - offset_of(format)) * 2 * half_scale_of(format)
}

/// One decoded unit: per-channel arrays of raw samples of one format.
pub struct SampleBuffer {
    pub format: SampleFormat,
    pub channels: Vec<Vec<i64>>,
}

impl SampleBuffer {
    /// Every sample lies in the range of the buffer's format.
    pub open spec fn wf(&self) -> bool {
        forall|c: int, i: int|
            0 <= c < self.channels.len() && 0 <= i < self.channels[c].len() ==> in_range(
                self.format,
                #[trigger] self.channels[c][i] as int,
            )
    }
}

/// Offset and half-scale of a format.
fn format_factors(format: SampleFormat) -> (r: (i64, i64))
    ensures
        r.0 == offset_of(format),
        r.1 == half_scale_of(format),
{
    match format {
        SampleFormat::U8 => (128, 16777216),
        SampleFormat::S8 => (0, 16777216),
        SampleFormat::U16 => (32768, 65536),
        SampleFormat::S16 => (0, 65536),
        SampleFormat::U32 => (2147483648, 1),
        SampleFormat::S32 => (0, 1),
    }
}

/// The offset sample times the half-scale lies within `[-2^31, 2^31]`.
proof fn lemma_half_bounds(format: SampleFormat, x: int)
    requires
        in_range(format, x),
    ensures
        -2147483648 <= (x - offset_of(format)) * half_scale_of(format) <= 2147483648,
{
    let d = x - offset_of(format);
    let h = half_scale_of(format);
    assert(-2147483648 <= d * h <= 2147483648) by (nonlinear_arith)
        requires
            (h == 16777216 && -128 <= d < 128) || (h == 65536 && -32768 <= d < 32768) || (h == 1
                && -2147483648 <= d < 2147483648),
    ;
}

/// Target rate and channel count of a conversion.
pub struct AudioConverter {
    pub target_sample_rate: u32,
    pub target_channels: u32,
}

impl AudioConverter {
    /// 24 kHz mono.
    pub fn new() -> (r: Self)
        ensures
            r.target_sample_rate == 24000,
            r.target_channels == 1,
    {
        AudioConverter { target_sample_rate: 24000, target_channels: 1 }
    }

    /// The same converter with another target rate.
    pub fn with_sample_rate(self, sample_rate: u32) -> (r: Self)
        ensures
            r.target_sample_rate == sample_rate,
            r.target_channels == self.target_channels,
    {
        AudioConverter { target_sample_rate: sample_rate, target_channels: self.target_channels }
    }

    /// The same converter with another target channel count.
    pub fn with_channels(self, channels: u32) -> (r: Self)
        ensures
            r.target_sample_rate == self.target_sample_rate,
            r.target_channels == channels,
    {
        AudioConverter { target_sample_rate: self.target_sample_rate, target_channels: channels }
    }

    /// A converter for `sample_rate`, or `None` where `channels` is not 1:
    /// the canonical output is mono.
    pub fn with_config(sample_rate: u32, channels: u32) -> (r: Option<Self>)
        ensures
            r is Some <==> channels == 1,
            r matches Some(c) ==> c.target_sample_rate == sample_rate && c.target_channels == 1,
    {
        if channels != 1 {
            return None;
        }
        Some(AudioConverter { target_sample_rate: sample_rate, target_channels: 1 })
    }

    /// Whether a unit is downmixed: several source channels, a mono target,
    /// and at least two channels in the buffer.
    pub open spec fn mixes_down(&self, buf: &SampleBuffer, source_channels: u32) -> bool {
        source_channels > 1 && self.target_channels == 1 && buf.channels.len() > 1
    }

    /// The normalised samples of a unit, one per frame of its first channel:
    /// the average of the first two channels where downmixing applies and
    /// the second channel has that frame, else the first channel alone.
    pub open spec fn canonical(&self, buf: &SampleBuffer, source_channels: u32) -> Seq<int> {
        if buf.channels.len() == 0 {
            Seq::empty()
        } else {
            let left = buf.channels[0]@;
            Seq::new(
                left.len(),
                |i: int|
                    if self.mixes_down(buf, source_channels) && i < buf.channels[1]@.len() {
                        (normalized(buf.format, left[i] as int) + normalized(
                            buf.format,
                            buf.channels[1]@[i] as int,
                        )) / 2
                    } else {
                        normalized(buf.format, left[i] as int)
                    },
            )
        }
    }

    /// Normalises a unit to numerators over `2^32`, downmixing to mono where
    /// the unit and the target call for it.
    pub fn convert_buffer(&self, buf: &SampleBuffer, source_channels: u32) -> (r: Vec<i64>)
        requires
            buf.wf(),
        ensures
            r@.len() == self.canonical(buf, source_channels).len(),
            forall|i: int|
                0 <= i < r@.len() ==> r@[i] as int == #[trigger] self.canonical(buf, source_channels)[i],
            forall|i: int| 0 <= i < r@.len() ==> -UNIT <= #[trigger] r@[i] <= UNIT,
    {
        let mut out: Vec<i64> = Vec::new();
        if buf.channels.len() == 0 {
            return out;
        }
        let (off, half) = format_factors(buf.format);
        let mix = source_channels > 1 && self.target_channels == 1 && buf.channels.len() > 1;
        let left = &buf.channels[0];
        let ghost spec_out = self.canonical(buf, source_channels);
        let mut i: usize = 0;
        while i < left.len()
            invariant
                buf.wf(),
                buf.channels.len() > 0,
                left == &buf.channels[0],
                off == offset_of(buf.format),
                half == half_scale_of(buf.format),
                mix == self.mixes_down(buf, source_channels),
                spec_out == self.canonical(buf, source_channels),
                spec_out.len() == left@.len(),
                i <= left.len(),
                out@.len() == i,
                forall|j: int| 0 <= j < i ==> out@[j] as int == #[trigger] spec_out[j],
                forall|j: int| 0 <= j < i ==> -UNIT <= #[trigger] out@[j] <= UNIT,
            decreases left.len() - i,
        {
            let l: i64 = left[i];
            proof {
                assert(in_range(buf.format, buf.channels[0][i as int] as int));
                lemma_half_bounds(buf.format, l as int);
            }
            let lh: i64 = (l - off) * half;
            let v: i64 = if mix && i < buf.channels[1].len() {
                let rr: i64 = buf.channels[1][i];
                proof {
                    assert(in_range(buf.format, buf.channels[1][i as int] as int));
                    lemma_half_bounds(buf.format, rr as int);
                    let a = (l - off) as int;
                    let b = (rr - off) as int;
                    let h = half as int;
                    assert(((a * 2 * h) + (b * 2 * h)) / 2 == a * h + b * h) by (nonlinear_arith);
                }
                lh + (rr - off) * half
            } else {
                proof {
                    assert((l - off) * 2 * half == 2 * ((l - off) * half)) by (nonlinear_arith);
                }
                2 * lh
            };
            out.push(v);
            i = i + 1;
        }
        out
    }
}


/// The 16-bit sample for the rational `num / den`: clamped to `[-1, 1]`,
/// then `trunc(v * 32767 + 0.5)` where `v >= 0` and
/// `trunc(v * 32768 - 0.5)` where `v < 0`, all in exact arithmetic (an
/// `f32` evaluation can differ by one where it rounds a product up).
pub open spec fn quantize(num: int, den: int) -> int {
    let c = if num > den {
        den
    } else if num < -den {
        -den
    } else {
        num
    };
    if c >= 0 {
        (2 * c * 32767 + den) / (2 * den)
    } else {
        -((den - 2 * c * 32768) / (2 * den))
    }
}

/// Quantisation at the ends of the range: `1` gives `32767`, `-1` gives
/// `-32768`, `0` gives `0`, whatever the denominator.
pub proof fn lemma_quantize_bounds(den: int)
    requires
        den > 0,
    ensures
        quantize(den, den) == 32767,
        quantize(-den, den) == -32768,
        quantize(0, den) == 0,
{
    assert((2 * den * 32767 + den) / (2 * den) == 32767) by (nonlinear_arith)
        requires den > 0;
    assert((den + 2 * den * 32768) / (2 * den) == 32768) by (nonlinear_arith)
        requires den > 0;
    assert(den / (2 * den) == 0) by (nonlinear_arith)
        requires den > 0;
}

/// The PCM bytes of a sequence of rationals over one denominator.
pub open spec fn pcm_bytes(nums: Seq<int>, den: int) -> Seq<u8>
    decreases nums.len(),
{
    if nums.len() == 0 {
        Seq::empty()
    } else {
        pcm_bytes(nums.drop_last(), den) + i16_bytes(quantize(nums.last(), den))
    }
}

/// The largest denominator the serializer takes.
pub open spec fn max_den() -> int {
    0x1_0000_0000_0000_0000_0000_0000
}

/// Quantises one rational sample to 16 bits.
pub fn quantize_sample(num: i128, den: i128) -> (r: i16)
    requires
        0 < den <= max_den(),
    ensures
        r as int == quantize(num as int, den as int),
{
    let c: i128 = if num > den {
        den
    } else if num < -den {
        -den
    } else {
        num
    };
    if c >= 0 {
        proof {
            let (ci, di) = (c as int, den as int);
            assert(0 <= 2 * ci * 32767 + di <= 65535 * di) by (nonlinear_arith)
                requires 0 <= ci <= di;
            assert((2 * ci * 32767 + di) / (2 * di) <= 32767) by (nonlinear_arith)
                requires 0 <= 2 * ci * 32767 + di <= 65535 * di, di > 0;
            assert((2 * ci * 32767 + di) / (2 * di) >= 0) by (nonlinear_arith)
                requires 0 <= 2 * ci * 32767 + di, di > 0;
        }
        ((2 * c * 32767 + den) / (2 * den)) as i16
    } else {
        proof {
            let (ci, di) = (c as int, den as int);
            assert(0 < di - 2 * ci * 32768 <= 65537 * di) by (nonlinear_arith)
                requires -di <= ci < 0, di > 0;
            assert((di - 2 * ci * 32768) / (2 * di) <= 32768) by (nonlinear_arith)
                requires 0 < di - 2 * ci * 32768 <= 65537 * di, di > 0;
            assert((di - 2 * ci * 32768) / (2 * di) >= 0) by (nonlinear_arith)
                requires 0 < di - 2 * ci * 32768, di > 0;
        }
        let q: i128 = (den - 2 * c * 32768) / (2 * den);
        (-q) as i16
    }
}

/// Serialises rational samples over `den` as signed 16-bit little-endian
/// PCM, two bytes per sample.
pub fn clean_samples_to_pcm_bytes(nums: &Vec<i128>, den: i128) -> (r: Vec<u8>)
    requires
        0 < den <= max_den(),
    ensures
        r@ == pcm_bytes(nums@.map_values(|n: i128| n as int), den as int),
{
    let mut out: Vec<u8> = Vec::new();
    let ghost ns = nums@.map_values(|n: i128| n as int);
    let mut i: usize = 0;
    while i < nums.len()
        invariant
            0 < den <= max_den(),
            i <= nums.len(),
            ns == nums@.map_values(|n: i128| n as int),
            out@ == pcm_bytes(ns.take(i as int), den as int),
        decreases nums.len() - i,
    {
        let q = quantize_sample(nums[i], den);
        push_i16_le(&mut out, q);
        proof {
            let t = ns.take(i + 1);
            assert(t.drop_last() =~= ns.take(i as int));
            assert(t.last() == nums@[i as int] as int);
        }
        i = i + 1;
    }
    assert(ns.take(nums@.len() as int) =~= ns);
    out
}


/// The output length of a conversion from rate `s` to rate `t` of `n`
/// samples: `floor(n / (s / t))`, and `n` where the rates agree.
pub open spec fn resampled_len(n: int, s: int, t: int) -> int {
    if s == t {
        n
    } else {
        n * t / s
    }
}

/// Output sample `i` of the conversion, as a numerator over `2^32 * t`: at
/// source position `i * s / t`, with integer part `idx` and fraction
/// `k / t`, the value `x[idx] * (1 - k/t) + x[idx + 1] * (k/t)`, or `x[idx]`
/// where `idx` is the last input.
pub open spec fn resampled_at(x: Seq<i64>, s: int, t: int, i: int) -> int {
    if s == t {
        x[i] * t
    } else {
        let p = i * s;
        let idx = p / t;
        let k = p % t;
        if idx + 1 < x.len() {
            x[idx] * (t - k) + x[idx + 1] * k
        } else {
            x[idx] * t
        }
    }
}

/// Where `i` is below the output length, its source position lies within
/// the input.
proof fn lemma_source_in_range(n: int, s: int, t: int, i: int)
    requires
        s > 0,
        t > 0,
        0 <= i < n * t / s,
    ensures
        0 <= (i * s) / t < n,
{
    vstd::arithmetic::div_mod::lemma_fundamental_div_mod(n * t, s);
    vstd::arithmetic::div_mod::lemma_mod_pos_bound(n * t, s);
    let q = n * t / s;
    assert(i * s < n * t) by (nonlinear_arith)
        requires
            n * t == s * q + (n * t) % s,
            (n * t) % s >= 0,
            i + 1 <= q,
            s > 0,
    ;
    vstd::arithmetic::div_mod::lemma_fundamental_div_mod(i * s, t);
    vstd::arithmetic::div_mod::lemma_mod_pos_bound(i * s, t);
    assert(0 <= i * s) by (nonlinear_arith)
        requires i >= 0, s > 0;
    vstd::arithmetic::div_mod::lemma_div_pos_is_pos(i * s, t);
    let d = (i * s) / t;
    assert(d < n) by (nonlinear_arith)
        requires
            i * s == t * d + (i * s) % t,
            (i * s) % t >= 0,
            i * s < n * t,
            t > 0,
    ;
}

/// Converts samples (numerators over `2^32`) from `source_rate` to
/// `target_rate` by linear interpolation. The result holds numerators over
/// `2^32 * target_rate`; where the rates agree it holds the same values.
pub fn resample(samples: &Vec<i64>, source_rate: u32, target_rate: u32) -> (r: Vec<i128>)
    requires
        source_rate == target_rate || (source_rate > 0 && target_rate > 0),
        source_rate != target_rate ==> samples@.len() * target_rate as int / source_rate as int
            <= usize::MAX,
        forall|i: int| 0 <= i < samples@.len() ==> -UNIT <= #[trigger] samples@[i] <= UNIT,
    ensures
        r@.len() == resampled_len(samples@.len() as int, source_rate as int, target_rate as int),
        forall|i: int|
            0 <= i < r@.len() ==> #[trigger] r@[i] as int == resampled_at(
                samples@,
                source_rate as int,
                target_rate as int,
                i,
            ),
        forall|i: int| 0 <= i < r@.len() ==> -UNIT * target_rate <= #[trigger] r@[i] <= UNIT * target_rate,
        source_rate == target_rate ==> r@.len() == samples@.len() && forall|i: int|
            0 <= i < r@.len() ==> #[trigger] r@[i] == samples@[i] * target_rate,
        source_rate != target_rate ==> r@.len() == samples@.len() * target_rate as int
            / source_rate as int,
{
    let n: usize = samples.len();
    let s: u128 = source_rate as u128;
    let t: u128 = target_rate as u128;
    let ti: i128 = target_rate as i128;
    let mut out: Vec<i128> = Vec::new();
    if source_rate == target_rate {
        let mut i: usize = 0;
        while i < n
            invariant
                n == samples@.len(),
                source_rate == target_rate,
                ti == target_rate,
                i <= n,
                out@.len() == i,
                forall|i: int| 0 <= i < samples@.len() ==> -UNIT <= #[trigger] samples@[i] <= UNIT,
                forall|j: int|
                    0 <= j < i ==> #[trigger] out@[j] as int == resampled_at(
                        samples@,
                        source_rate as int,
                        target_rate as int,
                        j,
                    ),
                forall|j: int| 0 <= j < i ==> -UNIT * target_rate <= #[trigger] out@[j] <= UNIT * target_rate,
            decreases n - i,
        {
            let x: i64 = samples[i];
            proof {
                let xi = x as int;
                let tt = target_rate as int;
                assert(-UNIT * tt <= xi * tt <= UNIT * tt) by (nonlinear_arith)
                    requires -UNIT <= xi <= UNIT, tt >= 0;
            }
            out.push(x as i128 * ti);
            i = i + 1;
        }
        return out;
    }
    assert(n * t <= 0x1_0000_0000_0000_0000 * 0x1_0000_0000) by (nonlinear_arith)
        requires n <= usize::MAX, t < 0x1_0000_0000;
    let target_len: usize = (n as u128 * t / s) as usize;
    let mut i: usize = 0;
    while i < target_len
        invariant
            n == samples@.len(),
            source_rate != target_rate,
            s == source_rate,
            t == target_rate,
            ti == target_rate,
            s > 0,
            t > 0,
            target_len == n * t as int / s as int,
            i <= target_len,
            out@.len() == i,
            forall|i: int| 0 <= i < samples@.len() ==> -UNIT <= #[trigger] samples@[i] <= UNIT,
            forall|j: int|
                0 <= j < i ==> #[trigger] out@[j] as int == resampled_at(
                    samples@,
                    source_rate as int,
                    target_rate as int,
                    j,
                ),
            forall|j: int| 0 <= j < i ==> -UNIT * target_rate <= #[trigger] out@[j] <= UNIT * target_rate,
        decreases target_len - i,
    {
        proof {
            lemma_source_in_range(n as int, s as int, t as int, i as int);
            assert(i * s <= target_len * s) by (nonlinear_arith)
                requires i <= target_len, s > 0;
            assert(target_len * s <= 0x1_0000_0000_0000_0000 * 0x1_0000_0000) by (nonlinear_arith)
                requires target_len <= usize::MAX, s < 0x1_0000_0000;
        }
        let p: u128 = i as u128 * s;
        let idx: usize = (p / t) as usize;
        let k: u128 = p % t;
        let a: i128 = samples[idx] as i128;
        let v: i128 = if idx + 1 < n {
            let b: i128 = samples[idx + 1] as i128;
            let ki: i128 = k as i128;
            proof {
                let (ai, bi, kk, tt) = (a as int, b as int, k as int, t as int);
                assert(-UNIT * tt <= ai * (tt - kk) + bi * kk <= UNIT * tt) by (nonlinear_arith)
                    requires -UNIT <= ai <= UNIT, -UNIT <= bi <= UNIT, 0 <= kk < tt;
                assert(-UNIT * tt <= ai * (tt - kk) <= UNIT * tt) by (nonlinear_arith)
                    requires -UNIT <= ai <= UNIT, 0 <= kk < tt;
                assert(-UNIT * tt <= bi * kk <= UNIT * tt) by (nonlinear_arith)
                    requires -UNIT <= bi <= UNIT, 0 <= kk < tt;
                assert(tt < 0x1_0000_0000);
            }
            a * (ti - ki) + b * ki
        } else {
            proof {
                let (ai, tt) = (a as int, t as int);
                assert(-UNIT * tt <= ai * tt <= UNIT * tt) by (nonlinear_arith)
                    requires -UNIT <= ai <= UNIT, tt > 0;
            }
            a * ti
        };
        out.push(v);
        i = i + 1;
    }
    out
}


impl AudioConverter {
    /// The canonical PCM of one decoded unit: normalised and downmixed, then
    /// converted to the target rate, then quantised. Equal rates skip the
    /// conversion; a target rate of zero yields nothing.
    pub open spec fn unit_pcm(&self, buf: &SampleBuffer, source_sample_rate: u32, source_channels: u32) -> Seq<u8> {
        let x = self.canonical(buf, source_channels);
        let t = self.target_sample_rate as int;
        if source_sample_rate == self.target_sample_rate {
            pcm_bytes(x, UNIT as int)
        } else if t == 0 {
            Seq::empty()
        } else {
            pcm_bytes(
                Seq::new(
                    resampled_len(x.len() as int, source_sample_rate as int, t) as nat,
                    |i: int| resampled_at(x.map_values(|v: int| v as i64), source_sample_rate as int, t, i),
                ),
                UNIT * t,
            )
        }
    }

    /// Turns one decoded unit into canonical PCM bytes.
    pub fn process_audio_buffer(&self, buf: &SampleBuffer, source_sample_rate: u32, source_channels: u32) -> (r: Vec<u8>)
        requires
            buf.wf(),
            source_sample_rate > 0 || source_sample_rate == self.target_sample_rate,
            buf.channels.len() > 0 ==> buf.channels[0]@.len() * self.target_sample_rate as int
                / (if source_sample_rate > 0 { source_sample_rate as int } else { 1 }) <= usize::MAX,
        ensures
            r@ == self.unit_pcm(buf, source_sample_rate, source_channels),
    {
        let x = self.convert_buffer(buf, source_channels);
        let ghost c = self.canonical(buf, source_channels);
        assert(x@.map_values(|v: i64| v as int) =~= c);
        if source_sample_rate == self.target_sample_rate {
            let mut nums: Vec<i128> = Vec::new();
            let mut i: usize = 0;
            while i < x.len()
                invariant
                    i <= x.len(),
                    nums@.len() == i,
                    forall|j: int| 0 <= j < i ==> #[trigger] nums@[j] as int == x@[j] as int,
                decreases x.len() - i,
            {
                nums.push(x[i] as i128);
                i = i + 1;
            }
            assert(nums@.map_values(|n: i128| n as int) =~= c);
            return clean_samples_to_pcm_bytes(&nums, UNIT as i128);
        }
        if self.target_sample_rate == 0 {
            return Vec::new();
        }
        assert(x@.len() == c.len());
        let y = resample(&x, source_sample_rate, self.target_sample_rate);
        let ghost t = self.target_sample_rate as int;
        assert(c.map_values(|v: int| v as i64) =~= x@);
        assert(y@.map_values(|n: i128| n as int) =~= Seq::new(
            resampled_len(c.len() as int, source_sample_rate as int, t) as nat,
            |i: int| resampled_at(c.map_values(|v: int| v as i64), source_sample_rate as int, t, i),
        ));
        let den: i128 = UNIT as i128 * self.target_sample_rate as i128;
        clean_samples_to_pcm_bytes(&y, den)
    }
}

impl Default for AudioConverter {
    /// The same as `new`: 24 kHz mono.
    fn default() -> (r: Self)
        ensures
            r.target_sample_rate == 24000,
            r.target_channels == 1,
    {
        AudioConverter::new()
    }
}

/// How one pull from the source decoder ended.
#[derive(Debug, Clone, Copy, PartialEq, Eq, Structural)]
pub enum PullOutcome {
    /// A packet was read; whether it belongs to the chosen track.
    Packet(bool),
    /// A packet was decoded into a unit.
    Decoded,
    /// Reading packets asked for a decoder reset.
    ResetRequired,
    /// The stream ended where more input was expected.
    UnexpectedEof,
    /// A single packet could not be decoded.
    DecodeError,
    /// Any other failure.
    OtherError,
}

/// Whether the outcome came from reading a packet or from decoding one.
#[derive(Debug, Clone, Copy, PartialEq, Eq, Structural)]
pub enum PullStage {
    Read,
    Decode,
}

/// What the streaming loop does next.
#[derive(Debug, Clone, Copy, PartialEq, Eq, Structural)]
pub enum StreamAction {
    /// Decode the packet just read.
    DecodePacket,
    /// Write the canonical PCM of the decoded unit.
    WriteUnit,
    /// Go on to the next packet.
    Skip,
    /// Reset the decoder, then go on.
    ResetDecoder,
    /// Flush the output and end successfully.
    Finish,
    /// End with the failure.
    Abort,
}

/// The decision of the streaming conversion after one pull.
pub open spec fn action_of(stage: PullStage, outcome: PullOutcome) -> StreamAction {
    match (stage, outcome) {
        (PullStage::Read, PullOutcome::Packet(own)) => if own {
            StreamAction::DecodePacket
        } else {
            StreamAction::Skip
        },
        (PullStage::Read, PullOutcome::ResetRequired) => StreamAction::ResetDecoder,
        (PullStage::Decode, PullOutcome::Decoded) => StreamAction::WriteUnit,
        (PullStage::Decode, PullOutcome::DecodeError) => StreamAction::Skip,
        (_, PullOutcome::UnexpectedEof) => StreamAction::Finish,
        _ => StreamAction::Abort,
    }
}

/// Decides the next step of the streaming conversion: packets of other
/// tracks and undecodable packets are skipped, a reset request resets the
/// decoder, an unexpected end of input ends cleanly, anything else aborts.
pub fn next_action(stage: PullStage, outcome: PullOutcome) -> (r: StreamAction)
    ensures
        r == action_of(stage, outcome),
{
    match (stage, outcome) {
        (PullStage::Read, PullOutcome::Packet(own)) => if own {
            StreamAction::DecodePacket
        } else {
            StreamAction::Skip
        },
        (PullStage::Read, PullOutcome::ResetRequired) => StreamAction::ResetDecoder,
        (PullStage::Decode, PullOutcome::Decoded) => StreamAction::WriteUnit,
        (PullStage::Decode, PullOutcome::DecodeError) => StreamAction::Skip,
        (_, PullOutcome::UnexpectedEof) => StreamAction::Finish,
        _ => StreamAction::Abort,
    }
}

} // verus!
