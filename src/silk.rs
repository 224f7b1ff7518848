//! The SILK v3 container: an optional vendor flag byte, the `#!SILK_V3` magic,
//! then frames, each prefixed by its length as 16-bit little-endian.
use vstd::prelude::*;

verus! {

/// Errors of the container layer and of the codec engine's status codes.
#[derive(Debug, Clone, Copy, PartialEq, Eq, Structural)]
pub enum SilkError {
    Invalid,
    EncInputInvalidNoOfSamples,
    EncFsNotSupported,
    EncPacketSizeNotSupported,
    EncPayloadBufTooShort,
    EncInvalidLossRate,
    EncInvalidComplexitySetting,
    EncInvalidInbandFecSetting,
    EncInvalidDtxSetting,
    EncInternalError,
    DecInvalidSamplingFrequency,
    DecPayloadTooLarge,
    DecPayloadError,
    Other(i32),
}

/// The error that a non-zero engine status code stands for.
pub open spec fn error_of_code(code: i32) -> SilkError {
    if code == -1 {
        SilkError::EncInputInvalidNoOfSamples
    } else if code == -2 {
        SilkError::EncFsNotSupported
    } else if code == -3 {
        SilkError::EncPacketSizeNotSupported
    } else if code == -4 {
        SilkError::EncPayloadBufTooShort
    } else if code == -5 {
        SilkError::EncInvalidLossRate
    } else if code == -6 {
        SilkError::EncInvalidComplexitySetting
    } else if code == -7 {
        SilkError::EncInvalidInbandFecSetting
    } else if code == -8 {
        SilkError::EncInvalidDtxSetting
    } else if code == -9 {
        SilkError::EncInternalError
    } else if code == -10 {
        SilkError::DecInvalidSamplingFrequency
    } else if code == -11 {
        SilkError::DecPayloadTooLarge
    } else if code == -12 {
        SilkError::DecPayloadError
    } else {
        SilkError::Other(code)
    }
}

impl SilkError {
    /// The status code that a kind of engine error stands for, if any.
    pub open spec fn code_of(self) -> Option<i32> {
        match self {
            SilkError::Invalid => None,
            SilkError::EncInputInvalidNoOfSamples => Some(-1i32),
            SilkError::EncFsNotSupported => Some(-2i32),
            SilkError::EncPacketSizeNotSupported => Some(-3i32),
            SilkError::EncPayloadBufTooShort => Some(-4i32),
            SilkError::EncInvalidLossRate => Some(-5i32),
            SilkError::EncInvalidComplexitySetting => Some(-6i32),
            SilkError::EncInvalidInbandFecSetting => Some(-7i32),
            SilkError::EncInvalidDtxSetting => Some(-8i32),
            SilkError::EncInternalError => Some(-9i32),
            SilkError::DecInvalidSamplingFrequency => Some(-10i32),
            SilkError::DecPayloadTooLarge => Some(-11i32),
            SilkError::DecPayloadError => Some(-12i32),
            SilkError::Other(c) => Some(c),
        }
    }
}

impl From<i32> for SilkError {
    fn from(code: i32) -> (r: SilkError)
        ensures
            r == error_of_code(code),
    {
        match code {
            -1 => SilkError::EncInputInvalidNoOfSamples,
            -2 => SilkError::EncFsNotSupported,
            -3 => SilkError::EncPacketSizeNotSupported,
            -4 => SilkError::EncPayloadBufTooShort,
            -5 => SilkError::EncInvalidLossRate,
            -6 => SilkError::EncInvalidComplexitySetting,
            -7 => SilkError::EncInvalidInbandFecSetting,
            -8 => SilkError::EncInvalidDtxSetting,
            -9 => SilkError::EncInternalError,
            -10 => SilkError::DecInvalidSamplingFrequency,
            -11 => SilkError::DecPayloadTooLarge,
            -12 => SilkError::DecPayloadError,
            _ => SilkError::Other(code),
        }
    }
}

impl vstd::std_specs::convert::FromSpecImpl<i32> for SilkError {
    open spec fn obeys_from_spec() -> bool {
        true
    }

    open spec fn from_spec(code: i32) -> SilkError {
        error_of_code(code)
    }
}

/// Every status code maps to an engine error, never to `Invalid`, and the
/// mapping is undone by `code_of`: the twelve named codes `-1..=-12` reach
/// twelve distinct kinds, and any other code `c` reaches `Other(c)`.
pub proof fn lemma_status_codes_one_to_one(a: i32, b: i32)
    ensures
        error_of_code(a) != SilkError::Invalid,
        error_of_code(a).code_of() == Some(a),
        a != b ==> error_of_code(a) != error_of_code(b),
        !(-12 <= a <= -1) ==> error_of_code(a) == SilkError::Other(a),
{
    if a != b && error_of_code(a) == error_of_code(b) {
        assert(error_of_code(a).code_of() == error_of_code(b).code_of());
    }
}


/// The vendor flag byte that may lead a container.
pub const VENDOR_FLAG: u8 = 2;

/// The nine bytes of the ASCII magic `#!SILK_V3`.
pub open spec fn magic() -> Seq<u8> {
    seq![35u8, 33u8, 83u8, 73u8, 76u8, 75u8, 95u8, 86u8, 51u8]
}

/// The largest frame length accepted at a given sample rate, and the size in
/// bytes of one chunk of input samples on the encode path.
pub open spec fn max_frame_len(sample_rate: int) -> int {
    sample_rate / 1000 * 40
}

/// A 16-bit little-endian length field.
pub open spec fn le16(lo: u8, hi: u8) -> nat {
    (lo + 256 * hi) as nat
}

/// The two bytes of a length `n < 65536`, little-endian.
pub open spec fn le16_bytes(n: nat) -> Seq<u8> {
    seq![(n % 256) as u8, (n / 256) as u8]
}

/// What follows the optional vendor flag and the magic, if the magic is there.
pub open spec fn body_of(s: Seq<u8>) -> Option<Seq<u8>> {
    let t = if s.len() > 0 && s[0] == VENDOR_FLAG {
        s.subrange(1, s.len() as int)
    } else {
        s
    };
    if t.len() >= 9 && t.subrange(0, 9) == magic() {
        Some(t.subrange(9, t.len() as int))
    } else {
        None
    }
}

/// The frames of a container body, or `None` where a declared length exceeds
/// `max` or the bytes that remain. Fewer than two bytes left end the body.
pub open spec fn frames_of(s: Seq<u8>, max: int) -> Option<Seq<Seq<u8>>>
    decreases s.len(),
{
    if s.len() < 2 {
        Some(Seq::empty())
    } else {
        let l = le16(s[0], s[1]) as int;
        if l >= 32768 || l > max || l > s.len() - 2 {
            None
        } else {
            match frames_of(s.subrange(2 + l, s.len() as int), max) {
                Some(rest) => Some(seq![s.subrange(2, 2 + l)] + rest),
                None => None,
            }
        }
    }
}

/// The frames of a whole container at a sample rate, if it is well formed.
pub open spec fn container_frames(s: Seq<u8>, sample_rate: int) -> Option<Seq<Seq<u8>>> {
    match body_of(s) {
        Some(b) => frames_of(b, max_frame_len(sample_rate)),
        None => None,
    }
}

/// Frames written one after another, each after its length.
pub open spec fn packed(frames: Seq<Seq<u8>>) -> Seq<u8>
    decreases frames.len(),
{
    if frames.len() == 0 {
        Seq::empty()
    } else {
        le16_bytes(frames[0].len()) + frames[0] + packed(frames.drop_first())
    }
}

/// The container that holds `frames`, with or without the vendor flag.
pub open spec fn container(vendor_flag: bool, frames: Seq<Seq<u8>>) -> Seq<u8> {
    let head = if vendor_flag { seq![VENDOR_FLAG] } else { Seq::empty() };
    head + magic() + packed(frames)
}

/// Where the body of a container starts, if the magic is there.
fn body_start(src: &[u8]) -> (r: Option<usize>)
    ensures
        match body_of(src@) {
            Some(b) => r is Some && r->0 <= src@.len() && b == src@.subrange(r->0 as int, src@.len() as int),
            None => r is None,
        },
{
    let start: usize = if src.len() > 0 && src[0] == VENDOR_FLAG { 1 } else { 0 };
    let ghost t = if src@.len() > 0 && src@[0] == VENDOR_FLAG {
        src@.subrange(1, src@.len() as int)
    } else {
        src@
    };
    assert(t == src@.subrange(start as int, src@.len() as int));
    let magic_bytes: [u8; 9] = [35u8, 33u8, 83u8, 73u8, 76u8, 75u8, 95u8, 86u8, 51u8];
    if src.len() - start < 9 {
        return None;
    }
    let mut i: usize = 0;
    while i < 9
        invariant
            0 <= i <= 9,
            start + 9 <= src.len(),
            t == src@.subrange(start as int, src@.len() as int),
            t == (if src@.len() > 0 && src@[0] == VENDOR_FLAG {
                src@.subrange(1, src@.len() as int)
            } else {
                src@
            }),
            magic_bytes@ == magic(),
            forall|j: int| 0 <= j < i ==> src@[start + j] == magic()[j],
        decreases 9 - i,
    {
        if src[start + i] != magic_bytes[i] {
            assert(t.subrange(0, 9)[i as int] != magic()[i as int]);
            assert(t.subrange(0, 9) != magic());
            return None;
        }
        i = i + 1;
    }
    assert(t.subrange(0, 9) =~= magic());
    assert(t.subrange(9, t.len() as int) =~= src@.subrange(start + 9, src@.len() as int));
    Some(start + 9)
}

/// Splits a container into its frames. Fails with `Invalid` exactly where the
/// magic is missing, or a frame declares a length above
/// `sample_rate / 1000 * 40` or above the bytes that remain.
pub fn parse_frames(src: &[u8], sample_rate: i32) -> (r: Result<Vec<Vec<u8>>, SilkError>)
    requires
        sample_rate >= 0,
    ensures
        match container_frames(src@, sample_rate as int) {
            Some(fs) => r is Ok && r->Ok_0.len() == fs.len() && forall|i: int|
                0 <= i < fs.len() ==> #[trigger] r->Ok_0[i]@ == fs[i],
            None => r == Err::<Vec<Vec<u8>>, SilkError>(SilkError::Invalid),
        },
{
    let start = match body_start(src) {
        Some(s) => s,
        None => return Err(SilkError::Invalid),
    };
    let max: usize = (sample_rate / 1000) as usize * 40;
    let ghost m = max_frame_len(sample_rate as int);
    assert(max as int == m);
    let ghost body = src@.subrange(start as int, src@.len() as int);
    assert(body_of(src@) == Some(body));
    let mut frames: Vec<Vec<u8>> = Vec::new();
    let ghost mut got: Seq<Seq<u8>> = Seq::empty();
    let mut pos: usize = start;
    while src.len() - pos >= 2
        invariant
            start <= pos <= src@.len(),
            max as int == m,
            body == src@.subrange(start as int, src@.len() as int),
            body_of(src@) == Some(body),
            m == max_frame_len(sample_rate as int),
            frames.len() == got.len(),
            forall|i: int| 0 <= i < got.len() ==> #[trigger] frames[i]@ == got[i],
            frames_of(body, m) == match frames_of(src@.subrange(pos as int, src@.len() as int), m) {
                Some(rest) => Some(got + rest),
                None => None::<Seq<Seq<u8>>>,
            },
        decreases src@.len() - pos,
    {
        let ghost rest = src@.subrange(pos as int, src@.len() as int);
        let len: usize = src[pos] as usize + 256 * (src[pos + 1] as usize);
        assert(len as int == le16(rest[0], rest[1]));
        if len >= 32768 || len > max || len > src.len() - pos - 2 {
            assert(frames_of(rest, m) is None);
            assert(frames_of(body, m) is None);
            assert(body_of(src@) == Some(body));
            return Err(SilkError::Invalid);
        }
        let mut frame: Vec<u8> = Vec::new();
        let end: usize = pos + 2 + len;
        let mut k: usize = pos + 2;
        while k < end
            invariant
                pos + 2 <= k <= end,
                end == pos + 2 + len,
                end <= src.len(),
                frame@ == src@.subrange(pos + 2, k as int),
            decreases end - k,
        {
            frame.push(src[k]);
            k = k + 1;
            assert(frame@ =~= src@.subrange(pos + 2, k as int));
        }
        assert(rest.subrange(2 + len, rest.len() as int) =~= src@.subrange(pos + 2 + len, src@.len() as int));
        assert(rest.subrange(2, 2 + len) =~= frame@);
        proof {
            let ghost old_got = got;
            got = got.push(frame@);
            match frames_of(src@.subrange(pos + 2 + len, src@.len() as int), m) {
                Some(r2) => {
                    assert(old_got + (seq![frame@] + r2) =~= got + r2);
                },
                None => {},
            }
        }
        frames.push(frame);
        pos = pos + 2 + len;
    }
    assert(got + Seq::<Seq<u8>>::empty() =~= got);
    Ok(frames)
}


/// The two little-endian bytes of a signed 16-bit sample.
pub open spec fn i16_bytes(x: int) -> Seq<u8> {
    le16_bytes((if x < 0 {
        x + 65536
    } else {
        x
    }) as nat)
}

/// Signed 16-bit samples written as little-endian bytes.
pub open spec fn samples_bytes(xs: Seq<i16>) -> Seq<u8>
    decreases xs.len(),
{
    if xs.len() == 0 {
        Seq::empty()
    } else {
        samples_bytes(xs.drop_last()) + i16_bytes(xs.last() as int)
    }
}

/// Decoded units written one after another.
pub open spec fn units_bytes(units: Seq<Seq<i16>>) -> Seq<u8>
    decreases units.len(),
{
    if units.len() == 0 {
        Seq::empty()
    } else {
        units_bytes(units.drop_last()) + samples_bytes(units.last())
    }
}

/// Appends the two little-endian bytes of `x`.
pub fn push_i16_le(out: &mut Vec<u8>, x: i16)
    ensures
        final(out)@ == old(out)@ + i16_bytes(x as int),
{
    let u: u32 = if x < 0 {
        (x as i32 + 65536) as u32
    } else {
        x as u32
    };
    out.push((u % 256) as u8);
    out.push((u / 256) as u8);
    assert(final(out)@ =~= old(out)@ + i16_bytes(x as int));
}

/// Reads `len` bytes of `src` from `start` as little-endian 16-bit samples;
/// written back, the samples give those bytes again.
fn chunk_samples(src: &[u8], start: usize, len: usize) -> (r: Vec<i16>)
    requires
        start + len <= src.len(),
        len % 2 == 0,
    ensures
        r@ == le_samples(src@.subrange(start as int, start + len)),
{
    let mut samples: Vec<i16> = Vec::new();
    let mut k: usize = 0;
    while k < len
        invariant
            start + len <= src.len(),
            len % 2 == 0,
            k <= len,
            k % 2 == 0,
            samples@ =~= Seq::new((k / 2) as nat, |j: int| sample_of(src@[start + 2 * j], src@[start + 2 * j + 1])),
        decreases len - k,
    {
        let lo: i32 = src[start + k] as i32;
        let hi: i32 = src[start + k + 1] as i32;
        let u: i32 = lo + 256 * hi;
        let v: i32 = if u >= 32768 { u - 65536 } else { u };
        let x = v as i16;
        let ghost old_samples = samples@;
        samples.push(x);
        k = k + 2;
    }
    assert(samples@ =~= le_samples(src@.subrange(start as int, start + len)));
    samples
}

/// Appends the two little-endian bytes of a length below 65536.
fn push_u16_le(out: &mut Vec<u8>, n: usize)
    requires
        n < 65536,
    ensures
        final(out)@ == old(out)@ + le16_bytes(n as nat),
{
    out.push((n % 256) as u8);
    out.push((n / 256) as u8);
    assert(final(out)@ =~= old(out)@ + le16_bytes(n as nat));
}

/// The engine configuration of a decode session.
#[derive(Debug, Clone, Copy, PartialEq, Eq, Structural)]
pub struct DecControl {
    pub api_sample_rate: i32,
    pub frame_size: i32,
    pub frames_per_packet: i32,
    pub more_internal_decoder_frames: i32,
    pub in_band_fec_offset: i32,
}

/// The engine configuration of an encode session.
#[derive(Debug, Clone, Copy, PartialEq, Eq, Structural)]
pub struct EncControl {
    pub api_sample_rate: i32,
    pub max_internal_sample_rate: i32,
    pub packet_size: i32,
    pub bit_rate: i32,
    pub packet_loss_percentage: i32,
    pub complexity: i32,
    pub use_in_band_fec: i32,
    pub use_dtx: i32,
}

/// The decoder configuration for output at `sample_rate`.
pub fn decoder_control(sample_rate: i32) -> (r: DecControl)
    ensures
        r == (DecControl {
            api_sample_rate: sample_rate,
            frame_size: 0,
            frames_per_packet: 1,
            more_internal_decoder_frames: 0,
            in_band_fec_offset: 0,
        }),
{
    DecControl {
        api_sample_rate: sample_rate,
        frame_size: 0,
        frames_per_packet: 1,
        more_internal_decoder_frames: 0,
        in_band_fec_offset: 0,
    }
}

/// The encoder configuration: packets of 20 ms, internal rate at most 24 kHz,
/// complexity 2, no loss, no in-band FEC, no DTX.
pub fn encoder_control(sample_rate: i32, bit_rate: i32) -> (r: EncControl)
    requires
        sample_rate >= 0,
    ensures
        r == (EncControl {
            api_sample_rate: sample_rate,
            max_internal_sample_rate: 24000,
            packet_size: (20 * sample_rate / 1000) as i32,
            bit_rate: bit_rate,
            packet_loss_percentage: 0,
            complexity: 2,
            use_in_band_fec: 0,
            use_dtx: 0,
        }),
{
    let packet: i64 = 20 * (sample_rate as i64) / 1000;
    EncControl {
        api_sample_rate: sample_rate,
        max_internal_sample_rate: 24000,
        packet_size: packet as i32,
        bit_rate: bit_rate,
        packet_loss_percentage: 0,
        complexity: 2,
        use_in_band_fec: 0,
        use_dtx: 0,
    }
}

/// One call received by a codec engine, with what it returned.
#[allow(inconsistent_fields)]
pub enum EngineCall {
    InitDecoder { control: DecControl, status: i32 },
    Decode { control: DecControl, frame: Seq<u8>, result: Result<Seq<i16>, i32> },
    InitEncoder { control: EncControl, status: i32 },
    Encode { control: EncControl, samples: Seq<i16>, result: Result<Seq<u8>, i32> },
}

/// The view of a decode result.
pub open spec fn samples_result(r: Result<Vec<i16>, i32>) -> Result<Seq<i16>, i32> {
    match r {
        Ok(v) => Ok(v@),
        Err(c) => Err(c),
    }
}

/// The view of an encode result.
pub open spec fn bytes_result(r: Result<Vec<u8>, i32>) -> Result<Seq<u8>, i32> {
    match r {
        Ok(v) => Ok(v@),
        Err(c) => Err(c),
    }
}

/// The speech codec's per-frame transform. Every method reports failure by a
/// non-zero status code, and each call is recorded, with its arguments and
/// its result, at the end of `calls`.
pub trait SilkEngine {
    /// Every call received so far, oldest first.
    spec fn calls(&self) -> Seq<EngineCall>;

    /// Prepares a decode session; returns 0 on success.
    fn init_decoder(&mut self, control: &DecControl) -> (r: i32)
        ensures
            final(self).calls() == old(self).calls().push(
                EngineCall::InitDecoder { control: *control, status: r },
            ),
    ;

    /// Decodes one compressed frame into signed 16-bit samples.
    fn decode_frame(&mut self, control: &DecControl, frame: &[u8]) -> (r: Result<Vec<i16>, i32>)
        ensures
            final(self).calls() == old(self).calls().push(
                EngineCall::Decode { control: *control, frame: frame@, result: samples_result(r) },
            ),
    ;

    /// Prepares an encode session; returns 0 on success.
    fn init_encoder(&mut self, control: &EncControl) -> (r: i32)
        ensures
            final(self).calls() == old(self).calls().push(
                EngineCall::InitEncoder { control: *control, status: r },
            ),
    ;

    /// Encodes one chunk of signed 16-bit samples into a compressed frame.
    fn encode_frame(&mut self, control: &EncControl, samples: &[i16]) -> (r: Result<Vec<u8>, i32>)
        ensures
            final(self).calls() == old(self).calls().push(
                EngineCall::Encode { control: *control, samples: samples@, result: bytes_result(r) },
            ),
    ;
}

/// A stand-in codec for exercising the container logic: decoding turns each
/// payload byte into one sample, encoding writes the first samples of a
/// chunk as little-endian bytes, zero-padded to `payload_len`. A non-zero
/// `status` makes every call fail with it.
pub struct LoopbackEngine {
    pub status: i32,
    pub payload_len: usize,
    pub log: Ghost<Seq<EngineCall>>,
}

impl LoopbackEngine {
    /// An engine that has received no call yet.
    pub fn new(status: i32, payload_len: usize) -> (r: Self)
        ensures
            r.status == status,
            r.payload_len == payload_len,
            r.calls() == Seq::<EngineCall>::empty(),
    {
        LoopbackEngine { status, payload_len, log: Ghost(Seq::empty()) }
    }
}

impl SilkEngine for LoopbackEngine {
    open spec fn calls(&self) -> Seq<EngineCall> {
        self.log@
    }

    fn init_decoder(&mut self, control: &DecControl) -> (r: i32) {
        let r = self.status;
        self.log = Ghost(self.log@.push(EngineCall::InitDecoder { control: *control, status: r }));
        r
    }

    fn decode_frame(&mut self, control: &DecControl, frame: &[u8]) -> (r: Result<Vec<i16>, i32>) {
        let r = if self.status != 0 {
            Err(self.status)
        } else {
            let mut samples: Vec<i16> = Vec::new();
            let mut i: usize = 0;
            while i < frame.len()
                invariant
                    i <= frame@.len(),
                decreases frame@.len() - i,
            {
                samples.push(frame[i] as i16);
                i = i + 1;
            }
            Ok(samples)
        };
        self.log = Ghost(
            self.log@.push(
                EngineCall::Decode { control: *control, frame: frame@, result: samples_result(r) },
            ),
        );
        r
    }

    fn init_encoder(&mut self, control: &EncControl) -> (r: i32) {
        let r = self.status;
        self.log = Ghost(self.log@.push(EngineCall::InitEncoder { control: *control, status: r }));
        r
    }

    fn encode_frame(&mut self, control: &EncControl, samples: &[i16]) -> (r: Result<Vec<u8>, i32>) {
        let r = if self.status != 0 {
            Err(self.status)
        } else {
            let cap: usize = self.payload_len;
            let mut bytes: Vec<u8> = Vec::new();
            let mut i: usize = 0;
            while i < samples.len() && cap - bytes.len() >= 2
                invariant
                    i <= samples@.len(),
                    bytes@.len() <= cap,
                decreases samples@.len() - i,
            {
                push_i16_le(&mut bytes, samples[i]);
                i = i + 1;
            }
            while bytes.len() < cap
                decreases cap - bytes.len(),
            {
                bytes.push(0);
            }
            Ok(bytes)
        };
        self.log = Ghost(
            self.log@.push(
                EngineCall::Encode { control: *control, samples: samples@, result: bytes_result(r) },
            ),
        );
        r
    }
}

/// The largest compressed frame the encode path accepts from the engine.
pub const MAX_PAYLOAD: usize = 1250;

/// The calls made after `before`, where `after` extends it.
pub open spec fn new_calls(before: Seq<EngineCall>, after: Seq<EngineCall>) -> Seq<EngineCall> {
    after.subrange(before.len() as int, after.len() as int)
}

/// Whether `after` holds `before` followed by at least one call.
pub open spec fn extends(before: Seq<EngineCall>, after: Seq<EngineCall>) -> bool {
    after.len() > before.len() && after.subrange(0, before.len() as int) == before
}

/// The decoded samples that a successful decode call returned.
pub open spec fn decoded_of(c: EngineCall) -> Seq<i16> {
    match c {
        EngineCall::Decode { result: Ok(s), .. } => s,
        _ => Seq::empty(),
    }
}

/// A decode session of a well-formed container, as the engine saw it and as
/// its result follows from what the engine returned: one `InitDecoder` with
/// `control`; if that failed, its mapped status; else one `Decode` per frame
/// in order, stopping at the first failure, whose status is mapped; or, when
/// every frame decoded, the samples of all frames as little-endian bytes.
pub open spec fn decode_session(
    d: Seq<EngineCall>,
    control: DecControl,
    frames: Seq<Seq<u8>>,
    r: Result<Seq<u8>, SilkError>,
) -> bool {
    &&& d.len() >= 1
    &&& d[0] matches EngineCall::InitDecoder { control: c0, status: s0 }
    &&& c0 == control
    &&& if s0 != 0 {
        d.len() == 1 && r == Err::<Seq<u8>, SilkError>(error_of_code(s0))
    } else {
        let n = d.len() - 1;
        &&& n <= frames.len()
        &&& forall|j: int|
            0 <= j < n ==> (#[trigger] d[j + 1] matches EngineCall::Decode { control: c, frame: f, .. }
                && c == control && f == frames[j])
        &&& forall|j: int|
            0 <= j < n - 1 ==> (#[trigger] d[j + 1] matches EngineCall::Decode { result: Ok(_), .. })
        &&& match r {
            Ok(pcm) => n == frames.len() && (forall|j: int|
                0 <= j < n ==> (#[trigger] d[j + 1] matches EngineCall::Decode { result: Ok(_), .. }))
                && pcm == units_bytes(Seq::new(n as nat, |j: int| decoded_of(d[j + 1]))),
            Err(e) => n >= 1 && (d[n] matches EngineCall::Decode { result: Err(code), .. } && e
                == error_of_code(code)),
        }
    }
}

/// The view of a library result.
pub open spec fn pcm_result(r: Result<Vec<u8>, SilkError>) -> Result<Seq<u8>, SilkError> {
    match r {
        Ok(v) => Ok(v@),
        Err(e) => Err(e),
    }
}

/// Decodes a container into little-endian 16-bit PCM. A malformed container
/// fails with `Invalid` before the engine is called at all; otherwise the
/// engine is initialised with `decoder_control(sample_rate)` and handed each
/// frame in order, and its first failure ends the call with the mapped
/// status.
pub fn decode_silk<E: SilkEngine>(engine: &mut E, src: &[u8], sample_rate: i32) -> (r: Result<
    Vec<u8>,
    SilkError,
>)
    requires
        sample_rate >= 0,
    ensures
        match container_frames(src@, sample_rate as int) {
            None => r == Err::<Vec<u8>, SilkError>(SilkError::Invalid) && final(engine).calls()
                == old(engine).calls(),
            Some(fs) => extends(old(engine).calls(), final(engine).calls()) && decode_session(
                new_calls(old(engine).calls(), final(engine).calls()),
                DecControl {
                    api_sample_rate: sample_rate,
                    frame_size: 0,
                    frames_per_packet: 1,
                    more_internal_decoder_frames: 0,
                    in_band_fec_offset: 0,
                },
                fs,
                pcm_result(r),
            ),
        },
{
    let ghost before = engine.calls();
    let frames = match parse_frames(src, sample_rate) {
        Ok(fs) => fs,
        Err(e) => return Err(e),
    };
    let ghost fs = container_frames(src@, sample_rate as int)->Some_0;
    let control = decoder_control(sample_rate);
    let status = engine.init_decoder(&control);
    let ghost init_call = EngineCall::InitDecoder { control: control, status: status };
    if status != 0 {
        assert(new_calls(before, engine.calls()) =~= seq![init_call]);
        assert(engine.calls().subrange(0, before.len() as int) =~= before);
        return Err(SilkError::from(status));
    }
    let mut out: Vec<u8> = Vec::new();
    let ghost mut units: Seq<Seq<i16>> = Seq::empty();
    let ghost mut ds: Seq<EngineCall> = Seq::empty();
    let mut i: usize = 0;
    while i < frames.len()
        invariant
            i <= frames.len(),
            frames.len() == fs.len(),
            forall|j: int| 0 <= j < fs.len() ==> #[trigger] frames[j]@ == fs[j],
            engine.calls() == before + seq![init_call] + ds,
            before == old(engine).calls(),
            container_frames(src@, sample_rate as int) == Some(fs),
            control == (DecControl {
                api_sample_rate: sample_rate,
                frame_size: 0,
                frames_per_packet: 1,
                more_internal_decoder_frames: 0,
                in_band_fec_offset: 0,
            }),
            init_call == (EngineCall::InitDecoder { control: control, status: 0 }),
            units.len() == i,
            ds.len() == i,
            forall|j: int|
                0 <= j < i ==> #[trigger] ds[j] == (EngineCall::Decode {
                    control: control,
                    frame: fs[j],
                    result: Ok(units[j]),
                }),
            out@ == units_bytes(units),
        decreases frames.len() - i,
    {
        let res = engine.decode_frame(&control, frames[i].as_slice());
        let ghost call = EngineCall::Decode {
            control: control,
            frame: fs[i as int],
            result: samples_result(res),
        };
        proof {
            assert(engine.calls() =~= before + seq![init_call] + ds.push(call));
        }
        match res {
            Ok(samples) => {
                let ghost base = out@;
                let mut j: usize = 0;
                while j < samples.len()
                    invariant
                        j <= samples.len(),
                        out@ == base + samples_bytes(samples@.take(j as int)),
                    decreases samples.len() - j,
                {
                    push_i16_le(&mut out, samples[j]);
                    proof {
                        let t = samples@.take(j + 1);
                        assert(t.drop_last() =~= samples@.take(j as int));
                        assert(t.last() == samples@[j as int]);
                    }
                    j = j + 1;
                    assert(out@ =~= base + samples_bytes(samples@.take(j as int)));
                }
                proof {
                    assert(samples@.take(samples@.len() as int) =~= samples@);
                    let next = units.push(samples@);
                    assert(next.drop_last() =~= units);
                    units = next;
                    ds = ds.push(call);
                }
            },
            Err(code) => {
                proof {
                    let d = new_calls(before, engine.calls());
                    assert(d =~= seq![init_call] + ds.push(call));
                    assert(engine.calls().subrange(0, before.len() as int) =~= before);
                    assert forall|j: int| 0 <= j < d.len() - 1 implies (#[trigger] d[j + 1] matches EngineCall::Decode { control: c, frame: f, .. }
                        && c == control && f == fs[j]) by {
                        if j < i {
                            assert(d[j + 1] == ds[j]);
                        }
                    }
                    assert forall|j: int| 0 <= j < d.len() - 2 implies (#[trigger] d[j + 1] matches EngineCall::Decode { result: Ok(_), .. }) by {
                        assert(d[j + 1] == ds[j]);
                    }
                }
                return Err(SilkError::from(code));
            },
        }
        i = i + 1;
    }
    proof {
        let d = new_calls(before, engine.calls());
        assert(d =~= seq![init_call] + ds);
        assert(engine.calls().subrange(0, before.len() as int) =~= before);
        assert forall|j: int| 0 <= j < d.len() - 1 implies (#[trigger] d[j + 1] matches EngineCall::Decode { control: c, frame: f, .. }
            && c == control && f == fs[j]) by {
            assert(d[j + 1] == ds[j]);
        }
        assert forall|j: int| 0 <= j < d.len() - 1 implies (#[trigger] d[j + 1] matches EngineCall::Decode { result: Ok(_), .. }) by {
            assert(d[j + 1] == ds[j]);
        }
        assert(Seq::new((d.len() - 1) as nat, |j: int| decoded_of(d[j + 1])) =~= units) by {
            assert forall|j: int| 0 <= j < units.len() implies decoded_of(d[j + 1]) == units[j] by {
                assert(d[j + 1] == ds[j]);
            }
        }
    }
    Ok(out)
}

/// Appending a frame to a list appends it, after its length, to the packing.
proof fn lemma_packed_push(fs: Seq<Seq<u8>>, f: Seq<u8>)
    ensures
        packed(fs.push(f)) == packed(fs) + le16_bytes(f.len()) + f,
    decreases fs.len(),
{
    if fs.len() == 0 {
        assert(fs.push(f).drop_first() =~= Seq::<Seq<u8>>::empty());
        assert(fs.push(f)[0] == f);
        assert(packed(fs) == Seq::<u8>::empty());
        assert(packed(fs.push(f)) == le16_bytes(f.len()) + f + packed(Seq::<Seq<u8>>::empty()));
        assert(packed(fs.push(f)) =~= packed(fs) + le16_bytes(f.len()) + f);
    } else {
        assert(fs.push(f).drop_first() =~= fs.drop_first().push(f));
        assert(fs.push(f)[0] == fs[0]);
        lemma_packed_push(fs.drop_first(), f);
        assert(packed(fs.push(f)) == le16_bytes(fs[0].len()) + fs[0] + packed(fs.drop_first().push(f)));
        assert(packed(fs) == le16_bytes(fs[0].len()) + fs[0] + packed(fs.drop_first()));
        assert(packed(fs.push(f)) =~= packed(fs) + le16_bytes(f.len()) + f);
    }
}

/// Writes one encoded frame after its length, or refuses a frame longer
/// than `MAX_PAYLOAD` and leaves the output as it was.
pub fn append_frame(out: &mut Vec<u8>, frame: &Vec<u8>) -> (r: Result<(), SilkError>)
    ensures
        frame@.len() <= MAX_PAYLOAD ==> r is Ok && final(out)@ == old(out)@ + le16_bytes(
            frame@.len(),
        ) + frame@,
        frame@.len() > MAX_PAYLOAD ==> r == Err::<(), SilkError>(SilkError::EncPayloadBufTooShort)
            && final(out)@ == old(out)@,
{
    if frame.len() > MAX_PAYLOAD {
        return Err(SilkError::EncPayloadBufTooShort);
    }
    let ghost base = out@;
    push_u16_le(out, frame.len());
    let mut j: usize = 0;
    while j < frame.len()
        invariant
            j <= frame.len(),
            out@ == base + le16_bytes(frame@.len()) + frame@.take(j as int),
        decreases frame.len() - j,
    {
        out.push(frame[j]);
        j = j + 1;
        assert(out@ =~= base + le16_bytes(frame@.len()) + frame@.take(j as int));
    }
    assert(frame@.take(frame@.len() as int) =~= frame@);
    Ok(())
}

/// The frame that a successful encode call returned.
pub open spec fn encoded_of(c: EngineCall) -> Seq<u8> {
    match c {
        EngineCall::Encode { result: Ok(f), .. } => f,
        _ => Seq::empty(),
    }
}

/// Whether a call is an encode that returned a frame the container takes.
pub open spec fn encoded_ok(c: EngineCall) -> bool {
    c matches EngineCall::Encode { result: Ok(f), .. } && f.len() <= MAX_PAYLOAD
}

/// The samples of a little-endian byte pair.
pub open spec fn sample_of(lo: u8, hi: u8) -> i16 {
    let u = le16(lo, hi) as int;
    (if u < 32768 {
        u
    } else {
        u - 65536
    }) as i16
}

/// Little-endian bytes read as signed 16-bit samples.
pub open spec fn le_samples(b: Seq<u8>) -> Seq<i16> {
    Seq::new(b.len() / 2, |j: int| sample_of(b[2 * j], b[2 * j + 1]))
}

/// The full chunks of `sample_rate / 1000 * 40` bytes of the input, as
/// samples; a shorter tail is not among them.
pub open spec fn pcm_chunks(src: Seq<u8>, sample_rate: int) -> Seq<Seq<i16>> {
    let f = max_frame_len(sample_rate);
    Seq::new((src.len() as int / f) as nat, |k: int| le_samples(src.subrange(k * f, (k + 1) * f)))
}

/// An encode session as the engine saw it, and its result as it follows
/// from what the engine returned: one `InitEncoder` with `control`; if that
/// failed, its mapped status; else one `Encode` per chunk in order, stopping
/// at the first failure (a mapped status, or `EncPayloadBufTooShort` for a
/// frame longer than `MAX_PAYLOAD`); or, when every chunk encoded, the
/// container of the returned frames.
pub open spec fn encode_session(
    d: Seq<EngineCall>,
    control: EncControl,
    chunks: Seq<Seq<i16>>,
    vendor_flag: bool,
    r: Result<Seq<u8>, SilkError>,
) -> bool {
    &&& d.len() >= 1
    &&& d[0] matches EngineCall::InitEncoder { control: c0, status: s0 }
    &&& c0 == control
    &&& if s0 != 0 {
        d.len() == 1 && r == Err::<Seq<u8>, SilkError>(error_of_code(s0))
    } else {
        let n = d.len() - 1;
        &&& n <= chunks.len()
        &&& forall|j: int|
            0 <= j < n ==> (#[trigger] d[j + 1] matches EngineCall::Encode { control: c, samples: s, .. }
                && c == control && s == chunks[j])
        &&& forall|j: int| 0 <= j < n - 1 ==> encoded_ok(#[trigger] d[j + 1])
        &&& match r {
            Ok(out) => n == chunks.len() && (forall|j: int| 0 <= j < n ==> encoded_ok(#[trigger] d[j + 1]))
                && out == container(vendor_flag, Seq::new(n as nat, |j: int| encoded_of(d[j + 1]))),
            Err(e) => n >= 1 && match d[n] {
                EngineCall::Encode { result: Err(code), .. } => e == error_of_code(code),
                EngineCall::Encode { result: Ok(f), .. } => f.len() > MAX_PAYLOAD && e
                    == SilkError::EncPayloadBufTooShort,
                _ => false,
            },
        }
    }
}

/// Encodes little-endian 16-bit PCM into a container. The engine is
/// initialised with `encoder_control(sample_rate, bit_rate)`, then handed
/// each full chunk of `sample_rate / 1000 * 40` bytes in order, as samples;
/// a shorter tail never reaches it. Each returned frame is written after its
/// length; the first failure ends the call.
pub fn encode_silk<E: SilkEngine>(
    engine: &mut E,
    src: &[u8],
    sample_rate: i32,
    bit_rate: i32,
    vendor_flag: bool,
) -> (r: Result<Vec<u8>, SilkError>)
    requires
        sample_rate >= 1000,
    ensures
        extends(old(engine).calls(), final(engine).calls()),
        encode_session(
            new_calls(old(engine).calls(), final(engine).calls()),
            EncControl {
                api_sample_rate: sample_rate,
                max_internal_sample_rate: 24000,
                packet_size: (20 * sample_rate / 1000) as i32,
                bit_rate: bit_rate,
                packet_loss_percentage: 0,
                complexity: 2,
                use_in_band_fec: 0,
                use_dtx: 0,
            },
            pcm_chunks(src@, sample_rate as int),
            vendor_flag,
            pcm_result(r),
        ),
{
    let ghost before = engine.calls();
    let ghost chunks = pcm_chunks(src@, sample_rate as int);
    let control = encoder_control(sample_rate, bit_rate);
    let status = engine.init_encoder(&control);
    let ghost init_call = EngineCall::InitEncoder { control: control, status: status };
    assert(engine.calls().subrange(0, before.len() as int) =~= before);
    if status != 0 {
        assert(new_calls(before, engine.calls()) =~= seq![init_call]);
        return Err(SilkError::from(status));
    }
    let mut out: Vec<u8> = Vec::new();
    if vendor_flag {
        out.push(VENDOR_FLAG);
    }
    let magic_bytes: [u8; 9] = [35u8, 33u8, 83u8, 73u8, 76u8, 75u8, 95u8, 86u8, 51u8];
    let mut m: usize = 0;
    while m < 9
        invariant
            m <= 9,
            magic_bytes@ == magic(),
            out@ == (if vendor_flag { seq![VENDOR_FLAG] } else { Seq::empty() }) + magic().take(m as int),
        decreases 9 - m,
    {
        out.push(magic_bytes[m]);
        m = m + 1;
        assert(out@ =~= (if vendor_flag { seq![VENDOR_FLAG] } else { Seq::empty() }) + magic().take(m as int));
    }
    assert(magic().take(9) =~= magic());
    let chunk: usize = (sample_rate / 1000) as usize * 40;
    let n_chunks: usize = src.len() / chunk;
    let ghost mut fs: Seq<Seq<u8>> = Seq::empty();
    let ghost mut ds: Seq<EngineCall> = Seq::empty();
    assert(out@ =~= container(vendor_flag, fs));
    let mut c: usize = 0;
    while c < n_chunks
        invariant
            c <= n_chunks,
            chunk == max_frame_len(sample_rate as int),
            chunk > 0,
            chunk <= 100_000_000,
            n_chunks == src@.len() as int / chunk as int,
            chunks == pcm_chunks(src@, sample_rate as int),
            chunks.len() == n_chunks,
            init_call == (EngineCall::InitEncoder { control: control, status: 0 }),
            before == old(engine).calls(),
            engine.calls() == before + seq![init_call] + ds,
            control == (EncControl {
                api_sample_rate: sample_rate,
                max_internal_sample_rate: 24000,
                packet_size: (20 * sample_rate / 1000) as i32,
                bit_rate: bit_rate,
                packet_loss_percentage: 0,
                complexity: 2,
                use_in_band_fec: 0,
                use_dtx: 0,
            }),
            fs.len() == c,
            ds.len() == c,
            forall|j: int|
                0 <= j < c ==> #[trigger] ds[j] == (EngineCall::Encode {
                    control: control,
                    samples: chunks[j],
                    result: Ok(fs[j]),
                }),
            forall|i: int| 0 <= i < fs.len() ==> (#[trigger] fs[i]).len() <= MAX_PAYLOAD,
            out@ == container(vendor_flag, fs),
        decreases n_chunks - c,
    {
        proof {
            let len = src.len() as int;
            let q = n_chunks as int;
            let ch = chunk as int;
            vstd::arithmetic::div_mod::lemma_fundamental_div_mod(len, ch);
            vstd::arithmetic::div_mod::lemma_mod_pos_bound(len, ch);
            assert(c * ch + ch <= len) by (nonlinear_arith)
                requires
                    len == ch * q + len % ch,
                    len % ch >= 0,
                    c + 1 <= q,
                    ch > 0,
            ;
            assert((c + 1) * ch == c * ch + ch) by (nonlinear_arith);
        }
        let base: usize = c * chunk;
        let samples = chunk_samples(src, base, chunk);
        assert(samples@ == chunks[c as int]);
        let res = engine.encode_frame(&control, samples.as_slice());
        let ghost call = EngineCall::Encode {
            control: control,
            samples: chunks[c as int],
            result: bytes_result(res),
        };
        proof {
            assert(engine.calls() =~= before + seq![init_call] + ds.push(call));
            assert(engine.calls().subrange(0, before.len() as int) =~= before);
        }
        assert(extends(before, engine.calls()));
        let ghost d = new_calls(before, engine.calls());
        proof {
            assert(d =~= seq![init_call] + ds.push(call));
            assert forall|j: int| 0 <= j < d.len() - 1 implies (#[trigger] d[j + 1] matches EngineCall::Encode { control: cc, samples: s, .. }
                && cc == control && s == chunks[j]) by {
                if j < c {
                    assert(d[j + 1] == ds[j]);
                }
            }
            assert forall|j: int| 0 <= j < d.len() - 2 implies encoded_ok(#[trigger] d[j + 1]) by {
                assert(d[j + 1] == ds[j]);
            }
        }
        match res {
            Ok(frame) => {
                let ghost prev = out@;
                match append_frame(&mut out, &frame) {
                    Ok(()) => {},
                    Err(e) => {
                        assert(d[d.len() - 1] == call);
                        assert(d[0] == init_call);
                        assert(encode_session(d, control, chunks, vendor_flag, Err(e)));
                        return Err(e);
                    },
                }
                proof {
                    lemma_packed_push(fs, frame@);
                    assert(container(vendor_flag, fs.push(frame@)) =~= container(vendor_flag, fs) + le16_bytes(frame@.len()) + frame@);
                    fs = fs.push(frame@);
                    ds = ds.push(call);
                }
            },
            Err(code) => {
                assert(d[d.len() - 1] == call);
                assert(call == EngineCall::Encode { control: control, samples: chunks[c as int], result: Err::<Seq<u8>, i32>(code) });
                let e = SilkError::from(code);
                assert(e == error_of_code(code));
                assert(d[0] == init_call);
                assert(encode_session(d, control, chunks, vendor_flag, Err(e)));
                return Err(e);
            },
        }
        c = c + 1;
    }
    proof {
        let d = new_calls(before, engine.calls());
        assert(d =~= seq![init_call] + ds);
        assert(engine.calls().subrange(0, before.len() as int) =~= before);
        assert forall|j: int| 0 <= j < d.len() - 1 implies (#[trigger] d[j + 1] matches EngineCall::Encode { control: cc, samples: s, .. }
            && cc == control && s == chunks[j]) by {
            assert(d[j + 1] == ds[j]);
        }
        assert forall|j: int| 0 <= j < d.len() - 1 implies encoded_ok(#[trigger] d[j + 1]) by {
            assert(d[j + 1] == ds[j]);
        }
        assert(Seq::new((d.len() - 1) as nat, |j: int| encoded_of(d[j + 1])) =~= fs) by {
            assert forall|j: int| 0 <= j < fs.len() implies encoded_of(d[j + 1]) == fs[j] by {
                assert(d[j + 1] == ds[j]);
            }
        }
    }
    Ok(out)
}

/// Reading back a packing gives the frames that were packed, when none is
/// longer than `max` or than a 16-bit length allows.
proof fn lemma_frames_of_packed(fs: Seq<Seq<u8>>, max: int)
    requires
        forall|i: int| 0 <= i < fs.len() ==> (#[trigger] fs[i]).len() <= max && fs[i].len() < 32768,
    ensures
        frames_of(packed(fs), max) == Some(fs),
    decreases fs.len(),
{
    if fs.len() == 0 {
        assert(fs =~= Seq::<Seq<u8>>::empty());
    } else {
        let f = fs[0];
        let rest = fs.drop_first();
        let s = packed(fs);
        assert(s == le16_bytes(f.len()) + f + packed(rest));
        let n = f.len();
        assert(le16(s[0], s[1]) == n);
        let l = n as int;
        assert(s.subrange(2 + l, s.len() as int) =~= packed(rest));
        assert(s.subrange(2, 2 + l) =~= f);
        assert forall|i: int| 0 <= i < rest.len() implies (#[trigger] rest[i]).len() <= max
            && rest[i].len() < 65536 by {
            assert(rest[i] == fs[i + 1]);
        }
        lemma_frames_of_packed(rest, max);
        assert(seq![f] + rest =~= fs);
    }
}

/// A tail shorter than one chunk, after input made of whole chunks, adds no
/// chunk and changes none: the encoder hands the engine the same samples.
pub proof fn lemma_short_tail_dropped(src: Seq<u8>, tail: Seq<u8>, sample_rate: int)
    requires
        sample_rate >= 1000,
        src.len() as int % max_frame_len(sample_rate) == 0,
        tail.len() < max_frame_len(sample_rate),
    ensures
        pcm_chunks(src + tail, sample_rate) == pcm_chunks(src, sample_rate),
{
    let f = max_frame_len(sample_rate);
    let n = src.len() as int / f;
    let all = src + tail;
    vstd::arithmetic::div_mod::lemma_fundamental_div_mod(src.len() as int, f);
    vstd::arithmetic::div_mod::lemma_fundamental_div_mod(all.len() as int, f);
    vstd::arithmetic::div_mod::lemma_mod_pos_bound(all.len() as int, f);
    let q = all.len() as int / f;
    assert(src.len() == f * n);
    assert(q == n) by (nonlinear_arith)
        requires
            all.len() == src.len() + tail.len(),
            src.len() == f * n,
            all.len() == f * q + all.len() as int % f,
            0 <= all.len() as int % f < f,
            0 <= tail.len() < f,
            f > 0,
    ;
    assert forall|k: int| 0 <= k < n implies #[trigger] all.subrange(k * f, (k + 1) * f) == src.subrange(k * f, (k + 1) * f) by {
        assert((k + 1) * f <= src.len()) by (nonlinear_arith)
            requires k + 1 <= n, f > 0, src.len() == f * n;
        assert(0 <= k * f) by (nonlinear_arith)
            requires k >= 0, f > 0;
        assert((k + 1) * f == k * f + f) by (nonlinear_arith);
        assert(all.subrange(k * f, (k + 1) * f) =~= src.subrange(k * f, (k + 1) * f));
    }
    assert(pcm_chunks(all, sample_rate) =~= pcm_chunks(src, sample_rate));
}

/// The vendor flag byte is consumed silently: in front of a container that
/// starts with the magic it changes neither its validity nor its frames.
pub proof fn lemma_vendor_flag_ignored(s: Seq<u8>, sample_rate: int)
    requires
        s.len() >= 9,
        s.subrange(0, 9) == magic(),
    ensures
        container_frames(seq![VENDOR_FLAG] + s, sample_rate) == container_frames(s, sample_rate),
{
    let t = seq![VENDOR_FLAG] + s;
    assert(t.subrange(1, t.len() as int) =~= s);
    assert(s[0] == s.subrange(0, 9)[0]);
}

/// Framing round trip: the container written for a list of frames reads back
/// as exactly that list, with or without the vendor flag, at every sample
/// rate whose largest frame length admits each of them.
pub proof fn lemma_container_round_trip(vendor_flag: bool, frames: Seq<Seq<u8>>, sample_rate: int)
    requires
        forall|i: int|
            0 <= i < frames.len() ==> (#[trigger] frames[i]).len() <= max_frame_len(sample_rate)
                && frames[i].len() < 32768,
    ensures
        container_frames(container(vendor_flag, frames), sample_rate) == Some(frames),
{
    let s = container(vendor_flag, frames);
    let p = packed(frames);
    let t = if s.len() > 0 && s[0] == VENDOR_FLAG {
        s.subrange(1, s.len() as int)
    } else {
        s
    };
    if vendor_flag {
        assert(s[0] == VENDOR_FLAG);
        assert(t =~= magic() + p);
    } else {
        assert(s =~= magic() + p);
        assert(s[0] == 35u8);
        assert(t == magic() + p);
    }
    assert(t.subrange(0, 9) =~= magic());
    assert(t.subrange(9, t.len() as int) =~= p);
    assert(body_of(s) == Some(p));
    lemma_frames_of_packed(frames, max_frame_len(sample_rate));
}

} // verus!
