use silk_codec::pcm::{
    next_action, quantize_sample, resample, clean_samples_to_pcm_bytes, AudioConverter, PullOutcome,
    PullStage, SampleBuffer, SampleFormat, StreamAction, UNIT,
};

fn buffer(format: SampleFormat, channels: Vec<Vec<i64>>) -> SampleBuffer {
    SampleBuffer { format, channels }
}

/// The serializer's rule, written with floats, for values that are exact.
fn quantize_f64(v: f64) -> i16 {
    let c = v.clamp(-1.0, 1.0);
    if c >= 0.0 {
        (c * 32767.0 + 0.5) as i16
    } else {
        (c * 32768.0 - 0.5) as i16
    }
}

fn le_samples(bytes: &[u8]) -> Vec<i16> {
    bytes.chunks(2).map(|c| i16::from_le_bytes([c[0], c[1]])).collect()
}

#[test]
fn converter_configuration() {
    let c = AudioConverter::new();
    assert_eq!((c.target_sample_rate, c.target_channels), (24000, 1));
    let d = AudioConverter::default();
    assert_eq!((d.target_sample_rate, d.target_channels), (24000, 1));
    let e = AudioConverter::new().with_sample_rate(16000).with_channels(2);
    assert_eq!((e.target_sample_rate, e.target_channels), (16000, 2));
}

#[test]
fn quantization_boundaries() {
    let out = clean_samples_to_pcm_bytes(&vec![UNIT as i128, -(UNIT as i128), 0], UNIT as i128);
    assert_eq!(out, vec![0xff, 0x7f, 0x00, 0x80, 0x00, 0x00]);
    assert_eq!(quantize_sample(3, 1), 32767);
    assert_eq!(quantize_sample(-3, 1), -32768);
    assert_eq!(quantize_sample(1, 2), 16384);
    assert_eq!(quantize_sample(-1, 2), -16384);
    assert_eq!(quantize_sample(1, 65536), 0);
    assert_eq!(quantize_sample(-1, 65536), -1);
}

#[test]
fn normalization_formulas() {
    let c = AudioConverter::new();
    let u8b = buffer(SampleFormat::U8, vec![vec![0, 128, 255]]);
    assert_eq!(c.convert_buffer(&u8b, 1), vec![-UNIT, 0, 127 << 25]);
    let s8b = buffer(SampleFormat::S8, vec![vec![-128, 64]]);
    assert_eq!(c.convert_buffer(&s8b, 1), vec![-UNIT, UNIT / 2]);
    let u16b = buffer(SampleFormat::U16, vec![vec![0, 65535]]);
    assert_eq!(c.convert_buffer(&u16b, 1), vec![-UNIT, 32767 << 17]);
    let s16b = buffer(SampleFormat::S16, vec![vec![-32768, 16384]]);
    assert_eq!(c.convert_buffer(&s16b, 1), vec![-UNIT, UNIT / 2]);
    let u32b = buffer(SampleFormat::U32, vec![vec![0, 2147483648 + 5]]);
    assert_eq!(c.convert_buffer(&u32b, 1), vec![-UNIT, 10]);
    let s32b = buffer(SampleFormat::S32, vec![vec![-2147483648, 7]]);
    assert_eq!(c.convert_buffer(&s32b, 1), vec![-UNIT, 14]);
    let empty = buffer(SampleFormat::S16, vec![]);
    assert_eq!(c.convert_buffer(&empty, 2), Vec::<i64>::new());
}

#[test]
fn downmix_averages_two_channels() {
    let c = AudioConverter::new();
    // 0.4 and -0.2 as signed 32-bit samples.
    let b = buffer(SampleFormat::S32, vec![vec![858993459], vec![-429496730]]);
    let mixed = c.convert_buffer(&b, 2);
    assert_eq!(mixed, vec![429496729]);
    assert!((mixed[0] as f64 / UNIT as f64 - 0.1).abs() < 1e-7);
}

#[test]
fn downmix_only_where_eligible() {
    let b = buffer(SampleFormat::S16, vec![vec![100, 200, 300], vec![-100]]);
    let mono = AudioConverter::new();
    assert_eq!(mono.convert_buffer(&b, 2), vec![0, 200 << 17, 300 << 17]);
    assert_eq!(mono.convert_buffer(&b, 1), vec![100 << 17, 200 << 17, 300 << 17]);
    let stereo = AudioConverter::new().with_channels(2);
    assert_eq!(stereo.convert_buffer(&b, 2), vec![100 << 17, 200 << 17, 300 << 17]);
}

#[test]
fn resample_with_equal_rates_keeps_values() {
    let x = vec![-UNIT, 5, UNIT];
    let r = resample(&x, 16000, 16000);
    assert_eq!(r, vec![-(UNIT as i128) * 16000, 5 * 16000, UNIT as i128 * 16000]);
}

#[test]
fn resample_length_is_floor_of_n_over_ratio() {
    let x: Vec<i64> = (0..100).collect();
    assert_eq!(resample(&x, 48000, 24000).len(), 50);
    let y: Vec<i64> = (0..147).collect();
    assert_eq!(resample(&y, 44100, 24000).len(), 80);
    assert_eq!(resample(&y, 24000, 44100).len(), 270);
    assert_eq!(resample(&Vec::new(), 8000, 24000).len(), 0);
}

#[test]
fn resample_interpolates_linearly() {
    let x = vec![0, 8192, 16384];
    // Ratio 3/2: positions 0 and 1.5.
    let r = resample(&x, 3, 2);
    assert_eq!(r, vec![0, (8192 + 16384) as i128]);
    // Upsampling by two: the last position repeats the last sample.
    let r = resample(&x, 1, 2);
    assert_eq!(r, vec![0, 8192, 16384, 24576, 32768, 32768]);
}

#[test]
fn process_interpolated_unit() {
    let c = AudioConverter::new().with_sample_rate(2);
    let b = buffer(SampleFormat::S16, vec![vec![0, 8192, 16384]]);
    let out = c.process_audio_buffer(&b, 3, 1);
    assert_eq!(out, vec![0, 0, 0x00, 0x30]);
}

#[test]
fn process_same_rate_and_zero_target() {
    let b = buffer(SampleFormat::S16, vec![vec![16384, -16384, 32767, -32768]]);
    let c = AudioConverter::new().with_sample_rate(44100);
    let out = c.process_audio_buffer(&b, 44100, 1);
    assert_eq!(le_samples(&out), vec![16384, -16384, 32766, -32768]);
    let z = AudioConverter::new().with_sample_rate(0);
    assert_eq!(z.process_audio_buffer(&b, 44100, 1), Vec::<u8>::new());
}

#[test]
fn stereo_s16_unit_to_24k_mono() {
    let frames = 100;
    let left: Vec<i64> = (0..frames).map(|k| 1000 * ((k % 32) + 1)).collect();
    let right: Vec<i64> = left.iter().map(|v| -v).collect();
    let b = buffer(SampleFormat::S16, vec![left.clone(), right]);
    let c = AudioConverter::new();
    let out = c.process_audio_buffer(&b, 48000, 2);
    assert_eq!(out.len(), 50 * 2);
    assert!(out.iter().all(|&byte| byte == 0));

    // Without downmixing the left channel is taken every second frame.
    let stereo = AudioConverter::new().with_channels(2);
    let out = stereo.process_audio_buffer(&b, 48000, 2);
    let expected: Vec<i16> = (0..50).map(|i| quantize_f64(left[2 * i] as f64 / 32768.0)).collect();
    assert_eq!(le_samples(&out), expected);
}

#[test]
fn stream_decisions() {
    assert_eq!(next_action(PullStage::Read, PullOutcome::Packet(true)), StreamAction::DecodePacket);
    assert_eq!(next_action(PullStage::Read, PullOutcome::Packet(false)), StreamAction::Skip);
    assert_eq!(next_action(PullStage::Read, PullOutcome::ResetRequired), StreamAction::ResetDecoder);
    assert_eq!(next_action(PullStage::Read, PullOutcome::UnexpectedEof), StreamAction::Finish);
    assert_eq!(next_action(PullStage::Read, PullOutcome::DecodeError), StreamAction::Abort);
    assert_eq!(next_action(PullStage::Read, PullOutcome::OtherError), StreamAction::Abort);
    assert_eq!(next_action(PullStage::Decode, PullOutcome::Decoded), StreamAction::WriteUnit);
    assert_eq!(next_action(PullStage::Decode, PullOutcome::DecodeError), StreamAction::Skip);
    assert_eq!(next_action(PullStage::Decode, PullOutcome::UnexpectedEof), StreamAction::Finish);
    assert_eq!(next_action(PullStage::Decode, PullOutcome::ResetRequired), StreamAction::Abort);
    assert_eq!(next_action(PullStage::Decode, PullOutcome::OtherError), StreamAction::Abort);
}

#[test]
fn validated_configuration() {
    let c = AudioConverter::with_config(16000, 1).unwrap();
    assert_eq!((c.target_sample_rate, c.target_channels), (16000, 1));
    assert!(AudioConverter::with_config(16000, 2).is_none());
    assert!(AudioConverter::with_config(16000, 0).is_none());
}

#[test]
fn resample_at_equal_zero_rates() {
    assert_eq!(resample(&vec![3, 4], 0, 0), vec![0, 0]);
}

#[test]
fn exact_rounding_of_a_half_step() {
    let b = buffer(SampleFormat::S16, vec![vec![16385]]);
    let c = AudioConverter::new().with_sample_rate(8000);
    assert_eq!(le_samples(&c.process_audio_buffer(&b, 8000, 1)), vec![16384]);
}
