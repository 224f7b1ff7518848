use silk_codec::silk::{
    append_frame, decode_silk, decoder_control, encode_silk, encoder_control, parse_frames,
    push_i16_le, DecControl, LoopbackEngine, SilkError,
};

const MAGIC: &[u8] = b"#!SILK_V3";

fn container(flag: bool, frames: &[&[u8]]) -> Vec<u8> {
    let mut out = Vec::new();
    if flag {
        out.push(2u8);
    }
    out.extend_from_slice(MAGIC);
    for f in frames {
        out.extend_from_slice(&(f.len() as u16).to_le_bytes());
        out.extend_from_slice(f);
    }
    out
}

fn ok_engine() -> LoopbackEngine {
    LoopbackEngine::new(0, 8)
}

#[test]
fn decode_without_magic_is_invalid() {
    let mut e = ok_engine();
    assert_eq!(decode_silk(&mut e, b"not-silk", 24000), Err(SilkError::Invalid));
    assert_eq!(decode_silk(&mut e, b"", 24000), Err(SilkError::Invalid));
    assert_eq!(decode_silk(&mut e, b"\x02#!SILK_V", 24000), Err(SilkError::Invalid));
    assert_eq!(decode_silk(&mut e, b"\x02\x02#!SILK_V3", 24000), Err(SilkError::Invalid));
}

#[test]
fn decode_rejects_frame_longer_than_maximum() {
    let mut e = ok_engine();
    let big = vec![1u8; 961];
    assert_eq!(decode_silk(&mut e, &container(false, &[&big]), 24000), Err(SilkError::Invalid));
    let largest = vec![1u8; 960];
    let r = decode_silk(&mut e, &container(false, &[&largest]), 24000).unwrap();
    assert_eq!(r.len(), 1920);
}

#[test]
fn decode_rejects_negative_length_field() {
    let mut e = ok_engine();
    let mut src = MAGIC.to_vec();
    src.extend_from_slice(&[0x00, 0x80]);
    src.extend_from_slice(&vec![0u8; 0x8000]);
    assert_eq!(decode_silk(&mut e, &src, 1_000_000), Err(SilkError::Invalid));
}

#[test]
fn decode_rejects_truncated_frame() {
    let mut e = ok_engine();
    let mut src = container(false, &[&[1, 2, 3]]);
    src.extend_from_slice(&[10u8, 0, 1, 2, 3]);
    assert_eq!(decode_silk(&mut e, &src, 24000), Err(SilkError::Invalid));
}

#[test]
fn decode_concatenates_frames_with_and_without_flag() {
    for flag in [false, true] {
        let mut e = ok_engine();
        let src = container(flag, &[&[1, 2], &[], &[255]]);
        let r = decode_silk(&mut e, &src, 16000).unwrap();
        assert_eq!(r, vec![1, 0, 2, 0, 255, 0]);
    }
}

#[test]
fn decode_ignores_a_single_trailing_byte() {
    let mut e = ok_engine();
    let mut src = container(false, &[&[7]]);
    src.push(9);
    assert_eq!(decode_silk(&mut e, &src, 24000).unwrap(), vec![7, 0]);
    for empty in [container(true, &[]), container(false, &[]), b"#!SILK_V3\x05".to_vec()] {
        assert_eq!(decode_silk(&mut e, &empty, 24000).unwrap(), Vec::<u8>::new());
    }
}

#[test]
fn decode_maps_engine_status() {
    let src = container(false, &[&[1, 2, 3]]);
    let mut e = LoopbackEngine::new(-11, 8);
    assert_eq!(decode_silk(&mut e, &src, 24000), Err(SilkError::DecPayloadTooLarge));
    let mut e = LoopbackEngine::new(-99, 8);
    assert_eq!(decode_silk(&mut e, &src, 24000), Err(SilkError::Other(-99)));
    // A malformed container is refused before the engine could fail.
    let mut e = LoopbackEngine::new(-11, 8);
    assert_eq!(decode_silk(&mut e, b"not-silk", 24000), Err(SilkError::Invalid));
}

#[test]
fn status_codes_map_one_to_one() {
    let kinds: Vec<SilkError> = (-12..=-1).rev().map(SilkError::from).collect();
    assert_eq!(
        kinds,
        vec![
            SilkError::EncInputInvalidNoOfSamples,
            SilkError::EncFsNotSupported,
            SilkError::EncPacketSizeNotSupported,
            SilkError::EncPayloadBufTooShort,
            SilkError::EncInvalidLossRate,
            SilkError::EncInvalidComplexitySetting,
            SilkError::EncInvalidInbandFecSetting,
            SilkError::EncInvalidDtxSetting,
            SilkError::EncInternalError,
            SilkError::DecInvalidSamplingFrequency,
            SilkError::DecPayloadTooLarge,
            SilkError::DecPayloadError,
        ]
    );
    for (i, a) in kinds.iter().enumerate() {
        for (j, b) in kinds.iter().enumerate() {
            assert_eq!(i == j, a == b);
        }
    }
    assert_eq!(SilkError::from(-99), SilkError::Other(-99));
    assert_eq!(SilkError::from(-13), SilkError::Other(-13));
    assert_eq!(SilkError::from(1), SilkError::Other(1));
}

#[test]
fn encode_writes_header_and_length_prefixed_frames() {
    let mut e = ok_engine();
    // 24 kHz: chunks of 960 bytes; two full chunks and a dropped tail.
    let mut pcm = Vec::new();
    for i in 0..1010 {
        pcm.extend_from_slice(&(i as i16 * 3 - 500).to_le_bytes());
    }
    let out = encode_silk(&mut e, &pcm, 24000, 24000, true).unwrap();
    assert_eq!(&out[..10], b"\x02#!SILK_V3");
    assert_eq!(out.len(), 10 + 2 * (2 + 8));
    assert_eq!(&out[10..12], &[8, 0]);
    assert_eq!(&out[12..20], &pcm[0..8]);
    assert_eq!(&out[20..22], &[8, 0]);
    assert_eq!(&out[22..30], &pcm[960..968]);
    let frames = parse_frames(&out, 24000).unwrap();
    assert_eq!(frames, vec![pcm[0..8].to_vec(), pcm[960..968].to_vec()]);
}

#[test]
fn encode_without_flag_and_short_input() {
    let mut e = ok_engine();
    assert_eq!(encode_silk(&mut e, &[0u8; 959], 24000, 24000, false).unwrap(), MAGIC.to_vec());
    assert_eq!(encode_silk(&mut e, &[], 24000, 24000, true).unwrap(), b"\x02#!SILK_V3".to_vec());
}

#[test]
fn encode_ignores_a_short_tail() {
    let pcm: Vec<u8> = (0..1920u32).map(|i| (i % 97) as u8).collect();
    let mut longer = pcm.clone();
    longer.extend_from_slice(&[5u8; 959]);
    let a = encode_silk(&mut ok_engine(), &pcm, 24000, 24000, false).unwrap();
    let b = encode_silk(&mut ok_engine(), &longer, 24000, 24000, false).unwrap();
    assert_eq!(a, b);
}

#[test]
fn encode_then_decode_keeps_the_frames() {
    let pcm: Vec<u8> = (0..3200u32).map(|i| (i % 251) as u8).collect();
    let out = encode_silk(&mut ok_engine(), &pcm, 8000, 12000, false).unwrap();
    let pcm_back = decode_silk(&mut ok_engine(), &out, 8000).unwrap();
    assert_eq!(pcm_back.len(), 10 * 8 * 2);
    let first: Vec<u8> = pcm[..8].iter().flat_map(|&b| [b, 0]).collect();
    assert_eq!(&pcm_back[..16], &first[..]);
}

#[test]
fn encode_rejects_oversized_payload_and_maps_status() {
    let mut e = LoopbackEngine::new(0, 1251);
    assert_eq!(encode_silk(&mut e, &[0u8; 960], 24000, 24000, false), Err(SilkError::EncPayloadBufTooShort));
    let mut f = LoopbackEngine::new(-2, 8);
    assert_eq!(encode_silk(&mut f, &[0u8; 960], 24000, 24000, false), Err(SilkError::EncFsNotSupported));
}

#[test]
fn append_frame_writes_length_then_bytes() {
    let mut out = vec![9u8];
    assert_eq!(append_frame(&mut out, &vec![1, 2, 3]), Ok(()));
    assert_eq!(out, vec![9, 3, 0, 1, 2, 3]);
    let big = vec![0u8; 1251];
    assert_eq!(append_frame(&mut out, &big), Err(SilkError::EncPayloadBufTooShort));
    assert_eq!(out, vec![9, 3, 0, 1, 2, 3]);
    let largest = vec![7u8; 1250];
    assert_eq!(append_frame(&mut out, &largest), Ok(()));
    assert_eq!(&out[6..8], &[0xe2, 0x04]);
    assert_eq!(out.len(), 8 + 1250);
}

#[test]
fn control_records() {
    let d = decoder_control(24000);
    assert_eq!(d, DecControl { api_sample_rate: 24000, frame_size: 0, frames_per_packet: 1, more_internal_decoder_frames: 0, in_band_fec_offset: 0 });
    let c = encoder_control(24000, 30000);
    assert_eq!(c.packet_size, 480);
    assert_eq!(c.max_internal_sample_rate, 24000);
    assert_eq!(c.complexity, 2);
    assert_eq!(c.bit_rate, 30000);
    assert_eq!(encoder_control(44100, 1).packet_size, 882);
}

#[test]
fn parse_frames_lists_payloads() {
    let src = container(true, &[&[1], &[2, 3]]);
    assert_eq!(parse_frames(&src, 24000).unwrap(), vec![vec![1u8], vec![2u8, 3]]);
    assert_eq!(parse_frames(&src, 999), Err(SilkError::Invalid));
    assert_eq!(parse_frames(&container(false, &[]), 999).unwrap(), Vec::<Vec<u8>>::new());
}

#[test]
fn i16_little_endian() {
    let mut out = vec![9u8];
    push_i16_le(&mut out, -2);
    push_i16_le(&mut out, 258);
    push_i16_le(&mut out, i16::MIN);
    assert_eq!(out, vec![9, 0xfe, 0xff, 2, 1, 0x00, 0x80]);
}
