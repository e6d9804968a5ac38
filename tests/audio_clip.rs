use manatan_media::clip::{decode_action, DecodeAction, PacketEvent};
use manatan_media::clip::{
    check_segment, check_selection, validate_clip_request, ClipAssembler, ClipWindow,
    DecodedSamples, SegmentDecoder,
};
use manatan_media::error::ServiceError;
use manatan_media::playlist::SegmentSelection;
use manatan_media::wav::encode_wav_i16;

#[test]
fn wav_header_layout() {
    let samples: Vec<i16> = vec![1, -1, 256, 0x7fff];
    let bytes = encode_wav_i16(&samples, 44_100, 2).unwrap();
    assert_eq!(bytes.len(), 44 + 8);
    assert_eq!(&bytes[0..4], b"RIFF");
    assert_eq!(u32::from_le_bytes([bytes[4], bytes[5], bytes[6], bytes[7]]), 36 + 8);
    assert_eq!(&bytes[8..12], b"WAVE");
    assert_eq!(&bytes[12..16], b"fmt ");
    assert_eq!(u32::from_le_bytes([bytes[16], bytes[17], bytes[18], bytes[19]]), 16);
    assert_eq!(u16::from_le_bytes([bytes[20], bytes[21]]), 1);
    assert_eq!(u16::from_le_bytes([bytes[22], bytes[23]]), 2);
    assert_eq!(u32::from_le_bytes([bytes[24], bytes[25], bytes[26], bytes[27]]), 44_100);
    assert_eq!(u32::from_le_bytes([bytes[28], bytes[29], bytes[30], bytes[31]]), 44_100 * 4);
    assert_eq!(u16::from_le_bytes([bytes[32], bytes[33]]), 4);
    assert_eq!(u16::from_le_bytes([bytes[34], bytes[35]]), 16);
    assert_eq!(&bytes[36..40], b"data");
    assert_eq!(u32::from_le_bytes([bytes[40], bytes[41], bytes[42], bytes[43]]), 8);
    assert_eq!(&bytes[44..], &[1, 0, 0xff, 0xff, 0, 1, 0xff, 0x7f]);
}

#[test]
fn wav_of_one_and_minus_one() {
    let bytes = encode_wav_i16(&[1, -1], 8000, 1).unwrap();
    let mut expected = b"RIFF".to_vec();
    expected.extend_from_slice(&[0x28, 0, 0, 0]);
    expected.extend_from_slice(b"WAVEfmt ");
    expected.extend_from_slice(&[16, 0, 0, 0, 1, 0, 1, 0, 0x40, 0x1f, 0, 0, 0x80, 0x3e, 0, 0, 2, 0, 16, 0]);
    expected.extend_from_slice(b"data");
    expected.extend_from_slice(&[4, 0, 0, 0, 0x01, 0x00, 0xff, 0xff]);
    assert_eq!(bytes, expected);
}

#[test]
fn wav_of_no_samples_is_a_bare_header() {
    let bytes = encode_wav_i16(&[], 8000, 1).unwrap();
    assert_eq!(bytes.len(), 44);
    assert_eq!(u32::from_le_bytes([bytes[4], bytes[5], bytes[6], bytes[7]]), 36);
}

#[test]
fn clip_request_rejects_empty_or_reversed_window() {
    assert_eq!(validate_clip_request(1, 2, 3, 15_000_000, 5_000_000), Err(ServiceError::InvalidInput));
    assert_eq!(validate_clip_request(1, 2, 3, 5_000_000, 5_000_000), Err(ServiceError::InvalidInput));
    assert_eq!(validate_clip_request(1, 2, 3, -5_000_000, -1_000_000), Err(ServiceError::InvalidInput));
}

#[test]
fn clip_request_rejects_negative_ids() {
    assert_eq!(validate_clip_request(-1, 0, 0, 0, 1_000_000), Err(ServiceError::InvalidInput));
    assert_eq!(validate_clip_request(0, -1, 0, 0, 1_000_000), Err(ServiceError::InvalidInput));
    assert_eq!(validate_clip_request(0, 0, -1, 0, 1_000_000), Err(ServiceError::InvalidInput));
}

#[test]
fn clip_request_clamps_and_caps() {
    assert_eq!(
        validate_clip_request(0, 0, 0, -2_000_000, 3_000_000),
        Ok(ClipWindow { start_us: 0, duration_us: 3_000_000 })
    );
    assert_eq!(
        validate_clip_request(0, 0, 0, 10_000_000, 100_000_000),
        Ok(ClipWindow { start_us: 10_000_000, duration_us: 30_000_000 })
    );
    let w = validate_clip_request(0, 0, 0, 5_000_000, 15_000_000).unwrap();
    assert_eq!(w.end_us(), 15_000_000);
}

fn ramp(frames: usize, channels: usize, from: i16) -> Vec<i16> {
    (0..frames * channels).map(|k| from + (k / channels) as i16).collect()
}

#[test]
fn windowing_keeps_the_frames_of_the_window() {
    let mut dec = SegmentDecoder::new(0, 5_000_000, 15_000_000, None, false);
    for _ in 0..10 {
        dec.push_buffer(&ramp(1000, 2, 0), 1000, 2).unwrap();
        assert!(!dec.done);
    }
    let out = dec.finish().unwrap();
    assert_eq!(out.sample_rate, 1000);
    assert_eq!(out.channels, 2);
    assert_eq!(out.samples.len(), 5000 * 2);
}

#[test]
fn windowing_splits_a_buffer_at_frame_accuracy() {
    let mut dec = SegmentDecoder::new(0, 250_000, 500_000, None, false);
    dec.push_buffer(&ramp(1000, 1, 0), 1000, 1).unwrap();
    assert!(dec.done);
    let out = dec.finish().unwrap();
    assert_eq!(out.samples, ramp(250, 1, 250));
}

#[test]
fn windowing_uses_the_first_timestamp_as_base() {
    let mut dec = SegmentDecoder::new(0, 20_500_000, 21_000_000, Some(1_800_000), false);
    dec.push_buffer(&ramp(1000, 1, 0), 1000, 1).unwrap();
    let out = dec.finish().unwrap();
    assert_eq!(out.samples, ramp(500, 1, 500));
    let mut forced = SegmentDecoder::new(20_000_000, 20_500_000, 21_000_000, Some(0), true);
    forced.push_buffer(&ramp(1000, 1, 0), 1000, 1).unwrap();
    assert_eq!(forced.finish().unwrap().samples, ramp(500, 1, 500));
}

#[test]
fn windowing_rejects_a_format_change() {
    let mut dec = SegmentDecoder::new(0, 0, 1_000_000, None, false);
    dec.push_buffer(&ramp(10, 1, 0), 1000, 1).unwrap();
    assert_eq!(dec.push_buffer(&ramp(10, 2, 0), 1000, 2), Err(ServiceError::FormatChanged));
    assert_eq!(dec.push_buffer(&ramp(10, 1, 0), 2000, 1), Err(ServiceError::FormatChanged));
}

#[test]
fn windowing_outside_window_gives_nothing() {
    let mut dec = SegmentDecoder::new(0, 5_000_000, 6_000_000, None, false);
    dec.push_buffer(&ramp(1000, 1, 0), 1000, 1).unwrap();
    assert!(dec.finish().is_none());
    let empty = SegmentDecoder::new(0, 0, 1_000_000, None, false);
    assert!(empty.finish().is_none());
}

#[test]
fn assembler_concatenates_and_encodes() {
    let mut clip = ClipAssembler::new();
    clip.add_segment(Some(DecodedSamples { samples: vec![1, 2], sample_rate: 8000, channels: 1 })).unwrap();
    clip.add_segment(None).unwrap();
    clip.add_segment(Some(DecodedSamples { samples: vec![3], sample_rate: 8000, channels: 1 })).unwrap();
    let wav = clip.finish().unwrap();
    assert_eq!(wav.len(), 44 + 6);
    assert_eq!(&wav[44..], &[1, 0, 2, 0, 3, 0]);
}

#[test]
fn assembler_rejects_mismatched_formats() {
    let mut clip = ClipAssembler::new();
    clip.add_segment(Some(DecodedSamples { samples: vec![1, 2], sample_rate: 8000, channels: 1 })).unwrap();
    let r = clip.add_segment(Some(DecodedSamples { samples: vec![1, 2], sample_rate: 16000, channels: 1 }));
    assert_eq!(r, Err(ServiceError::FormatMismatch));
    assert_eq!(clip.samples, vec![1, 2]);
}

#[test]
fn assembler_without_audio_fails() {
    let clip = ClipAssembler::new();
    assert_eq!(clip.finish(), Err(ServiceError::NoAudioDecoded));
}

#[test]
fn encrypted_and_empty_selections_fail() {
    let seg = SegmentSelection {
        url: "https://x/a.ts".to_string(),
        byte_range: None,
        start_time_us: 0,
        map: None,
        encrypted: true,
    };
    assert_eq!(check_segment(&seg), Err(ServiceError::Encrypted));
    assert_eq!(check_selection(&vec![]), Err(ServiceError::SegmentSelectionEmpty));
    assert_eq!(check_selection(&vec![seg]), Ok(()));
}

#[test]
fn decode_error_policy() {
    assert_eq!(decode_action(PacketEvent::Read), DecodeAction::Proceed);
    assert_eq!(decode_action(PacketEvent::Decoded), DecodeAction::Proceed);
    assert_eq!(decode_action(PacketEvent::DecodeCorrupt), DecodeAction::Skip);
    assert_eq!(decode_action(PacketEvent::DecodeIo), DecodeAction::Skip);
    assert_eq!(decode_action(PacketEvent::ReadEnd), DecodeAction::Finish);
    assert_eq!(decode_action(PacketEvent::ReadResetRequired), DecodeAction::Abort);
    assert_eq!(decode_action(PacketEvent::ReadFailed), DecodeAction::Abort);
    assert_eq!(decode_action(PacketEvent::DecodeFailed), DecodeAction::Abort);
}

#[test]
fn decoded_samples_are_whole_frames() {
    let mut dec = SegmentDecoder::new(0, 100_000, 900_000, None, false);
    dec.push_buffer(&ramp(333, 3, 0), 1000, 3).unwrap();
    dec.push_buffer(&ramp(0, 3, 0), 1000, 3).unwrap();
    dec.push_buffer(&ramp(700, 3, 0), 1000, 3).unwrap();
    let out = dec.finish().unwrap();
    assert_eq!(out.samples.len() % out.channels, 0);
    assert_eq!(out.samples.len() / 3, 800);
}
