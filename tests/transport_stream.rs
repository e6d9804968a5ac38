use manatan_media::clip::prepare_segment_audio;
use manatan_media::ts::{
    adts_frame_length, decode_pts, extract_adts_frames, extract_adts_from_ts, is_adts_header,
    parse_pat, parse_pes_header, parse_pmt, ts_packet_size, PesAssembler,
};

fn adts_frame(len: usize) -> Vec<u8> {
    let mut f = vec![0xff, 0xf1, 0x50, 0x80 | ((len >> 11) as u8 & 0x03), (len >> 3) as u8, (((len & 7) << 5) as u8) | 0x1f, 0xfc];
    while f.len() < len {
        f.push(0x00);
    }
    f
}

fn pts_bytes(pts: u64) -> [u8; 5] {
    [
        0x20 | (((pts >> 29) as u8) & 0x0e) | 1,
        (pts >> 22) as u8,
        ((((pts >> 15) & 0x7f) as u8) << 1) | 1,
        (pts >> 7) as u8,
        (((pts & 0x7f) as u8) << 1) | 1,
    ]
}

fn packet(pusi: bool, pid: u16, payload: &[u8]) -> Vec<u8> {
    let mut p = vec![0x47, (if pusi { 0x40 } else { 0 }) | ((pid >> 8) as u8 & 0x1f), pid as u8, 0x10];
    p.extend_from_slice(payload);
    while p.len() < 188 {
        p.push(0xff);
    }
    p
}

fn pat() -> Vec<u8> {
    packet(true, 0, &[0x00, 0x00, 0xb0, 0x0d, 0x00, 0x01, 0xc1, 0x00, 0x00, 0x00, 0x01, 0xe1, 0x00, 0, 0, 0, 0])
}

fn pmt() -> Vec<u8> {
    packet(
        true,
        0x100,
        &[0x00, 0x02, 0xb0, 0x12, 0x00, 0x01, 0xc1, 0x00, 0x00, 0xe1, 0x01, 0xf0, 0x00, 0x0f, 0xe1, 0x01, 0xf0, 0x00, 0, 0, 0, 0],
    )
}

fn pes_with_pts(pts: u64, frame: &[u8]) -> Vec<u8> {
    let mut payload = vec![0x00, 0x00, 0x01, 0xc0, 0x00, 0x00, 0x80, 0x80, 0x05];
    payload.extend_from_slice(&pts_bytes(pts));
    payload.extend_from_slice(frame);
    packet(true, 0x101, &payload)
}

#[test]
fn packet_size_188_when_every_stride_is_synced() {
    let mut data = pat();
    data.extend(pmt());
    assert_eq!(ts_packet_size(&data), Some(188));
}

#[test]
fn packet_size_192_with_timecode_prefix() {
    let mut data = Vec::new();
    for p in [pat(), pmt()] {
        data.extend_from_slice(&[0, 0, 0, 0]);
        data.extend(p);
    }
    assert_eq!(data.len(), 384);
    assert_eq!(ts_packet_size(&data), Some(192));
}

#[test]
fn packet_size_none_for_other_data() {
    assert_eq!(ts_packet_size(&[]), None);
    let mut data = pat();
    data[0] = 0x00;
    assert_eq!(ts_packet_size(&data), None);
    let mut data = pat();
    data.push(0x47);
    assert_eq!(ts_packet_size(&data), None);
}

#[test]
fn pts_decodes_the_interleaved_33_bits() {
    let b = pts_bytes(1_800_000);
    assert_eq!(decode_pts(&b, 0), Some(1_800_000));
    let b = pts_bytes(0x1_2345_6789);
    assert_eq!(decode_pts(&b, 0), Some(0x1_2345_6789));
}

#[test]
fn pts_missing_marker_gives_none() {
    let mut b = pts_bytes(1_800_000);
    b[2] &= 0xfe;
    assert_eq!(decode_pts(&b, 0), None);
    let mut b = pts_bytes(1_800_000);
    b[4] &= 0xfe;
    assert_eq!(decode_pts(&b, 0), None);
}

#[test]
fn pes_header_gives_pts_and_data_start() {
    let mut p = vec![0x00, 0x00, 0x01, 0xc0, 0x00, 0x00, 0x80, 0x80, 0x05];
    p.extend_from_slice(&pts_bytes(90_000));
    p.extend_from_slice(&[1, 2, 3]);
    assert_eq!(parse_pes_header(&p), Some((Some(90_000), 14)));
    p[7] = 0x00;
    assert_eq!(parse_pes_header(&p), Some((None, 14)));
    p[2] = 0x02;
    assert_eq!(parse_pes_header(&p), None);
    assert_eq!(parse_pes_header(&[0, 0, 1, 0xc0, 0, 0, 0x80, 0x80, 0x20, 0]), None);
}

#[test]
fn pat_and_pmt_give_the_pids() {
    let pat = pat();
    let mut pmt_pid = None;
    parse_pat(&pat[4..], true, &mut pmt_pid);
    assert_eq!(pmt_pid, Some(0x100));
    let pmt = pmt();
    let mut audio = Some(7);
    parse_pmt(&pmt[4..], true, &mut audio);
    assert_eq!(audio, Some(0x101));
    let mut untouched = Some(9);
    parse_pmt(&pat[4..], true, &mut untouched);
    assert_eq!(untouched, Some(9));
}

#[test]
fn adts_header_fields() {
    let f = adts_frame(16);
    assert!(is_adts_header(&f, 0));
    assert_eq!(adts_frame_length(&f, 0), 16);
    let mut bad = f.clone();
    bad[2] = 0x3c;
    assert!(!is_adts_header(&bad, 0));
    let mut layer = f.clone();
    layer[1] = 0xf3;
    assert!(!is_adts_header(&layer, 0));
    assert!(!is_adts_header(&f[..5], 0));
}

#[test]
fn adts_scan_skips_junk_and_keeps_frames_in_order() {
    let mut data = vec![0x12, 0x34];
    data.extend(adts_frame(10));
    data.extend(adts_frame(12));
    data.push(0xab);
    let out = extract_adts_frames(&data);
    let mut expected = adts_frame(10);
    expected.extend(adts_frame(12));
    assert_eq!(out, expected);
    assert!(out.len() <= data.len());
}

#[test]
fn adts_scan_stops_at_an_overrunning_frame() {
    let mut data = adts_frame(10);
    let mut long = adts_frame(40);
    long.truncate(20);
    data.extend(long);
    assert_eq!(extract_adts_frames(&data), adts_frame(10));
    assert!(extract_adts_frames(&[]).is_empty());
}

#[test]
fn demux_recovers_first_pts_of_twenty_seconds() {
    let frame = adts_frame(16);
    let mut data = pat();
    data.extend(pmt());
    data.extend(pes_with_pts(1_800_000, &frame));
    let ex = extract_adts_from_ts(&data, 188);
    assert_eq!(ex.first_pts, Some(1_800_000));
    assert_eq!(ex.first_pts.unwrap() as f64 / 90_000.0, 20.0);
    assert!(!ex.force_segment_start);
    assert_eq!(ex.data, frame);
}

#[test]
fn demux_without_start_indicator_forces_segment_start() {
    let frame = adts_frame(16);
    let mut data = pat();
    data.extend(pmt());
    data.extend(packet(false, 0x101, &frame));
    data.extend(pes_with_pts(1_800_000, &adts_frame(8)));
    let ex = extract_adts_from_ts(&data, 188);
    assert!(ex.force_segment_start);
    assert_eq!(ex.first_pts, None);
    let mut expected = frame.clone();
    expected.extend(adts_frame(8));
    assert_eq!(ex.data, expected);
}

#[test]
fn demux_falls_back_to_raw_scan_without_audio_pid() {
    let frame = adts_frame(16);
    let mut data = pat();
    data.extend(packet(true, 0x333, &frame));
    let ex = extract_adts_from_ts(&data, 188);
    assert_eq!(ex.data, frame);
    assert_eq!(ex.first_pts, None);
}

#[test]
fn pes_assembler_state_machine() {
    let mut pes = PesAssembler::new();
    let mut first = vec![0x00, 0x00, 0x01, 0xc0, 0x00, 0x00, 0x80, 0x80, 0x05];
    first.extend_from_slice(&pts_bytes(4500));
    first.extend_from_slice(&[1, 2]);
    pes.push_payload(true, &first);
    pes.push_payload(false, &[3, 4]);
    let mut second = vec![0x00, 0x00, 0x01, 0xc0, 0x00, 0x00, 0x80, 0x80, 0x05];
    second.extend_from_slice(&pts_bytes(9000));
    second.push(5);
    pes.push_payload(true, &second);
    assert_eq!(pes.first_pts, Some(4500));
    assert_eq!(pes.data, vec![1, 2, 3, 4, 5]);
    assert!(!pes.force_segment_start);
}

#[test]
fn prepared_ts_segment_becomes_aac() {
    let frame = adts_frame(16);
    let mut data = pat();
    data.extend(pmt());
    data.extend(pes_with_pts(1_800_000, &frame));
    let prepared = prepare_segment_audio(data, Some("ts".to_string()));
    assert_eq!(prepared.data, frame);
    assert_eq!(prepared.hint_extension.as_deref(), Some("aac"));
    assert_eq!(prepared.first_pts, Some(1_800_000));
    let passthrough = prepare_segment_audio(vec![1, 2, 3], Some("mp4".to_string()));
    assert_eq!(passthrough.data, vec![1, 2, 3]);
    assert_eq!(passthrough.hint_extension.as_deref(), Some("mp4"));
    assert_eq!(passthrough.first_pts, None);
}
