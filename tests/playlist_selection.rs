use manatan_media::error::ServiceError;
use manatan_media::playlist::{
    hint_extension_from_url, range_request, resolve_range_from_byte_range,
    resolve_range_from_ext_byte_range, select_master_variant, select_segments, ByteRangeSpec,
    MapSpec, MasterPlaylistInfo, PlaylistSegment, Rendition, ResolvedByteRange, VariantInfo,
};

const BASE: &str = "https://media.example/hls/episode/playlist.m3u8";

fn seg(uri: &str, secs: u64) -> PlaylistSegment {
    PlaylistSegment { uri: uri.to_string(), duration_us: secs * 1_000_000, byte_range: None, map: None, encrypted: false }
}

fn three_segments() -> Vec<PlaylistSegment> {
    vec![seg("seg0.ts", 10), seg("seg1.ts", 10), seg("seg2.ts", 10)]
}

#[test]
fn three_ten_second_segments_window_five_to_fifteen() {
    let sel = select_segments(&three_segments(), BASE, 5_000_000, 15_000_000).unwrap();
    assert_eq!(sel.len(), 2);
    assert_eq!(sel[0].url, "https://media.example/hls/episode/seg0.ts");
    assert_eq!(sel[1].url, "https://media.example/hls/episode/seg1.ts");
    assert_eq!(sel[0].start_time_us, 0);
    assert_eq!(sel[1].start_time_us, 10_000_000);
}

#[test]
fn selection_prepends_the_predecessor() {
    let sel = select_segments(&three_segments(), BASE, 21_000_000, 25_000_000).unwrap();
    let urls: Vec<&str> = sel.iter().map(|s| s.url.as_str()).collect();
    assert_eq!(urls, vec!["https://media.example/hls/episode/seg1.ts", "https://media.example/hls/episode/seg2.ts"]);
    assert_eq!(sel[0].start_time_us, 10_000_000);
}

#[test]
fn selection_outside_the_playlist_is_empty() {
    let sel = select_segments(&three_segments(), BASE, 40_000_000, 45_000_000).unwrap();
    assert!(sel.is_empty());
}

#[test]
fn selection_is_capped_at_128_segments() {
    let segs: Vec<PlaylistSegment> = (0..200).map(|k| seg(&format!("p{k}.ts"), 1)).collect();
    let sel = select_segments(&segs, BASE, 10_000_000, 190_000_000).unwrap();
    assert_eq!(sel.len(), 128);
    assert_eq!(sel[0].url, "https://media.example/hls/episode/p8.ts");
    assert_eq!(sel[127].url, "https://media.example/hls/episode/p135.ts");
}

#[test]
fn selection_resolves_continuation_ranges_and_maps() {
    let mut segs = three_segments();
    segs[0].map = Some(MapSpec { uri: "init.mp4".to_string(), byte_range: Some(ByteRangeSpec { start: None, length: 100 }) });
    segs[0].byte_range = Some(ByteRangeSpec { start: Some(100), length: 400 });
    segs[1].byte_range = Some(ByteRangeSpec { start: None, length: 400 });
    segs[2].byte_range = Some(ByteRangeSpec { start: None, length: 300 });
    let sel = select_segments(&segs, BASE, 0, 29_000_000).unwrap();
    assert_eq!(sel.len(), 3);
    assert_eq!(sel[0].byte_range, Some(ResolvedByteRange { start: 100, end: 500 }));
    assert_eq!(sel[1].byte_range, Some(ResolvedByteRange { start: 500, end: 900 }));
    assert_eq!(sel[2].byte_range, Some(ResolvedByteRange { start: 900, end: 1200 }));
    let map = sel[2].map.as_ref().unwrap();
    assert_eq!(map.url, "https://media.example/hls/episode/init.mp4");
    assert_eq!(map.byte_range, Some(ResolvedByteRange { start: 0, end: 100 }));
}

#[test]
fn continuation_resets_after_a_segment_without_range() {
    let mut segs = three_segments();
    segs[0].byte_range = Some(ByteRangeSpec { start: Some(0), length: 400 });
    segs[2].byte_range = Some(ByteRangeSpec { start: None, length: 300 });
    let sel = select_segments(&segs, BASE, 0, 29_000_000).unwrap();
    assert_eq!(sel[1].byte_range, None);
    assert_eq!(sel[2].byte_range, Some(ResolvedByteRange { start: 0, end: 300 }));
}

#[test]
fn selection_with_an_unresolvable_base_fails() {
    assert_eq!(select_segments(&three_segments(), "not a url", 0, 1_000_000).err(), Some(ServiceError::InvalidUrl));
}

#[test]
fn byte_range_resolution() {
    let mut last = Some(700);
    let r = resolve_range_from_ext_byte_range(ByteRangeSpec { start: None, length: 200 }, &mut last);
    assert_eq!(r, Some(ResolvedByteRange { start: 700, end: 900 }));
    assert_eq!(last, Some(900));
    let r = resolve_range_from_ext_byte_range(ByteRangeSpec { start: None, length: 3 }, &mut last);
    assert_eq!(r, Some(ResolvedByteRange { start: 900, end: 903 }));
    let mut none = None;
    let r = resolve_range_from_ext_byte_range(ByteRangeSpec { start: None, length: 50 }, &mut none);
    assert_eq!(r, Some(ResolvedByteRange { start: 0, end: 50 }));
    assert_eq!(resolve_range_from_byte_range(ByteRangeSpec { start: Some(3), length: 6 }), Some(ResolvedByteRange { start: 3, end: 9 }));
}

#[test]
fn length_only_range_after_offset_range() {
    let mut segs = three_segments();
    segs[0].byte_range = Some(ByteRangeSpec { start: Some(0), length: 1000 });
    segs[1].byte_range = Some(ByteRangeSpec { start: None, length: 1000 });
    let sel = select_segments(&segs, BASE, 0, 15_000_000).unwrap();
    assert_eq!(sel[1].byte_range, Some(ResolvedByteRange { start: 1000, end: 2000 }));
    assert_eq!(range_request(sel[1].byte_range), Ok(Some((1000, 1999))));
}

#[test]
fn empty_and_overflowing_ranges_do_not_resolve() {
    let mut last = Some(5);
    let empty = resolve_range_from_ext_byte_range(ByteRangeSpec { start: None, length: 0 }, &mut last);
    assert_eq!(empty, None);
    assert_eq!(last, Some(5));
    let huge = resolve_range_from_byte_range(ByteRangeSpec { start: Some(usize::MAX - 1), length: 5 });
    assert_eq!(huge, None);
    assert_eq!(resolve_range_from_byte_range(ByteRangeSpec { start: Some(5), length: 0 }), None);
}

#[test]
fn selection_with_an_empty_range_fails() {
    let mut segs = three_segments();
    segs[0].byte_range = Some(ByteRangeSpec { start: Some(5), length: 0 });
    assert_eq!(select_segments(&segs, BASE, 0, 5_000_000).err(), Some(ServiceError::InvalidRange));
    let mut segs = three_segments();
    segs[0].map = Some(MapSpec { uri: "init.mp4".to_string(), byte_range: Some(ByteRangeSpec { start: None, length: 0 }) });
    assert_eq!(select_segments(&segs, BASE, 0, 5_000_000).err(), Some(ServiceError::InvalidRange));
}

#[test]
fn problems_past_the_window_are_not_read() {
    let mut segs = three_segments();
    segs[2].byte_range = Some(ByteRangeSpec { start: Some(5), length: 0 });
    let sel = select_segments(&segs, BASE, 0, 5_000_000).unwrap();
    assert_eq!(sel.len(), 1);
}

#[test]
fn range_request_is_inclusive_and_checked() {
    assert_eq!(range_request(None), Ok(None));
    assert_eq!(range_request(Some(ResolvedByteRange { start: 100, end: 200 })), Ok(Some((100, 199))));
    assert_eq!(range_request(Some(ResolvedByteRange { start: 200, end: 200 })), Err(ServiceError::InvalidRange));
    assert_eq!(range_request(Some(ResolvedByteRange { start: 300, end: 200 })), Err(ServiceError::InvalidRange));
}

fn master(renditions: Vec<Rendition>, variants: Vec<VariantInfo>) -> MasterPlaylistInfo {
    MasterPlaylistInfo { renditions, variants }
}

#[test]
fn master_prefers_default_audio_rendition() {
    let m = master(
        vec![
            Rendition { is_audio: true, is_default: false, uri: Some("audio_alt.m3u8".to_string()) },
            Rendition { is_audio: true, is_default: true, uri: Some("audio_main.m3u8".to_string()) },
        ],
        vec![
            VariantInfo { uri: "low.m3u8".to_string(), bandwidth: 100_000 },
            VariantInfo { uri: "high.m3u8".to_string(), bandwidth: 5_000_000 },
        ],
    );
    assert_eq!(select_master_variant(&m, BASE).unwrap(), "https://media.example/hls/episode/audio_main.m3u8");
}

#[test]
fn master_falls_back_to_audio_then_lowest_bandwidth() {
    let m = master(
        vec![
            Rendition { is_audio: false, is_default: true, uri: Some("subs.m3u8".to_string()) },
            Rendition { is_audio: true, is_default: false, uri: Some("audio.m3u8".to_string()) },
        ],
        vec![],
    );
    assert_eq!(select_master_variant(&m, BASE).unwrap(), "https://media.example/hls/episode/audio.m3u8");
    let m = master(
        vec![],
        vec![
            VariantInfo { uri: "mid.m3u8".to_string(), bandwidth: 800_000 },
            VariantInfo { uri: "low.m3u8".to_string(), bandwidth: 200_000 },
            VariantInfo { uri: "low2.m3u8".to_string(), bandwidth: 200_000 },
        ],
    );
    assert_eq!(select_master_variant(&m, BASE).unwrap(), "https://media.example/hls/episode/low.m3u8");
}

#[test]
fn master_without_candidates_is_unresolvable() {
    let m = master(vec![Rendition { is_audio: true, is_default: true, uri: None }], vec![]);
    assert_eq!(select_master_variant(&m, BASE), Err(ServiceError::PlaylistUnresolvable));
}

#[test]
fn extension_hints() {
    assert_eq!(hint_extension_from_url("https://x.example/a/seg1.M4S?t=1").as_deref(), Some("mp4"));
    assert_eq!(hint_extension_from_url("https://x.example/a/seg1.m4a").as_deref(), Some("mp4"));
    assert_eq!(hint_extension_from_url("https://x.example/a.b/seg1.TS").as_deref(), Some("ts"));
    assert_eq!(hint_extension_from_url("https://x.example/a/segment").as_deref(), None);
    assert_eq!(hint_extension_from_url("not a url"), None);
}
