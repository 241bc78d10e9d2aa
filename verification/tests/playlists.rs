//! HLS playlists.

use udemyget::hls::{
    best_variant, is_cbcs_url, is_drm_skip, plan_key, plan_media, plan_playlist, resolve_url,
    select_media_url, use_key, variant_url, DrmRefusal, KeyMethod, KeyPlan, MasterPlaylist,
    MediaPlaylist, MediaSegment, SegmentKey, VariantStream,
};
use udemyget::segment::EncMethod;

fn variant(uri: &str, height: Option<u64>) -> VariantStream {
    VariantStream { uri: uri.to_string(), is_i_frame: false, height }
}

fn chosen(variants: Vec<VariantStream>) -> Option<String> {
    best_variant(&MasterPlaylist { variants }, 1080).map(|v| v.uri.clone())
}

#[test]
fn addresses_are_resolved() {
    let base = "https://h/a/b/list.m3u8?token=1";
    assert_eq!(resolve_url(base, "https://x/y.ts"), "https://x/y.ts");
    assert_eq!(resolve_url(base, "http://x/y.ts"), "http://x/y.ts");
    assert_eq!(resolve_url(base, "seg.ts"), "https://h/a/b/seg.ts?token=1");
    assert_eq!(resolve_url(base, "seg.ts?v=2"), "https://h/a/b/seg.ts?v=2");
    assert_eq!(resolve_url("https://h/a/list.m3u8", "seg.ts"), "https://h/a/seg.ts");
    assert_eq!(resolve_url("list.m3u8", "seg.ts"), "seg.ts");
    assert_eq!(resolve_url("list.m3u8?q=/x", "seg.ts"), "seg.ts?q=/x");
}

#[test]
fn protected_addresses_are_recognised() {
    assert!(is_cbcs_url("https://h/cbcs/a.m3u8"));
    assert!(is_cbcs_url("https://h/cenc/a.m3u8"));
    assert!(!is_cbcs_url("https://h/cbcsa.m3u8"));
    assert!(is_drm_skip("x drm:skip y"));
    assert!(!is_drm_skip("drm: skip"));
}

#[test]
fn highest_variant_up_to_the_limit_is_taken() {
    assert_eq!(
        chosen(vec![
            variant("480", Some(480)),
            variant("2160", Some(2160)),
            variant("1080", Some(1080)),
            variant("720", Some(720)),
        ]),
        Some("1080".to_string())
    );
    // Of two as high, the later one.
    assert_eq!(
        chosen(vec![variant("a", Some(720)), variant("b", Some(720))]),
        Some("b".to_string())
    );
    // Without a height a variant counts as the lowest.
    assert_eq!(
        chosen(vec![variant("a", Some(1)), variant("b", None)]),
        Some("a".to_string())
    );
}

#[test]
fn lowest_variant_is_taken_where_all_are_too_high() {
    assert_eq!(
        chosen(vec![
            variant("a", Some(4320)),
            variant("b", Some(1440)),
            variant("c", Some(1440)),
        ]),
        Some("b".to_string())
    );
}

#[test]
fn variants_with_key_frames_only_do_not_count() {
    let mut v = variant("a", Some(720));
    v.is_i_frame = true;
    assert_eq!(chosen(vec![v.clone()]), None);
    assert_eq!(chosen(vec![v, variant("b", Some(240))]), Some("b".to_string()));
    assert_eq!(chosen(vec![]), None);
}

const MASTER: &str = "#EXTM3U\n\
#EXT-X-STREAM-INF:BANDWIDTH=1000,RESOLUTION=640x360\n\
low/index.m3u8\n\
#EXT-X-STREAM-INF:BANDWIDTH=9000,RESOLUTION=3840x2160\n\
huge/index.m3u8\n\
#EXT-X-STREAM-INF:BANDWIDTH=5000,RESOLUTION=1920x1080\n\
high/index.m3u8\n";

#[test]
fn master_playlists_lead_to_a_variant() {
    assert_eq!(
        select_media_url("https://h/v/master.m3u8?t=1", MASTER),
        "https://h/v/high/index.m3u8?t=1"
    );
}

#[test]
fn other_texts_are_taken_for_the_playlist_itself() {
    let url = "https://h/v/index.m3u8";
    assert_eq!(select_media_url(url, MEDIA), url);
    assert_eq!(select_media_url(url, "no playlist"), url);
    assert_eq!(variant_url(url, &None), url);
    assert_eq!(variant_url(url, &Some(MasterPlaylist { variants: vec![] })), url);
}

const MEDIA: &str = "#EXTM3U\n\
#EXT-X-VERSION:3\n\
#EXT-X-TARGETDURATION:10\n\
#EXT-X-MEDIA-SEQUENCE:17\n\
#EXT-X-KEY:METHOD=AES-128,URI=\"key.bin\",IV=0x0000000000000000000000000000000a\n\
#EXTINF:10.0,\n\
one.ts\n\
#EXTINF:10.0,\n\
two.ts\n\
#EXT-X-ENDLIST\n";

#[test]
fn media_playlists_are_planned() {
    let plan = plan_media("https://h/v/index.m3u8?t=1", MEDIA).unwrap();
    assert_eq!(plan.urls, vec!["https://h/v/one.ts?t=1", "https://h/v/two.ts?t=1"]);
    assert_eq!(plan.media_sequence, 17);
    match plan.key {
        KeyPlan::Fetch { method, url, iv } => {
            assert_eq!(method, EncMethod::Aes128);
            assert_eq!(url, "https://h/v/key.bin?t=1");
            assert_eq!(iv.as_deref(), Some("0x0000000000000000000000000000000a"));
        }
        other => panic!("{other:?}"),
    }
}

#[test]
fn texts_that_are_no_media_playlist_are_refused() {
    let e = plan_media("https://h/x", "no playlist").unwrap_err();
    assert!(e.starts_with("parse media playlist: "), "{e}");
    assert!(e.len() > "parse media playlist: ".len());
}

fn segment(method: KeyMethod, uri: Option<&str>, format: Option<&str>) -> MediaSegment {
    MediaSegment {
        uri: "s.ts".to_string(),
        key: Some(SegmentKey {
            method,
            uri: uri.map(str::to_string),
            iv: None,
            keyformat: format.map(str::to_string),
        }),
    }
}

fn planned(segments: Vec<MediaSegment>) -> KeyPlan {
    plan_key("https://h/p/i.m3u8", &MediaPlaylist { media_sequence: 0, segments })
}

fn refusal(plan: KeyPlan) -> DrmRefusal {
    match plan {
        KeyPlan::Refuse(r) => r,
        other => panic!("{other:?}"),
    }
}

#[test]
fn unencrypted_streams_need_no_key() {
    assert!(matches!(planned(vec![]), KeyPlan::Clear));
    assert!(matches!(
        planned(vec![
            MediaSegment { uri: "s.ts".to_string(), key: None },
            segment(KeyMethod::Unencrypted, None, None),
            segment(KeyMethod::Other, Some("k"), None),
            segment(KeyMethod::Aes128, None, None),
        ]),
        KeyPlan::Clear
    ));
}

#[test]
fn first_key_counts() {
    match planned(vec![
        MediaSegment { uri: "s.ts".to_string(), key: None },
        segment(KeyMethod::SampleAes, Some("k1"), None),
        segment(KeyMethod::Aes128, Some("k2"), None),
    ]) {
        KeyPlan::Fetch { method, url, iv } => {
            assert_eq!(method, EncMethod::SampleAes);
            assert_eq!(url, "https://h/p/k1");
            assert_eq!(iv, None);
        }
        other => panic!("{other:?}"),
    }
}

#[test]
fn protected_streams_are_refused() {
    let apple = segment(
        KeyMethod::SampleAes,
        Some("https://k"),
        Some("com.apple.streamingkeydelivery"),
    );
    assert_eq!(refusal(planned(vec![apple])), DrmRefusal::FairPlay);
    let skd = segment(KeyMethod::SampleAes, Some("skd://k"), None);
    assert_eq!(refusal(planned(vec![skd])), DrmRefusal::FairPlay);
    let none = segment(KeyMethod::SampleAes, None, None);
    assert_eq!(refusal(planned(vec![none])), DrmRefusal::NoKeyUri);
    for r in [DrmRefusal::FairPlay, DrmRefusal::NoKeyUri] {
        assert!(is_drm_skip(&r.message()));
    }
    assert_eq!(DrmRefusal::NoKeyUri.message(), "drm:skip SAMPLE-AES has no key URI");
    assert_eq!(
        DrmRefusal::FairPlay.message(),
        "drm:skip FairPlay (Apple-only) on this HLS stream"
    );
}

#[test]
fn parsed_playlists_are_planned() {
    let list = MediaPlaylist {
        media_sequence: 3,
        segments: vec![MediaSegment { uri: "a.ts".to_string(), key: None }],
    };
    let plan = plan_playlist("https://h/i.m3u8", &list);
    assert_eq!(plan.urls, vec!["https://h/a.ts"]);
    assert_eq!(plan.media_sequence, 3);
    assert!(matches!(plan.key, KeyPlan::Clear));
}

#[test]
fn fetched_keys_are_used() {
    let iv = Some("0x0f".to_string());
    let info = use_key(EncMethod::SampleAes, &iv, Ok(vec![1, 2])).unwrap();
    assert_eq!(info.method, EncMethod::SampleAes);
    assert_eq!(info.key, vec![1, 2]);
    assert_eq!(info.iv.unwrap()[15], 15);
    let info = use_key(EncMethod::Aes128, &None, Ok(vec![])).unwrap();
    assert_eq!(info.iv, None);
}

#[test]
fn keys_that_cannot_be_fetched_are_reported() {
    let e = use_key(EncMethod::Aes128, &None, Err("HTTP 404".to_string())).unwrap_err();
    assert_eq!(e, "HTTP 404");
    let e = use_key(EncMethod::SampleAes, &None, Err("HTTP 404".to_string())).unwrap_err();
    assert_eq!(e, "drm:skip SAMPLE-AES key fetch: HTTP 404");
    assert!(is_drm_skip(&e));
}
