//! Tests for the manifest filter, cache entry and playback plan.

use ytstrm::manifest::{
    ensure_trailing_newline, filter_and_modify_manifest, plan_playback, process_fetched_manifest,
    ManifestCache, PlaybackPlan,
};
use ytstrm::Failure;

fn sample_manifest() -> String {
    let mut m = String::new();
    m.push_str("#EXTM3U\n");
    m.push_str("#EXT-X-INDEPENDENT-SEGMENTS\n");
    m.push_str("#EXT-X-MEDIA:TYPE=AUDIO,GROUP-ID=\"234\",NAME=\"en\",DEFAULT=YES,URI=\"audio-hi.m3u8\"\n");
    m.push_str("#EXT-X-MEDIA:TYPE=AUDIO,GROUP-ID=\"96\",NAME=\"en\",DEFAULT=YES,URI=\"audio-sd.m3u8\"\n");
    m.push_str("#EXT-X-STREAM-INF:BANDWIDTH=1000000,RESOLUTION=640x360\n");
    m.push_str("v360.m3u8\n");
    m.push_str("#EXT-X-STREAM-INF:BANDWIDTH=5000000,RESOLUTION=1920x1080\n");
    m.push_str("v1080.m3u8\n");
    m.push_str("#EXT-X-STREAM-INF:BANDWIDTH=3000000,RESOLUTION=1280x720\n");
    m.push_str("v720.m3u8\n");
    m.push_str("#EXT-X-STREAM-INF:BANDWIDTH=500000,RESOLUTION=426x240\n");
    m.push_str("v240.m3u8\n");
    m.push_str("#EXT-X-STREAM-INF:BANDWIDTH=2000000,RESOLUTION=854x480\n");
    m.push_str("v480.m3u8\n");
    m
}

#[test]
fn filter_keeps_top_three_variants_descending() {
    let out = filter_and_modify_manifest(sample_manifest());
    let expected = "#EXTM3U\n#EXT-X-INDEPENDENT-SEGMENTS\n\
        #EXT-X-MEDIA:TYPE=AUDIO,GROUP-ID=\"234\",NAME=\"en\",DEFAULT=YES,URI=\"audio-hi.m3u8\"\n\
        #EXT-X-STREAM-INF:BANDWIDTH=5000000,RESOLUTION=1920x1080\nv1080.m3u8\n\
        #EXT-X-STREAM-INF:BANDWIDTH=3000000,RESOLUTION=1280x720\nv720.m3u8\n\
        #EXT-X-STREAM-INF:BANDWIDTH=2000000,RESOLUTION=854x480\nv480.m3u8\n";
    assert_eq!(out, expected);
}

#[test]
fn filter_with_fewer_than_three_variants_keeps_all() {
    let m = "#EXT-X-STREAM-INF:BANDWIDTH=100\nlow.m3u8\n\
        #EXT-X-STREAM-INF:BANDWIDTH=200\nhigh.m3u8\n"
        .to_string();
    let out = filter_and_modify_manifest(m);
    let expected = "#EXTM3U\n#EXT-X-INDEPENDENT-SEGMENTS\n\
        #EXT-X-STREAM-INF:BANDWIDTH=200\nhigh.m3u8\n\
        #EXT-X-STREAM-INF:BANDWIDTH=100\nlow.m3u8\n";
    assert_eq!(out, expected);
}

#[test]
fn filter_prefers_high_tier_default_audio() {
    let m = "#EXT-X-MEDIA:TYPE=AUDIO,GROUP-ID=\"96\",DEFAULT=YES,URI=\"sd.m3u8\"\n\
        #EXT-X-MEDIA:TYPE=AUDIO,GROUP-ID=\"234\",DEFAULT=YES,URI=\"hi.m3u8\"\n"
        .to_string();
    let out = filter_and_modify_manifest(m);
    assert!(out.contains("GROUP-ID=\"234\""));
    assert!(!out.contains("GROUP-ID=\"96\""));
}

#[test]
fn filter_audio_priority_falls_back_to_standard_default() {
    let m = "#EXT-X-MEDIA:TYPE=AUDIO,GROUP-ID=\"96\",DEFAULT=YES,URI=\"sd.m3u8\"\n\
        #EXT-X-MEDIA:TYPE=AUDIO,GROUP-ID=\"234\",URI=\"hi-backup.m3u8\"\n"
        .to_string();
    let out = filter_and_modify_manifest(m);
    // A standard-tier default outranks a high-tier backup.
    assert!(out.contains("sd.m3u8"));
    assert!(!out.contains("hi-backup.m3u8"));
}

#[test]
fn filter_audio_backups_used_when_no_default_exists() {
    let m = "#EXT-X-MEDIA:TYPE=AUDIO,GROUP-ID=\"96\",URI=\"sd-backup.m3u8\"\n\
        #EXT-X-MEDIA:TYPE=AUDIO,GROUP-ID=\"234\",URI=\"hi-backup.m3u8\"\n"
        .to_string();
    let out = filter_and_modify_manifest(m);
    assert!(out.contains("hi-backup.m3u8"));
    assert!(!out.contains("sd-backup.m3u8"));
}

#[test]
fn filter_skips_variant_with_unparsable_bandwidth() {
    let m = "#EXT-X-STREAM-INF:BANDWIDTH=abc\nbad.m3u8\n\
        #EXT-X-STREAM-INF:BANDWIDTH=100\ngood.m3u8\n"
        .to_string();
    let out = filter_and_modify_manifest(m);
    assert!(out.contains("good.m3u8"));
    assert!(!out.contains("bad.m3u8"));
}

#[test]
fn filter_ignores_trailing_declaration_without_url_line() {
    let m = "#EXT-X-STREAM-INF:BANDWIDTH=100".to_string();
    let out = filter_and_modify_manifest(m);
    assert_eq!(out, "#EXTM3U\n#EXT-X-INDEPENDENT-SEGMENTS\n");
}

#[test]
fn filter_of_empty_input_is_bare_header() {
    let out = filter_and_modify_manifest(String::new());
    assert_eq!(out, "#EXTM3U\n#EXT-X-INDEPENDENT-SEGMENTS\n");
}

#[test]
fn filtering_twice_is_byte_identical() {
    let once = filter_and_modify_manifest(sample_manifest());
    let twice = filter_and_modify_manifest(once.clone());
    assert_eq!(twice, once);
}

#[test]
fn normalization_is_idempotent_through_the_pipeline() {
    let once = ensure_trailing_newline(filter_and_modify_manifest(sample_manifest()));
    let twice = ensure_trailing_newline(filter_and_modify_manifest(once.clone()));
    assert_eq!(once, twice);
}

#[test]
fn normalization_appends_exactly_one_newline() {
    assert_eq!(ensure_trailing_newline("abc".to_string()), "abc\n");
    assert_eq!(ensure_trailing_newline("abc\n".to_string()), "abc\n");
    assert_eq!(ensure_trailing_newline(String::new()), "\n");
}

#[test]
fn cache_entry_reads_embedded_expiry() {
    let content = "#EXTM3U\nhttps://cdn.example/expire/1700000000/seg.m3u8\n".to_string();
    let entry = ManifestCache::new("vid1", content, 1000);
    assert_eq!(entry.expires, 1700000000);
    assert_eq!(entry.video_id, "vid1");
}

#[test]
fn cache_entry_defaults_expiry_six_hours_ahead() {
    let entry = ManifestCache::new("vid2", "#EXTM3U\nplain.m3u8\n".to_string(), 1000);
    assert_eq!(entry.expires, 1000 + 21600);
}

#[test]
fn cache_entry_with_bad_expiry_digits_uses_default() {
    let content = "#EXTM3U\nhttps://cdn.example/expire/notdigits/seg.m3u8\n".to_string();
    let entry = ManifestCache::new("vid3", content, 500);
    assert_eq!(entry.expires, 500 + 21600);
}

#[test]
fn cache_validity_boundary() {
    let now: u64 = 1_000_000;
    let make = |expires: u64| ManifestCache {
        video_id: "v".to_string(),
        content: String::new(),
        expires,
    };
    assert!(make(now + 301).is_valid(now));
    assert!(!make(now + 300).is_valid(now));
    assert!(!make(now + 299).is_valid(now));
}

#[test]
fn fetched_manifest_without_signature_is_a_parse_failure() {
    let r = process_fetched_manifest("vid", "not a playlist".to_string(), 1000);
    match r {
        Err(e) => assert_eq!(e, Failure::Parse),
        Ok(_) => panic!("a body without the signature must be rejected"),
    }
}

#[test]
fn fetched_manifest_is_filtered_normalized_and_stamped() {
    let r = process_fetched_manifest("vid", sample_manifest(), 1000).unwrap();
    assert_eq!(r.video_id, "vid");
    assert!(r.content.starts_with("#EXTM3U\n#EXT-X-INDEPENDENT-SEGMENTS\n"));
    assert!(r.content.ends_with("\n"));
    assert_eq!(r.expires, 1000 + 21600);
}

#[test]
fn first_format_with_a_manifest_url_wins() {
    let metadata: serde_json::Value = serde_json::from_str(
        "{\"formats\":[{\"url\":\"plain\"},{\"manifest_url\":\"http://m/first\"},{\"manifest_url\":\"http://m/second\"}]}",
    )
    .unwrap();
    assert_eq!(
        ytstrm::manifest::find_manifest_url(&metadata).as_deref(),
        Some("http://m/first")
    );
}

#[test]
fn metadata_without_a_manifest_url_yields_none() {
    let no_url: serde_json::Value =
        serde_json::from_str("{\"formats\":[{\"url\":\"a\"},{\"url\":\"b\"}]}").unwrap();
    assert_eq!(ytstrm::manifest::find_manifest_url(&no_url), None);
    let no_formats: serde_json::Value = serde_json::from_str("{\"title\":\"x\"}").unwrap();
    assert_eq!(ytstrm::manifest::find_manifest_url(&no_formats), None);
}

#[test]
fn playback_always_answers() {
    // A parse failure still yields a playable answer: the direct stream.
    let plan = plan_playback(Err(Failure::Parse));
    assert!(matches!(plan, PlaybackPlan::DirectStream));

    let entry = process_fetched_manifest("vid", sample_manifest(), 1000).unwrap();
    let content = entry.content.clone();
    match plan_playback(Ok(entry)) {
        PlaybackPlan::Manifest(m) => assert_eq!(m, content),
        PlaybackPlan::DirectStream => panic!("a resolved manifest must be served"),
    }
}
