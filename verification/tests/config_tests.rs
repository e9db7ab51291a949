//! Tests for the registry: registration, watermarks, resets, deletion,
//! settings, migrations, artifact plans and image selection.

use ytstrm::config::{
    Channel, ChannelForm, Config, PlaylistForm, Source, UpdateOutcome, VideoInfo, DAY_SECS,
};
use ytstrm::images::select_images;
use ytstrm::materialize::stub_exists;
use ytstrm::migrate::{config_from_v1, config_from_v2, config_from_v3, ConfigV1, ConfigV2, ConfigV3, LegacyChannel};
use ytstrm::refresh::{needs_refresh, rescan_tick, sweep_tick, RescanTick, SweepTick};
use ytstrm::settings::validate_server_address;
use ytstrm::Failure;

fn empty_config() -> Config {
    Config {
        channels: Vec::new(),
        check_interval: 240,
        jellyfin_media_path: "/media/youtube".to_string(),
        server_address: "localhost:8080".to_string(),
        background_tasks_paused: false,
        maintain_manifest_cache: false,
    }
}

fn channel_form(handle: &str) -> ChannelForm {
    ChannelForm {
        name: format!("Name of {}", handle),
        handle: handle.to_string(),
        max_videos: Some(5),
        max_age_days: None,
    }
}

#[test]
fn registering_a_channel_appends_it() {
    let mut cfg = empty_config();
    assert_eq!(cfg.add_channel(channel_form("tech"), 1000), UpdateOutcome::Done);
    assert_eq!(cfg.channels.len(), 1);
    let c = &cfg.channels[0];
    assert_eq!(c.id, "tech");
    assert_eq!(c.last_checked, 0);
    assert_eq!(c.media_dir, "/media/youtube/tech");
    match &c.source {
        Source::Channel { handle, name, max_videos, max_age_days } => {
            assert_eq!(handle, "tech");
            assert_eq!(name, "Name of tech");
            assert_eq!(*max_videos, Some(5));
            assert_eq!(*max_age_days, None);
        },
        _ => panic!("a channel registration must yield a channel source"),
    }
}

#[test]
fn registering_a_duplicate_handle_is_refused() {
    let mut cfg = empty_config();
    assert_eq!(cfg.add_channel(channel_form("tech"), 1000), UpdateOutcome::Done);
    assert_eq!(cfg.add_channel(channel_form("tech"), 2000), UpdateOutcome::Duplicate);
    assert_eq!(cfg.channels.len(), 1);
}

#[test]
fn max_age_days_sets_the_initial_watermark_back() {
    let mut cfg = empty_config();
    let mut form = channel_form("aged");
    form.max_age_days = Some(2);
    let now = DAY_SECS * 10;
    assert_eq!(cfg.add_channel(form, now), UpdateOutcome::Done);
    assert_eq!(cfg.channels[0].last_checked, DAY_SECS * 8);
}

#[test]
fn registering_a_playlist_appends_it() {
    let mut cfg = empty_config();
    let form = PlaylistForm { name: "Mix".to_string(), playlist_id: "PL42".to_string() };
    assert_eq!(cfg.add_playlist(form), UpdateOutcome::Done);
    assert_eq!(cfg.channels[0].id, "PL42");
    assert_eq!(cfg.channels[0].last_checked, 0);
    let form2 = PlaylistForm { name: "Mix2".to_string(), playlist_id: "PL42".to_string() };
    assert_eq!(cfg.add_playlist(form2), UpdateOutcome::Duplicate);
}

#[test]
fn watermark_advances_to_now_and_never_regresses() {
    let mut cfg = empty_config();
    cfg.add_channel(channel_form("tech"), 1000);
    assert!(cfg.advance_watermark("tech", 5000));
    assert_eq!(cfg.channels[0].last_checked, 5000);
    // Each successful cycle runs at a later clock reading; the watermark
    // only moves forward.
    assert!(cfg.advance_watermark("tech", 7000));
    assert!(cfg.channels[0].last_checked >= 5000);
    assert_eq!(cfg.channels[0].last_checked, 7000);
}

#[test]
fn advancing_a_deleted_source_is_not_an_error() {
    let mut cfg = empty_config();
    assert!(!cfg.advance_watermark("gone", 5000));
    assert_eq!(cfg.channels.len(), 0);
}

#[test]
fn reset_channel_rewinds_the_watermark() {
    let mut cfg = empty_config();
    let mut form = channel_form("aged");
    form.max_age_days = Some(3);
    cfg.add_channel(form, 1000);
    cfg.advance_watermark("aged", DAY_SECS * 20);
    assert_eq!(cfg.reset_channel("aged", DAY_SECS * 20), UpdateOutcome::Done);
    assert_eq!(cfg.channels[0].last_checked, DAY_SECS * 17);
    assert_eq!(cfg.reset_channel("missing", DAY_SECS * 20), UpdateOutcome::NotFound);
}

#[test]
fn reset_channel_refuses_a_playlist_entry() {
    let mut cfg = empty_config();
    cfg.add_playlist(PlaylistForm { name: "Mix".to_string(), playlist_id: "PL1".to_string() });
    assert_eq!(cfg.reset_channel("PL1", 1000), UpdateOutcome::WrongKind);
}

#[test]
fn reset_playlist_rewinds_to_the_epoch() {
    let mut cfg = empty_config();
    cfg.add_playlist(PlaylistForm { name: "Mix".to_string(), playlist_id: "PL1".to_string() });
    cfg.advance_watermark("PL1", 9999);
    assert_eq!(cfg.reset_playlist("PL1"), UpdateOutcome::Done);
    assert_eq!(cfg.channels[0].last_checked, 0);
    assert_eq!(cfg.reset_playlist("nope"), UpdateOutcome::NotFound);
}

#[test]
fn deleting_a_channel_keeps_playlists() {
    let mut cfg = empty_config();
    cfg.add_channel(channel_form("same"), 1000);
    cfg.add_playlist(PlaylistForm { name: "Mix".to_string(), playlist_id: "same".to_string() });
    cfg.delete_channel("same");
    assert_eq!(cfg.channels.len(), 1);
    assert!(matches!(cfg.channels[0].source, Source::Playlist { .. }));
    cfg.delete_playlist("same");
    assert_eq!(cfg.channels.len(), 0);
}

#[test]
fn flags_toggle_independently() {
    let mut cfg = empty_config();
    cfg.set_background_tasks_paused(true);
    assert!(cfg.background_tasks_paused);
    assert!(!cfg.maintain_manifest_cache);
    cfg.set_maintain_manifest_cache(true);
    assert!(cfg.maintain_manifest_cache);
    cfg.set_background_tasks_paused(false);
    assert!(!cfg.background_tasks_paused);
}

#[test]
fn settings_setters_store_their_values() {
    let mut cfg = empty_config();
    cfg.set_check_interval(60);
    assert_eq!(cfg.check_interval, 60);
    cfg.set_media_path("/srv/media".to_string());
    assert_eq!(cfg.jellyfin_media_path, "/srv/media");
    cfg.set_server_address("http://example:9090".to_string());
    assert_eq!(cfg.server_address, "http://example:9090");
}

#[test]
fn server_address_is_prefixed_and_validated() {
    assert_eq!(validate_server_address("localhost:8080").unwrap(), "http://localhost:8080");
    assert_eq!(validate_server_address("https://host.example").unwrap(), "https://host.example");
    match validate_server_address("bad address") {
        Err(rejected) => assert_eq!(rejected, "bad address"),
        Ok(_) => panic!("an address with a space must be rejected"),
    }
}

#[test]
fn migrations_fill_missing_flags_with_defaults() {
    let ch = Channel {
        id: "x".to_string(),
        source: Source::Channel {
            handle: "x".to_string(),
            name: "X".to_string(),
            max_videos: None,
            max_age_days: None,
        },
        last_checked: 77,
        media_dir: "/m/x".to_string(),
    };
    let v3 = ConfigV3 {
        channels: vec![ch.clone()],
        check_interval: 30,
        jellyfin_media_path: "/m".to_string(),
        server_address: "s".to_string(),
        background_tasks_paused: true,
    };
    let c3 = config_from_v3(v3);
    assert!(c3.background_tasks_paused);
    assert!(!c3.maintain_manifest_cache);
    assert_eq!(c3.check_interval, 30);

    let v2 = ConfigV2 {
        channels: vec![ch],
        check_interval: 45,
        jellyfin_media_path: "/m".to_string(),
        server_address: "s".to_string(),
    };
    let c2 = config_from_v2(v2);
    assert!(!c2.background_tasks_paused);
    assert!(!c2.maintain_manifest_cache);
}

#[test]
fn earliest_layout_entries_become_channel_sources() {
    let v1 = ConfigV1 {
        channels: vec![LegacyChannel {
            id: "old-id".to_string(),
            handle: "handle".to_string(),
            name: "Name".to_string(),
            max_videos: Some(3),
            max_age_days: Some(9),
            last_checked: 123,
            media_dir: "/m/handle".to_string(),
        }],
        check_interval: 10,
        jellyfin_media_path: "/m".to_string(),
        server_address: "s".to_string(),
    };
    let c = config_from_v1(v1);
    assert_eq!(c.channels.len(), 1);
    // Entries are re-keyed by handle.
    assert_eq!(c.channels[0].id, "handle");
    assert_eq!(c.channels[0].last_checked, 123);
    match &c.channels[0].source {
        Source::Channel { handle, name, max_videos, max_age_days } => {
            assert_eq!(handle, "handle");
            assert_eq!(name, "Name");
            assert_eq!(*max_videos, Some(3));
            assert_eq!(*max_age_days, Some(9));
        },
        _ => panic!("legacy entries are channels"),
    }
}

fn any_channel() -> Channel {
    Channel {
        id: "c".to_string(),
        source: Source::Channel {
            handle: "c".to_string(),
            name: "C".to_string(),
            max_videos: None,
            max_age_days: None,
        },
        last_checked: 0,
        media_dir: "/m/c".to_string(),
    }
}

#[test]
fn season_is_the_upload_year() {
    let ch = any_channel();
    assert_eq!(ch.get_season_from_date("20240115").unwrap(), 2024);
    assert_eq!(ch.get_season_from_date("19991231").unwrap(), 1999);
    assert_eq!(ch.get_season_from_date("abc"), Err(Failure::Parse));
    assert_eq!(ch.get_season_from_date("2x241201"), Err(Failure::Parse));
}

#[test]
fn safe_filenames_replace_unsafe_characters() {
    let ch = any_channel();
    assert_eq!(ch.create_safe_filename("A b-c:d/e*f"), "A b-c_d_e_f");
    assert_eq!(ch.create_safe_filename("Ünïcode"), "_n_code");
}

#[test]
fn nfo_document_is_exact() {
    let ch = any_channel();
    let v = VideoInfo {
        id: "vid".to_string(),
        title: "My Title".to_string(),
        description: "Plot line".to_string(),
        upload_date: "20240102".to_string(),
        thumbnail_url: "http://t/img.jpg".to_string(),
    };
    let nfo = ch.create_episode_nfo(&v);
    let expected = "<?xml version=\"1.0\" encoding=\"UTF-8\" standalone=\"yes\"?>\n    <episodedetails>\n        <title>My Title</title>\n        <aired>20240102</aired>\n        <premiered>20240102</premiered>\n        <plot>Plot line</plot>\n        <thumb>http://t/img.jpg</thumb>\n    </episodedetails>";
    assert_eq!(nfo, expected);
}

#[test]
fn urls_are_built_per_source_kind() {
    let ch = any_channel();
    assert_eq!(ch.get_url("videos"), "https://www.youtube.com/@c/videos");
    assert_eq!(ch.get_url("channel"), "https://www.youtube.com/@c");
    let with_at = Channel {
        source: Source::Channel {
            handle: "@@handle".to_string(),
            name: "H".to_string(),
            max_videos: None,
            max_age_days: None,
        },
        ..any_channel()
    };
    // Leading at-signs are stripped before the URL is rebuilt.
    assert_eq!(with_at.get_url("videos"), "https://www.youtube.com/@handle/videos");
}

#[test]
fn getters_read_the_descriptor() {
    let ch = any_channel();
    assert_eq!(ch.get_name(), "C");
    assert_eq!(ch.get_handle_or_id(), "c");
    let pl = Channel {
        id: "PL".to_string(),
        source: Source::Playlist { id: "PL".to_string(), name: "Mix".to_string() },
        last_checked: 0,
        media_dir: "/m/PL".to_string(),
    };
    assert_eq!(pl.get_name(), "Mix");
    assert_eq!(pl.get_handle_or_id(), "PL");
}

#[test]
fn materializing_twice_is_a_no_op() {
    let ch = any_channel();
    let v = VideoInfo {
        id: "vid".to_string(),
        title: "Ep: one".to_string(),
        description: "d".to_string(),
        upload_date: "20240102".to_string(),
        thumbnail_url: "http://t".to_string(),
    };
    let plan1 = ch.materialize_plan(&v, "localhost:8080").unwrap();
    assert_eq!(plan1.season_dir, "Season 2024");
    assert_eq!(plan1.stub_name, "20240102 - Ep_ one.strm");
    assert_eq!(plan1.thumb_name, "20240102 - Ep_ one-thumb.jpg");
    assert_eq!(plan1.nfo_name, "20240102 - Ep_ one.nfo");
    assert_eq!(plan1.stub_content, "http://localhost:8080/stream/vid");

    // The first pass writes the stub; an identical video then hits the
    // existence check and is skipped.
    let mut existing: Vec<String> = Vec::new();
    assert!(!stub_exists(&existing, plan1.stub_name.as_str()));
    existing.push(plan1.stub_name.clone());
    let plan2 = ch.materialize_plan(&v, "localhost:8080").unwrap();
    assert_eq!(plan2.stub_name, plan1.stub_name);
    assert!(stub_exists(&existing, plan2.stub_name.as_str()));
}

#[test]
fn stub_url_strips_repeated_scheme_prefixes() {
    let ch = any_channel();
    let v = VideoInfo {
        id: "abc".to_string(),
        title: "T".to_string(),
        description: String::new(),
        upload_date: "20240101".to_string(),
        thumbnail_url: String::new(),
    };
    let plan = ch.materialize_plan(&v, "http://host:1").unwrap();
    assert_eq!(plan.stub_content, "http://host:1/stream/abc");
    let doubled = ch.materialize_plan(&v, "http://http://host:1").unwrap();
    assert_eq!(doubled.stub_content, "http://host:1/stream/abc");
}

#[test]
fn channel_images_pick_avatar_and_banner() {
    let src = Source::Channel {
        handle: "c".to_string(),
        name: "C".to_string(),
        max_videos: None,
        max_age_days: None,
    };
    let listing = "ID Width Height URL\n\
        avatar_uncropped 900 900 http://img/avatar.jpg\n\
        banner_uncropped 2560 1440 http://img/banner.jpg\n\
        shorttoken http://x\n";
    let images = select_images(&src, listing);
    assert_eq!(images.poster.as_deref(), Some("http://img/avatar.jpg"));
    assert_eq!(images.landscape.as_deref(), Some("http://img/banner.jpg"));
}

#[test]
fn playlist_images_require_a_wide_thumbnail() {
    let src = Source::Playlist { id: "PL".to_string(), name: "Mix".to_string() };
    let listing = "0 640 480 http://img/small.jpg\n1 1280 720 http://img/wide.jpg\n";
    let images = select_images(&src, listing);
    assert_eq!(images.poster.as_deref(), Some("http://img/wide.jpg"));
    assert_eq!(images.landscape.as_deref(), Some("http://img/wide.jpg"));

    let narrow_only = "0 640 480 http://img/small.jpg\n";
    let none = select_images(&src, narrow_only);
    assert!(none.poster.is_none());
    assert!(none.landscape.is_none());
}

#[test]
fn rescan_tick_obeys_the_pause_flag() {
    match rescan_tick(true, 240) {
        RescanTick::Skip { recheck_secs } => assert_eq!(recheck_secs, 600),
        RescanTick::Scan { .. } => panic!("a paused loop must not scan"),
    }
    match rescan_tick(false, 240) {
        RescanTick::Scan { sleep_secs } => assert_eq!(sleep_secs, 240 * 60),
        RescanTick::Skip { .. } => panic!("an unpaused loop must scan"),
    }
}

#[test]
fn sweep_tick_skips_without_sources_or_consent() {
    assert!(matches!(sweep_tick(true, true), SweepTick::Skip { recheck_secs: 900 }));
    assert!(matches!(sweep_tick(false, false), SweepTick::Skip { recheck_secs: 900 }));
    match sweep_tick(false, true) {
        SweepTick::Sweep { pacing_secs, sleep_secs } => {
            assert_eq!(pacing_secs, 15);
            assert_eq!(sleep_secs, 1800);
        },
        SweepTick::Skip { .. } => panic!("a populated, enabled sweep must run"),
    }
}

#[test]
fn refresh_window_boundary() {
    let now: u64 = 1_000_000;
    assert!(needs_refresh(now + 1799, now));
    assert!(!needs_refresh(now + 1800, now));
    assert!(needs_refresh(0, now));
}
