//! Tests for the sync engine's decisions: date bounds, listing requests,
//! record parsing and candidate selection.

use ytstrm::config::{Channel, Source, VideoInfo};
use ytstrm::sync::{
    compute_date_bound, first_paragraph, listing_request, parse_listing, select_new_videos,
    SYNC_SAFETY_MARGIN_SECS,
};
use ytstrm::Failure;

fn video(id: &str, date: &str) -> VideoInfo {
    VideoInfo {
        id: id.to_string(),
        title: format!("title {}", id),
        description: String::new(),
        upload_date: date.to_string(),
        thumbnail_url: "http://img".to_string(),
    }
}

fn channel(last_checked: u64, max_videos: Option<usize>, max_age_days: Option<u32>) -> Channel {
    Channel {
        id: "chan".to_string(),
        source: Source::Channel {
            handle: "chan".to_string(),
            name: "Chan".to_string(),
            max_videos,
            max_age_days,
        },
        last_checked,
        media_dir: "/media/chan".to_string(),
    }
}

#[test]
fn limit_of_two_keeps_the_two_most_recent() {
    // Five upstream items newer than the watermark, a limit of two:
    // exactly the two most recent survive, newest first.
    let videos = vec![
        video("a", "20240103"),
        video("b", "20240101"),
        video("c", "20240105"),
        video("d", "20240102"),
        video("e", "20240104"),
    ];
    let kept = select_new_videos(videos, Some(2)).unwrap();
    assert_eq!(kept.len(), 2);
    assert_eq!(kept[0].id, "c");
    assert_eq!(kept[1].id, "e");
}

#[test]
fn no_limit_keeps_everything_sorted() {
    let videos = vec![video("a", "20240101"), video("b", "20240103"), video("c", "20240102")];
    let kept = select_new_videos(videos, None).unwrap();
    assert_eq!(kept.len(), 3);
    assert_eq!(kept[0].id, "b");
    assert_eq!(kept[1].id, "c");
    assert_eq!(kept[2].id, "a");
}

#[test]
fn equal_dates_keep_their_order() {
    let videos = vec![video("a", "20240101"), video("b", "20240101"), video("c", "20240102")];
    let kept = select_new_videos(videos, None).unwrap();
    assert_eq!(kept[0].id, "c");
    assert_eq!(kept[1].id, "a");
    assert_eq!(kept[2].id, "b");
}

#[test]
fn empty_listing_is_terminal() {
    match select_new_videos(Vec::new(), Some(5)) {
        Err(e) => assert_eq!(e, Failure::NotFound),
        Ok(_) => panic!("an empty listing must not succeed"),
    }
}

#[test]
fn empty_selection_after_truncation_is_terminal() {
    // The emptiness test follows the truncation: a zero limit empties a
    // nonempty listing, and the cycle must fail without advancing the
    // watermark.
    let videos = vec![video("a", "20240101"), video("b", "20240102")];
    match select_new_videos(videos, Some(0)) {
        Err(e) => assert_eq!(e, Failure::NotFound),
        Ok(_) => panic!("a zero limit must not yield a successful cycle"),
    }
}

#[test]
fn first_paragraph_cuts_at_the_first_line_break() {
    assert_eq!(first_paragraph("  hello world\nsecond paragraph  "), "hello world");
    assert_eq!(first_paragraph("single"), "single");
    assert_eq!(first_paragraph("a\r\nb"), "a");
    assert_eq!(first_paragraph("   "), "");
}

#[test]
fn date_bound_subtracts_the_safety_margin() {
    let now: u64 = 10_000_000;
    let ch = channel(9_000_000, None, None);
    assert_eq!(compute_date_bound(&ch, now), Some(9_000_000 - SYNC_SAFETY_MARGIN_SECS));
}

#[test]
fn date_bound_saturates_at_the_epoch() {
    let ch = channel(1000, None, None);
    assert_eq!(compute_date_bound(&ch, 2000), Some(0));
}

#[test]
fn date_bound_absent_when_watermark_is_current() {
    let ch = channel(5000, None, None);
    assert_eq!(compute_date_bound(&ch, 5000), None);
}

#[test]
fn date_bound_takes_the_more_recent_of_watermark_and_age() {
    let now: u64 = 86400 * 100;
    // Watermark bound: far in the past; age bound: two days back. The
    // more recent wins.
    let ch = channel(86400 * 10, None, Some(2));
    assert_eq!(compute_date_bound(&ch, now), Some(86400 * 98));
    // Watermark bound more recent than a ninety-day age bound.
    let ch2 = channel(86400 * 99, None, Some(90));
    assert_eq!(compute_date_bound(&ch2, now), Some(86400 * 99 - SYNC_SAFETY_MARGIN_SECS));
}

#[test]
fn playlist_sources_have_no_age_or_count_bound() {
    let ch = Channel {
        id: "pl".to_string(),
        source: Source::Playlist { id: "PL123".to_string(), name: "List".to_string() },
        last_checked: 0,
        media_dir: "/media/pl".to_string(),
    };
    let req = listing_request(&ch, 1000);
    assert_eq!(req.url, "https://www.youtube.com/playlist?list=PL123");
    assert_eq!(req.max_count, None);
    // Watermark at the epoch, now past it: the bound saturates at the
    // epoch and renders as the first calendar day.
    assert_eq!(req.date_after.as_deref(), Some("19700101"));
}

#[test]
fn listing_request_renders_the_bound_as_a_calendar_date() {
    // 2024-01-10 00:00:00 UTC is epoch second 1704844800; two days of
    // safety margin land on 2024-01-08.
    let ch = channel(1_704_844_800, Some(7), None);
    let req = listing_request(&ch, 1_705_000_000);
    assert_eq!(req.url, "https://www.youtube.com/@chan/videos");
    assert_eq!(req.max_count, Some(7));
    assert_eq!(req.date_after.as_deref(), Some("20240108"));
}

#[test]
fn listing_records_parse_and_keep_first_paragraph_only() {
    let line1 = "{\"id\":\"v1\",\"title\":\"One\",\"description\":\"first para\\nrest\",\"upload_date\":\"20240101\",\"thumbnail\":\"http://t/1\"}";
    let line2 = "not json at all";
    let line3 = "{\"id\":\"v2\",\"title\":\"Two\",\"upload_date\":\"20240102\",\"thumbnail\":\"http://t/2\"}";
    let line4 = "{\"id\":\"v3\",\"title\":\"Three\",\"description\":\"only para\",\"upload_date\":\"20240103\",\"thumbnail\":\"http://t/3\"}";
    let output = format!("{}\n{}\n{}\n\n{}\n", line1, line2, line3, line4);
    let records = parse_listing(output.as_bytes());
    // The malformed line and the record missing its description are
    // dropped silently; the rest parse.
    assert_eq!(records.len(), 2);
    assert_eq!(records[0].id, "v1");
    assert_eq!(records[0].description, "first para");
    assert_eq!(records[1].id, "v3");
    assert_eq!(records[1].description, "only para");
}
