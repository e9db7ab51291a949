//! The incremental sync engine's decisions: the date lower bound for a
//! listing request, the request itself, lenient parsing of the listing's
//! records, and the selection of candidates — newest first, truncated to
//! the source's limit.

use vstd::prelude::*;

use crate::Failure;
use crate::config::{Channel, Source, SpecVideo, VideoInfo};
use crate::shims::{format_yyyymmdd, read_record_fields, record_of, yyyymmdd_of, MAX_FORMAT_SECS};
use crate::text::{
    chars_lt, copy_byte_range, copy_range, find_byte, find_char, first_byte, first_nl,
    lemma_first_byte_unique, lemma_first_nl_unique, lemma_lex_lt_trans, lex_lt, str_to_chars,
    trim_chars, trim_spec,
};
use crate::shims::chars_to_string;

verus! {

/// The safety margin subtracted from the watermark when computing the
/// date lower bound: two days.
pub const SYNC_SAFETY_MARGIN_SECS: u64 = 172800;

/// Zero, or the value when it is nonnegative.
pub open spec fn at_least_zero(x: int) -> int {
    if x >= 0 {
        x
    } else {
        0
    }
}

/// The `max_videos` constraint, applicable to channels only.
pub open spec fn spec_max_videos(s: Source) -> Option<usize> {
    match s {
        Source::Channel { max_videos, .. } => max_videos,
        Source::Playlist { .. } => None,
    }
}

/// The date lower bound of a listing request: the watermark less the
/// safety margin when the watermark lies in the past; for a channel with
/// `max_age_days`, at least `max_age_days` back from now; absence of both
/// means no date filter.
pub open spec fn spec_date_bound(last_checked: u64, source: Source, now: u64) -> Option<int> {
    let base: Option<int> = if last_checked < now {
        Some(at_least_zero(last_checked - SYNC_SAFETY_MARGIN_SECS))
    } else {
        None
    };
    match source {
        Source::Channel { max_age_days: Some(d), .. } => {
            let age = at_least_zero(now - d * (crate::config::DAY_SECS as int));
            match base {
                Some(b) => if age > b {
                    Some(age)
                } else {
                    Some(b)
                },
                None => Some(age),
            }
        },
        _ => base,
    }
}

/// Compute the date lower bound for one source.
pub fn compute_date_bound(channel: &Channel, now: u64) -> (r: Option<u64>)
    ensures
        match r {
            Some(b) => spec_date_bound(channel.last_checked, channel.source, now) == Some(b as int),
            None => spec_date_bound(channel.last_checked, channel.source, now) is None,
        },
{
    let base: Option<u64> = if channel.last_checked < now {
        if channel.last_checked >= SYNC_SAFETY_MARGIN_SECS {
            Some(channel.last_checked - SYNC_SAFETY_MARGIN_SECS)
        } else {
            Some(0)
        }
    } else {
        None
    };
    let days: Option<u32> = match &channel.source {
        Source::Channel { max_age_days, .. } => *max_age_days,
        Source::Playlist { .. } => None,
    };
    match days {
        Some(d) => {
            let back = (d as u64) * crate::config::DAY_SECS;
            proof {
                assert(d as int * crate::config::DAY_SECS as int <= 0xFFFF_FFFFu64 as int
                    * crate::config::DAY_SECS as int);
            }
            let age: u64 = if now >= back {
                now - back
            } else {
                0
            };
            match base {
                Some(b) => if age > b {
                    Some(age)
                } else {
                    Some(b)
                },
                None => Some(age),
            }
        },
        None => base,
    }
}

/// What one listing invocation of the collaborator needs: the collection
/// locator, the date lower bound (as a YYYYMMDD string) and, for channels,
/// the result-count bound.
pub struct ListingRequest {
    pub url: String,
    pub date_after: Option<String>,
    pub max_count: Option<usize>,
}

/// Build the listing request for one source.
pub fn listing_request(channel: &Channel, now: u64) -> (r: ListingRequest)
    requires
        now < MAX_FORMAT_SECS,
    ensures
        r.url@ == crate::materialize::spec_source_url(channel.source, "videos"@),
        match spec_date_bound(channel.last_checked, channel.source, now) {
            Some(b) => r.date_after matches Some(s) && s@ == yyyymmdd_of(b),
            None => r.date_after is None,
        },
        r.max_count == spec_max_videos(channel.source),
{
    let url = channel.get_url("videos");
    let date_after = match compute_date_bound(channel, now) {
        Some(b) => Some(format_yyyymmdd(b)),
        None => None,
    };
    let max_count = match &channel.source {
        Source::Channel { max_videos, .. } => *max_videos,
        Source::Playlist { .. } => None,
    };
    ListingRequest { url, date_after, max_count }
}

/// The first paragraph of a description: the text up to the first line
/// break, trimmed on both sides.
pub open spec fn spec_first_paragraph(s: Seq<char>) -> Seq<char> {
    let t = trim_spec(s);
    trim_spec(t.take(first_nl(t) as int))
}

/// Keep only the first paragraph of a description.
pub fn first_paragraph(s: &str) -> (r: String)
    ensures
        r@ == spec_first_paragraph(s@),
{
    let chars = str_to_chars(s);
    let t = trim_chars(&chars);
    let head = match find_char(&t, '\n', 0) {
        Some(k) => {
            proof {
                lemma_first_nl_unique(t@, k as int);
            }
            copy_range(&t, 0, k)
        },
        None => {
            proof {
                lemma_first_nl_unique(t@, t@.len() as int);
            }
            copy_range(&t, 0, t.len())
        },
    };
    proof {
        assert(head@ =~= t@.take(first_nl(t@) as int));
    }
    let out = trim_chars(&head);
    chars_to_string(&out)
}

/// One record with its description cut to the first paragraph.
pub open spec fn cooked_record(f: SpecVideo) -> SpecVideo {
    SpecVideo { description: spec_first_paragraph(f.description), ..f }
}

/// The records a listing's bytes yield: split at newlines, empty lines
/// dropped, each remaining line read as one record — malformed lines
/// dropped silently — and each description cut to its first paragraph.
pub open spec fn spec_records(s: Seq<u8>) -> Seq<SpecVideo>
    decreases s.len(),
{
    if s.len() == 0 {
        Seq::empty()
    } else {
        let i = first_byte(s, 10);
        if i < s.len() {
            let line = s.take(i as int);
            let rest = spec_records(s.skip(i as int + 1));
            if line.len() == 0 {
                rest
            } else {
                match record_of(line) {
                    Some(f) => seq![cooked_record(f)] + rest,
                    None => rest,
                }
            }
        } else {
            match record_of(s) {
                Some(f) => seq![cooked_record(f)],
                None => Seq::empty(),
            }
        }
    }
}

/// Parse one record of the newline-delimited listing. A record missing
/// any required field is dropped, never a failure for the whole batch;
/// the description keeps only its first paragraph.
pub fn parse_listing_record(line: &[u8]) -> (r: Option<VideoInfo>)
    ensures
        match record_of(line@) {
            None => r is None,
            Some(f) => r matches Some(v) && v@ == cooked_record(f),
        },
{
    match read_record_fields(line) {
        None => None,
        Some(raw) => {
            let VideoInfo { id, title, description, upload_date, thumbnail_url } = raw;
            let description = first_paragraph(description.as_str());
            let out = VideoInfo { id, title, description, upload_date, thumbnail_url };
            proof {
                assert(out@ =~~= cooked_record(record_of(line@).unwrap()));
            }
            Some(out)
        },
    }
}

/// Parse the collaborator's newline-delimited listing output, dropping
/// empty lines and malformed records silently.
pub fn parse_listing(output: &[u8]) -> (r: Vec<VideoInfo>)
    ensures
        r.deep_view() == spec_records(output@),
{
    let n = output.len();
    let mut records: Vec<VideoInfo> = Vec::new();
    let mut pos: usize = 0;
    proof {
        assert(output@.skip(0) =~= output@);
        assert(records.deep_view() + spec_records(output@) =~~= spec_records(output@));
    }
    while pos < n
        invariant
            n == output@.len(),
            pos <= n,
            spec_records(output@) == records.deep_view() + spec_records(output@.skip(pos as int)),
        decreases n - pos,
    {
        let ghost rest = output@.skip(pos as int);
        let ghost dv0 = records.deep_view();
        match find_byte(output, 10, pos) {
            Some(i) => {
                proof {
                    assert forall|j: int| 0 <= j < i - pos implies rest[j] != 10 by {
                        assert(rest[j] == output@[pos + j]);
                    }
                    assert(rest[i - pos] == output@[i as int]);
                    lemma_first_byte_unique(rest, 10, i - pos);
                    assert(rest.take(i - pos) =~= output@.subrange(pos as int, i as int));
                    assert(rest.skip(i - pos + 1) =~= output@.skip(i as int + 1));
                }
                if i > pos {
                    let line = copy_byte_range(output, pos, i);
                    match parse_listing_record(line.as_slice()) {
                        Some(v) => {
                            records.push(v);
                            proof {
                                assert(records.deep_view() =~~= dv0.push(
                                    cooked_record(record_of(rest.take(i - pos)).unwrap()),
                                ));
                            }
                        },
                        None => {},
                    }
                }
                pos = i + 1;
                proof {
                    assert(spec_records(output@) =~~= records.deep_view() + spec_records(
                        output@.skip(pos as int),
                    ));
                }
            },
            None => {
                proof {
                    assert forall|j: int| 0 <= j < n - pos implies rest[j] != 10 by {
                        assert(rest[j] == output@[pos + j]);
                    }
                    lemma_first_byte_unique(rest, 10, rest.len() as int);
                }
                let line = copy_byte_range(output, pos, n);
                proof {
                    assert(line@ =~= rest);
                }
                match parse_listing_record(line.as_slice()) {
                    Some(v) => {
                        records.push(v);
                        proof {
                            assert(records.deep_view() =~~= dv0.push(
                                cooked_record(record_of(rest).unwrap()),
                            ));
                        }
                    },
                    None => {},
                }
                pos = n;
                proof {
                    assert(output@.skip(pos as int) =~= Seq::<u8>::empty());
                    assert(spec_records(output@) =~~= records.deep_view() + spec_records(
                        output@.skip(pos as int),
                    ));
                }
            },
        }
    }
    proof {
        assert(output@.skip(pos as int) =~= Seq::<u8>::empty());
        assert(records.deep_view() =~~= spec_records(output@));
    }
    records
}

/// Insert a video into a list sorted by upload date descending, after
/// every entry at least as recent: a stable descending insertion.
pub open spec fn insert_desc_video(v: SpecVideo, s: Seq<SpecVideo>) -> Seq<SpecVideo>
    decreases s.len(),
{
    if s.len() == 0 {
        seq![v]
    } else if !lex_lt(s[0].upload_date, v.upload_date) {
        seq![s[0]] + insert_desc_video(v, s.skip(1))
    } else {
        seq![v] + s
    }
}

/// Stable sort by upload date, newest first.
pub open spec fn sort_videos_desc(s: Seq<SpecVideo>) -> Seq<SpecVideo>
    decreases s.len(),
{
    if s.len() == 0 {
        Seq::empty()
    } else {
        insert_desc_video(s.last(), sort_videos_desc(s.drop_last()))
    }
}

/// Sorted newest-first: no entry is older than a later one.
pub open spec fn sorted_by_date_desc(s: Seq<SpecVideo>) -> bool {
    forall|i: int, j: int| 0 <= i < j < s.len() ==> !lex_lt(s[i].upload_date, s[j].upload_date)
}

/// At most the first `m` entries are kept, when a limit is set.
pub open spec fn take_at_most(s: Seq<SpecVideo>, m: Option<usize>) -> Seq<SpecVideo> {
    match m {
        Some(k) => if s.len() <= k {
            s
        } else {
            s.take(k as int)
        },
        None => s,
    }
}

/// Inserting before the first strictly older entry is what
/// `insert_desc_video` does.
proof fn lemma_insert_video_at(v: SpecVideo, s: Seq<SpecVideo>, p: int)
    requires
        0 <= p <= s.len(),
        forall|j: int| 0 <= j < p ==> !lex_lt(s[j].upload_date, v.upload_date),
        p < s.len() ==> lex_lt(s[p].upload_date, v.upload_date),
    ensures
        insert_desc_video(v, s) == s.subrange(0, p).push(v) + s.skip(p),
    decreases p,
{
    if p == 0 {
        if s.len() == 0 {
            assert(s.subrange(0, 0).push(v) + s.skip(0) =~= seq![v]);
        } else {
            assert(s.subrange(0, 0).push(v) + s.skip(0) =~= seq![v] + s);
        }
    } else {
        assert forall|j: int| 0 <= j < p - 1 implies !lex_lt(
            s.skip(1)[j].upload_date,
            v.upload_date,
        ) by {
            assert(s.skip(1)[j] == s[j + 1]);
        }
        assert(p - 1 < s.skip(1).len() ==> lex_lt(s.skip(1)[p - 1].upload_date, v.upload_date));
        lemma_insert_video_at(v, s.skip(1), p - 1);
        assert(seq![s[0]] + (s.skip(1).subrange(0, p - 1).push(v) + s.skip(1).skip(p - 1)) =~= s
            .subrange(0, p).push(v) + s.skip(p));
    }
}

/// Find where a video of the given upload date is inserted.
fn find_video_pos(res: &Vec<VideoInfo>, date: &Vec<char>) -> (p: usize)
    ensures
        p <= res@.len(),
        forall|j: int| 0 <= j < p ==> !lex_lt(res.deep_view()[j].upload_date, date@),
        p < res@.len() ==> lex_lt(res.deep_view()[p as int].upload_date, date@),
{
    let n = res.len();
    let mut p: usize = 0;
    while p < n
        invariant
            n == res@.len(),
            p <= n,
            forall|j: int| 0 <= j < p ==> !lex_lt(res.deep_view()[j].upload_date, date@),
        decreases n - p,
    {
        let entry_date = str_to_chars(res[p].upload_date.as_str());
        if chars_lt(&entry_date, date) {
            return p;
        }
        p += 1;
    }
    p
}

/// Insert one video, keeping the list newest-first.
fn insert_video(res: &mut Vec<VideoInfo>, v: VideoInfo)
    ensures
        final(res).deep_view() == insert_desc_video(v@, old(res).deep_view()),
{
    let ghost dv0 = res.deep_view();
    let ghost vv = v@;
    let date = str_to_chars(v.upload_date.as_str());
    let p = find_video_pos(res, &date);
    res.insert(p, v);
    proof {
        lemma_insert_video_at(vv, dv0, p as int);
        assert(res.deep_view() =~~= dv0.subrange(0, p as int).push(vv) + dv0.skip(p as int));
    }
}

/// Sort videos by upload date, newest first, stably.
pub fn sort_videos(input: Vec<VideoInfo>) -> (r: Vec<VideoInfo>)
    ensures
        r.deep_view() == sort_videos_desc(input.deep_view()),
{
    let ghost orig = input.deep_view();
    let mut rest = input;
    let mut res: Vec<VideoInfo> = Vec::new();
    proof {
        assert(rest.deep_view() =~~= orig.skip(0));
        assert(orig.take(0) =~= Seq::<SpecVideo>::empty());
        assert(res.deep_view() =~~= sort_videos_desc(orig.take(0)));
    }
    while rest.len() > 0
        invariant
            rest@.len() <= orig.len(),
            rest.deep_view() == orig.skip(orig.len() - rest@.len()),
            res.deep_view() == sort_videos_desc(orig.take(orig.len() - rest@.len())),
        decreases rest@.len(),
    {
        let ghost k = orig.len() - rest@.len();
        let ghost rv0 = rest@;
        let v = rest.remove(0);
        proof {
            assert(rest@ =~= rv0.skip(1));
            assert(v@ == rv0[0].deep_view());
            assert(rv0[0].deep_view() == orig.skip(k)[0]);
            assert forall|j: int| 0 <= j < rest@.len() implies rest.deep_view()[j] == orig.skip(
                k + 1,
            )[j] by {
                assert(rest@[j] == rv0[j + 1]);
                assert(rest.deep_view()[j] == rest@[j].deep_view());
                assert(rv0[j + 1].deep_view() == orig.skip(k)[j + 1]);
                assert(orig.skip(k)[j + 1] == orig.skip(k + 1)[j]);
            }
            assert(rest.deep_view() =~~= orig.skip(k + 1));
        }
        insert_video(&mut res, v);
        proof {
            assert(orig.take(k + 1).drop_last() =~= orig.take(k));
            assert(orig.take(k + 1).last() == orig[k]);
            assert(orig[k] == orig.skip(k)[0]);
            assert(res.deep_view() == insert_desc_video(orig[k], sort_videos_desc(orig.take(k))));
            assert(res.deep_view() == sort_videos_desc(orig.take(k + 1)));
        }
    }
    proof {
        assert(orig.take(orig.len() as int) =~= orig);
    }
    res
}

/// Order the candidates newest first and truncate to the source's limit.
/// An empty result after filtering — an empty listing, or a zero limit —
/// is terminal for the cycle: the watermark must not advance on it.
pub fn select_new_videos(videos: Vec<VideoInfo>, max_videos: Option<usize>) -> (r: Result<
    Vec<VideoInfo>,
    Failure,
>)
    ensures
        r is Err <==> take_at_most(sort_videos_desc(videos.deep_view()), max_videos).len() == 0,
        match r {
            Ok(v) => v.deep_view() == take_at_most(sort_videos_desc(videos.deep_view()), max_videos),
            Err(e) => e == Failure::NotFound,
        },
{
    let ghost orig = videos.deep_view();
    let mut sorted = sort_videos(videos);
    proof {
        lemma_sort_videos_len(orig);
    }
    match max_videos {
        Some(k) => {
            if sorted.len() > k {
                sorted.truncate(k);
                proof {
                    assert(sorted.deep_view() =~~= take_at_most(sort_videos_desc(orig), Some(k)));
                }
            } else {
                proof {
                    assert(sorted.deep_view() =~~= take_at_most(sort_videos_desc(orig), Some(k)));
                }
            }
        },
        None => {},
    }
    if sorted.len() == 0 {
        return Err(Failure::NotFound);
    }
    Ok(sorted)
}

pub proof fn lemma_insert_video_len(v: SpecVideo, s: Seq<SpecVideo>)
    ensures
        insert_desc_video(v, s).len() == s.len() + 1,
    decreases s.len(),
{
    if s.len() > 0 && !lex_lt(s[0].upload_date, v.upload_date) {
        lemma_insert_video_len(v, s.skip(1));
    }
}

pub proof fn lemma_sort_videos_len(s: Seq<SpecVideo>)
    ensures
        sort_videos_desc(s).len() == s.len(),
    decreases s.len(),
{
    if s.len() > 0 {
        lemma_sort_videos_len(s.drop_last());
        lemma_insert_video_len(s.last(), sort_videos_desc(s.drop_last()));
    }
}

pub proof fn lemma_insert_video_membership(v: SpecVideo, s: Seq<SpecVideo>, x: SpecVideo)
    ensures
        (exists|i: int| 0 <= i < insert_desc_video(v, s).len() && insert_desc_video(v, s)[i] == x)
            <==> (x == v || exists|i: int| 0 <= i < s.len() && s[i] == x),
    decreases s.len(),
{
    let r = insert_desc_video(v, s);
    if s.len() == 0 {
        assert(r[0] == v);
    } else if !lex_lt(s[0].upload_date, v.upload_date) {
        lemma_insert_video_membership(v, s.skip(1), x);
        let t = insert_desc_video(v, s.skip(1));
        assert(r == seq![s[0]] + t);
        assert(r[0] == s[0]);
        if exists|i: int| 0 <= i < r.len() && r[i] == x {
            let i = choose|i: int| 0 <= i < r.len() && r[i] == x;
            if i > 0 {
                assert(t[i - 1] == x);
                if exists|j: int| 0 <= j < s.skip(1).len() && s.skip(1)[j] == x {
                    let j = choose|j: int| 0 <= j < s.skip(1).len() && s.skip(1)[j] == x;
                    assert(s[j + 1] == x);
                }
            }
        }
        if x == v {
            let i = choose|i: int| 0 <= i < t.len() && t[i] == x;
            assert(r[i + 1] == x);
        } else if exists|j: int| 0 <= j < s.len() && s[j] == x {
            let j = choose|j: int| 0 <= j < s.len() && s[j] == x;
            if j == 0 {
                assert(r[0] == x);
            } else {
                assert(s.skip(1)[j - 1] == x);
                let i = choose|i: int| 0 <= i < t.len() && t[i] == x;
                assert(r[i + 1] == x);
            }
        }
    } else {
        assert(r == seq![v] + s);
        assert(r[0] == v);
        if exists|i: int| 0 <= i < r.len() && r[i] == x {
            let i = choose|i: int| 0 <= i < r.len() && r[i] == x;
            if i > 0 {
                assert(s[i - 1] == x);
            }
        }
        if exists|j: int| 0 <= j < s.len() && s[j] == x {
            let j = choose|j: int| 0 <= j < s.len() && s[j] == x;
            assert(r[j + 1] == x);
        }
    }
}

pub proof fn lemma_insert_video_sorted(v: SpecVideo, s: Seq<SpecVideo>)
    requires
        sorted_by_date_desc(s),
    ensures
        sorted_by_date_desc(insert_desc_video(v, s)),
    decreases s.len(),
{
    let r = insert_desc_video(v, s);
    if s.len() == 0 {
    } else if !lex_lt(s[0].upload_date, v.upload_date) {
        assert forall|i: int, j: int| 0 <= i < j < s.skip(1).len() implies !lex_lt(
            s.skip(1)[i].upload_date,
            s.skip(1)[j].upload_date,
        ) by {
            assert(s.skip(1)[i] == s[i + 1]);
            assert(s.skip(1)[j] == s[j + 1]);
        }
        lemma_insert_video_sorted(v, s.skip(1));
        lemma_insert_video_len(v, s.skip(1));
        let t = insert_desc_video(v, s.skip(1));
        assert forall|i: int, j: int| 0 <= i < j < r.len() implies !lex_lt(
            r[i].upload_date,
            r[j].upload_date,
        ) by {
            if i == 0 {
                assert(r[j] == t[j - 1]);
                lemma_insert_video_membership(v, s.skip(1), t[j - 1]);
                if t[j - 1] == v {
                    assert(!lex_lt(s[0].upload_date, v.upload_date));
                } else {
                    let k = choose|k: int| 0 <= k < s.skip(1).len() && s.skip(1)[k] == t[j - 1];
                    assert(s[k + 1] == t[j - 1]);
                    assert(!lex_lt(s[0].upload_date, s[k + 1].upload_date));
                }
            } else {
                assert(r[i] == t[i - 1]);
                assert(r[j] == t[j - 1]);
            }
        }
    } else {
        assert forall|i: int, j: int| 0 <= i < j < r.len() implies !lex_lt(
            r[i].upload_date,
            r[j].upload_date,
        ) by {
            if i == 0 {
                assert(r[j] == s[j - 1]);
                if lex_lt(v.upload_date, s[j - 1].upload_date) {
                    if j == 1 {
                        lemma_lex_lt_trans(v.upload_date, s[0].upload_date, v.upload_date);
                        crate::text::lemma_lex_lt_irrefl(v.upload_date);
                    } else {
                        assert(!lex_lt(s[0].upload_date, s[j - 1].upload_date));
                        lemma_lex_lt_trans(
                            s[0].upload_date,
                            v.upload_date,
                            s[j - 1].upload_date,
                        );
                    }
                }
            } else {
                assert(r[i] == s[i - 1]);
                assert(r[j] == s[j - 1]);
            }
        }
    }
}

/// The selection keeps the most recent candidates: sorting never loses
/// the newest-first order, and the kept prefix is newest-first too.
pub proof fn lemma_sort_videos_sorted(s: Seq<SpecVideo>)
    ensures
        sorted_by_date_desc(sort_videos_desc(s)),
    decreases s.len(),
{
    if s.len() > 0 {
        lemma_sort_videos_sorted(s.drop_last());
        lemma_insert_video_sorted(s.last(), sort_videos_desc(s.drop_last()));
    }
}

/// What the selection promises as a whole: with a limit of `k` on `n`
/// candidates, exactly min(n, k) are kept, newest first.
pub proof fn lemma_selection_count(s: Seq<SpecVideo>, k: usize)
    ensures
        take_at_most(sort_videos_desc(s), Some(k)).len() == if s.len() <= k {
            s.len()
        } else {
            k as nat
        },
        sorted_by_date_desc(take_at_most(sort_videos_desc(s), Some(k))),
{
    lemma_sort_videos_len(s);
    lemma_sort_videos_sorted(s);
    let sorted = sort_videos_desc(s);
    let kept = take_at_most(sorted, Some(k));
    assert forall|i: int, j: int| 0 <= i < j < kept.len() implies !lex_lt(
        kept[i].upload_date,
        kept[j].upload_date,
    ) by {
        assert(kept[i] == sorted[i]);
        assert(kept[j] == sorted[j]);
    }
}

} // verus!
