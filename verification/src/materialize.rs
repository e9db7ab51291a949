//! The artifact materializer: for one video, the deterministic names and
//! contents of its on-disk stand-ins — season directory, stub pointer
//! file, metadata file and thumbnail — derived from the upload date and
//! title. The stub pointer file is the sole dedup signal: once it exists,
//! the video is considered materialized and is skipped.

use vstd::prelude::*;

use crate::Failure;
use crate::config::{Channel, Source, VideoInfo};
use crate::shims::chars_to_string;
use crate::text::{
    all_digits, append_chars, dec_str, digits_val, parse_u64_digits, str_eq, str_to_chars,
    strip_all_prefix, strip_prefix_loop, u32_to_chars,
};

verus! {

/// A character allowed in an artifact filename: ASCII alphanumerics,
/// dash and space. Every other character is replaced by an underscore.
pub open spec fn is_filename_safe(c: char) -> bool {
    (48 <= c as u32 && c as u32 <= 57) || (65 <= c as u32 && c as u32 <= 90) || (97 <= c as u32
        && c as u32 <= 122) || c == '-' || c == ' '
}

pub open spec fn sanitize_char(c: char) -> char {
    if is_filename_safe(c) {
        c
    } else {
        '_'
    }
}

pub open spec fn spec_sanitize(s: Seq<char>) -> Seq<char> {
    s.map_values(|c: char| sanitize_char(c))
}

/// The base filename of a video's artifacts: its upload date and title,
/// joined and sanitized.
pub open spec fn spec_safe_base(upload_date: Seq<char>, title: Seq<char>) -> Seq<char> {
    spec_sanitize(upload_date + " - "@ + title)
}

/// The stub pointer filename that marks a video as materialized.
pub open spec fn spec_stub_name(upload_date: Seq<char>, title: Seq<char>) -> Seq<char> {
    spec_safe_base(upload_date, title) + ".strm"@
}

/// The upload year, read from the first four characters of a YYYYMMDD
/// date string.
pub open spec fn spec_season(upload_date: Seq<char>) -> Option<int> {
    if upload_date.len() >= 4 && all_digits(upload_date.take(4)) {
        Some(digits_val(upload_date.take(4)))
    } else {
        None
    }
}

/// The metadata document written beside each video.
pub open spec fn spec_nfo(
    title: Seq<char>,
    upload_date: Seq<char>,
    description: Seq<char>,
    thumbnail_url: Seq<char>,
) -> Seq<char> {
    "<?xml version=\"1.0\" encoding=\"UTF-8\" standalone=\"yes\"?>\n    <episodedetails>\n        <title>"@
        + title + "</title>\n        <aired>"@ + upload_date
        + "</aired>\n        <premiered>"@ + upload_date + "</premiered>\n        <plot>"@
        + description + "</plot>\n        <thumb>"@ + thumbnail_url
        + "</thumb>\n    </episodedetails>"@
}

/// The single line of a stub pointer file: this system's own playback
/// endpoint for the video, under the configured server address.
pub open spec fn spec_stub_url(server_address: Seq<char>, video_id: Seq<char>) -> Seq<char> {
    "http://"@ + strip_all_prefix(server_address, "http://"@) + "/stream/"@ + video_id
}

/// Every digit sequence of length `n` is below ten to the `n`.
pub open spec fn pow10(n: nat) -> int
    decreases n,
{
    if n == 0 {
        1
    } else {
        10 * pow10((n - 1) as nat)
    }
}

pub proof fn lemma_digits_val_below_pow10(s: Seq<char>)
    requires
        all_digits(s),
    ensures
        digits_val(s) < pow10(s.len()),
    decreases s.len(),
{
    if s.len() > 0 {
        assert(all_digits(s.drop_last()));
        lemma_digits_val_below_pow10(s.drop_last());
    }
}

impl Channel {
    /// The display name of this source.
    pub fn get_name(&self) -> (r: &str)
        ensures
            r@ == crate::config::spec_name(self.source),
    {
        match &self.source {
            Source::Channel { name, .. } => name.as_str(),
            Source::Playlist { name, .. } => name.as_str(),
        }
    }

    /// The handle of a channel, or the id of a playlist.
    pub fn get_handle_or_id(&self) -> (r: &str)
        ensures
            r@ == crate::config::spec_handle_or_id(self.source),
    {
        match &self.source {
            Source::Channel { handle, .. } => handle.as_str(),
            Source::Playlist { id, .. } => id.as_str(),
        }
    }

    /// The canonical collection locator handed to the collaborator: the
    /// videos tab or the channel page for a channel, the playlist page
    /// for a playlist.
    pub fn get_url(&self, command_type: &str) -> (r: String)
        requires
            (self.source matches Source::Channel { .. }) ==> command_type@ == "videos"@
                || command_type@ == "channel"@,
        ensures
            r@ == spec_source_url(self.source, command_type@),
    {
        match &self.source {
            Source::Channel { handle, .. } => {
                let handle_chars = str_to_chars(handle.as_str());
                let mut at: Vec<char> = Vec::new();
                at.push('@');
                proof {
                    assert(at@ =~= seq!['@']);
                }
                let trimmed = strip_prefix_loop(&handle_chars, &at);
                let mut out = str_to_chars("https://www.youtube.com/@");
                append_chars(&mut out, &trimmed);
                if str_eq(command_type, "videos") {
                    let tail = str_to_chars("/videos");
                    append_chars(&mut out, &tail);
                }
                chars_to_string(&out)
            },
            Source::Playlist { id, .. } => {
                let mut out = str_to_chars("https://www.youtube.com/playlist?list=");
                let id_chars = str_to_chars(id.as_str());
                append_chars(&mut out, &id_chars);
                chars_to_string(&out)
            },
        }
    }

    /// The season bucket of a video: its upload year, read from the
    /// YYYYMMDD date string.
    pub fn get_season_from_date(&self, upload_date: &str) -> (r: Result<u32, Failure>)
        ensures
            match spec_season(upload_date@) {
                Some(y) => r matches Ok(v) && v as int == y,
                None => r == Result::<u32, Failure>::Err(Failure::Parse),
            },
    {
        let chars = str_to_chars(upload_date);
        if chars.len() < 4 {
            return Err(Failure::Parse);
        }
        match parse_u64_digits(&chars, 0, 4) {
            None => {
                proof {
                    assert(chars@.subrange(0, 4) =~= upload_date@.take(4));
                    if all_digits(upload_date@.take(4)) {
                        lemma_digits_val_below_pow10(upload_date@.take(4));
                        assert(pow10(4) == 10000) by {
                            reveal_with_fuel(pow10, 5);
                        }
                    }
                }
                Err(Failure::Parse)
            },
            Some(v) => {
                proof {
                    assert(chars@.subrange(0, 4) =~= upload_date@.take(4));
                    lemma_digits_val_below_pow10(upload_date@.take(4));
                    assert(pow10(4) == 10000) by {
                        reveal_with_fuel(pow10, 5);
                    }
                }
                Ok(v as u32)
            },
        }
    }

    /// Replace every character outside the safe set by an underscore.
    pub fn create_safe_filename(&self, base: &str) -> (r: String)
        ensures
            r@ == spec_sanitize(base@),
    {
        let chars = str_to_chars(base);
        let n = chars.len();
        let mut out: Vec<char> = Vec::new();
        let mut i: usize = 0;
        while i < n
            invariant
                n == chars@.len(),
                chars@ == base@,
                i <= n,
                out@ == spec_sanitize(base@.take(i as int)),
            decreases n - i,
        {
            let c = chars[i];
            let u = c as u32;
            let safe = (48 <= u && u <= 57) || (65 <= u && u <= 90) || (97 <= u && u <= 122) || c
                == '-' || c == ' ';
            proof {
                if c != '-' && c != ' ' {
                    vstd::utf8::char_u32_cast(c, u);
                }
                assert(safe == is_filename_safe(c));
            }
            if safe {
                out.push(c);
            } else {
                out.push('_');
            }
            i += 1;
            proof {
                assert(out@ =~= spec_sanitize(base@.take(i as int)));
            }
        }
        proof {
            assert(base@.take(n as int) =~= base@);
        }
        chars_to_string(&out)
    }

    /// The metadata document for one video: title, aired and premiered
    /// dates, plot and thumbnail reference.
    pub fn create_episode_nfo(&self, video: &VideoInfo) -> (r: String)
        ensures
            r@ == spec_nfo(video.title@, video.upload_date@, video.description@, video.thumbnail_url@),
    {
        let mut out = str_to_chars(
            "<?xml version=\"1.0\" encoding=\"UTF-8\" standalone=\"yes\"?>\n    <episodedetails>\n        <title>",
        );
        let title = str_to_chars(video.title.as_str());
        append_chars(&mut out, &title);
        let sep1 = str_to_chars("</title>\n        <aired>");
        append_chars(&mut out, &sep1);
        let date = str_to_chars(video.upload_date.as_str());
        append_chars(&mut out, &date);
        let sep2 = str_to_chars("</aired>\n        <premiered>");
        append_chars(&mut out, &sep2);
        append_chars(&mut out, &date);
        let sep3 = str_to_chars("</premiered>\n        <plot>");
        append_chars(&mut out, &sep3);
        let plot = str_to_chars(video.description.as_str());
        append_chars(&mut out, &plot);
        let sep4 = str_to_chars("</plot>\n        <thumb>");
        append_chars(&mut out, &sep4);
        let thumb = str_to_chars(video.thumbnail_url.as_str());
        append_chars(&mut out, &thumb);
        let sep5 = str_to_chars("</thumb>\n    </episodedetails>");
        append_chars(&mut out, &sep5);
        chars_to_string(&out)
    }
}

/// The canonical collection locator for a source.
pub open spec fn spec_source_url(s: Source, command_type: Seq<char>) -> Seq<char> {
    match s {
        Source::Channel { handle, .. } => {
            let trimmed = strip_all_prefix(handle@, seq!['@']);
            if command_type == "videos"@ {
                "https://www.youtube.com/@"@ + trimmed + "/videos"@
            } else {
                "https://www.youtube.com/@"@ + trimmed
            }
        },
        Source::Playlist { id, .. } => "https://www.youtube.com/playlist?list="@ + id@,
    }
}

/// The names and contents of one video's artifacts, all derived
/// deterministically from the video's fields and the server address.
pub struct ArtifactPlan {
    /// The season directory under the source's artifact tree: "Season "
    /// followed by the upload year.
    pub season_dir: String,
    /// The thumbnail filename within the season directory.
    pub thumb_name: String,
    /// The metadata filename within the season directory.
    pub nfo_name: String,
    /// The stub pointer filename within the season directory; its
    /// existence marks the video as materialized.
    pub stub_name: String,
    /// The metadata document.
    pub nfo_content: String,
    /// The single line of the stub pointer file.
    pub stub_content: String,
    /// Where the thumbnail is fetched from.
    pub thumbnail_url: String,
}

/// Build the single line of a stub pointer file.
pub fn stub_url(server_address: &str, video_id: &str) -> (r: String)
    ensures
        r@ == spec_stub_url(server_address@, video_id@),
{
    let mut out = str_to_chars("http://");
    let addr = str_to_chars(server_address);
    let prefix = str_to_chars("http://");
    proof {
        reveal_strlit("http://");
    }
    let trimmed = strip_prefix_loop(&addr, &prefix);
    append_chars(&mut out, &trimmed);
    let sep = str_to_chars("/stream/");
    append_chars(&mut out, &sep);
    let id = str_to_chars(video_id);
    append_chars(&mut out, &id);
    chars_to_string(&out)
}

impl Channel {
    /// Everything the materializer will write for one video, derived
    /// deterministically from the video's date, title, id and thumbnail
    /// and from the configured server address. Fails exactly when the
    /// upload date does not start with a four-digit year.
    pub fn materialize_plan(&self, video: &VideoInfo, server_address: &str) -> (r: Result<
        ArtifactPlan,
        Failure,
    >)
        ensures
            match spec_season(video.upload_date@) {
                None => r == Result::<ArtifactPlan, Failure>::Err(Failure::Parse),
                Some(y) => r matches Ok(p) && {
                    let base = spec_safe_base(video.upload_date@, video.title@);
                    &&& p.season_dir@ == "Season "@ + dec_str(y as nat)
                    &&& p.thumb_name@ == base + "-thumb.jpg"@
                    &&& p.nfo_name@ == base + ".nfo"@
                    &&& p.stub_name@ == spec_stub_name(video.upload_date@, video.title@)
                    &&& p.nfo_content@ == spec_nfo(
                        video.title@,
                        video.upload_date@,
                        video.description@,
                        video.thumbnail_url@,
                    )
                    &&& p.stub_content@ == spec_stub_url(server_address@, video.id@)
                    &&& p.thumbnail_url@ == video.thumbnail_url@
                },
            },
    {
        let season = match self.get_season_from_date(video.upload_date.as_str()) {
            Ok(y) => y,
            Err(e) => {
                return Err(e);
            },
        };
        let mut season_dir = str_to_chars("Season ");
        let year = u32_to_chars(season);
        append_chars(&mut season_dir, &year);
        let mut base_chars = str_to_chars(video.upload_date.as_str());
        let sep = str_to_chars(" - ");
        append_chars(&mut base_chars, &sep);
        let title = str_to_chars(video.title.as_str());
        append_chars(&mut base_chars, &title);
        let base = self.create_safe_filename(chars_to_string(&base_chars).as_str());
        let base_view = str_to_chars(base.as_str());
        let mut thumb_name = str_to_chars(base.as_str());
        let thumb_suffix = str_to_chars("-thumb.jpg");
        append_chars(&mut thumb_name, &thumb_suffix);
        let mut nfo_name = str_to_chars(base.as_str());
        let nfo_suffix = str_to_chars(".nfo");
        append_chars(&mut nfo_name, &nfo_suffix);
        let mut stub_name = str_to_chars(base.as_str());
        let stub_suffix = str_to_chars(".strm");
        append_chars(&mut stub_name, &stub_suffix);
        let nfo_content = self.create_episode_nfo(video);
        let stub_content = stub_url(server_address, video.id.as_str());
        let thumbnail_url = chars_to_string(&str_to_chars(video.thumbnail_url.as_str()));
        proof {
            assert(base_chars@ =~= video.upload_date@ + " - "@ + video.title@);
        }
        Ok(
            ArtifactPlan {
                season_dir: chars_to_string(&season_dir),
                thumb_name: chars_to_string(&thumb_name),
                nfo_name: chars_to_string(&nfo_name),
                stub_name: chars_to_string(&stub_name),
                nfo_content,
                stub_content,
                thumbnail_url,
            },
        )
    }
}

/// Does the stub pointer name already exist among the season's files?
pub open spec fn spec_contains_name(names: Seq<Seq<char>>, n: Seq<char>) -> bool {
    exists|i: int| 0 <= i < names.len() && names[i] == n
}

/// The existence check the materializer performs before any network
/// fetch: skip the video when its stub pointer file is already present.
pub fn stub_exists(existing: &Vec<String>, stub_name: &str) -> (r: bool)
    ensures
        r == spec_contains_name(existing.deep_view(), stub_name@),
{
    let n = existing.len();
    let mut i: usize = 0;
    while i < n
        invariant
            n == existing@.len(),
            i <= n,
            forall|j: int| 0 <= j < i ==> existing.deep_view()[j] != stub_name@,
        decreases n - i,
    {
        if str_eq(existing[i].as_str(), stub_name) {
            proof {
                assert(existing.deep_view()[i as int] == stub_name@);
            }
            return true;
        }
        i += 1;
    }
    false
}

/// Materializing an identical video twice is a no-op the second time:
/// the stub pointer name depends only on the upload date and title, so
/// the second pass finds the stub the first pass wrote and skips the
/// video, creating no duplicate artifacts.
pub proof fn lemma_materialize_idempotent(
    date: Seq<char>,
    title: Seq<char>,
    existing: Seq<Seq<char>>,
)
    ensures
        spec_contains_name(
            existing.push(spec_stub_name(date, title)),
            spec_stub_name(date, title),
        ),
{
    let names = existing.push(spec_stub_name(date, title));
    assert(names[existing.len() as int] == spec_stub_name(date, title));
}

} // verus!
