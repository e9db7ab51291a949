//! Tracked sources and their watermarks.
//!
//! A tracked source is a channel or a playlist; its watermark is the
//! last-checked timestamp bounding what counts as new. The watermark is
//! advanced by the sync engine after a successful listing and is otherwise
//! changed only by explicit reset, or removed with the source.

use vstd::prelude::*;

use crate::text::{str_eq, str_to_chars};
use crate::shims::chars_to_string;

verus! {

/// Seconds in a day.
pub const DAY_SECS: u64 = 86400;

/// What a source is tracked as: a channel with optional constraints, or a
/// playlist.
#[derive(Clone)]
pub enum Source {
    Channel { handle: String, name: String, max_videos: Option<usize>, max_age_days: Option<u32> },
    Playlist { id: String, name: String },
}

/// One tracked source: its stable key, descriptor, watermark (epoch
/// seconds) and the artifact directory it exclusively owns.
#[derive(Clone)]
pub struct Channel {
    pub id: String,
    pub source: Source,
    pub last_checked: u64,
    pub media_dir: String,
}

/// The collection images chosen for a source.
pub struct ChannelImages {
    pub landscape: Option<String>,
    pub poster: Option<String>,
}

/// The whole registry: tracked sources plus settings.
pub struct Config {
    pub channels: Vec<Channel>,
    pub check_interval: u64,
    pub jellyfin_media_path: String,
    pub server_address: String,
    pub background_tasks_paused: bool,
    pub maintain_manifest_cache: bool,
}

/// One video's metadata within a sync pass; never persisted.
#[derive(Clone)]
pub struct VideoInfo {
    pub id: String,
    pub title: String,
    pub description: String,
    pub upload_date: String,
    pub thumbnail_url: String,
}

/// A video's fields, at the specification level.
#[verifier::ext_equal]
pub ghost struct SpecVideo {
    pub id: Seq<char>,
    pub title: Seq<char>,
    pub description: Seq<char>,
    pub upload_date: Seq<char>,
    pub thumbnail_url: Seq<char>,
}

impl View for VideoInfo {
    type V = SpecVideo;

    open spec fn view(&self) -> SpecVideo {
        SpecVideo {
            id: self.id@,
            title: self.title@,
            description: self.description@,
            upload_date: self.upload_date@,
            thumbnail_url: self.thumbnail_url@,
        }
    }
}

impl DeepView for VideoInfo {
    type V = SpecVideo;

    open spec fn deep_view(&self) -> SpecVideo {
        self.view()
    }
}

/// How a registry mutation ended.
#[derive(Debug, Clone, Copy, PartialEq, Eq, Structural)]
pub enum UpdateOutcome {
    Done,
    Duplicate,
    NotFound,
    WrongKind,
}

/// The display name of a source.
pub open spec fn spec_name(s: Source) -> Seq<char> {
    match s {
        Source::Channel { name, .. } => name@,
        Source::Playlist { name, .. } => name@,
    }
}

/// The handle of a channel, or the id of a playlist.
pub open spec fn spec_handle_or_id(s: Source) -> Seq<char> {
    match s {
        Source::Channel { handle, .. } => handle@,
        Source::Playlist { id, .. } => id@,
    }
}

/// Index of the first tracked source with the given id, or -1.
pub open spec fn spec_find_channel(channels: Seq<Channel>, id: Seq<char>) -> int
    decreases channels.len(),
{
    if channels.len() == 0 {
        -1
    } else if channels[0].id@ == id {
        0
    } else {
        let r = spec_find_channel(channels.skip(1), id);
        if r < 0 {
            -1
        } else {
            r + 1
        }
    }
}

pub proof fn lemma_spec_find_channel(channels: Seq<Channel>, id: Seq<char>)
    ensures
        spec_find_channel(channels, id) == -1 || (0 <= spec_find_channel(channels, id)
            < channels.len()),
        spec_find_channel(channels, id) >= 0 ==> channels[spec_find_channel(channels, id)].id@
            == id,
        spec_find_channel(channels, id) >= 0 ==> forall|j: int|
            0 <= j < spec_find_channel(channels, id) ==> channels[j].id@ != id,
        spec_find_channel(channels, id) == -1 ==> forall|j: int|
            0 <= j < channels.len() ==> channels[j].id@ != id,
    decreases channels.len(),
{
    if channels.len() > 0 && channels[0].id@ != id {
        lemma_spec_find_channel(channels.skip(1), id);
        assert forall|j: int| 1 <= j < channels.len() implies channels[j]
            == channels.skip(1)[j - 1] by {}
    }
}

/// The watermark of the tracked source with the given id, if any.
pub open spec fn spec_watermark(channels: Seq<Channel>, id: Seq<char>) -> Option<int> {
    let k = spec_find_channel(channels, id);
    if k < 0 {
        None
    } else {
        Some(channels[k].last_checked as int)
    }
}

/// Advancing the watermark: the first source with the given id gets
/// `now`; everything else is untouched.
pub open spec fn spec_advance(channels: Seq<Channel>, id: Seq<char>, now: u64) -> Seq<Channel> {
    let k = spec_find_channel(channels, id);
    if k < 0 {
        channels
    } else {
        channels.update(
            k,
            Channel {
                id: channels[k].id,
                source: channels[k].source,
                last_checked: now,
                media_dir: channels[k].media_dir,
            },
        )
    }
}

/// The watermark never regresses except via explicit reset: advancing at
/// a time no earlier than the current watermark never lowers it, and a
/// source that is absent stays absent.
pub proof fn lemma_watermark_never_regresses(channels: Seq<Channel>, id: Seq<char>, now: u64)
    requires
        match spec_watermark(channels, id) {
            Some(w) => now as int >= w,
            None => true,
        },
    ensures
        match spec_watermark(spec_advance(channels, id, now), id) {
            Some(w2) => match spec_watermark(channels, id) {
                Some(w) => w2 >= w,
                None => false,
            },
            None => spec_watermark(channels, id) is None,
        },
    decreases channels.len(),
{
    lemma_spec_find_channel(channels, id);
    let k = spec_find_channel(channels, id);
    if k >= 0 {
        let after = spec_advance(channels, id, now);
        assert(after[k].id@ == id);
        assert forall|j: int| 0 <= j < k implies after[j].id@ != id by {
            assert(after[j] == channels[j]);
        }
        lemma_spec_find_channel_unique(after, id, k);
    }
}

/// A first match pins `spec_find_channel` down.
pub proof fn lemma_spec_find_channel_unique(channels: Seq<Channel>, id: Seq<char>, k: int)
    requires
        0 <= k < channels.len(),
        channels[k].id@ == id,
        forall|j: int| 0 <= j < k ==> channels[j].id@ != id,
    ensures
        spec_find_channel(channels, id) == k,
    decreases channels.len(),
{
    if k > 0 {
        assert forall|j: int| 0 <= j < k - 1 implies channels.skip(1)[j].id@ != id by {
            assert(channels.skip(1)[j] == channels[j + 1]);
        }
        assert(channels.skip(1)[k - 1] == channels[k]);
        lemma_spec_find_channel_unique(channels.skip(1), id, k - 1);
    }
}

/// Find the position of the tracked source with the given id.
fn find_channel_index(channels: &Vec<Channel>, id: &str) -> (r: Option<usize>)
    ensures
        match r {
            Some(k) => spec_find_channel(channels@, id@) == k as int,
            None => spec_find_channel(channels@, id@) == -1,
        },
{
    let n = channels.len();
    let mut i: usize = 0;
    while i < n
        invariant
            n == channels@.len(),
            i <= n,
            forall|j: int| 0 <= j < i ==> channels@[j].id@ != id@,
        decreases n - i,
    {
        if str_eq(channels[i].id.as_str(), id) {
            proof {
                lemma_spec_find_channel_unique(channels@, id@, i as int);
            }
            return Some(i);
        }
        i += 1;
    }
    proof {
        lemma_spec_find_channel(channels@, id@);
        if spec_find_channel(channels@, id@) >= 0 {
            assert(channels@[spec_find_channel(channels@, id@)].id@ == id@);
        }
    }
    None
}

/// The initial (and reset) watermark of a channel: `max_age_days` back
/// from now when that constraint is set, else the epoch.
pub open spec fn spec_initial_watermark(max_age_days: Option<u32>, now: u64) -> int {
    match max_age_days {
        Some(d) => if now as int - d as int * DAY_SECS as int >= 0 {
            now as int - d as int * DAY_SECS as int
        } else {
            0
        },
        None => 0,
    }
}

/// Compute the initial watermark for a channel being registered or reset.
pub fn initial_watermark(max_age_days: Option<u32>, now: u64) -> (r: u64)
    ensures
        r as int == spec_initial_watermark(max_age_days, now),
{
    match max_age_days {
        Some(d) => {
            proof {
                assert(d as u64 as int * DAY_SECS as int <= 0xFFFF_FFFFu64 as int * DAY_SECS as int);
            }
            let back = (d as u64) * DAY_SECS;
            if now >= back {
                now - back
            } else {
                0
            }
        },
        None => 0,
    }
}

impl Config {
    /// Pause or resume the background loops.
    pub fn set_background_tasks_paused(&mut self, paused: bool)
        ensures
            final(self).background_tasks_paused == paused,
            final(self).channels == old(self).channels,
            final(self).check_interval == old(self).check_interval,
            final(self).jellyfin_media_path == old(self).jellyfin_media_path,
            final(self).server_address == old(self).server_address,
            final(self).maintain_manifest_cache == old(self).maintain_manifest_cache,
    {
        self.background_tasks_paused = paused;
    }

    /// Switch the cache-expiry sweep on or off.
    pub fn set_maintain_manifest_cache(&mut self, enabled: bool)
        ensures
            final(self).maintain_manifest_cache == enabled,
            final(self).channels == old(self).channels,
            final(self).check_interval == old(self).check_interval,
            final(self).jellyfin_media_path == old(self).jellyfin_media_path,
            final(self).server_address == old(self).server_address,
            final(self).background_tasks_paused == old(self).background_tasks_paused,
    {
        self.maintain_manifest_cache = enabled;
    }

    /// Advance the watermark of one source to `now`, after a successful
    /// listing. A source deleted meanwhile simply has no watermark to
    /// update; that is not an error.
    pub fn advance_watermark(&mut self, id: &str, now: u64) -> (r: bool)
        ensures
            final(self).channels@ == spec_advance(old(self).channels@, id@, now),
            r == (spec_find_channel(old(self).channels@, id@) >= 0),
            final(self).check_interval == old(self).check_interval,
            final(self).jellyfin_media_path == old(self).jellyfin_media_path,
            final(self).server_address == old(self).server_address,
            final(self).background_tasks_paused == old(self).background_tasks_paused,
            final(self).maintain_manifest_cache == old(self).maintain_manifest_cache,
    {
        proof {
            lemma_spec_find_channel(self.channels@, id@);
        }
        match find_channel_index(&self.channels, id) {
            None => false,
            Some(k) => {
                let mut ch = self.channels.remove(k);
                ch.last_checked = now;
                self.channels.insert(k, ch);
                proof {
                    assert(final(self).channels@ =~= spec_advance(old(self).channels@, id@, now));
                }
                true
            },
        }
    }
}

/// The form a channel registration or edit arrives with.
pub struct ChannelForm {
    pub name: String,
    pub handle: String,
    pub max_videos: Option<usize>,
    pub max_age_days: Option<u32>,
}

/// The form a playlist registration or edit arrives with.
pub struct PlaylistForm {
    pub name: String,
    pub playlist_id: String,
}

/// Is this tracked source a channel with the given handle?
pub open spec fn is_channel_with_handle(c: Channel, h: Seq<char>) -> bool {
    match c.source {
        Source::Channel { handle, .. } => handle@ == h,
        _ => false,
    }
}

pub open spec fn spec_channel_handle_exists(channels: Seq<Channel>, h: Seq<char>) -> bool {
    exists|j: int| 0 <= j < channels.len() && is_channel_with_handle(channels[j], h)
}

/// Is this tracked source a playlist with the given id?
pub open spec fn is_playlist_with_id(c: Channel, pid: Seq<char>) -> bool {
    match c.source {
        Source::Playlist { id, .. } => id@ == pid,
        _ => false,
    }
}

pub open spec fn spec_playlist_id_exists(channels: Seq<Channel>, pid: Seq<char>) -> bool {
    exists|j: int| 0 <= j < channels.len() && is_playlist_with_id(channels[j], pid)
}

/// A directory path joined with one more component.
pub open spec fn spec_join(dir: Seq<char>, name: Seq<char>) -> Seq<char> {
    dir + seq!['/'] + name
}

/// Join a directory path with one more component.
pub fn join_path(dir: &str, name: &str) -> (r: String)
    ensures
        r@ == spec_join(dir@, name@),
{
    let mut out = str_to_chars(dir);
    out.push('/');
    let tail = str_to_chars(name);
    let n = tail.len();
    let mut i: usize = 0;
    while i < n
        invariant
            n == tail@.len(),
            i <= n,
            tail@ == name@,
            out@ == dir@ + seq!['/'] + name@.subrange(0, i as int),
        decreases n - i,
    {
        out.push(tail[i]);
        i += 1;
        proof {
            assert(dir@ + seq!['/'] + name@.subrange(0, i as int) =~= (dir@ + seq!['/']
                + name@.subrange(0, i as int - 1)).push(name@[i as int - 1]));
        }
    }
    proof {
        assert(out@ =~= spec_join(dir@, name@));
        assert(dir@ + seq!['/'] + name@.subrange(0, 0) =~= dir@ + seq!['/']);
    }
    chars_to_string(&out)
}

/// Does a channel with this handle already exist?
fn channel_handle_exists(channels: &Vec<Channel>, handle: &str) -> (r: bool)
    ensures
        r == spec_channel_handle_exists(channels@, handle@),
{
    let n = channels.len();
    let mut i: usize = 0;
    while i < n
        invariant
            n == channels@.len(),
            i <= n,
            forall|j: int| 0 <= j < i ==> !is_channel_with_handle(channels@[j], handle@),
        decreases n - i,
    {
        match &channels[i].source {
            Source::Channel { handle: h, .. } => {
                if str_eq(h.as_str(), handle) {
                    return true;
                }
            },
            Source::Playlist { .. } => {},
        }
        i += 1;
    }
    false
}

/// Does a playlist with this id already exist?
fn playlist_id_exists(channels: &Vec<Channel>, pid: &str) -> (r: bool)
    ensures
        r == spec_playlist_id_exists(channels@, pid@),
{
    let n = channels.len();
    let mut i: usize = 0;
    while i < n
        invariant
            n == channels@.len(),
            i <= n,
            forall|j: int| 0 <= j < i ==> !is_playlist_with_id(channels@[j], pid@),
        decreases n - i,
    {
        match &channels[i].source {
            Source::Playlist { id, .. } => {
                if str_eq(id.as_str(), pid) {
                    return true;
                }
            },
            Source::Channel { .. } => {},
        }
        i += 1;
    }
    false
}

/// The channels left after deleting the channel entry (not playlist) with
/// the given id.
pub open spec fn spec_delete_channel(channels: Seq<Channel>, id: Seq<char>) -> Seq<Channel>
    decreases channels.len(),
{
    if channels.len() == 0 {
        Seq::empty()
    } else {
        let rest = spec_delete_channel(channels.skip(1), id);
        if (channels[0].source matches Source::Channel { .. }) && channels[0].id@ == id {
            rest
        } else {
            seq![channels[0]] + rest
        }
    }
}

/// The channels left after deleting the playlist entry (not channel) with
/// the given id.
pub open spec fn spec_delete_playlist(channels: Seq<Channel>, id: Seq<char>) -> Seq<Channel>
    decreases channels.len(),
{
    if channels.len() == 0 {
        Seq::empty()
    } else {
        let rest = spec_delete_playlist(channels.skip(1), id);
        if (channels[0].source matches Source::Playlist { .. }) && channels[0].id@ == id {
            rest
        } else {
            seq![channels[0]] + rest
        }
    }
}

/// Removing a matching entry does not change what deletion leaves.
pub proof fn lemma_delete_channel_remove(s: Seq<Channel>, id: Seq<char>, i: int)
    requires
        0 <= i < s.len(),
        (s[i].source matches Source::Channel { .. }) && s[i].id@ == id,
        forall|j: int|
            0 <= j < i ==> !((s[j].source matches Source::Channel { .. }) && s[j].id@ == id),
    ensures
        spec_delete_channel(s, id) == spec_delete_channel(s.remove(i), id),
    decreases i,
{
    if i == 0 {
        assert(s.remove(0) =~= s.skip(1));
    } else {
        assert forall|j: int|
            0 <= j < i - 1 implies !((s.skip(1)[j].source matches Source::Channel { .. })
            && s.skip(1)[j].id@ == id) by {
            assert(s.skip(1)[j] == s[j + 1]);
        }
        assert(s.skip(1)[i - 1] == s[i]);
        lemma_delete_channel_remove(s.skip(1), id, i - 1);
        assert(s.remove(i)[0] == s[0]);
        assert(s.remove(i).skip(1) =~= s.skip(1).remove(i - 1));
    }
}

/// Deletion leaves a sequence without matches unchanged.
pub proof fn lemma_delete_channel_nomatch(s: Seq<Channel>, id: Seq<char>)
    requires
        forall|j: int|
            0 <= j < s.len() ==> !((s[j].source matches Source::Channel { .. }) && s[j].id@ == id),
    ensures
        spec_delete_channel(s, id) == s,
    decreases s.len(),
{
    if s.len() > 0 {
        assert forall|j: int|
            0 <= j < s.skip(1).len() implies !((s.skip(1)[j].source matches Source::Channel { .. })
            && s.skip(1)[j].id@ == id) by {
            assert(s.skip(1)[j] == s[j + 1]);
        }
        lemma_delete_channel_nomatch(s.skip(1), id);
        assert(seq![s[0]] + s.skip(1) =~= s);
    }
}

/// Removing a matching entry does not change what deletion leaves.
pub proof fn lemma_delete_playlist_remove(s: Seq<Channel>, id: Seq<char>, i: int)
    requires
        0 <= i < s.len(),
        (s[i].source matches Source::Playlist { .. }) && s[i].id@ == id,
        forall|j: int|
            0 <= j < i ==> !((s[j].source matches Source::Playlist { .. }) && s[j].id@ == id),
    ensures
        spec_delete_playlist(s, id) == spec_delete_playlist(s.remove(i), id),
    decreases i,
{
    if i == 0 {
        assert(s.remove(0) =~= s.skip(1));
    } else {
        assert forall|j: int|
            0 <= j < i - 1 implies !((s.skip(1)[j].source matches Source::Playlist { .. })
            && s.skip(1)[j].id@ == id) by {
            assert(s.skip(1)[j] == s[j + 1]);
        }
        assert(s.skip(1)[i - 1] == s[i]);
        lemma_delete_playlist_remove(s.skip(1), id, i - 1);
        assert(s.remove(i)[0] == s[0]);
        assert(s.remove(i).skip(1) =~= s.skip(1).remove(i - 1));
    }
}

/// Deletion leaves a sequence without matches unchanged.
pub proof fn lemma_delete_playlist_nomatch(s: Seq<Channel>, id: Seq<char>)
    requires
        forall|j: int|
            0 <= j < s.len() ==> !((s[j].source matches Source::Playlist { .. }) && s[j].id@ == id),
    ensures
        spec_delete_playlist(s, id) == s,
    decreases s.len(),
{
    if s.len() > 0 {
        assert forall|j: int|
            0 <= j < s.skip(1).len() implies !((s.skip(1)[j].source matches Source::Playlist { .. })
            && s.skip(1)[j].id@ == id) by {
            assert(s.skip(1)[j] == s[j + 1]);
        }
        lemma_delete_playlist_nomatch(s.skip(1), id);
        assert(seq![s[0]] + s.skip(1) =~= s);
    }
}

impl Config {
    /// Register a channel: refused when the handle is already tracked;
    /// otherwise appended, with the watermark set `max_age_days` back (or
    /// to the epoch) and its own artifact directory under the media path.
    pub fn add_channel(&mut self, form: ChannelForm, now: u64) -> (r: UpdateOutcome)
        ensures
            spec_channel_handle_exists(old(self).channels@, form.handle@) ==> r
                == UpdateOutcome::Duplicate && final(self).channels == old(self).channels,
            !spec_channel_handle_exists(old(self).channels@, form.handle@) ==> {
                &&& r == UpdateOutcome::Done
                &&& final(self).channels@.len() == old(self).channels@.len() + 1
                &&& forall|j: int|
                    0 <= j < old(self).channels@.len() ==> final(self).channels@[j] == old(
                        self,
                    ).channels@[j]
                &&& {
                    let l = final(self).channels@.last();
                    &&& l.id@ == form.handle@
                    &&& match l.source {
                        Source::Channel { handle, name, max_videos, max_age_days } => {
                            &&& handle@ == form.handle@
                            &&& name@ == form.name@
                            &&& max_videos == form.max_videos
                            &&& max_age_days == form.max_age_days
                        },
                        _ => false,
                    }
                    &&& l.last_checked as int == spec_initial_watermark(form.max_age_days, now)
                    &&& l.media_dir@ == spec_join(old(self).jellyfin_media_path@, form.handle@)
                }
            },
            final(self).check_interval == old(self).check_interval,
            final(self).jellyfin_media_path == old(self).jellyfin_media_path,
            final(self).server_address == old(self).server_address,
            final(self).background_tasks_paused == old(self).background_tasks_paused,
            final(self).maintain_manifest_cache == old(self).maintain_manifest_cache,
    {
        if channel_handle_exists(&self.channels, form.handle.as_str()) {
            return UpdateOutcome::Duplicate;
        }
        let last_checked = initial_watermark(form.max_age_days, now);
        let media_dir = join_path(self.jellyfin_media_path.as_str(), form.handle.as_str());
        let id = form.handle.clone();
        let ghost handle_view = form.handle@;
        let new_channel = Channel {
            id,
            source: Source::Channel {
                handle: form.handle,
                name: form.name,
                max_videos: form.max_videos,
                max_age_days: form.max_age_days,
            },
            last_checked,
            media_dir,
        };
        proof {
            assert(new_channel.id@ == handle_view);
        }
        self.channels.push(new_channel);
        UpdateOutcome::Done
    }

    /// Register a playlist: refused when the id is already tracked;
    /// otherwise appended with the watermark at the epoch.
    pub fn add_playlist(&mut self, form: PlaylistForm) -> (r: UpdateOutcome)
        ensures
            spec_playlist_id_exists(old(self).channels@, form.playlist_id@) ==> r
                == UpdateOutcome::Duplicate && final(self).channels == old(self).channels,
            !spec_playlist_id_exists(old(self).channels@, form.playlist_id@) ==> {
                &&& r == UpdateOutcome::Done
                &&& final(self).channels@.len() == old(self).channels@.len() + 1
                &&& forall|j: int|
                    0 <= j < old(self).channels@.len() ==> final(self).channels@[j] == old(
                        self,
                    ).channels@[j]
                &&& {
                    let l = final(self).channels@.last();
                    &&& l.id@ == form.playlist_id@
                    &&& match l.source {
                        Source::Playlist { id, name } => id@ == form.playlist_id@ && name@
                            == form.name@,
                        _ => false,
                    }
                    &&& l.last_checked == 0
                    &&& l.media_dir@ == spec_join(
                        old(self).jellyfin_media_path@,
                        form.playlist_id@,
                    )
                }
            },
            final(self).check_interval == old(self).check_interval,
            final(self).jellyfin_media_path == old(self).jellyfin_media_path,
            final(self).server_address == old(self).server_address,
            final(self).background_tasks_paused == old(self).background_tasks_paused,
            final(self).maintain_manifest_cache == old(self).maintain_manifest_cache,
    {
        if playlist_id_exists(&self.channels, form.playlist_id.as_str()) {
            return UpdateOutcome::Duplicate;
        }
        let media_dir = join_path(self.jellyfin_media_path.as_str(), form.playlist_id.as_str());
        let id = form.playlist_id.clone();
        let new_channel = Channel {
            id,
            source: Source::Playlist { id: form.playlist_id, name: form.name },
            last_checked: 0,
            media_dir,
        };
        self.channels.push(new_channel);
        UpdateOutcome::Done
    }

    /// Delete the channel entry with the given id; playlists with the
    /// same id are kept.
    pub fn delete_channel(&mut self, id: &str)
        ensures
            final(self).channels@ == spec_delete_channel(old(self).channels@, id@),
            final(self).check_interval == old(self).check_interval,
            final(self).jellyfin_media_path == old(self).jellyfin_media_path,
            final(self).server_address == old(self).server_address,
            final(self).background_tasks_paused == old(self).background_tasks_paused,
            final(self).maintain_manifest_cache == old(self).maintain_manifest_cache,
    {
        let mut i: usize = 0;
        while i < self.channels.len()
            invariant
                i <= self.channels@.len(),
                forall|j: int|
                    0 <= j < i ==> !((self.channels@[j].source matches Source::Channel { .. })
                        && self.channels@[j].id@ == id@),
                spec_delete_channel(old(self).channels@, id@) == spec_delete_channel(
                    self.channels@,
                    id@,
                ),
                self.check_interval == old(self).check_interval,
                self.jellyfin_media_path == old(self).jellyfin_media_path,
                self.server_address == old(self).server_address,
                self.background_tasks_paused == old(self).background_tasks_paused,
                self.maintain_manifest_cache == old(self).maintain_manifest_cache,
            decreases self.channels@.len() - i,
        {
            let c = &self.channels[i];
            let is_channel_entry = match &c.source {
                Source::Channel { .. } => true,
                Source::Playlist { .. } => false,
            };
            if is_channel_entry && str_eq(c.id.as_str(), id) {
                let ghost before = self.channels@;
                self.channels.remove(i);
                proof {
                    lemma_delete_channel_remove(before, id@, i as int);
                }
            } else {
                i += 1;
            }
        }
        proof {
            lemma_delete_channel_nomatch(self.channels@, id@);
        }
    }

    /// Delete the playlist entry with the given id; channels with the
    /// same id are kept.
    pub fn delete_playlist(&mut self, id: &str)
        ensures
            final(self).channels@ == spec_delete_playlist(old(self).channels@, id@),
            final(self).check_interval == old(self).check_interval,
            final(self).jellyfin_media_path == old(self).jellyfin_media_path,
            final(self).server_address == old(self).server_address,
            final(self).background_tasks_paused == old(self).background_tasks_paused,
            final(self).maintain_manifest_cache == old(self).maintain_manifest_cache,
    {
        let mut i: usize = 0;
        while i < self.channels.len()
            invariant
                i <= self.channels@.len(),
                forall|j: int|
                    0 <= j < i ==> !((self.channels@[j].source matches Source::Playlist { .. })
                        && self.channels@[j].id@ == id@),
                spec_delete_playlist(old(self).channels@, id@) == spec_delete_playlist(
                    self.channels@,
                    id@,
                ),
                self.check_interval == old(self).check_interval,
                self.jellyfin_media_path == old(self).jellyfin_media_path,
                self.server_address == old(self).server_address,
                self.background_tasks_paused == old(self).background_tasks_paused,
                self.maintain_manifest_cache == old(self).maintain_manifest_cache,
            decreases self.channels@.len() - i,
        {
            let c = &self.channels[i];
            let is_playlist_entry = match &c.source {
                Source::Playlist { .. } => true,
                Source::Channel { .. } => false,
            };
            if is_playlist_entry && str_eq(c.id.as_str(), id) {
                let ghost before = self.channels@;
                self.channels.remove(i);
                proof {
                    lemma_delete_playlist_remove(before, id@, i as int);
                }
            } else {
                i += 1;
            }
        }
        proof {
            lemma_delete_playlist_nomatch(self.channels@, id@);
        }
    }

    /// Reset a channel's watermark: `max_age_days` back from now, or to
    /// the epoch. Refused for a playlist entry; its artifact directory is
    /// removed by the caller alongside.
    pub fn reset_channel(&mut self, id: &str, now: u64) -> (r: UpdateOutcome)
        ensures
            ({
                let k = spec_find_channel(old(self).channels@, id@);
                if k < 0 {
                    r == UpdateOutcome::NotFound && final(self).channels == old(self).channels
                } else {
                    match old(self).channels@[k].source {
                        Source::Channel { max_age_days, .. } => {
                            &&& r == UpdateOutcome::Done
                            &&& final(self).channels@ == old(self).channels@.update(
                                k,
                                Channel {
                                    id: old(self).channels@[k].id,
                                    source: old(self).channels@[k].source,
                                    last_checked: spec_initial_watermark(max_age_days, now) as u64,
                                    media_dir: old(self).channels@[k].media_dir,
                                },
                            )
                        },
                        Source::Playlist { .. } => r == UpdateOutcome::WrongKind && final(self).channels
                            == old(self).channels,
                    }
                }
            }),
            final(self).check_interval == old(self).check_interval,
            final(self).jellyfin_media_path == old(self).jellyfin_media_path,
            final(self).server_address == old(self).server_address,
            final(self).background_tasks_paused == old(self).background_tasks_paused,
            final(self).maintain_manifest_cache == old(self).maintain_manifest_cache,
    {
        match find_channel_index(&self.channels, id) {
            None => UpdateOutcome::NotFound,
            Some(k) => {
                proof {
                    lemma_spec_find_channel(self.channels@, id@);
                }
                let days = match &self.channels[k].source {
                    Source::Channel { max_age_days, .. } => Some(*max_age_days),
                    Source::Playlist { .. } => None,
                };
                match days {
                    None => UpdateOutcome::WrongKind,
                    Some(max_age_days) => {
                        let mut ch = self.channels.remove(k);
                        ch.last_checked = initial_watermark(max_age_days, now);
                        self.channels.insert(k, ch);
                        proof {
                            assert(final(self).channels@ =~= old(self).channels@.update(
                                k as int,
                                final(self).channels@[k as int],
                            ));
                        }
                        UpdateOutcome::Done
                    },
                }
            },
        }
    }

    /// Reset a tracked source's watermark to the epoch; its artifact
    /// directory is removed by the caller alongside.
    pub fn reset_playlist(&mut self, id: &str) -> (r: UpdateOutcome)
        ensures
            ({
                let k = spec_find_channel(old(self).channels@, id@);
                if k < 0 {
                    r == UpdateOutcome::NotFound && final(self).channels == old(self).channels
                } else {
                    &&& r == UpdateOutcome::Done
                    &&& final(self).channels@ == old(self).channels@.update(
                        k,
                        Channel {
                            id: old(self).channels@[k].id,
                            source: old(self).channels@[k].source,
                            last_checked: 0,
                            media_dir: old(self).channels@[k].media_dir,
                        },
                    )
                }
            }),
            final(self).check_interval == old(self).check_interval,
            final(self).jellyfin_media_path == old(self).jellyfin_media_path,
            final(self).server_address == old(self).server_address,
            final(self).background_tasks_paused == old(self).background_tasks_paused,
            final(self).maintain_manifest_cache == old(self).maintain_manifest_cache,
    {
        match find_channel_index(&self.channels, id) {
            None => UpdateOutcome::NotFound,
            Some(k) => {
                proof {
                    lemma_spec_find_channel(self.channels@, id@);
                }
                let mut ch = self.channels.remove(k);
                ch.last_checked = 0;
                self.channels.insert(k, ch);
                proof {
                    assert(final(self).channels@ =~= old(self).channels@.update(
                        k as int,
                        final(self).channels@[k as int],
                    ));
                }
                UpdateOutcome::Done
            },
        }
    }
}

} // verus!
