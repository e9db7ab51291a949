//! Migration of earlier registry layouts to the current one. The
//! documents are read and written at the process's edge; the field
//! mappings, and the defaults each older layout lacks, are decided here.

use vstd::prelude::*;

use crate::config::{Channel, Config, Source};

verus! {

/// The earliest registry layout: flat channel entries, no pause flag and
/// no cache-maintenance flag.
pub struct LegacyChannel {
    pub id: String,
    pub handle: String,
    pub name: String,
    pub max_videos: Option<usize>,
    pub max_age_days: Option<u32>,
    pub last_checked: u64,
    pub media_dir: String,
}

pub struct ConfigV1 {
    pub channels: Vec<LegacyChannel>,
    pub check_interval: u64,
    pub jellyfin_media_path: String,
    pub server_address: String,
}

/// The second layout: sources as a sum type, still without the flags.
pub struct ConfigV2 {
    pub channels: Vec<Channel>,
    pub check_interval: u64,
    pub jellyfin_media_path: String,
    pub server_address: String,
}

/// The third layout: with the pause flag, without cache maintenance.
pub struct ConfigV3 {
    pub channels: Vec<Channel>,
    pub check_interval: u64,
    pub jellyfin_media_path: String,
    pub server_address: String,
    pub background_tasks_paused: bool,
}

/// A legacy flat entry, re-keyed by its handle.
pub open spec fn spec_channel_from_legacy(c: LegacyChannel) -> Channel {
    Channel {
        id: c.handle,
        source: Source::Channel {
            handle: c.handle,
            name: c.name,
            max_videos: c.max_videos,
            max_age_days: c.max_age_days,
        },
        last_checked: c.last_checked,
        media_dir: c.media_dir,
    }
}

/// Lift one legacy entry into the current source shape.
pub fn channel_from_legacy(c: LegacyChannel) -> (r: Channel)
    ensures
        r == spec_channel_from_legacy(c),
{
    let LegacyChannel { id: _, handle, name, max_videos, max_age_days, last_checked, media_dir } =
        c;
    let hid = handle.clone();
    let r = Channel {
        id: hid,
        source: Source::Channel { handle, name, max_videos, max_age_days },
        last_checked,
        media_dir,
    };
    proof {
        // The entry is re-keyed by the handle it already carries.
        assert(r.id@ == spec_channel_from_legacy(c).id@);
    }
    r
}

/// Migrate the third layout: cache maintenance defaults to off.
pub fn config_from_v3(v: ConfigV3) -> (r: Config)
    ensures
        r.channels == v.channels,
        r.check_interval == v.check_interval,
        r.jellyfin_media_path == v.jellyfin_media_path,
        r.server_address == v.server_address,
        r.background_tasks_paused == v.background_tasks_paused,
        r.maintain_manifest_cache == false,
{
    let ConfigV3 {
        channels,
        check_interval,
        jellyfin_media_path,
        server_address,
        background_tasks_paused,
    } = v;
    Config {
        channels,
        check_interval,
        jellyfin_media_path,
        server_address,
        background_tasks_paused,
        maintain_manifest_cache: false,
    }
}

/// Migrate the second layout: both flags default to off.
pub fn config_from_v2(v: ConfigV2) -> (r: Config)
    ensures
        r.channels == v.channels,
        r.check_interval == v.check_interval,
        r.jellyfin_media_path == v.jellyfin_media_path,
        r.server_address == v.server_address,
        r.background_tasks_paused == false,
        r.maintain_manifest_cache == false,
{
    let ConfigV2 { channels, check_interval, jellyfin_media_path, server_address } = v;
    Config {
        channels,
        check_interval,
        jellyfin_media_path,
        server_address,
        background_tasks_paused: false,
        maintain_manifest_cache: false,
    }
}

/// Migrate the earliest layout: every flat entry becomes a channel
/// source, keyed by its handle; both flags default to off.
pub fn config_from_v1(v: ConfigV1) -> (r: Config)
    ensures
        r.channels@.len() == v.channels@.len(),
        forall|j: int|
            0 <= j < v.channels@.len() ==> r.channels@[j] == spec_channel_from_legacy(
                v.channels@[j],
            ),
        r.check_interval == v.check_interval,
        r.jellyfin_media_path == v.jellyfin_media_path,
        r.server_address == v.server_address,
        r.background_tasks_paused == false,
        r.maintain_manifest_cache == false,
{
    let ConfigV1 { channels, check_interval, jellyfin_media_path, server_address } = v;
    let ghost orig = channels@;
    let mut rest = channels;
    let mut lifted: Vec<Channel> = Vec::new();
    while rest.len() > 0
        invariant
            rest@.len() <= orig.len(),
            rest@ == orig.skip(orig.len() - rest@.len()),
            lifted@.len() == orig.len() - rest@.len(),
            forall|j: int|
                0 <= j < lifted@.len() ==> lifted@[j] == spec_channel_from_legacy(orig[j]),
        decreases rest@.len(),
    {
        let ghost k = orig.len() - rest@.len();
        let ghost rv0 = rest@;
        let c = rest.remove(0);
        proof {
            assert(rest@ =~= rv0.skip(1));
            assert(rest@ =~= orig.skip(k + 1));
            assert(c == orig.skip(k)[0]);
            assert(c == orig[k]);
        }
        lifted.push(channel_from_legacy(c));
    }
    proof {
        assert(lifted@.len() == orig.len());
    }
    Config {
        channels: lifted,
        check_interval,
        jellyfin_media_path,
        server_address,
        background_tasks_paused: false,
        maintain_manifest_cache: false,
    }
}

} // verus!
