//! Settings updates: the forms they arrive with and the server-address
//! normalization and validation rule.

use vstd::prelude::*;

use crate::config::Config;
use crate::shims::{chars_to_string, is_url, url_parse_ok};
use crate::text::{append_chars, is_match_at, starts_with, str_to_chars};

verus! {

/// The form a server-address update arrives with.
pub struct ServerAddress {
    pub server_address: String,
}

/// The form a check-interval update arrives with, in minutes.
pub struct CheckInterval {
    pub check_interval: u64,
}

/// The form a media-path update arrives with.
pub struct MediaPath {
    pub jellyfin_media_path: String,
}

/// The candidate a server address is validated as: prefixed with
/// "http://" unless it already starts with "http".
pub open spec fn spec_address_candidate(addr: Seq<char>) -> Seq<char> {
    if is_match_at(addr, "http"@, 0) {
        addr
    } else {
        "http://"@ + addr
    }
}

/// Normalize and validate a server address: prefix "http://" unless the
/// address already starts with "http", then require the result to parse
/// as a URL. Returns the stored candidate, or the rejected input.
pub fn validate_server_address(addr: &str) -> (r: Result<String, String>)
    ensures
        r is Ok <==> is_url(spec_address_candidate(addr@)),
        match r {
            Ok(s) => s@ == spec_address_candidate(addr@),
            Err(e) => e@ == addr@,
        },
{
    let chars = str_to_chars(addr);
    let http = str_to_chars("http");
    let candidate: String = if starts_with(&chars, &http) {
        chars_to_string(&chars)
    } else {
        let mut out = str_to_chars("http://");
        append_chars(&mut out, &chars);
        chars_to_string(&out)
    };
    if url_parse_ok(candidate.as_str()) {
        Ok(candidate)
    } else {
        Err(chars_to_string(&chars))
    }
}

impl Config {
    /// Store a validated server address.
    pub fn set_server_address(&mut self, address: String)
        ensures
            final(self).server_address == address,
            final(self).channels == old(self).channels,
            final(self).check_interval == old(self).check_interval,
            final(self).jellyfin_media_path == old(self).jellyfin_media_path,
            final(self).background_tasks_paused == old(self).background_tasks_paused,
            final(self).maintain_manifest_cache == old(self).maintain_manifest_cache,
    {
        self.server_address = address;
    }

    /// Store a new check interval, in minutes.
    pub fn set_check_interval(&mut self, minutes: u64)
        ensures
            final(self).check_interval == minutes,
            final(self).channels == old(self).channels,
            final(self).jellyfin_media_path == old(self).jellyfin_media_path,
            final(self).server_address == old(self).server_address,
            final(self).background_tasks_paused == old(self).background_tasks_paused,
            final(self).maintain_manifest_cache == old(self).maintain_manifest_cache,
    {
        self.check_interval = minutes;
    }

    /// Store a new media path; the caller has checked that the directory
    /// exists.
    pub fn set_media_path(&mut self, path: String)
        ensures
            final(self).jellyfin_media_path == path,
            final(self).channels == old(self).channels,
            final(self).check_interval == old(self).check_interval,
            final(self).server_address == old(self).server_address,
            final(self).background_tasks_paused == old(self).background_tasks_paused,
            final(self).maintain_manifest_cache == old(self).maintain_manifest_cache,
    {
        self.jellyfin_media_path = path;
    }
}

} // verus!
