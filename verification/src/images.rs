//! Collection-image selection: reading the collaborator's thumbnail
//! listing and choosing the poster and landscape images for a source.
//! Channels take their uncropped avatar and banner; playlists take any
//! sufficiently wide thumbnail for both.

use vstd::prelude::*;

use crate::config::{ChannelImages, Source};
use crate::shims::chars_to_string;
use crate::text::{
    all_digits, chars_eq, copy_range, digits_val, parse_u64_digits, spec_lines, spec_tokens,
    split_lines, split_whitespace, str_to_chars,
};

verus! {

/// The minimum width at which a playlist thumbnail is accepted.
pub const MIN_PLAYLIST_THUMB_WIDTH: u64 = 1280;

/// The images chosen so far while reading the listing.
#[verifier::ext_equal]
pub ghost struct ImagesView {
    pub poster: Option<Seq<char>>,
    pub landscape: Option<Seq<char>>,
}

/// The numeric value of a token, when it is a nonempty digit string in
/// `u64` range.
pub open spec fn spec_token_u64(t: Seq<char>) -> Option<int> {
    if t.len() > 0 && all_digits(t) && digits_val(t) <= u64::MAX as int {
        Some(digits_val(t))
    } else {
        None
    }
}

/// How one listing line updates the chosen images. Lines with fewer than
/// four columns carry no thumbnail and are skipped. The last column is
/// the image URL.
pub open spec fn spec_image_step(is_channel: bool, st: ImagesView, line: Seq<char>) -> ImagesView {
    let toks = spec_tokens(line);
    if toks.len() >= 4 {
        let url = toks.last();
        if is_channel {
            if toks[0] == "avatar_uncropped"@ {
                ImagesView { poster: Some(url), ..st }
            } else if toks[0] == "banner_uncropped"@ {
                ImagesView { landscape: Some(url), ..st }
            } else {
                st
            }
        } else {
            match spec_token_u64(toks[1]) {
                Some(w) => if w >= MIN_PLAYLIST_THUMB_WIDTH as int {
                    ImagesView { poster: Some(url), landscape: Some(url) }
                } else {
                    st
                },
                None => st,
            }
        }
    } else {
        st
    }
}

/// The images chosen after reading the listing's lines from `i` on.
pub open spec fn spec_image_scan(
    is_channel: bool,
    lines: Seq<Seq<char>>,
    i: nat,
    st: ImagesView,
) -> ImagesView
    decreases lines.len() - i,
{
    if i >= lines.len() {
        st
    } else {
        spec_image_scan(is_channel, lines, i + 1, spec_image_step(is_channel, st, lines[i as int]))
    }
}

/// What the whole listing selects.
pub open spec fn spec_select_images(is_channel: bool, listing: Seq<char>) -> ImagesView {
    spec_image_scan(
        is_channel,
        spec_lines(listing),
        0,
        ImagesView { poster: None, landscape: None },
    )
}

pub open spec fn images_view(r: &ChannelImages) -> ImagesView {
    ImagesView { poster: r.poster.deep_view(), landscape: r.landscape.deep_view() }
}

/// Choose the poster and landscape images from the collaborator's
/// thumbnail listing.
pub fn select_images(source: &Source, listing: &str) -> (r: ChannelImages)
    ensures
        images_view(&r) == spec_select_images(
            source matches Source::Channel { .. },
            listing@,
        ),
{
    let is_channel = match source {
        Source::Channel { .. } => true,
        Source::Playlist { .. } => false,
    };
    let chars = str_to_chars(listing);
    let lines = split_lines(&chars);
    let ghost ldv = lines.deep_view();
    let avatar = str_to_chars("avatar_uncropped");
    let banner = str_to_chars("banner_uncropped");
    let n = lines.len();
    let mut poster: Option<Vec<char>> = None;
    let mut landscape: Option<Vec<char>> = None;
    let ghost target = spec_image_scan(
        is_channel,
        ldv,
        0,
        ImagesView { poster: None, landscape: None },
    );
    let mut i: usize = 0;
    while i < n
        invariant
            n == lines@.len(),
            i <= n,
            ldv == lines.deep_view(),
            avatar@ == "avatar_uncropped"@,
            banner@ == "banner_uncropped"@,
            target == spec_image_scan(
                is_channel,
                ldv,
                i as nat,
                ImagesView { poster: poster.deep_view(), landscape: landscape.deep_view() },
            ),
        decreases n - i,
    {
        let ghost st0 = ImagesView { poster: poster.deep_view(), landscape: landscape.deep_view() };
        let line = &lines[i];
        proof {
            assert(ldv[i as int] =~= line@);
        }
        let toks = split_whitespace(line);
        proof {
            assert(toks.deep_view() =~~= spec_tokens(ldv[i as int]));
        }
        if toks.len() >= 4 {
            let url = copy_range(&toks[toks.len() - 1], 0, toks[toks.len() - 1].len());
            proof {
                assert(url@ =~= toks.deep_view().last());
                assert(url.deep_view() =~= toks.deep_view().last());
            }
            if is_channel {
                if chars_eq(&toks[0], &avatar) {
                    proof {
                        assert(toks.deep_view()[0] =~= toks@[0]@);
                    }
                    poster = Some(url);
                } else if chars_eq(&toks[0], &banner) {
                    proof {
                        assert(toks.deep_view()[0] =~= toks@[0]@);
                    }
                    landscape = Some(url);
                } else {
                    proof {
                        assert(toks.deep_view()[0] =~= toks@[0]@);
                    }
                }
            } else {
                let width_tok = &toks[1];
                proof {
                    assert(toks.deep_view()[1] =~= toks@[1]@);
                }
                match parse_u64_digits(width_tok, 0, width_tok.len()) {
                    Some(w) => {
                        proof {
                            assert(width_tok@.subrange(0, width_tok@.len() as int) =~= width_tok@);
                        }
                        if w >= MIN_PLAYLIST_THUMB_WIDTH {
                            let url2 = copy_range(&url, 0, url.len());
                            proof {
                                assert(url2@ =~= url@);
                            }
                            poster = Some(url2);
                            landscape = Some(url);
                        }
                    },
                    None => {
                        proof {
                            assert(width_tok@.subrange(0, width_tok@.len() as int) =~= width_tok@);
                        }
                    },
                }
            }
        }
        proof {
            let st1 = ImagesView { poster: poster.deep_view(), landscape: landscape.deep_view() };
            assert(st1 =~~= spec_image_step(is_channel, st0, ldv[i as int]));
            assert(spec_image_scan(is_channel, ldv, i as nat, st0) == spec_image_scan(
                is_channel,
                ldv,
                (i + 1) as nat,
                st1,
            ));
        }
        i += 1;
    }
    let poster_s = match poster {
        Some(p) => Some(chars_to_string(&p)),
        None => None,
    };
    let landscape_s = match landscape {
        Some(l) => Some(chars_to_string(&l)),
        None => None,
    };
    let r = ChannelImages { landscape: landscape_s, poster: poster_s };
    proof {
        assert(images_view(&r) =~~= target);
    }
    r
}

} // verus!
