//! Adaptive-manifest filtering and the manifest cache.
//!
//! The filter reads a line-oriented multi-variant manifest, keeps the three
//! highest-bandwidth variant streams in descending order, and keeps at most
//! one alternate-audio declaration chosen by tier and default flag. A cache
//! entry records the filtered text together with the expiry parsed from an
//! embedded marker, defaulting to six hours ahead.

use vstd::prelude::*;

use crate::text::{
    all_digits, append_chars, chop_line, contains, contains_sub, copy_range, digits_val, find_char,
    find_sub, first_char_from, first_nl, first_sub_from, is_match_at, lemma_first_char_from_none,
    lemma_first_char_from_unique, lemma_first_nl, lemma_first_nl_unique, lemma_first_sub_from_none,
    lemma_first_sub_from_unique, parse_u64_digits, spec_lines, split_lines, starts_with,
    str_to_chars,
};
use crate::shims::chars_to_string;

verus! {

/// A variant stream: its declared bandwidth, its declaration line and the
/// URL line that follows it.
#[verifier::ext_equal]
pub ghost struct SpecVariant {
    pub bw: int,
    pub info: Seq<char>,
    pub url: Seq<char>,
}

pub struct Variant {
    pub bandwidth: u32,
    pub info: Vec<char>,
    pub url: Vec<char>,
}

impl View for Variant {
    type V = SpecVariant;

    open spec fn view(&self) -> SpecVariant {
        SpecVariant { bw: self.bandwidth as int, info: self.info@, url: self.url@ }
    }
}

impl DeepView for Variant {
    type V = SpecVariant;

    open spec fn deep_view(&self) -> SpecVariant {
        self.view()
    }
}

/// The text selected between a marker and a terminator: the segment after
/// the first occurrence of the marker, up to the next terminator character
/// or the end of the line.
pub open spec fn attr_segment(line: Seq<char>, marker: Seq<char>, term: char) -> Option<Seq<char>> {
    let m = first_sub_from(line, marker, 0);
    if m < 0 {
        None
    } else {
        let a = m + marker.len();
        let e = first_char_from(line, term, (m + marker.len()) as nat);
        let e2 = if e < 0 {
            line.len() as int
        } else {
            e
        };
        Some(line.subrange(a, e2))
    }
}

/// The numeric value of an attribute segment, when it is a nonempty string
/// of digits whose value fits in a `u64`.
pub open spec fn attr_u64(line: Seq<char>, marker: Seq<char>, term: char) -> Option<int> {
    match attr_segment(line, marker, term) {
        None => None,
        Some(seg) => if seg.len() > 0 && all_digits(seg) && digits_val(seg) <= u64::MAX as int {
            Some(digits_val(seg))
        } else {
            None
        },
    }
}

/// Extract a numeric attribute: the digits after the first occurrence of
/// the marker, up to the next terminator or the end of the line.
pub fn parse_attr_u64(line: &Vec<char>, marker: &Vec<char>, term: char) -> (r: Option<u64>)
    ensures
        match r {
            Some(v) => attr_u64(line@, marker@, term) == Some(v as int),
            None => attr_u64(line@, marker@, term) is None,
        },
{
    let a: usize;
    match find_sub(line, marker, 0) {
        None => {
            proof {
                assert forall|j: int| !is_match_at(line@, marker@, j) by {
                    if j >= 0 {
                        assert(!is_match_at(line@, marker@, j));
                    }
                }
                lemma_first_sub_from_none(line@, marker@, 0);
            }
            return None;
        },
        Some(m) => {
            let line_len = line.len();
            proof {
                lemma_first_sub_from_unique(line@, marker@, 0, m as int);
                assert(m + marker@.len() <= line_len);
            }
            a = m + marker.len();
        },
    }
    let e: usize;
    match find_char(line, term, a) {
        None => {
            proof {
                lemma_first_char_from_none(line@, term, a as nat);
            }
            e = line.len();
        },
        Some(x) => {
            proof {
                lemma_first_char_from_unique(line@, term, a as nat, x as int);
            }
            e = x;
        },
    }
    let v = parse_u64_digits(line, a, e);
    proof {
        assert(attr_segment(line@, marker@, term) == Some(
            line@.subrange(a as int, e as int),
        ));
    }
    v
}

/// The bandwidth declared on a variant-stream line, when present and in
/// range for a `u32`.
pub open spec fn spec_bandwidth(line: Seq<char>) -> Option<u32> {
    match attr_u64(line, bw_marker(), ',') {
        None => None,
        Some(v) => if v <= u32::MAX as int {
            Some(v as u32)
        } else {
            None
        },
    }
}

pub open spec fn bw_marker() -> Seq<char> {
    "BANDWIDTH="@
}

/// Extract the bandwidth attribute of a variant-stream declaration line.
pub fn parse_bandwidth(line: &Vec<char>) -> (r: Option<u32>)
    ensures
        r == spec_bandwidth(line@),
{
    let marker = str_to_chars("BANDWIDTH=");
    match parse_attr_u64(line, &marker, ',') {
        None => None,
        Some(v) => if v <= 0xFFFF_FFFFu64 {
            Some(v as u32)
        } else {
            None
        },
    }
}

/// A variant-stream declaration line.
pub open spec fn is_stream_inf(line: Seq<char>) -> bool {
    is_match_at(line, "#EXT-X-STREAM-INF:"@, 0)
}

/// An alternate-media declaration line that carries a URI attribute.
pub open spec fn is_media_line(line: Seq<char>) -> bool {
    is_match_at(line, "#EXT-X-MEDIA:"@, 0) && contains_sub(line, "URI"@)
}

/// The declaration marks itself as the default rendition.
pub open spec fn is_default_line(line: Seq<char>) -> bool {
    contains_sub(line, "DEFAULT=YES"@)
}

/// The embedded marker that places an audio rendition in the high tier.
pub open spec fn is_high_tier(line: Seq<char>) -> bool {
    contains_sub(line, "234"@)
}

/// The alternate-audio candidates collected while scanning: one slot per
/// tier and default flag. A later default replaces an earlier one; backups
/// are only remembered until a default of their tier appears.
#[verifier::ext_equal]
pub ghost struct AudioPick {
    pub high_default: Option<Seq<char>>,
    pub high_backup: Option<Seq<char>>,
    pub sd_default: Option<Seq<char>>,
    pub sd_backup: Option<Seq<char>>,
}

#[verifier::ext_equal]
pub ghost struct ScanResult {
    pub variants: Seq<SpecVariant>,
    pub audio: AudioPick,
}

pub open spec fn empty_scan() -> ScanResult {
    ScanResult {
        variants: Seq::empty(),
        audio: AudioPick { high_default: None, high_backup: None, sd_default: None, sd_backup: None },
    }
}

/// How one alternate-media declaration updates the audio slots.
pub open spec fn scan_step_media(a: AudioPick, line: Seq<char>) -> AudioPick {
    if is_high_tier(line) {
        if is_default_line(line) {
            AudioPick { high_default: Some(line), ..a }
        } else if a.high_default is None {
            AudioPick { high_backup: Some(line), ..a }
        } else {
            a
        }
    } else {
        if is_default_line(line) {
            AudioPick { sd_default: Some(line), ..a }
        } else if a.sd_default is None {
            AudioPick { sd_backup: Some(line), ..a }
        } else {
            a
        }
    }
}

/// One scan pass over the manifest's lines from position `i`. A
/// variant-stream declaration consumes the URL line after it; every other
/// line is examined on its own.
pub open spec fn spec_scan(lines: Seq<Seq<char>>, i: nat, st: ScanResult) -> ScanResult
    decreases lines.len() - i,
{
    if i >= lines.len() {
        st
    } else {
        let line = lines[i as int];
        if is_stream_inf(line) {
            let st2 = if i + 1 < lines.len() {
                match spec_bandwidth(line) {
                    Some(bw) => ScanResult {
                        variants: st.variants.push(
                            SpecVariant { bw: bw as int, info: line, url: lines[i as int + 1] },
                        ),
                        audio: st.audio,
                    },
                    None => st,
                }
            } else {
                st
            };
            let ni = if i + 2 <= lines.len() {
                i + 2
            } else {
                lines.len()
            };
            spec_scan(lines, ni, st2)
        } else if is_media_line(line) {
            spec_scan(
                lines,
                i + 1,
                ScanResult { variants: st.variants, audio: scan_step_media(st.audio, line) },
            )
        } else {
            spec_scan(lines, i + 1, st)
        }
    }
}

/// The scan's executable state.
pub struct Scan {
    pub variants: Vec<Variant>,
    pub high_default: Option<Vec<char>>,
    pub high_backup: Option<Vec<char>>,
    pub sd_default: Option<Vec<char>>,
    pub sd_backup: Option<Vec<char>>,
}

pub open spec fn scan_view(s: &Scan) -> ScanResult {
    ScanResult {
        variants: s.variants.deep_view(),
        audio: AudioPick {
            high_default: s.high_default.deep_view(),
            high_backup: s.high_backup.deep_view(),
            sd_default: s.sd_default.deep_view(),
            sd_backup: s.sd_backup.deep_view(),
        },
    }
}

/// Collect the variant streams and audio candidates of a manifest's lines.
pub fn scan_manifest(lines: &Vec<Vec<char>>) -> (r: Scan)
    ensures
        scan_view(&r) == spec_scan(lines.deep_view(), 0, empty_scan()),
{
    let stream_inf = str_to_chars("#EXT-X-STREAM-INF:");
    let media = str_to_chars("#EXT-X-MEDIA:");
    let uri = str_to_chars("URI");
    let default_yes = str_to_chars("DEFAULT=YES");
    let high_marker = str_to_chars("234");
    let n = lines.len();
    let mut st = Scan {
        variants: Vec::new(),
        high_default: None,
        high_backup: None,
        sd_default: None,
        sd_backup: None,
    };
    let mut i: usize = 0;
    proof {
        assert(scan_view(&st) =~~= empty_scan());
    }
    while i < n
        invariant
            n == lines@.len(),
            i <= n,
            stream_inf@ == "#EXT-X-STREAM-INF:"@,
            media@ == "#EXT-X-MEDIA:"@,
            uri@ == "URI"@,
            default_yes@ == "DEFAULT=YES"@,
            high_marker@ == "234"@,
            spec_scan(lines.deep_view(), 0, empty_scan()) == spec_scan(
                lines.deep_view(),
                i as nat,
                scan_view(&st),
            ),
        decreases n - i,
    {
        let ghost l = lines.deep_view();
        let ghost st0 = scan_view(&st);
        let line = &lines[i];
        proof {
            assert(l[i as int] =~= line@);
        }
        if starts_with(line, &stream_inf) {
            if i + 1 < n {
                match parse_bandwidth(line) {
                    Some(bw) => {
                        let info = copy_range(line, 0, line.len());
                        let url = copy_range(&lines[i + 1], 0, lines[i + 1].len());
                        proof {
                            assert(info@ =~= line@);
                            assert(url@ =~= l[i as int + 1]);
                            assert(info.deep_view() =~= l[i as int]);
                            assert(url.deep_view() =~= l[i as int + 1]);
                        }
                        st.variants.push(Variant { bandwidth: bw, info, url });
                        proof {
                            assert(scan_view(&st).variants =~~= st0.variants.push(
                                SpecVariant { bw: bw as int, info: l[i as int], url: l[i as int + 1] },
                            ));
                            assert(scan_view(&st) =~~= ScanResult {
                                variants: st0.variants.push(
                                    SpecVariant {
                                        bw: bw as int,
                                        info: l[i as int],
                                        url: l[i as int + 1],
                                    },
                                ),
                                audio: st0.audio,
                            });
                        }
                    },
                    None => {},
                }
            }
            let ni = if n - i >= 2 {
                i + 2
            } else {
                n
            };
            proof {
                assert(spec_scan(l, i as nat, st0) == spec_scan(l, ni as nat, scan_view(&st)));
            }
            i = ni;
        } else if starts_with(line, &media) && contains(line, &uri) {
            let is_default = contains(line, &default_yes);
            let keep = copy_range(line, 0, line.len());
            proof {
                assert(keep@ =~= line@);
                assert(keep.deep_view() =~= l[i as int]);
            }
            if contains(line, &high_marker) {
                if is_default {
                    st.high_default = Some(keep);
                } else if st.high_default.is_none() {
                    st.high_backup = Some(keep);
                }
            } else {
                if is_default {
                    st.sd_default = Some(keep);
                } else if st.sd_default.is_none() {
                    st.sd_backup = Some(keep);
                }
            }
            proof {
                assert(scan_view(&st).audio =~~= scan_step_media(st0.audio, l[i as int]));
                assert(scan_view(&st) =~~= ScanResult {
                    variants: st0.variants,
                    audio: scan_step_media(st0.audio, l[i as int]),
                });
                assert(spec_scan(l, i as nat, st0) == spec_scan(
                    l,
                    (i + 1) as nat,
                    scan_view(&st),
                ));
            }
            i += 1;
        } else {
            proof {
                assert(spec_scan(l, i as nat, st0) == spec_scan(l, (i + 1) as nat, st0));
            }
            i += 1;
        }
    }
    st
}

/// Insert a variant into a bandwidth-descending list, after every entry
/// whose bandwidth is at least as large: a stable descending insertion.
pub open spec fn insert_desc(v: SpecVariant, s: Seq<SpecVariant>) -> Seq<SpecVariant>
    decreases s.len(),
{
    if s.len() == 0 {
        seq![v]
    } else if s[0].bw >= v.bw {
        seq![s[0]] + insert_desc(v, s.skip(1))
    } else {
        seq![v] + s
    }
}

/// Stable bandwidth-descending sort, by repeated insertion.
pub open spec fn sort_desc(s: Seq<SpecVariant>) -> Seq<SpecVariant>
    decreases s.len(),
{
    if s.len() == 0 {
        Seq::empty()
    } else {
        insert_desc(s.last(), sort_desc(s.drop_last()))
    }
}

/// Inserting before the first strictly smaller entry is what `insert_desc`
/// does.
pub proof fn lemma_insert_desc_at(v: SpecVariant, s: Seq<SpecVariant>, p: int)
    requires
        0 <= p <= s.len(),
        forall|j: int| 0 <= j < p ==> s[j].bw >= v.bw,
        p < s.len() ==> s[p].bw < v.bw,
    ensures
        insert_desc(v, s) == s.subrange(0, p).push(v) + s.skip(p),
    decreases p,
{
    if p == 0 {
        if s.len() == 0 {
            assert(s.subrange(0, 0).push(v) + s.skip(0) =~= seq![v]);
        } else {
            assert(s.subrange(0, 0).push(v) + s.skip(0) =~= seq![v] + s);
        }
    } else {
        assert forall|j: int| 0 <= j < p - 1 implies s.skip(1)[j].bw >= v.bw by {
            assert(s.skip(1)[j] == s[j + 1]);
        }
        assert(p - 1 < s.skip(1).len() ==> s.skip(1)[p - 1].bw < v.bw);
        lemma_insert_desc_at(v, s.skip(1), p - 1);
        assert(seq![s[0]] + (s.skip(1).subrange(0, p - 1).push(v) + s.skip(1).skip(p - 1)) =~= s
            .subrange(0, p).push(v) + s.skip(p));
    }
}

/// Find where a variant of the given bandwidth is inserted: after every
/// entry at least as large, before the first strictly smaller one.
fn find_insert_pos(res: &Vec<Variant>, bw: u32) -> (p: usize)
    ensures
        p <= res@.len(),
        forall|j: int| 0 <= j < p ==> res.deep_view()[j].bw >= bw as int,
        p < res@.len() ==> res.deep_view()[p as int].bw < bw as int,
{
    let n = res.len();
    let mut p: usize = 0;
    while p < n
        invariant
            n == res@.len(),
            p <= n,
            forall|j: int| 0 <= j < p ==> res.deep_view()[j].bw >= bw as int,
        decreases n - p,
    {
        if res[p].bandwidth < bw {
            return p;
        }
        p += 1;
    }
    p
}

/// Insert one variant, keeping the list bandwidth-descending.
fn insert_variant(res: &mut Vec<Variant>, v: Variant)
    ensures
        final(res).deep_view() == insert_desc(v@, old(res).deep_view()),
{
    let ghost dv0 = res.deep_view();
    let ghost vv = v@;
    let p = find_insert_pos(res, v.bandwidth);
    res.insert(p, v);
    proof {
        lemma_insert_desc_at(vv, dv0, p as int);
        assert(res.deep_view() =~~= dv0.subrange(0, p as int).push(vv) + dv0.skip(p as int));
    }
}

/// Sort variants by descending bandwidth, stably.
pub fn sort_variants(input: Vec<Variant>) -> (r: Vec<Variant>)
    ensures
        r.deep_view() == sort_desc(input.deep_view()),
{
    let ghost orig = input.deep_view();
    let mut rest = input;
    let mut res: Vec<Variant> = Vec::new();
    proof {
        assert(rest.deep_view() =~~= orig.skip(0));
        assert(orig.take(0) =~= Seq::<SpecVariant>::empty());
        assert(res.deep_view() =~~= sort_desc(orig.take(0)));
    }
    while rest.len() > 0
        invariant
            rest@.len() <= orig.len(),
            rest.deep_view() == orig.skip(orig.len() - rest@.len()),
            res.deep_view() == sort_desc(orig.take(orig.len() - rest@.len())),
        decreases rest@.len(),
    {
        let ghost k = orig.len() - rest@.len();
        let ghost rv0 = rest@;
        let v = rest.remove(0);
        proof {
            assert(rest@ =~= rv0.skip(1));
            assert(v@ == rv0[0].deep_view());
            assert(rv0[0].deep_view() == orig.skip(k)[0]);
            assert forall|j: int| 0 <= j < rest@.len() implies rest.deep_view()[j] == orig.skip(
                k + 1,
            )[j] by {
                assert(rest@[j] == rv0[j + 1]);
                assert(rest.deep_view()[j] == rest@[j].deep_view());
                assert(rv0[j + 1].deep_view() == orig.skip(k)[j + 1]);
                assert(orig.skip(k)[j + 1] == orig.skip(k + 1)[j]);
            }
            assert(rest.deep_view() =~~= orig.skip(k + 1));
        }
        insert_variant(&mut res, v);
        proof {
            assert(orig.take(k + 1).drop_last() =~= orig.take(k));
            assert(orig.take(k + 1).last() == orig[k]);
            assert(orig[k] == orig.skip(k)[0]);
            assert(res.deep_view() == insert_desc(orig[k], sort_desc(orig.take(k))));
            assert(res.deep_view() == sort_desc(orig.take(k + 1)));
        }
    }
    proof {
        assert(orig.take(orig.len() as int) =~= orig);
    }
    res
}

/// Bandwidths never increase along the list.
pub open spec fn sorted_desc(s: Seq<SpecVariant>) -> bool {
    forall|i: int, j: int| 0 <= i < j < s.len() ==> s[i].bw >= s[j].bw
}

/// Bandwidths strictly decrease along the list.
pub open spec fn strictly_desc(s: Seq<SpecVariant>) -> bool {
    forall|i: int, j: int| 0 <= i < j < s.len() ==> s[i].bw > s[j].bw
}

/// No two entries share a bandwidth.
pub open spec fn distinct_bw(s: Seq<SpecVariant>) -> bool {
    forall|i: int, j: int| 0 <= i < j < s.len() ==> s[i].bw != s[j].bw
}

pub open spec fn in_seq(x: SpecVariant, s: Seq<SpecVariant>) -> bool {
    exists|i: int| 0 <= i < s.len() && s[i] == x
}

pub proof fn lemma_insert_desc_len(v: SpecVariant, s: Seq<SpecVariant>)
    ensures
        insert_desc(v, s).len() == s.len() + 1,
    decreases s.len(),
{
    if s.len() > 0 && s[0].bw >= v.bw {
        lemma_insert_desc_len(v, s.skip(1));
    }
}

pub proof fn lemma_insert_desc_membership(v: SpecVariant, s: Seq<SpecVariant>, x: SpecVariant)
    ensures
        in_seq(x, insert_desc(v, s)) <==> (x == v || in_seq(x, s)),
    decreases s.len(),
{
    if s.len() == 0 {
        assert(insert_desc(v, s)[0] == v);
    } else if s[0].bw >= v.bw {
        lemma_insert_desc_membership(v, s.skip(1), x);
        let r = insert_desc(v, s);
        assert(r == seq![s[0]] + insert_desc(v, s.skip(1)));
        assert(r[0] == s[0]);
        assert forall|i: int| 0 <= i < insert_desc(v, s.skip(1)).len() implies r[i + 1]
            == insert_desc(v, s.skip(1))[i] by {}
        if in_seq(x, r) {
            let i = choose|i: int| 0 <= i < r.len() && r[i] == x;
            if i == 0 {
                assert(s[0] == x);
            } else {
                assert(insert_desc(v, s.skip(1))[i - 1] == x);
                if in_seq(x, s.skip(1)) {
                    let j = choose|j: int| 0 <= j < s.skip(1).len() && s.skip(1)[j] == x;
                    assert(s[j + 1] == x);
                }
            }
        }
        if x == v || in_seq(x, s) {
            if x == v {
                assert(in_seq(x, insert_desc(v, s.skip(1))));
                let i = choose|i: int|
                    0 <= i < insert_desc(v, s.skip(1)).len() && insert_desc(v, s.skip(1))[i] == x;
                assert(r[i + 1] == x);
            } else {
                let j = choose|j: int| 0 <= j < s.len() && s[j] == x;
                if j == 0 {
                    assert(r[0] == x);
                } else {
                    assert(s.skip(1)[j - 1] == x);
                    assert(in_seq(x, insert_desc(v, s.skip(1))));
                    let i = choose|i: int|
                        0 <= i < insert_desc(v, s.skip(1)).len() && insert_desc(v, s.skip(1))[i]
                            == x;
                    assert(r[i + 1] == x);
                }
            }
        }
    } else {
        let r = insert_desc(v, s);
        assert(r == seq![v] + s);
        assert(r[0] == v);
        if in_seq(x, r) {
            let i = choose|i: int| 0 <= i < r.len() && r[i] == x;
            if i > 0 {
                assert(s[i - 1] == x);
            }
        }
        if in_seq(x, s) {
            let j = choose|j: int| 0 <= j < s.len() && s[j] == x;
            assert(r[j + 1] == x);
        }
    }
}

pub proof fn lemma_insert_desc_sorted(v: SpecVariant, s: Seq<SpecVariant>)
    requires
        sorted_desc(s),
    ensures
        sorted_desc(insert_desc(v, s)),
    decreases s.len(),
{
    if s.len() == 0 {
    } else if s[0].bw >= v.bw {
        assert forall|i: int, j: int| 0 <= i < j < s.skip(1).len() implies s.skip(1)[i].bw >= s.skip(
            1,
        )[j].bw by {
            assert(s.skip(1)[i] == s[i + 1]);
            assert(s.skip(1)[j] == s[j + 1]);
        }
        lemma_insert_desc_sorted(v, s.skip(1));
        lemma_insert_desc_len(v, s.skip(1));
        let t = insert_desc(v, s.skip(1));
        let r = insert_desc(v, s);
        assert forall|i: int, j: int| 0 <= i < j < r.len() implies r[i].bw >= r[j].bw by {
            if i == 0 {
                assert(r[j] == t[j - 1]);
                lemma_insert_desc_membership(v, s.skip(1), t[j - 1]);
                if t[j - 1] == v {
                } else {
                    let k = choose|k: int| 0 <= k < s.skip(1).len() && s.skip(1)[k] == t[j - 1];
                    assert(s[k + 1] == t[j - 1]);
                }
            } else {
                assert(r[i] == t[i - 1]);
                assert(r[j] == t[j - 1]);
            }
        }
    } else {
        let r = insert_desc(v, s);
        assert forall|i: int, j: int| 0 <= i < j < r.len() implies r[i].bw >= r[j].bw by {
            if i == 0 {
                assert(r[j] == s[j - 1]);
                if j == 1 {
                } else {
                    assert(s[0].bw >= s[j - 1].bw);
                }
            } else {
                assert(r[i] == s[i - 1]);
                assert(r[j] == s[j - 1]);
            }
        }
    }
}

pub proof fn lemma_insert_desc_distinct(v: SpecVariant, s: Seq<SpecVariant>)
    requires
        distinct_bw(s),
        forall|j: int| 0 <= j < s.len() ==> s[j].bw != v.bw,
    ensures
        distinct_bw(insert_desc(v, s)),
    decreases s.len(),
{
    if s.len() == 0 {
    } else if s[0].bw >= v.bw {
        assert forall|i: int, j: int| 0 <= i < j < s.skip(1).len() implies s.skip(1)[i].bw != s.skip(
            1,
        )[j].bw by {
            assert(s.skip(1)[i] == s[i + 1]);
            assert(s.skip(1)[j] == s[j + 1]);
        }
        assert forall|j: int| 0 <= j < s.skip(1).len() implies s.skip(1)[j].bw != v.bw by {
            assert(s.skip(1)[j] == s[j + 1]);
        }
        lemma_insert_desc_distinct(v, s.skip(1));
        lemma_insert_desc_len(v, s.skip(1));
        let t = insert_desc(v, s.skip(1));
        let r = insert_desc(v, s);
        assert forall|i: int, j: int| 0 <= i < j < r.len() implies r[i].bw != r[j].bw by {
            if i == 0 {
                assert(r[j] == t[j - 1]);
                lemma_insert_desc_membership(v, s.skip(1), t[j - 1]);
                if t[j - 1] == v {
                } else {
                    let k = choose|k: int| 0 <= k < s.skip(1).len() && s.skip(1)[k] == t[j - 1];
                    assert(s[k + 1] == t[j - 1]);
                }
            } else {
                assert(r[i] == t[i - 1]);
                assert(r[j] == t[j - 1]);
            }
        }
    } else {
        let r = insert_desc(v, s);
        assert forall|i: int, j: int| 0 <= i < j < r.len() implies r[i].bw != r[j].bw by {
            if i == 0 {
                assert(r[j] == s[j - 1]);
            } else {
                assert(r[i] == s[i - 1]);
                assert(r[j] == s[j - 1]);
            }
        }
    }
}

pub proof fn lemma_sort_desc_props(s: Seq<SpecVariant>)
    ensures
        sort_desc(s).len() == s.len(),
        sorted_desc(sort_desc(s)),
        forall|x: SpecVariant| in_seq(x, sort_desc(s)) ==> in_seq(x, s),
        distinct_bw(s) ==> distinct_bw(sort_desc(s)),
    decreases s.len(),
{
    if s.len() > 0 {
        let front = s.drop_last();
        assert forall|i: int, j: int| 0 <= i < j < front.len() implies front[i].bw != front[j].bw
            || !distinct_bw(s) by {
            if distinct_bw(s) {
                assert(front[i] == s[i]);
                assert(front[j] == s[j]);
            }
        }
        lemma_sort_desc_props(front);
        lemma_insert_desc_len(s.last(), sort_desc(front));
        lemma_insert_desc_sorted(s.last(), sort_desc(front));
        assert forall|x: SpecVariant| in_seq(x, sort_desc(s)) implies in_seq(x, s) by {
            lemma_insert_desc_membership(s.last(), sort_desc(front), x);
            if x == s.last() {
                assert(s[s.len() - 1] == x);
            } else {
                assert(in_seq(x, sort_desc(front)));
                assert(in_seq(x, front));
                let k = choose|k: int| 0 <= k < front.len() && front[k] == x;
                assert(s[k] == x);
            }
        }
        if distinct_bw(s) {
            assert forall|j: int| 0 <= j < sort_desc(front).len() implies sort_desc(front)[j].bw
                != s.last().bw by {
                assert(in_seq(sort_desc(front)[j], sort_desc(front)));
                assert(in_seq(sort_desc(front)[j], front));
                let k = choose|k: int| 0 <= k < front.len() && front[k] == sort_desc(front)[j];
                assert(s[k] == sort_desc(front)[j]);
                assert(s[k].bw != s[s.len() - 1].bw);
            }
            lemma_insert_desc_distinct(s.last(), sort_desc(front));
        }
    }
}

/// The filter's variant selection, stated once and for all: of a manifest
/// whose scan found N variant streams, the output keeps min(N, 3), their
/// bandwidths never increase along the output, and when the scanned
/// bandwidths are pairwise distinct the order is strictly descending.
pub proof fn lemma_filter_variant_selection(content: Seq<char>)
    ensures
        ({
            let sc = spec_scan(spec_lines(content), 0, empty_scan());
            let kept = take_top(sort_desc(sc.variants));
            &&& kept.len() == if sc.variants.len() <= 3 {
                sc.variants.len()
            } else {
                3
            }
            &&& sorted_desc(kept)
            &&& (distinct_bw(sc.variants) ==> strictly_desc(kept))
        }),
{
    let sc = spec_scan(spec_lines(content), 0, empty_scan());
    let sorted = sort_desc(sc.variants);
    let kept = take_top(sorted);
    lemma_sort_desc_props(sc.variants);
    assert forall|i: int, j: int| 0 <= i < j < kept.len() implies kept[i].bw >= kept[j].bw by {
        assert(kept[i] == sorted[i]);
        assert(kept[j] == sorted[j]);
    }
    if distinct_bw(sc.variants) {
        assert forall|i: int, j: int| 0 <= i < j < kept.len() implies kept[i].bw > kept[j].bw by {
            assert(kept[i] == sorted[i]);
            assert(kept[j] == sorted[j]);
        }
    }
}

/// The audio priority, stated once and for all: when both a high-tier
/// default and a standard-tier default declaration were seen, the
/// high-tier default is the one selected.
pub proof fn lemma_audio_priority(a: AudioPick)
    requires
        a.high_default is Some,
        a.sd_default is Some,
    ensures
        audio_choice(a) == a.high_default,
{
}

/// At most the first three entries are kept.
pub open spec fn take_top(s: Seq<SpecVariant>) -> Seq<SpecVariant> {
    if s.len() <= 3 {
        s
    } else {
        s.take(3)
    }
}

pub open spec fn nl() -> Seq<char> {
    seq!['\n']
}

/// The fixed two-line output header.
pub open spec fn manifest_header() -> Seq<char> {
    "#EXTM3U\n#EXT-X-INDEPENDENT-SEGMENTS\n"@
}

/// Each kept variant contributes its declaration line and its URL line.
pub open spec fn render_variants(vs: Seq<SpecVariant>) -> Seq<char>
    decreases vs.len(),
{
    if vs.len() == 0 {
        Seq::empty()
    } else {
        vs[0].info + nl() + vs[0].url + nl() + render_variants(vs.skip(1))
    }
}

/// The audio declaration that is emitted, in priority order: high-tier
/// default, then standard default, then high-tier backup, then standard
/// backup.
pub open spec fn audio_choice(a: AudioPick) -> Option<Seq<char>> {
    if a.high_default is Some {
        a.high_default
    } else if a.sd_default is Some {
        a.sd_default
    } else if a.high_backup is Some {
        a.high_backup
    } else {
        a.sd_backup
    }
}

pub open spec fn render_filtered(audio: Option<Seq<char>>, vs: Seq<SpecVariant>) -> Seq<char> {
    manifest_header() + (match audio {
        Some(line) => line + nl(),
        None => Seq::empty(),
    }) + render_variants(vs)
}

/// What filtering a manifest produces: the header, the chosen audio
/// declaration, and the three highest-bandwidth variants in descending
/// order, each with its URL line.
pub open spec fn spec_filter(content: Seq<char>) -> Seq<char> {
    let sc = spec_scan(spec_lines(content), 0, empty_scan());
    render_filtered(audio_choice(sc.audio), take_top(sort_desc(sc.variants)))
}

/// Filter a multi-variant manifest: keep the header, one chosen audio
/// declaration, and the three highest-bandwidth variant streams in
/// descending bandwidth order.
pub fn filter_and_modify_manifest(content: String) -> (r: String)
    ensures
        r@ == spec_filter(content@),
{
    let chars = str_to_chars(content.as_str());
    let lines = split_lines(&chars);
    let sc = scan_manifest(&lines);
    let ghost scr = spec_scan(spec_lines(content@), 0, empty_scan());
    let Scan { variants, high_default, high_backup, sd_default, sd_backup } = sc;
    proof {
        assert(variants.deep_view() == scr.variants);
    }
    let mut kept = sort_variants(variants);
    if kept.len() > 3 {
        kept.truncate(3);
    }
    proof {
        assert(kept.deep_view() =~~= take_top(sort_desc(scr.variants)));
    }
    let audio: Option<Vec<char>> = if high_default.is_some() {
        high_default
    } else if sd_default.is_some() {
        sd_default
    } else if high_backup.is_some() {
        high_backup
    } else {
        sd_backup
    };
    proof {
        assert(audio.deep_view() == audio_choice(scr.audio));
    }
    let mut out = str_to_chars("#EXTM3U\n#EXT-X-INDEPENDENT-SEGMENTS\n");
    match &audio {
        Some(line) => {
            append_chars(&mut out, line);
            out.push('\n');
            proof {
                assert(out@ =~= manifest_header() + (line@ + nl()));
            }
        },
        None => {},
    }
    let ghost prefix = out@;
    let ghost kdv = kept.deep_view();
    let n = kept.len();
    let mut i: usize = 0;
    proof {
        assert(kdv.skip(0) =~= kdv);
    }
    while i < n
        invariant
            n == kept@.len(),
            i <= n,
            kdv == kept.deep_view(),
            out@ + render_variants(kdv.skip(i as int)) == prefix + render_variants(kdv),
        decreases n - i,
    {
        let ghost out0 = out@;
        append_chars(&mut out, &kept[i].info);
        out.push('\n');
        append_chars(&mut out, &kept[i].url);
        out.push('\n');
        proof {
            assert(kdv.skip(i as int)[0] == kdv[i as int]);
            assert(kdv[i as int] == kept@[i as int]@);
            assert(out@ =~= out0 + (kdv[i as int].info + nl() + kdv[i as int].url + nl()));
            assert(kdv.skip(i as int).skip(1) =~= kdv.skip(i as int + 1));
            assert(out@ + render_variants(kdv.skip(i as int + 1)) =~= out0 + render_variants(
                kdv.skip(i as int),
            ));
        }
        i += 1;
    }
    proof {
        assert(kdv.skip(n as int) =~= Seq::<SpecVariant>::empty());
        assert(out@ =~= prefix + render_variants(kdv));
        assert(out@ =~= spec_filter(content@));
    }
    chars_to_string(&out)
}

/// Seconds before an entry's stated expiry at which the cache already
/// stops treating it as valid.
pub const EXPIRY_SAFETY_MARGIN_SECS: u64 = 300;

/// How long a cache entry lives when its manifest carries no expiry
/// marker: six hours.
pub const DEFAULT_EXPIRY_SECS: u64 = 21600;

pub open spec fn expiry_marker() -> Seq<char> {
    "expire/"@
}

/// The expiry stamped on a line: the digits after the first embedded
/// marker, up to the next path separator.
pub open spec fn line_expiry(line: Seq<char>) -> Option<int> {
    attr_u64(line, expiry_marker(), '/')
}

/// The first line that carries the expiry marker, if any.
pub open spec fn first_marker_line(ls: Seq<Seq<char>>) -> Option<Seq<char>>
    decreases ls.len(),
{
    if ls.len() == 0 {
        None
    } else if contains_sub(ls[0], expiry_marker()) {
        Some(ls[0])
    } else {
        first_marker_line(ls.skip(1))
    }
}

/// The expiry embedded in a manifest: read from the first line that
/// carries the marker; absent when no line does, or when that line's
/// marker is not followed by digits.
pub open spec fn spec_expiry(content: Seq<char>) -> Option<int> {
    match first_marker_line(spec_lines(content)) {
        None => None,
        Some(line) => line_expiry(line),
    }
}

/// Extract the expiry marker embedded in a manifest's URLs.
pub fn extract_expiry(content: &Vec<char>) -> (r: Option<u64>)
    ensures
        match r {
            Some(v) => spec_expiry(content@) == Some(v as int),
            None => spec_expiry(content@) is None,
        },
{
    let marker = str_to_chars("expire/");
    let lines = split_lines(content);
    let ghost ldv = lines.deep_view();
    let n = lines.len();
    let mut i: usize = 0;
    proof {
        assert(ldv.skip(0) =~= ldv);
    }
    while i < n
        invariant
            n == lines@.len(),
            i <= n,
            marker@ == "expire/"@,
            ldv == lines.deep_view(),
            ldv == spec_lines(content@),
            first_marker_line(ldv) == first_marker_line(ldv.skip(i as int)),
        decreases n - i,
    {
        let line = &lines[i];
        proof {
            assert(ldv[i as int] =~= line@);
            assert(ldv.skip(i as int)[0] == ldv[i as int]);
        }
        if contains(line, &marker) {
            let r = parse_attr_u64(line, &marker, '/');
            proof {
                assert(first_marker_line(ldv.skip(i as int)) == Some(ldv[i as int]));
            }
            return r;
        }
        proof {
            assert(ldv.skip(i as int).skip(1) =~= ldv.skip(i as int + 1));
        }
        i += 1;
    }
    proof {
        assert(ldv.skip(n as int) =~= Seq::<Seq<char>>::empty());
    }
    None
}

/// A cached filtered manifest for one video, with its expiry in epoch
/// seconds.
pub struct ManifestCache {
    pub video_id: String,
    pub content: String,
    pub expires: u64,
}

impl ManifestCache {
    /// Build a cache entry: the expiry comes from the manifest's embedded
    /// marker, or defaults to six hours past `now`.
    pub fn new(video_id: &str, content: String, now: u64) -> (r: Self)
        requires
            now <= u64::MAX - DEFAULT_EXPIRY_SECS,
        ensures
            r.video_id@ == video_id@,
            r.content@ == content@,
            match spec_expiry(content@) {
                Some(e) => r.expires == e,
                None => r.expires == now + DEFAULT_EXPIRY_SECS,
            },
    {
        let chars = str_to_chars(content.as_str());
        let expires: u64 = match extract_expiry(&chars) {
            Some(e) => e,
            None => now + DEFAULT_EXPIRY_SECS,
        };
        ManifestCache { video_id: video_id.to_owned(), content, expires }
    }

    /// An entry is valid only while its expiry lies more than the safety
    /// margin beyond the current time.
    pub fn is_valid(&self, now: u64) -> (r: bool)
        requires
            now <= u64::MAX - EXPIRY_SAFETY_MARGIN_SECS,
        ensures
            r == (self.expires > now + EXPIRY_SAFETY_MARGIN_SECS),
    {
        self.expires > now + EXPIRY_SAFETY_MARGIN_SECS
    }
}

/// A text with exactly one trailing newline appended if it lacks one.
pub open spec fn spec_normalize(s: Seq<char>) -> Seq<char> {
    if s.len() > 0 && s.last() == '\n' {
        s
    } else {
        s + nl()
    }
}

/// Appending the trailing newline twice changes nothing: normalization is
/// idempotent.
pub proof fn lemma_normalize_idempotent(s: Seq<char>)
    ensures
        spec_normalize(spec_normalize(s)) == spec_normalize(s),
{
    if !(s.len() > 0 && s.last() == '\n') {
        assert((s + nl()).last() == '\n');
    }
}

/// No line produced by splitting contains a newline.
proof fn lemma_spec_lines_no_nl(s: Seq<char>)
    ensures
        forall|k: int, j: int|
            0 <= k < spec_lines(s).len() && 0 <= j < spec_lines(s)[k].len() ==> spec_lines(
                s,
            )[k][j] != '\n',
    decreases s.len(),
{
    if s.len() > 0 {
        lemma_first_nl(s);
        let i = first_nl(s);
        if i < s.len() {
            lemma_spec_lines_no_nl(s.skip(i as int + 1));
            let ls = spec_lines(s);
            assert forall|k: int, j: int|
                0 <= k < ls.len() && 0 <= j < ls[k].len() implies ls[k][j] != '\n' by {
                if k == 0 {
                    assert(ls[0] == chop_line(s, i as int));
                    assert(ls[0][j] == s[j]);
                } else {
                    assert(ls[k] == spec_lines(s.skip(i as int + 1))[k - 1]);
                }
            }
        } else {
            assert(spec_lines(s) == seq![s]);
        }
    }
}

/// A character absent from the text is absent from each of its lines.
proof fn lemma_spec_lines_no_char(s: Seq<char>, c: char)
    requires
        forall|i: int| 0 <= i < s.len() ==> s[i] != c,
    ensures
        forall|k: int, j: int|
            0 <= k < spec_lines(s).len() && 0 <= j < spec_lines(s)[k].len() ==> spec_lines(
                s,
            )[k][j] != c,
    decreases s.len(),
{
    if s.len() > 0 {
        lemma_first_nl(s);
        let i = first_nl(s);
        if i < s.len() {
            assert forall|j: int| 0 <= j < s.skip(i as int + 1).len() implies #[trigger] s.skip(
                i as int + 1,
            )[j] != c by {
                assert(s.skip(i as int + 1)[j] == s[i + 1 + j]);
            }
            lemma_spec_lines_no_char(s.skip(i as int + 1), c);
            let ls = spec_lines(s);
            assert forall|k: int, j: int|
                0 <= k < ls.len() && 0 <= j < ls[k].len() implies ls[k][j] != c by {
                if k == 0 {
                    assert(ls[0] == chop_line(s, i as int));
                    assert(ls[0][j] == s[j]);
                } else {
                    assert(ls[k] == spec_lines(s.skip(i as int + 1))[k - 1]);
                }
            }
        } else {
            assert(spec_lines(s) == seq![s]);
        }
    }
}

/// Splitting peels one newline-free line off the front.
proof fn lemma_lines_concat_line(line: Seq<char>, rest: Seq<char>)
    requires
        forall|j: int| 0 <= j < line.len() ==> line[j] != '\n',
        line.len() > 0 ==> line.last() != '\r',
    ensures
        spec_lines(line + nl() + rest) == seq![line] + spec_lines(rest),
{
    let t = line + nl() + rest;
    assert(t[line.len() as int] == '\n');
    assert forall|j: int| 0 <= j < line.len() implies t[j] != '\n' by {
        assert(t[j] == line[j]);
    }
    lemma_first_nl_unique(t, line.len() as int);
    assert(t.len() > 0);
    if line.len() > 0 {
        assert(t[line.len() - 1] == line.last());
    }
    assert(chop_line(t, line.len() as int) =~= line);
    assert(t.skip(line.len() as int + 1) =~= rest);
}

/// Every rendered variant block ends with a newline.
proof fn lemma_render_variants_ends_nl(vs: Seq<SpecVariant>)
    ensures
        render_variants(vs).len() > 0 ==> render_variants(vs).last() == '\n',
    decreases vs.len(),
{
    if vs.len() > 0 {
        lemma_render_variants_ends_nl(vs.skip(1));
        let head = vs[0].info + nl() + vs[0].url + nl();
        let rest = render_variants(vs.skip(1));
        if rest.len() > 0 {
            assert((head + rest).last() == rest.last());
        } else {
            assert(head + rest =~= head);
            assert(head.last() == '\n');
        }
    }
}

/// A line that re-splits cleanly: no newline inside, no carriage return
/// at its end.
pub open spec fn clean_line(l: Seq<char>) -> bool {
    (forall|j: int| 0 <= j < l.len() ==> l[j] != '\n') && (l.len() > 0 ==> l.last() != '\r')
}

pub open spec fn clean_variants(vs: Seq<SpecVariant>) -> bool {
    forall|k: int| 0 <= k < vs.len() ==> clean_line(#[trigger] vs[k].info) && clean_line(vs[k].url)
}

/// The lines a variant block renders to.
pub open spec fn variant_block_lines(vs: Seq<SpecVariant>) -> Seq<Seq<char>>
    decreases vs.len(),
{
    if vs.len() == 0 {
        Seq::empty()
    } else {
        seq![vs[0].info, vs[0].url] + variant_block_lines(vs.skip(1))
    }
}

/// Rendering clean variants and splitting again recovers exactly their
/// declaration and URL lines.
proof fn lemma_lines_of_render(vs: Seq<SpecVariant>)
    requires
        clean_variants(vs),
    ensures
        spec_lines(render_variants(vs)) == variant_block_lines(vs),
    decreases vs.len(),
{
    if vs.len() == 0 {
        assert(spec_lines(render_variants(vs)) =~= variant_block_lines(vs));
    } else {
        assert(clean_line(vs[0].info));
        assert(clean_line(vs[0].url));
        assert forall|k: int| 0 <= k < vs.skip(1).len() implies clean_line(
            #[trigger] vs.skip(1)[k].info,
        ) && clean_line(vs.skip(1)[k].url) by {
            assert(vs.skip(1)[k] == vs[k + 1]);
        }
        lemma_lines_of_render(vs.skip(1));
        let tail = vs[0].url + nl() + render_variants(vs.skip(1));
        assert(render_variants(vs) =~= vs[0].info + nl() + tail);
        lemma_lines_concat_line(vs[0].info, tail);
        lemma_lines_concat_line(vs[0].url, render_variants(vs.skip(1)));
        assert(spec_lines(render_variants(vs)) =~= variant_block_lines(vs));
    }
}

/// Sorting an already-descending list changes nothing.
proof fn lemma_sort_desc_of_sorted(s: Seq<SpecVariant>)
    requires
        sorted_desc(s),
    ensures
        sort_desc(s) == s,
    decreases s.len(),
{
    if s.len() > 0 {
        let front = s.drop_last();
        assert forall|i: int, j: int| 0 <= i < j < front.len() implies front[i].bw
            >= front[j].bw by {
            assert(front[i] == s[i]);
            assert(front[j] == s[j]);
        }
        lemma_sort_desc_of_sorted(front);
        assert forall|j: int| 0 <= j < front.len() implies front[j].bw >= s.last().bw by {
            assert(front[j] == s[j]);
            assert(s[j].bw >= s[s.len() - 1].bw);
        }
        lemma_insert_desc_at(s.last(), front, front.len() as int);
        assert(front.subrange(0, front.len() as int).push(s.last()) + front.skip(
            front.len() as int,
        ) =~= s);
    }
}

/// A line appears among the manifest's lines.
pub open spec fn from_lines(lines: Seq<Seq<char>>, l: Seq<char>) -> bool {
    exists|k: int| 0 <= k < lines.len() && lines[k] == l
}

/// What the scan guarantees of each collected variant: a declaration
/// line carrying exactly the recorded bandwidth, and both lines taken
/// from the manifest.
pub open spec fn wf_variant(lines: Seq<Seq<char>>, v: SpecVariant) -> bool {
    &&& is_stream_inf(v.info)
    &&& 0 <= v.bw <= u32::MAX as int
    &&& spec_bandwidth(v.info) == Some(v.bw as u32)
    &&& from_lines(lines, v.info)
    &&& from_lines(lines, v.url)
}

/// What the scan guarantees of a filled audio slot: an alternate-media
/// line from the manifest whose tier and default flag match the slot.
pub open spec fn wf_slot(lines: Seq<Seq<char>>, o: Option<Seq<char>>, high: bool, dflt: bool) -> bool {
    match o {
        None => true,
        Some(l) => is_media_line(l) && is_high_tier(l) == high && is_default_line(l) == dflt
            && from_lines(lines, l),
    }
}

pub open spec fn wf_scan_state(lines: Seq<Seq<char>>, st: ScanResult) -> bool {
    &&& forall|k: int| 0 <= k < st.variants.len() ==> wf_variant(lines, #[trigger] st.variants[k])
    &&& wf_slot(lines, st.audio.high_default, true, true)
    &&& wf_slot(lines, st.audio.high_backup, true, false)
    &&& wf_slot(lines, st.audio.sd_default, false, true)
    &&& wf_slot(lines, st.audio.sd_backup, false, false)
}

/// The scan only collects what `wf_scan_state` describes.
proof fn lemma_scan_wf(lines: Seq<Seq<char>>, i: nat, st: ScanResult)
    requires
        wf_scan_state(lines, st),
    ensures
        wf_scan_state(lines, spec_scan(lines, i, st)),
    decreases lines.len() - i,
{
    if i < lines.len() {
        let line = lines[i as int];
        if is_stream_inf(line) {
            let st2 = if i + 1 < lines.len() {
                match spec_bandwidth(line) {
                    Some(bw) => ScanResult {
                        variants: st.variants.push(
                            SpecVariant { bw: bw as int, info: line, url: lines[i as int + 1] },
                        ),
                        audio: st.audio,
                    },
                    None => st,
                }
            } else {
                st
            };
            if i + 1 < lines.len() {
                match spec_bandwidth(line) {
                    Some(bw) => {
                        let v = SpecVariant { bw: bw as int, info: line, url: lines[i as int + 1] };
                        assert(lines[i as int] == v.info);
                        assert(lines[i as int + 1] == v.url);
                        assert(from_lines(lines, v.info));
                        assert(from_lines(lines, v.url));
                        assert(wf_variant(lines, v));
                        assert forall|k: int| 0 <= k < st2.variants.len() implies wf_variant(
                            lines,
                            #[trigger] st2.variants[k],
                        ) by {
                            if k < st.variants.len() {
                                assert(st2.variants[k] == st.variants[k]);
                            } else {
                                assert(st2.variants[k] == v);
                            }
                        }
                    },
                    None => {},
                }
            }
            let ni = if i + 2 <= lines.len() {
                i + 2
            } else {
                lines.len()
            };
            lemma_scan_wf(lines, ni, st2);
        } else if is_media_line(line) {
            assert(from_lines(lines, line));
            lemma_scan_wf(
                lines,
                i + 1,
                ScanResult { variants: st.variants, audio: scan_step_media(st.audio, line) },
            );
        } else {
            lemma_scan_wf(lines, i + 1, st);
        }
    }
}

/// Scanning a block of variant declaration/URL line pairs appends
/// exactly those variants and touches nothing else.
proof fn lemma_scan_variant_block(
    lines: Seq<Seq<char>>,
    i: nat,
    st: ScanResult,
    vs: Seq<SpecVariant>,
)
    requires
        i + 2 * vs.len() == lines.len(),
        forall|k: int|
            0 <= k < vs.len() ==> lines[i + 2 * k] == (#[trigger] vs[k]).info && lines[i + 2 * k
                + 1] == vs[k].url,
        forall|k: int|
            0 <= k < vs.len() ==> is_stream_inf((#[trigger] vs[k]).info) && 0 <= vs[k].bw
                <= u32::MAX as int && spec_bandwidth(vs[k].info) == Some(vs[k].bw as u32),
    ensures
        spec_scan(lines, i, st) == (ScanResult { variants: st.variants + vs, audio: st.audio }),
    decreases vs.len(),
{
    if vs.len() == 0 {
        assert(st.variants + vs =~= st.variants);
        assert(spec_scan(lines, i, st) =~~= ScanResult {
            variants: st.variants + vs,
            audio: st.audio,
        });
    } else {
        let line = lines[i as int];
        assert(line == vs[0].info);
        assert(is_stream_inf(line));
        assert(i + 1 < lines.len());
        assert(spec_bandwidth(line) == Some(vs[0].bw as u32));
        let pushed = SpecVariant {
            bw: (vs[0].bw as u32) as int,
            info: line,
            url: lines[i as int + 1],
        };
        assert(pushed =~~= vs[0]);
        let st2 = ScanResult { variants: st.variants.push(vs[0]), audio: st.audio };
        assert(ScanResult {
            variants: st.variants.push(pushed),
            audio: st.audio,
        } =~~= st2);
        assert forall|k: int|
            0 <= k < vs.skip(1).len() implies lines[(i + 2) + 2 * k] == (#[trigger] vs.skip(
            1,
        )[k]).info && lines[(i + 2) + 2 * k + 1] == vs.skip(1)[k].url by {
            assert(vs.skip(1)[k] == vs[k + 1]);
            assert(lines[i + 2 * (k + 1)] == vs[k + 1].info);
            assert(lines[i + 2 * (k + 1) + 1] == vs[k + 1].url);
        }
        assert forall|k: int|
            0 <= k < vs.skip(1).len() implies is_stream_inf((#[trigger] vs.skip(1)[k]).info) && 0
            <= vs.skip(1)[k].bw <= u32::MAX as int && spec_bandwidth(vs.skip(1)[k].info) == Some(
            vs.skip(1)[k].bw as u32,
        ) by {
            assert(vs.skip(1)[k] == vs[k + 1]);
        }
        lemma_scan_variant_block(lines, i + 2, st2, vs.skip(1));
        assert(st.variants.push(vs[0]) + vs.skip(1) =~= st.variants + vs);
        assert(spec_scan(lines, i, st) == spec_scan(lines, i + 2, st2));
    }
}

proof fn lemma_variant_block_lines_index(vs: Seq<SpecVariant>)
    ensures
        variant_block_lines(vs).len() == 2 * vs.len(),
        forall|k: int|
            0 <= k < vs.len() ==> variant_block_lines(vs)[2 * k] == (#[trigger] vs[k]).info
                && variant_block_lines(vs)[2 * k + 1] == vs[k].url,
    decreases vs.len(),
{
    if vs.len() > 0 {
        lemma_variant_block_lines_index(vs.skip(1));
        let vbl = variant_block_lines(vs);
        assert forall|k: int|
            0 <= k < vs.len() implies vbl[2 * k] == (#[trigger] vs[k]).info && vbl[2 * k + 1]
            == vs[k].url by {
            if k == 0 {
                assert(vbl[0] == vs[0].info);
                assert(vbl[1] == vs[0].url);
            } else {
                assert(vbl[2 * k] == variant_block_lines(vs.skip(1))[2 * (k - 1)]);
                assert(vbl[2 * k + 1] == variant_block_lines(vs.skip(1))[2 * (k - 1) + 1]);
                assert(vs.skip(1)[k - 1] == vs[k]);
            }
        }
    }
}

/// Filtering is a fixpoint on its own output: running the filter on a
/// filtered manifest reproduces it byte for byte. Stated for manifests
/// free of carriage returns: a manifest that doubles a carriage return
/// before a line feed loses the extra one only on the second pass.
#[verifier::rlimit(100)]
pub proof fn lemma_filter_idempotent(content: Seq<char>)
    requires
        forall|i: int| 0 <= i < content.len() ==> content[i] != '\r',
    ensures
        spec_filter(spec_filter(content)) == spec_filter(content),
{
    reveal_strlit("#EXTM3U\n#EXT-X-INDEPENDENT-SEGMENTS\n");
    reveal_strlit("#EXTM3U");
    reveal_strlit("#EXT-X-INDEPENDENT-SEGMENTS");
    reveal_strlit("#EXT-X-STREAM-INF:");
    reveal_strlit("#EXT-X-MEDIA:");

    let ls = spec_lines(content);
    let sc = spec_scan(ls, 0, empty_scan());
    let audio = audio_choice(sc.audio);
    let sorted = sort_desc(sc.variants);
    let kept = take_top(sorted);
    let out = spec_filter(content);

    lemma_scan_wf(ls, 0, empty_scan());
    lemma_spec_lines_no_nl(content);
    lemma_spec_lines_no_char(content, '\r');
    lemma_sort_desc_props(sc.variants);

    // Every line the scan kept re-splits cleanly.
    assert forall|l: Seq<char>| from_lines(ls, l) implies clean_line(l) by {
        let k = choose|k: int| 0 <= k < ls.len() && ls[k] == l;
        assert(forall|j: int| 0 <= j < l.len() ==> ls[k][j] != '\n');
        assert(forall|j: int| 0 <= j < l.len() ==> ls[k][j] != '\r');
        if l.len() > 0 {
            assert(l.last() == ls[k][l.len() - 1]);
        }
    }
    assert forall|k: int| 0 <= k < kept.len() implies wf_variant(ls, #[trigger] kept[k]) by {
        assert(kept[k] == sorted[k]);
        assert(in_seq(sorted[k], sorted));
        assert(in_seq(sorted[k], sc.variants));
        let m = choose|m: int| 0 <= m < sc.variants.len() && sc.variants[m] == sorted[k];
        assert(wf_variant(ls, sc.variants[m]));
    }
    assert(clean_variants(kept));

    // The output's lines: the two header lines, the chosen audio line,
    // then each kept declaration with its URL line.
    let h1 = "#EXTM3U"@;
    let h2 = "#EXT-X-INDEPENDENT-SEGMENTS"@;
    let mid: Seq<char> = match audio {
        Some(l) => l + nl(),
        None => Seq::empty(),
    };
    let vtext = render_variants(kept);
    assert(out == manifest_header() + mid + vtext);
    assert(out =~= h1 + nl() + (h2 + nl() + (mid + vtext)));
    assert(clean_line(h1));
    assert(clean_line(h2));
    lemma_lines_concat_line(h1, h2 + nl() + (mid + vtext));
    lemma_lines_concat_line(h2, mid + vtext);
    lemma_lines_of_render(kept);
    let vbl = variant_block_lines(kept);
    let audio_lines: Seq<Seq<char>> = match audio {
        Some(l) => seq![l],
        None => Seq::empty(),
    };
    match audio {
        Some(l) => {
            assert(wf_slot(ls, sc.audio.high_default, true, true));
            assert(is_media_line(l) && from_lines(ls, l));
            assert(clean_line(l));
            assert(mid + vtext =~= l + nl() + vtext);
            lemma_lines_concat_line(l, vtext);
        },
        None => {
            assert(mid + vtext =~= vtext);
        },
    }
    let bl = spec_lines(out);
    assert(bl =~= seq![h1, h2] + audio_lines + vbl);
    lemma_variant_block_lines_index(kept);

    // The header lines are not declarations.
    assert(!is_stream_inf(h1)) by {
        assert(h1.len() < "#EXT-X-STREAM-INF:"@.len());
    }
    assert(!is_media_line(h1)) by {
        assert(h1.len() < "#EXT-X-MEDIA:"@.len());
    }
    assert(!is_stream_inf(h2)) by {
        if is_stream_inf(h2) {
            assert(h2.subrange(0, 18)[7] == h2[7]);
        }
    }
    assert(!is_media_line(h2)) by {
        if is_match_at(h2, "#EXT-X-MEDIA:"@, 0) {
            assert(h2.subrange(0, 13)[7] == h2[7]);
        }
    }

    // Re-scan the output's lines.
    assert(bl[0] == h1);
    assert(bl[1] == h2);
    assert(spec_scan(bl, 0, empty_scan()) == spec_scan(bl, 1, empty_scan()));
    assert(spec_scan(bl, 1, empty_scan()) == spec_scan(bl, 2, empty_scan()));
    let base: nat = 2 + audio_lines.len();
    let st1 = ScanResult {
        variants: Seq::empty(),
        audio: match audio {
            Some(l) => scan_step_media(empty_scan().audio, l),
            None => empty_scan().audio,
        },
    };
    match audio {
        Some(l) => {
            assert(bl[2] == l);
            assert(!is_stream_inf(l)) by {
                if is_stream_inf(l) {
                    assert(l.subrange(0, 18)[7] == l[7]);
                    assert(l.subrange(0, 13)[7] == l[7]);
                }
            }
            assert(spec_scan(bl, 2, empty_scan()) == spec_scan(bl, 3, st1));
        },
        None => {
            assert(st1 =~~= empty_scan());
        },
    }
    assert forall|k: int|
        0 <= k < kept.len() implies bl[base + 2 * k] == (#[trigger] kept[k]).info && bl[base + 2
        * k + 1] == kept[k].url by {
        assert(bl[base + 2 * k] == vbl[2 * k]);
        assert(bl[base + 2 * k + 1] == vbl[2 * k + 1]);
    }
    assert forall|k: int|
        0 <= k < kept.len() implies is_stream_inf((#[trigger] kept[k]).info) && 0 <= kept[k].bw
        <= u32::MAX as int && spec_bandwidth(kept[k].info) == Some(kept[k].bw as u32) by {
        assert(wf_variant(ls, kept[k]));
    }
    assert(base + 2 * kept.len() == bl.len());
    lemma_scan_variant_block(bl, base, st1, kept);
    let sc2 = spec_scan(bl, 0, empty_scan());
    assert(sc2.variants =~= kept);

    // The single re-scanned audio line reproduces the original choice:
    // its tier and default flag land it in the slot it came from.
    assert(audio_choice(sc2.audio) == audio);

    // The kept list is already sorted and within the cap.
    assert forall|i: int, j: int| 0 <= i < j < kept.len() implies kept[i].bw >= kept[j].bw by {
        assert(kept[i] == sorted[i]);
        assert(kept[j] == sorted[j]);
    }
    lemma_sort_desc_of_sorted(kept);
    assert(take_top(sort_desc(sc2.variants)) == kept);
    assert(spec_filter(out) == render_filtered(audio_choice(sc2.audio), kept));
    assert(spec_filter(out) == out);
}

/// A filtered manifest already ends with its one trailing newline, so
/// normalizing it leaves it byte-identical.
pub proof fn lemma_filter_already_normalized(content: Seq<char>)
    ensures
        spec_normalize(spec_filter(content)) == spec_filter(content),
{
    reveal_strlit("#EXTM3U\n#EXT-X-INDEPENDENT-SEGMENTS\n");
    let sc = spec_scan(spec_lines(content), 0, empty_scan());
    let audio = audio_choice(sc.audio);
    let kept = take_top(sort_desc(sc.variants));
    let mid: Seq<char> = match audio {
        Some(line) => line + nl(),
        None => Seq::empty(),
    };
    let out = spec_filter(content);
    assert(out == manifest_header() + mid + render_variants(kept));
    lemma_render_variants_ends_nl(kept);
    if render_variants(kept).len() > 0 {
        assert(out.last() == render_variants(kept).last());
    } else {
        assert(manifest_header() + mid + render_variants(kept) =~= manifest_header() + mid);
        match audio {
            Some(line) => {
                assert(mid.last() == '\n');
                assert((manifest_header() + mid).last() == mid.last());
            },
            None => {
                assert(manifest_header() + mid =~= manifest_header());
                assert(manifest_header().last() == '\n');
            },
        }
    }
}

/// Ensure the text ends with exactly one more newline than it has.
pub fn ensure_trailing_newline(content: String) -> (r: String)
    ensures
        r@ == spec_normalize(content@),
{
    let mut chars = str_to_chars(content.as_str());
    let n = chars.len();
    if n > 0 && chars[n - 1] == '\n' {
        content
    } else {
        chars.push('\n');
        proof {
            assert(chars@ =~= content@ + nl());
        }
        chars_to_string(&chars)
    }
}

/// The manifest signature every playable manifest must carry.
pub open spec fn has_signature(content: Seq<char>) -> bool {
    contains_sub(content, "#EXTM3U"@)
}

/// Turn a fetched manifest body into a cache entry: reject a body without
/// the playlist signature, filter it, normalize the trailing newline, and
/// stamp the expiry.
pub fn process_fetched_manifest(video_id: &str, content: String, now: u64) -> (r: Result<
    ManifestCache,
    crate::Failure,
>)
    requires
        now <= u64::MAX - DEFAULT_EXPIRY_SECS,
    ensures
        r is Ok <==> has_signature(content@),
        match r {
            Ok(c) => {
                &&& c.video_id@ == video_id@
                &&& c.content@ == spec_normalize(spec_filter(content@))
                &&& match spec_expiry(spec_normalize(spec_filter(content@))) {
                    Some(e) => c.expires == e,
                    None => c.expires == now + DEFAULT_EXPIRY_SECS,
                }
            },
            Err(e) => e == crate::Failure::Parse,
        },
{
    let chars = str_to_chars(content.as_str());
    let signature = str_to_chars("#EXTM3U");
    if !contains(&chars, &signature) {
        return Err(crate::Failure::Parse);
    }
    let filtered = filter_and_modify_manifest(content);
    let normalized = ensure_trailing_newline(filtered);
    Ok(ManifestCache::new(video_id, normalized, now))
}

/// What the playback boundary answers with: a manifest body, or the
/// direct-stream fallback.
pub enum PlaybackPlan {
    Manifest(String),
    DirectStream,
}

/// The playback boundary always answers: a successfully resolved manifest
/// is served, and any failure degrades to the direct stream.
pub fn plan_playback(outcome: Result<ManifestCache, crate::Failure>) -> (r: PlaybackPlan)
    ensures
        match outcome {
            Ok(c) => r matches PlaybackPlan::Manifest(m) && m@ == c.content@,
            Err(_) => r is DirectStream,
        },
{
    match outcome {
        Ok(c) => PlaybackPlan::Manifest(c.content),
        Err(_) => PlaybackPlan::DirectStream,
    }
}

/// The manifest-discovery URL of the first listed format that exposes
/// one, if any.
pub open spec fn first_manifest_url(formats: Seq<serde_json::Value>) -> Option<Seq<char>>
    decreases formats.len(),
{
    if formats.len() == 0 {
        None
    } else {
        match crate::shims::json_str_of(formats[0], "manifest_url"@) {
            Some(u) => Some(u),
            None => first_manifest_url(formats.skip(1)),
        }
    }
}

/// Find the first listed format that exposes a manifest-discovery URL:
/// absent when the metadata has no formats array, or no format in it
/// carries one.
pub fn find_manifest_url(metadata: &serde_json::Value) -> (r: Option<String>)
    ensures
        match crate::shims::json_array_of(*metadata, "formats"@) {
            None => r is None,
            Some(formats) => (match first_manifest_url(formats) {
                None => r is None,
                Some(u) => r matches Some(s) && s@ == u,
            }),
        },
{
    match crate::shims::json_array_field(metadata, "formats") {
        None => None,
        Some(formats) => {
            let ghost fdv = formats@;
            let n = formats.len();
            let mut i: usize = 0;
            proof {
                assert(fdv.skip(0) =~= fdv);
            }
            while i < n
                invariant
                    n == formats@.len(),
                    i <= n,
                    fdv == formats@,
                    crate::shims::json_array_of(*metadata, "formats"@) == Some(fdv),
                    first_manifest_url(fdv) == first_manifest_url(fdv.skip(i as int)),
                decreases n - i,
            {
                proof {
                    assert(fdv.skip(i as int)[0] == fdv[i as int]);
                }
                match crate::shims::json_str_field(&formats[i], "manifest_url") {
                    Some(u) => {
                        return Some(u);
                    },
                    None => {
                        proof {
                            assert(fdv.skip(i as int).skip(1) =~= fdv.skip(i as int + 1));
                        }
                    },
                }
                i += 1;
            }
            proof {
                assert(fdv.skip(n as int) =~= Seq::<serde_json::Value>::empty());
            }
            None
        },
    }
}

} // verus!
