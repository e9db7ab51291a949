//! Character-sequence utilities: substring search, digit parsing, decimal
//! rendering and line splitting, shared by the manifest filter and the
//! artifact naming logic.

use vstd::prelude::*;

verus! {

/// The needle occurs in the haystack starting at position `i`.
pub open spec fn is_match_at(hay: Seq<char>, needle: Seq<char>, i: int) -> bool {
    0 <= i && i + needle.len() <= hay.len() && hay.subrange(i, i + needle.len()) == needle
}

/// The needle occurs somewhere in the haystack.
pub open spec fn contains_sub(hay: Seq<char>, needle: Seq<char>) -> bool {
    exists|i: int| is_match_at(hay, needle, i)
}

/// Copy a string slice out into a vector of its characters.
pub fn str_to_chars(s: &str) -> (r: Vec<char>)
    ensures
        r@ == s@,
{
    let n = s.unicode_len();
    let mut r: Vec<char> = Vec::new();
    let mut i: usize = 0;
    while i < n
        invariant
            n == s@.len(),
            i <= n,
            r@ == s@.subrange(0, i as int),
        decreases n - i,
    {
        r.push(s.get_char(i));
        i += 1;
        proof {
            assert(r@ =~= s@.subrange(0, i as int));
        }
    }
    proof {
        assert(r@ =~= s@);
    }
    r
}

/// Does the needle occur at position `i` of the haystack?
pub fn match_at(hay: &Vec<char>, needle: &Vec<char>, i: usize) -> (r: bool)
    requires
        i + needle@.len() <= hay@.len(),
    ensures
        r == is_match_at(hay@, needle@, i as int),
{
    let n = needle.len();
    let hl = hay.len();
    let mut j: usize = 0;
    while j < n
        invariant
            n == needle@.len(),
            hl == hay@.len(),
            j <= n,
            i + n <= hl,
            forall|k: int| 0 <= k < j ==> hay@[i + k] == needle@[k],
        decreases n - j,
    {
        if hay[i + j] != needle[j] {
            proof {
                assert(hay@.subrange(i as int, i + needle@.len())[j as int] != needle@[j as int]);
            }
            return false;
        }
        j += 1;
    }
    proof {
        assert(hay@.subrange(i as int, i + needle@.len()) =~= needle@);
    }
    true
}

/// Find the first occurrence of the needle at or after `from`.
pub fn find_sub(hay: &Vec<char>, needle: &Vec<char>, from: usize) -> (r: Option<usize>)
    ensures
        match r {
            Some(i) => from <= i && is_match_at(hay@, needle@, i as int) && forall|j: int|
                from <= j < i ==> !is_match_at(hay@, needle@, j),
            None => forall|j: int| from <= j ==> !is_match_at(hay@, needle@, j),
        },
{
    if needle.len() > hay.len() {
        return None;
    }
    let last = hay.len() - needle.len();
    if from > last {
        return None;
    }
    let mut i = from;
    loop
        invariant
            needle@.len() <= hay@.len(),
            last == hay@.len() - needle@.len(),
            from <= i <= last,
            forall|j: int| from <= j < i ==> !is_match_at(hay@, needle@, j),
        decreases last - i,
    {
        if match_at(hay, needle, i) {
            return Some(i);
        }
        if i == last {
            return None;
        }
        i += 1;
    }
}

/// Find the first occurrence of a character at or after `from`.
pub fn find_char(hay: &Vec<char>, c: char, from: usize) -> (r: Option<usize>)
    ensures
        match r {
            Some(i) => from <= i < hay@.len() && hay@[i as int] == c && forall|j: int|
                from <= j < i ==> hay@[j] != c,
            None => forall|j: int| from <= j < hay@.len() ==> hay@[j] != c,
        },
{
    let n = hay.len();
    let mut i = from;
    while i < n
        invariant
            n == hay@.len(),
            from <= i,
            forall|j: int| from <= j < i ==> hay@[j] != c,
        decreases n - i,
    {
        if hay[i] == c {
            return Some(i);
        }
        i += 1;
    }
    None
}

/// Index of the first occurrence of the byte, or the length if there is
/// none.
pub open spec fn first_byte(s: Seq<u8>, b: u8) -> nat
    decreases s.len(),
{
    if s.len() == 0 {
        0
    } else if s[0] == b {
        0
    } else {
        1 + first_byte(s.skip(1), b)
    }
}

pub proof fn lemma_first_byte_unique(s: Seq<u8>, b: u8, k: int)
    requires
        0 <= k <= s.len(),
        k < s.len() ==> s[k] == b,
        forall|j: int| 0 <= j < k ==> s[j] != b,
    ensures
        first_byte(s, b) == k,
    decreases s.len(),
{
    if s.len() > 0 && s[0] != b {
        assert forall|j: int| 0 <= j < k - 1 implies s.skip(1)[j] != b by {
            assert(s.skip(1)[j] == s[j + 1]);
        }
        assert(k - 1 < s.skip(1).len() ==> s.skip(1)[k - 1] == b);
        lemma_first_byte_unique(s.skip(1), b, k - 1);
    }
}

/// Find the first occurrence of a byte at or after `from`.
pub fn find_byte(s: &[u8], b: u8, from: usize) -> (r: Option<usize>)
    ensures
        match r {
            Some(i) => from <= i < s@.len() && s@[i as int] == b && forall|j: int|
                from <= j < i ==> s@[j] != b,
            None => forall|j: int| from <= j < s@.len() ==> s@[j] != b,
        },
{
    let n = s.len();
    let mut i = from;
    while i < n
        invariant
            n == s@.len(),
            from <= i,
            forall|j: int| from <= j < i ==> s@[j] != b,
        decreases n - i,
    {
        if s[i] == b {
            return Some(i);
        }
        i += 1;
    }
    None
}

/// Copy a range of a byte slice.
pub fn copy_byte_range(s: &[u8], from: usize, to: usize) -> (r: Vec<u8>)
    requires
        from <= to <= s@.len(),
    ensures
        r@ == s@.subrange(from as int, to as int),
{
    let mut r: Vec<u8> = Vec::new();
    let mut i = from;
    while i < to
        invariant
            from <= i <= to <= s@.len(),
            r@ == s@.subrange(from as int, i as int),
        decreases to - i,
    {
        r.push(s[i]);
        i += 1;
        proof {
            assert(r@ =~= s@.subrange(from as int, i as int));
        }
    }
    r
}

/// Are two string slices equal character for character?
pub fn str_eq(a: &str, b: &str) -> (r: bool)
    ensures
        r == (a@ == b@),
{
    let an = a.unicode_len();
    let bn = b.unicode_len();
    if an != bn {
        proof {
            assert(a@ != b@);
        }
        return false;
    }
    let mut i: usize = 0;
    while i < an
        invariant
            an == a@.len(),
            bn == b@.len(),
            an == bn,
            i <= an,
            forall|j: int| 0 <= j < i ==> a@[j] == b@[j],
        decreases an - i,
    {
        if a.get_char(i) != b.get_char(i) {
            return false;
        }
        i += 1;
    }
    proof {
        assert(a@ =~= b@);
    }
    true
}

/// An ASCII whitespace character: space, tab, carriage return or newline.
pub open spec fn is_space_char(c: char) -> bool {
    c == ' ' || c == '\t' || c == '\r' || c == '\n'
}

/// The sequence with its leading whitespace removed.
pub open spec fn trim_start_spec(s: Seq<char>) -> Seq<char>
    decreases s.len(),
{
    if s.len() > 0 && is_space_char(s[0]) {
        trim_start_spec(s.skip(1))
    } else {
        s
    }
}

/// The sequence with its trailing whitespace removed.
pub open spec fn trim_end_spec(s: Seq<char>) -> Seq<char>
    decreases s.len(),
{
    if s.len() > 0 && is_space_char(s.last()) {
        trim_end_spec(s.drop_last())
    } else {
        s
    }
}

/// The sequence with whitespace removed from both ends.
pub open spec fn trim_spec(s: Seq<char>) -> Seq<char> {
    trim_end_spec(trim_start_spec(s))
}

pub proof fn lemma_trim_start_at(s: Seq<char>, k: int)
    requires
        0 <= k <= s.len(),
        forall|j: int| 0 <= j < k ==> is_space_char(s[j]),
        k < s.len() ==> !is_space_char(s[k]),
    ensures
        trim_start_spec(s) == s.skip(k),
    decreases k,
{
    if k == 0 {
        if s.len() > 0 && is_space_char(s[0]) {
            assert(false);
        }
        assert(s.skip(0) =~= s);
    } else {
        assert forall|j: int| 0 <= j < k - 1 implies is_space_char(s.skip(1)[j]) by {
            assert(s.skip(1)[j] == s[j + 1]);
        }
        assert(k - 1 < s.skip(1).len() ==> !is_space_char(s.skip(1)[k - 1]));
        lemma_trim_start_at(s.skip(1), k - 1);
        assert(s.skip(1).skip(k - 1) =~= s.skip(k));
    }
}

pub proof fn lemma_trim_end_at(s: Seq<char>, k: int)
    requires
        0 <= k <= s.len(),
        forall|j: int| k <= j < s.len() ==> is_space_char(s[j]),
        k > 0 ==> !is_space_char(s[k - 1]),
    ensures
        trim_end_spec(s) == s.take(k),
    decreases s.len() - k,
{
    if k == s.len() as int {
        if s.len() > 0 && is_space_char(s.last()) {
            lemma_trim_end_at(s.drop_last(), k - 1);
            assert(false);
        }
        assert(s.take(k) =~= s);
    } else {
        assert(is_space_char(s.last()));
        lemma_trim_end_at(s.drop_last(), k);
        assert(s.drop_last().take(k) =~= s.take(k));
    }
}

/// Remove ASCII whitespace from both ends.
pub fn trim_chars(s: &Vec<char>) -> (r: Vec<char>)
    ensures
        r@ == trim_spec(s@),
{
    let n = s.len();
    let mut start: usize = 0;
    while start < n && is_space(s[start])
        invariant
            n == s@.len(),
            start <= n,
            forall|j: int| 0 <= j < start ==> is_space_char(s@[j]),
        decreases n - start,
    {
        start += 1;
    }
    proof {
        lemma_trim_start_at(s@, start as int);
    }
    let mut end: usize = n;
    while end > start && is_space(s[end - 1])
        invariant
            n == s@.len(),
            start <= end <= n,
            forall|j: int| end <= j < n ==> is_space_char(s@[j]),
            trim_start_spec(s@) == s@.skip(start as int),
            forall|j: int| 0 <= j < start ==> is_space_char(s@[j]),
        decreases end,
    {
        end -= 1;
    }
    let r = copy_range(s, start, end);
    proof {
        let t = s@.skip(start as int);
        assert forall|j: int| end - start <= j < t.len() implies is_space_char(t[j]) by {
            assert(t[j] == s@[start + j]);
        }
        if end > start {
            assert(!is_space_char(s@[end - 1]));
            assert(t[end - start - 1] == s@[end - 1]);
        } else {
            if start < n {
                assert(!is_space_char(s@[start as int]));
                assert(start == end);
            }
        }
        lemma_trim_end_at(t, end - start);
        assert(t.take(end - start) =~= s@.subrange(start as int, end as int));
    }
    r
}

/// Is this an ASCII whitespace character?
pub fn is_space(c: char) -> (r: bool)
    ensures
        r == is_space_char(c),
{
    c == ' ' || c == '\t' || c == '\r' || c == '\n'
}

/// Are two character vectors equal?
pub fn chars_eq(a: &Vec<char>, b: &Vec<char>) -> (r: bool)
    ensures
        r == (a@ == b@),
{
    let an = a.len();
    let bn = b.len();
    if an != bn {
        return false;
    }
    let mut i: usize = 0;
    while i < an
        invariant
            an == a@.len(),
            bn == b@.len(),
            an == bn,
            i <= an,
            forall|j: int| 0 <= j < i ==> a@[j] == b@[j],
        decreases an - i,
    {
        if a[i] != b[i] {
            return false;
        }
        i += 1;
    }
    proof {
        assert(a@ =~= b@);
    }
    true
}

/// Index of the first whitespace character, or the length if there is
/// none.
pub open spec fn first_space(s: Seq<char>) -> nat
    decreases s.len(),
{
    if s.len() == 0 {
        0
    } else if is_space_char(s[0]) {
        0
    } else {
        1 + first_space(s.skip(1))
    }
}

pub proof fn lemma_first_space_le(s: Seq<char>)
    ensures
        first_space(s) <= s.len(),
    decreases s.len(),
{
    if s.len() > 0 && !is_space_char(s[0]) {
        lemma_first_space_le(s.skip(1));
    }
}

pub proof fn lemma_first_space_unique(s: Seq<char>, k: int)
    requires
        0 <= k <= s.len(),
        k < s.len() ==> is_space_char(s[k]),
        forall|j: int| 0 <= j < k ==> !is_space_char(s[j]),
    ensures
        first_space(s) == k,
    decreases s.len(),
{
    if s.len() > 0 && !is_space_char(s[0]) {
        assert forall|j: int| 0 <= j < k - 1 implies !is_space_char(s.skip(1)[j]) by {
            assert(s.skip(1)[j] == s[j + 1]);
        }
        assert(k - 1 < s.skip(1).len() ==> is_space_char(s.skip(1)[k - 1]));
        lemma_first_space_unique(s.skip(1), k - 1);
    }
}

/// The whitespace-separated tokens of a line.
pub open spec fn spec_tokens(s: Seq<char>) -> Seq<Seq<char>>
    decreases s.len(),
    via spec_tokens_decreases
{
    if s.len() == 0 {
        Seq::empty()
    } else if is_space_char(s[0]) {
        spec_tokens(s.skip(1))
    } else {
        let k = first_space(s);
        seq![s.take(k as int)] + spec_tokens(s.skip(k as int))
    }
}

#[via_fn]
proof fn spec_tokens_decreases(s: Seq<char>) {
    if s.len() > 0 && !is_space_char(s[0]) {
        lemma_first_space_le(s);
    }
}

/// Split a line at runs of whitespace.
pub fn split_whitespace(line: &Vec<char>) -> (r: Vec<Vec<char>>)
    ensures
        r.deep_view() == spec_tokens(line@),
{
    let n = line.len();
    let mut r: Vec<Vec<char>> = Vec::new();
    let mut pos: usize = 0;
    proof {
        assert(line@.skip(0) =~= line@);
        assert(r.deep_view() + spec_tokens(line@) =~~= spec_tokens(line@));
    }
    while pos < n
        invariant
            n == line@.len(),
            pos <= n,
            spec_tokens(line@) == r.deep_view() + spec_tokens(line@.skip(pos as int)),
        decreases n - pos,
    {
        let ghost rest = line@.skip(pos as int);
        let ghost dv0 = r.deep_view();
        if is_space(line[pos]) {
            proof {
                assert(rest[0] == line@[pos as int]);
                assert(rest.skip(1) =~= line@.skip(pos as int + 1));
            }
            pos += 1;
        } else {
            let mut e: usize = pos;
            while e < n && !is_space(line[e])
                invariant
                    n == line@.len(),
                    pos <= e <= n,
                    forall|j: int| pos <= j < e ==> !is_space_char(line@[j]),
                decreases n - e,
            {
                e += 1;
            }
            proof {
                assert(rest[0] == line@[pos as int]);
                assert forall|j: int| 0 <= j < e - pos implies !is_space_char(rest[j]) by {
                    assert(rest[j] == line@[pos + j]);
                }
                if e < n {
                    assert(rest[e - pos] == line@[e as int]);
                }
                lemma_first_space_unique(rest, e - pos);
            }
            let tok = copy_range(line, pos, e);
            proof {
                assert(tok@ =~= rest.take(e - pos));
                assert(rest.skip(e - pos) =~= line@.skip(e as int));
            }
            r.push(tok);
            proof {
                assert(r.deep_view() =~~= dv0.push(rest.take(e - pos)));
                assert(spec_tokens(rest) == seq![rest.take(e - pos)] + spec_tokens(
                    line@.skip(e as int),
                ));
                assert(spec_tokens(line@) =~~= r.deep_view() + spec_tokens(
                    line@.skip(e as int),
                ));
            }
            pos = e;
        }
    }
    proof {
        assert(line@.skip(pos as int) =~= Seq::<char>::empty());
        assert(r.deep_view() =~~= spec_tokens(line@));
    }
    r
}

/// The sequence with every copy of the prefix repeatedly removed from the
/// front.
pub open spec fn strip_all_prefix(s: Seq<char>, p: Seq<char>) -> Seq<char>
    decreases s.len(),
{
    if p.len() > 0 && is_match_at(s, p, 0) {
        strip_all_prefix(s.skip(p.len() as int), p)
    } else {
        s
    }
}

/// Repeatedly remove the prefix from the front.
pub fn strip_prefix_loop(s: &Vec<char>, p: &Vec<char>) -> (r: Vec<char>)
    requires
        p@.len() > 0,
    ensures
        r@ == strip_all_prefix(s@, p@),
{
    let n = s.len();
    let mut pos: usize = 0;
    proof {
        assert(s@.skip(0) =~= s@);
    }
    while p.len() <= n - pos && match_at_from(s, p, pos)
        invariant
            n == s@.len(),
            pos <= n,
            p@.len() > 0,
            strip_all_prefix(s@, p@) == strip_all_prefix(s@.skip(pos as int), p@),
        decreases n - pos,
    {
        proof {
            assert(s@.skip(pos as int).skip(p@.len() as int) =~= s@.skip(pos + p@.len()));
        }
        pos += p.len();
    }
    proof {
        let t = s@.skip(pos as int);
        if p@.len() <= t.len() {
            assert(!is_match_at(t, p@, 0));
        }
    }
    copy_range(s, pos, n)
}

/// Does the needle occur at `i`, where `i + needle.len()` may exceed the
/// haystack (in which case it does not occur there)?
fn match_at_from(hay: &Vec<char>, needle: &Vec<char>, i: usize) -> (r: bool)
    requires
        i + needle@.len() <= hay@.len(),
    ensures
        r == is_match_at(hay@.skip(i as int), needle@, 0),
{
    let r = match_at(hay, needle, i);
    proof {
        if r {
            assert(hay@.skip(i as int).subrange(0, needle@.len() as int) =~= hay@.subrange(
                i as int,
                i + needle@.len(),
            ));
        } else {
            if is_match_at(hay@.skip(i as int), needle@, 0) {
                assert(hay@.subrange(i as int, i + needle@.len()) =~= hay@.skip(
                    i as int,
                ).subrange(0, needle@.len() as int));
            }
        }
    }
    r
}

/// A decimal digit character (code points 48 through 57).
pub open spec fn is_digit_char(c: char) -> bool {
    48 <= c as u32 <= 57
}

/// Every character of the sequence is a decimal digit.
pub open spec fn all_digits(s: Seq<char>) -> bool {
    forall|i: int| 0 <= i < s.len() ==> is_digit_char(s[i])
}

/// Numeric value of a sequence of decimal digit characters.
pub open spec fn digits_val(s: Seq<char>) -> int
    decreases s.len(),
{
    if s.len() == 0 {
        0
    } else {
        digits_val(s.drop_last()) * 10 + (s.last() as u32 as int - 48)
    }
}

pub proof fn lemma_digits_val_nonneg(s: Seq<char>)
    requires
        all_digits(s),
    ensures
        digits_val(s) >= 0,
    decreases s.len(),
{
    if s.len() > 0 {
        assert(all_digits(s.drop_last()));
        lemma_digits_val_nonneg(s.drop_last());
    }
}

/// The value of a digit string only grows as digits are appended.
pub proof fn lemma_digits_val_prefix_le(s: Seq<char>, i: int)
    requires
        all_digits(s),
        0 <= i <= s.len(),
    ensures
        digits_val(s.subrange(0, i)) <= digits_val(s),
    decreases s.len() - i,
{
    if i < s.len() {
        assert(all_digits(s.subrange(0, i)));
        lemma_digits_val_nonneg(s.subrange(0, i));
        assert(s.subrange(0, i + 1).drop_last() =~= s.subrange(0, i));
        assert(s.subrange(0, i + 1).last() == s[i]);
        lemma_digits_val_prefix_le(s, i + 1);
    } else {
        assert(s.subrange(0, i) =~= s);
    }
}

/// Parse the characters of `s` between `from` and `to` as an unsigned
/// decimal number, exactly when that range is nonempty, all digits, and the
/// value fits in a `u64`.
pub fn parse_u64_digits(s: &Vec<char>, from: usize, to: usize) -> (r: Option<u64>)
    requires
        from <= to <= s@.len(),
    ensures
        ({
            let seg = s@.subrange(from as int, to as int);
            &&& (r is Some <==> (from < to && all_digits(seg) && digits_val(seg)
                <= u64::MAX as int))
            &&& (match r {
                Some(v) => v as int == digits_val(seg),
                None => true,
            })
        }),
{
    let ghost seg = s@.subrange(from as int, to as int);
    if from == to {
        return None;
    }
    let mut acc: u64 = 0;
    let mut i = from;
    while i < to
        invariant
            from <= i <= to <= s@.len(),
            from < to,
            seg == s@.subrange(from as int, to as int),
            all_digits(s@.subrange(from as int, i as int)),
            acc as int == digits_val(s@.subrange(from as int, i as int)),
        decreases to - i,
    {
        let c = s[i];
        let u = c as u32;
        proof {
            assert(seg[i - from] == s@[i as int]);
        }
        if u < 48 || u > 57 {
            return None;
        }
        let d = (u - 48) as u64;
        proof {
            assert(is_digit_char(s@[i as int]));
            assert(s@.subrange(from as int, i as int + 1).drop_last() =~= s@.subrange(
                from as int,
                i as int,
            ));
            assert(s@.subrange(from as int, i as int + 1).last() == s@[i as int]);
            assert forall|k: int| 0 <= k < i + 1 - from implies is_digit_char(
                #[trigger] s@.subrange(from as int, i as int + 1)[k],
            ) by {
                if k < i - from {
                    assert(s@.subrange(from as int, i as int + 1)[k] == s@.subrange(
                        from as int,
                        i as int,
                    )[k]);
                } else {
                    assert(s@.subrange(from as int, i as int + 1)[k] == s@[i as int]);
                }
            }
            assert(all_digits(s@.subrange(from as int, i as int + 1)));
        }
        let next = match acc.checked_mul(10) {
            Some(m) => m.checked_add(d),
            None => None,
        };
        match next {
            Some(v) => {
                acc = v;
            },
            None => {
                proof {
                    // The prefix through this digit already exceeds u64::MAX,
                    // so if the whole segment were digits its value would too.
                    if all_digits(seg) {
                        assert(s@.subrange(from as int, i as int + 1) =~= seg.subrange(
                            0,
                            i as int + 1 - from,
                        ));
                        lemma_digits_val_prefix_le(seg, i as int + 1 - from);
                    }
                }
                return None;
            },
        }
        i += 1;
    }
    proof {
        assert(s@.subrange(from as int, i as int) =~= seg);
    }
    Some(acc)
}

/// The character for a single decimal digit value.
pub open spec fn digit_char(d: nat) -> char {
    ((d + 48) as u8) as char
}

/// Decimal rendering of a natural number, most significant digit first.
pub open spec fn dec_str(n: nat) -> Seq<char>
    decreases n,
{
    if n < 10 {
        seq![digit_char(n)]
    } else {
        dec_str(n / 10).push(digit_char(n % 10))
    }
}

/// Render a number as its decimal digit characters.
pub fn u32_to_chars(n: u32) -> (r: Vec<char>)
    ensures
        r@ == dec_str(n as nat),
    decreases n,
{
    if n < 10 {
        let c = ((n as u8) + 48) as char;
        let mut v: Vec<char> = Vec::new();
        v.push(c);
        proof {
            assert(v@ =~= dec_str(n as nat));
        }
        v
    } else {
        let mut v = u32_to_chars(n / 10);
        let c = (((n % 10) as u8) + 48) as char;
        v.push(c);
        v
    }
}

/// Strict lexicographic order on character sequences, by code point.
pub open spec fn lex_lt(a: Seq<char>, b: Seq<char>) -> bool
    decreases a.len(),
{
    if b.len() == 0 {
        false
    } else if a.len() == 0 {
        true
    } else if (a[0] as u32) < (b[0] as u32) {
        true
    } else if (a[0] as u32) > (b[0] as u32) {
        false
    } else {
        lex_lt(a.skip(1), b.skip(1))
    }
}

/// Lexicographic order is transitive.
pub proof fn lemma_lex_lt_trans(a: Seq<char>, b: Seq<char>, c: Seq<char>)
    requires
        lex_lt(a, b),
        lex_lt(b, c),
    ensures
        lex_lt(a, c),
    decreases a.len(),
{
    if a.len() > 0 {
        if (a[0] as u32) < (b[0] as u32) {
            if (b[0] as u32) <= (c[0] as u32) {
            }
        } else {
            if (b[0] as u32) == (c[0] as u32) {
                lemma_lex_lt_trans(a.skip(1), b.skip(1), c.skip(1));
            }
        }
    }
}

/// Lexicographic order is irreflexive.
pub proof fn lemma_lex_lt_irrefl(a: Seq<char>)
    ensures
        !lex_lt(a, a),
    decreases a.len(),
{
    if a.len() > 0 {
        lemma_lex_lt_irrefl(a.skip(1));
    }
}

/// Compare two character vectors in lexicographic order.
pub fn chars_lt(a: &Vec<char>, b: &Vec<char>) -> (r: bool)
    ensures
        r == lex_lt(a@, b@),
{
    let an = a.len();
    let bn = b.len();
    let mut i: usize = 0;
    proof {
        assert(a@.skip(0) =~= a@);
        assert(b@.skip(0) =~= b@);
    }
    loop
        invariant
            an == a@.len(),
            bn == b@.len(),
            i <= an,
            i <= bn,
            lex_lt(a@, b@) == lex_lt(a@.skip(i as int), b@.skip(i as int)),
        decreases an - i,
    {
        proof {
            assert(a@.skip(i as int).len() == an - i);
            assert(b@.skip(i as int).len() == bn - i);
        }
        if i == bn {
            return false;
        }
        if i == an {
            return true;
        }
        let ca = a[i];
        let cb = b[i];
        proof {
            assert(a@.skip(i as int)[0] == a@[i as int]);
            assert(b@.skip(i as int)[0] == b@[i as int]);
        }
        if ca == cb {
            proof {
                assert(a@.skip(i as int).skip(1) =~= a@.skip(i as int + 1));
                assert(b@.skip(i as int).skip(1) =~= b@.skip(i as int + 1));
            }
            i += 1;
        } else {
            proof {
                // Distinct characters have distinct code points.
                vstd::utf8::char_u32_cast(ca, ca as u32);
                vstd::utf8::char_u32_cast(cb, cb as u32);
            }
            return (ca as u32) < (cb as u32);
        }
    }
}

/// Index of the first occurrence of the needle at or after `i`, or -1 if
/// there is none.
pub open spec fn first_sub_from(hay: Seq<char>, needle: Seq<char>, i: nat) -> int
    decreases hay.len() + 1 - i,
{
    if i + needle.len() > hay.len() {
        -1
    } else if is_match_at(hay, needle, i as int) {
        i as int
    } else {
        first_sub_from(hay, needle, i + 1)
    }
}

/// `first_sub_from` is pinned down by being the first match.
pub proof fn lemma_first_sub_from_unique(hay: Seq<char>, needle: Seq<char>, i: nat, k: int)
    requires
        i <= k,
        is_match_at(hay, needle, k),
        forall|j: int| i <= j < k ==> !is_match_at(hay, needle, j),
    ensures
        first_sub_from(hay, needle, i) == k,
    decreases hay.len() + 1 - i,
{
    if i as int != k {
        lemma_first_sub_from_unique(hay, needle, i + 1, k);
    }
}

/// When nothing matches at or after `i`, `first_sub_from` reports -1.
pub proof fn lemma_first_sub_from_none(hay: Seq<char>, needle: Seq<char>, i: nat)
    requires
        forall|j: int| i <= j ==> !is_match_at(hay, needle, j),
    ensures
        first_sub_from(hay, needle, i) == -1,
    decreases hay.len() + 1 - i,
{
    if i + needle.len() <= hay.len() {
        lemma_first_sub_from_none(hay, needle, i + 1);
    }
}

/// Index of the first occurrence of the character at or after `i`, or -1 if
/// there is none.
pub open spec fn first_char_from(hay: Seq<char>, c: char, i: nat) -> int
    decreases hay.len() + 1 - i,
{
    if i >= hay.len() {
        -1
    } else if hay[i as int] == c {
        i as int
    } else {
        first_char_from(hay, c, i + 1)
    }
}

pub proof fn lemma_first_char_from_unique(hay: Seq<char>, c: char, i: nat, k: int)
    requires
        i <= k < hay.len(),
        hay[k] == c,
        forall|j: int| i <= j < k ==> hay[j] != c,
    ensures
        first_char_from(hay, c, i) == k,
    decreases hay.len() + 1 - i,
{
    if i as int != k {
        lemma_first_char_from_unique(hay, c, i + 1, k);
    }
}

pub proof fn lemma_first_char_from_none(hay: Seq<char>, c: char, i: nat)
    requires
        forall|j: int| i <= j < hay.len() ==> hay[j] != c,
    ensures
        first_char_from(hay, c, i) == -1,
    decreases hay.len() + 1 - i,
{
    if i < hay.len() {
        lemma_first_char_from_none(hay, c, i + 1);
    }
}

/// Does the haystack start with the given prefix?
pub fn starts_with(line: &Vec<char>, prefix: &Vec<char>) -> (r: bool)
    ensures
        r == is_match_at(line@, prefix@, 0),
{
    if prefix.len() > line.len() {
        false
    } else {
        match_at(line, prefix, 0)
    }
}

/// Does the needle occur anywhere in the haystack?
pub fn contains(line: &Vec<char>, needle: &Vec<char>) -> (r: bool)
    ensures
        r == contains_sub(line@, needle@),
{
    match find_sub(line, needle, 0) {
        Some(_) => true,
        None => {
            proof {
                assert forall|i: int| !is_match_at(line@, needle@, i) by {
                    if 0 <= i {
                        assert(!is_match_at(line@, needle@, i));
                    }
                }
            }
            false
        },
    }
}

/// Copy a range of a character vector.
pub fn copy_range(s: &Vec<char>, from: usize, to: usize) -> (r: Vec<char>)
    requires
        from <= to <= s@.len(),
    ensures
        r@ == s@.subrange(from as int, to as int),
{
    let mut r: Vec<char> = Vec::new();
    let mut i = from;
    while i < to
        invariant
            from <= i <= to <= s@.len(),
            r@ == s@.subrange(from as int, i as int),
        decreases to - i,
    {
        r.push(s[i]);
        i += 1;
        proof {
            assert(r@ =~= s@.subrange(from as int, i as int));
        }
    }
    r
}

/// Index of the first newline in `s`, or its length if there is none.
pub open spec fn first_nl(s: Seq<char>) -> nat
    decreases s.len(),
{
    if s.len() == 0 {
        0
    } else if s[0] == '\n' {
        0
    } else {
        1 + first_nl(s.skip(1))
    }
}

pub proof fn lemma_first_nl(s: Seq<char>)
    ensures
        first_nl(s) <= s.len(),
        first_nl(s) < s.len() ==> s[first_nl(s) as int] == '\n',
        forall|j: int| 0 <= j < first_nl(s) ==> s[j] != '\n',
    decreases s.len(),
{
    if s.len() > 0 && s[0] != '\n' {
        lemma_first_nl(s.skip(1));
        assert(forall|j: int| 0 <= j < first_nl(s.skip(1)) ==> s.skip(1)[j] != '\n');
        assert forall|j: int| 0 <= j < first_nl(s) implies s[j] != '\n' by {
            if j > 0 {
                assert(s.skip(1)[j - 1] == s[j]);
            }
        }
    }
}

/// `first_nl` is pinned down by the properties of being the first newline.
pub proof fn lemma_first_nl_unique(s: Seq<char>, k: int)
    requires
        0 <= k <= s.len(),
        k < s.len() ==> s[k] == '\n',
        forall|j: int| 0 <= j < k ==> s[j] != '\n',
    ensures
        first_nl(s) == k,
    decreases s.len(),
{
    if s.len() > 0 && s[0] != '\n' {
        assert forall|j: int| 0 <= j < k - 1 implies s.skip(1)[j] != '\n' by {
            assert(s.skip(1)[j] == s[j + 1]);
        }
        assert(k - 1 < s.skip(1).len() ==> s.skip(1)[k - 1] == '\n');
        lemma_first_nl_unique(s.skip(1), k - 1);
    }
}

/// A line's text: the text up to the newline at `i`, with one trailing
/// carriage return stripped if present.
pub open spec fn chop_line(s: Seq<char>, i: int) -> Seq<char> {
    if i > 0 && s[i - 1] == '\r' {
        s.subrange(0, i - 1)
    } else {
        s.subrange(0, i)
    }
}

/// The lines of a text, split at newlines, each with one trailing carriage
/// return stripped; a final newline ends the last line without starting an
/// empty one.
pub open spec fn spec_lines(s: Seq<char>) -> Seq<Seq<char>>
    decreases s.len(),
{
    if s.len() == 0 {
        Seq::empty()
    } else {
        let i = first_nl(s);
        if i < s.len() {
            seq![chop_line(s, i as int)] + spec_lines(s.skip(i as int + 1))
        } else {
            seq![s]
        }
    }
}

/// Split a text into its lines.
pub fn split_lines(content: &Vec<char>) -> (r: Vec<Vec<char>>)
    ensures
        r.deep_view() == spec_lines(content@),
{
    let n = content.len();
    let mut r: Vec<Vec<char>> = Vec::new();
    let mut pos: usize = 0;
    proof {
        assert(content@.skip(0) =~= content@);
        assert(r.deep_view() + spec_lines(content@) =~~= spec_lines(content@));
    }
    while pos < n
        invariant
            n == content@.len(),
            pos <= n,
            spec_lines(content@) == r.deep_view() + spec_lines(content@.skip(pos as int)),
        decreases n - pos,
    {
        let ghost rest = content@.skip(pos as int);
        let ghost dv0 = r.deep_view();
        match find_char(content, '\n', pos) {
            Some(i) => {
                proof {
                    assert forall|j: int| 0 <= j < i - pos implies rest[j] != '\n' by {
                        assert(rest[j] == content@[pos + j]);
                    }
                    assert(rest[i - pos] == content@[i as int]);
                    lemma_first_nl_unique(rest, i - pos);
                }
                let line: Vec<char> = if i > pos && content[i - 1] == '\r' {
                    copy_range(content, pos, i - 1)
                } else {
                    copy_range(content, pos, i)
                };
                proof {
                    if i > pos {
                        assert(rest[i - pos - 1] == content@[i - 1]);
                    }
                    assert(line@ =~= chop_line(rest, i - pos));
                    assert(rest.skip(i - pos + 1) =~= content@.skip(i + 1));
                }
                let ghost m = i - pos;
                r.push(line);
                pos = i + 1;
                proof {
                    assert(r.deep_view() =~~= dv0.push(chop_line(rest, m)));
                    assert(spec_lines(rest) == seq![chop_line(rest, m)] + spec_lines(
                        content@.skip(pos as int),
                    ));
                    assert(spec_lines(content@) =~~= r.deep_view() + spec_lines(
                        content@.skip(pos as int),
                    ));
                }
            },
            None => {
                proof {
                    assert forall|j: int| 0 <= j < n - pos implies rest[j] != '\n' by {
                        assert(rest[j] == content@[pos + j]);
                    }
                    lemma_first_nl_unique(rest, rest.len() as int);
                }
                let line = copy_range(content, pos, n);
                proof {
                    assert(line@ =~= rest);
                }
                r.push(line);
                pos = n;
                proof {
                    assert(r.deep_view() =~~= dv0.push(rest));
                    assert(spec_lines(rest) == seq![rest]);
                    assert(content@.skip(pos as int) =~= Seq::<char>::empty());
                    assert(spec_lines(content@) =~~= r.deep_view() + spec_lines(
                        content@.skip(pos as int),
                    ));
                }
            },
        }
    }
    proof {
        assert(content@.skip(pos as int) =~= Seq::<char>::empty());
        assert(r.deep_view() =~~= spec_lines(content@));
    }
    r
}

/// Append the characters of `src` to `dst`.
pub fn append_chars(dst: &mut Vec<char>, src: &Vec<char>)
    ensures
        final(dst)@ == old(dst)@ + src@,
{
    let n = src.len();
    let mut i: usize = 0;
    while i < n
        invariant
            n == src@.len(),
            i <= n,
            dst@ == old(dst)@ + src@.subrange(0, i as int),
        decreases n - i,
    {
        dst.push(src[i]);
        i += 1;
        proof {
            assert(old(dst)@ + src@.subrange(0, i as int) =~= (old(dst)@ + src@.subrange(
                0,
                i as int - 1,
            )).push(src@[i as int - 1]));
        }
    }
    proof {
        assert(src@.subrange(0, n as int) =~= src@);
    }
}

} // verus!
