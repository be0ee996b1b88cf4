//! The header of an NPY (version 1 or 2) array file.
//!
//! An NPY file starts with the magic bytes `\x93NUMPY`, a version, a
//! little-endian header length (two bytes in version 1, four from version 2
//! on) and a header: a Python dict literal naming the element type (`descr`),
//! the memory order (`fortran_order`) and the `shape`. The array data follows
//! the header. Only C-order arrays are accepted.

use vstd::prelude::*;
use crate::clusterer::PldaError;
use crate::text::{chars_of, contains_seq, contains_str, decimal, occurs_at, push_decimal, str_eq};
use vstd::string::StringExecFns;
use crate::uem::{all_digits, all_digits_in, digits_value, is_ws, is_ws_char, lemma_digits_prefix, split_by, split_on, string_of, views};

verus! {

/// The first position at or after `i` where `needle` occurs in `hay`.
pub open spec fn find_from(hay: Seq<char>, needle: Seq<char>, i: int) -> Option<int>
    decreases hay.len() + 1 - i,
{
    if i < 0 || i + needle.len() > hay.len() {
        None
    } else if occurs_at(hay, needle, i) {
        Some(i)
    } else {
        find_from(hay, needle, i + 1)
    }
}

/// The text between the first `key` in `s` and the first `end` after it.
pub open spec fn extract_between(s: Seq<char>, key: Seq<char>, end: char) -> Option<Seq<char>> {
    match find_from(s, key, 0) {
        None => None,
        Some(i) => {
            let rest = s.skip(i + key.len());
            match find_from(rest, seq![end], 0) {
                None => None,
                Some(j) => Some(rest.take(j)),
            }
        },
    }
}

/// The classes of characters the header parser trims.
#[derive(Clone, Copy, Debug, PartialEq, Eq)]
pub enum Trim {
    /// Unicode white space.
    White,
    /// Quotes and spaces around the element type.
    QuoteOrSpace,
    /// Spaces and the opening parenthesis before the shape.
    SpaceOrParen,
}

pub open spec fn trimmed_by(k: Trim, c: char) -> bool {
    match k {
        Trim::White => is_ws(c),
        Trim::QuoteOrSpace => c == '\'' || c == '"' || c == ' ',
        Trim::SpaceOrParen => c == ' ' || c == '(',
    }
}

/// `s` without its leading characters of class `k`.
pub open spec fn trim_start(s: Seq<char>, k: Trim) -> Seq<char>
    decreases s.len(),
{
    if s.len() > 0 && trimmed_by(k, s[0]) {
        trim_start(s.skip(1), k)
    } else {
        s
    }
}

/// `s` without its trailing characters of class `k`.
pub open spec fn trim_end(s: Seq<char>, k: Trim) -> Seq<char>
    decreases s.len(),
{
    if s.len() > 0 && trimmed_by(k, s.last()) {
        trim_end(s.drop_last(), k)
    } else {
        s
    }
}

/// `s` without its leading and trailing characters of class `k`.
pub open spec fn trim(s: Seq<char>, k: Trim) -> Seq<char> {
    trim_end(trim_start(s, k), k)
}

/// A decimal `usize` as `str::parse` reads it: an optional `+`, then digits,
/// with a value that fits.
pub open spec fn parse_usize(t: Seq<char>) -> Option<nat> {
    let d = if t.len() > 0 && t[0] == '+' {
        t.skip(1)
    } else {
        t
    };
    if d.len() > 0 && all_digits(d) && digits_value(d) <= usize::MAX {
        Some(digits_value(d))
    } else {
        None
    }
}

/// The numbers of the shape pieces, skipping blank pieces and pieces that
/// are not numbers.
pub open spec fn shape_values(pieces: Seq<Seq<char>>) -> Seq<nat>
    decreases pieces.len(),
{
    if pieces.len() == 0 {
        Seq::empty()
    } else {
        let rest = shape_values(pieces.drop_last());
        let t = trim(pieces.last(), Trim::White);
        if t.len() == 0 {
            rest
        } else {
            match parse_usize(t) {
                Some(v) => rest.push(v),
                None => rest,
            }
        }
    }
}

/// The element type of a header, found under a single- or double-quoted key.
pub open spec fn descr_of(header: Seq<char>) -> Option<Seq<char>> {
    let found = match extract_between(header, "'descr':"@, ',') {
        Some(x) => Some(x),
        None => extract_between(header, "\"descr\":"@, ','),
    };
    match found {
        Some(x) => Some(trim(trim(x, Trim::White), Trim::QuoteOrSpace)),
        None => None,
    }
}

/// Whether the header declares Fortran (column-major) order.
pub open spec fn fortran_order(header: Seq<char>) -> bool {
    contains_seq(header, "'fortran_order': True"@) || contains_seq(header, "\"fortran_order\": True"@)
}

/// The shape of a header, found under a single- or double-quoted key.
pub open spec fn shape_of(header: Seq<char>) -> Option<Seq<nat>> {
    let found = match extract_between(header, "'shape':"@, ')') {
        Some(x) => Some(x),
        None => extract_between(header, "\"shape\":"@, ')'),
    };
    match found {
        Some(x) => Some(shape_values(split_on(trim_start(x, Trim::SpaceOrParen), ','))),
        None => None,
    }
}

/// What a header text declares, `(element type, shape)`, or why it is
/// refused.
pub open spec fn header_fields(header: Seq<char>) -> Result<(Seq<char>, Seq<nat>), Seq<char>> {
    match descr_of(header) {
        None => Err("no descr in NPY header"@),
        Some(d) => if fortran_order(header) {
            Err("fortran-order NPY unsupported"@)
        } else {
            match shape_of(header) {
                None => Err("no shape in NPY header"@),
                Some(s) => Ok((d, s)),
            }
        },
    }
}

fn occurs_at_exec(hay: &Vec<char>, needle: &Vec<char>, i: usize) -> (b: bool)
    requires
        i + needle.len() <= hay.len(),
    ensures
        b == occurs_at(hay@, needle@, i as int),
{
    let mut k: usize = 0;
    while k < needle.len()
        invariant
            k <= needle.len(),
            i + needle.len() <= hay.len(),
            forall|q: int| 0 <= q < k ==> hay@[i + q] == needle@[q],
        decreases needle.len() - k,
    {
        if hay[i + k] != needle[k] {
            assert(hay@.subrange(i as int, i + needle.len())[k as int] != needle@[k as int]);
            return false;
        }
        k += 1;
    }
    assert(hay@.subrange(i as int, i + needle.len()) =~= needle@);
    true
}

/// The position of the first `needle` in `hay`.
fn find_vec(hay: &Vec<char>, needle: &Vec<char>) -> (r: Option<usize>)
    ensures
        match r {
            Some(i) => find_from(hay@, needle@, 0) == Some(i as int),
            None => find_from(hay@, needle@, 0) is None,
        },
{
    if needle.len() > hay.len() {
        return None;
    }
    let last = hay.len() - needle.len();
    let mut i: usize = 0;
    while i < last
        invariant
            needle.len() <= hay.len(),
            last == hay.len() - needle.len(),
            i <= last,
            find_from(hay@, needle@, 0) == find_from(hay@, needle@, i as int),
        decreases last - i,
    {
        if occurs_at_exec(hay, needle, i) {
            return Some(i);
        }
        i += 1;
    }
    if occurs_at_exec(hay, needle, i) {
        Some(i)
    } else {
        assert(find_from(hay@, needle@, i + 1) is None);
        None
    }
}

/// The characters `v[lo..hi]`.
fn slice_of(v: &Vec<char>, lo: usize, hi: usize) -> (r: Vec<char>)
    requires
        lo <= hi <= v.len(),
    ensures
        r@ == v@.subrange(lo as int, hi as int),
{
    let mut r: Vec<char> = Vec::new();
    let mut i: usize = lo;
    while i < hi
        invariant
            lo <= i <= hi <= v.len(),
            r@ == v@.subrange(lo as int, i as int),
        decreases hi - i,
    {
        r.push(v[i]);
        assert(v@.subrange(lo as int, i + 1) =~= v@.subrange(lo as int, i as int).push(v@[i as int]));
        i += 1;
    }
    r
}

fn extract_between_exec(s: &Vec<char>, key: &str, end: char) -> (r: Option<Vec<char>>)
    ensures
        match r {
            Some(x) => extract_between(s@, key@, end) == Some(x@),
            None => extract_between(s@, key@, end) is None,
        },
{
    let k = chars_of(key);
    match find_vec(s, &k) {
        None => None,
        Some(i) => {
            proof {
                assert(occurs_at(s@, k@, i as int)) by {
                    assert(find_from(s@, k@, 0) == Some(i as int));
                    lemma_find_occurs(s@, k@, 0);
                }
                assert(i + k@.len() <= s@.len());
                assert(s@.len() == s.len());
            }
            let rest = slice_of(s, i + k.len(), s.len());
            assert(rest@ =~= s@.skip(i + k@.len()));
            let e = vec![end];
            assert(e@ =~= seq![end]);
            match find_vec(&rest, &e) {
                None => None,
                Some(j) => {
                    proof {
                        lemma_find_occurs(rest@, e@, 0);
                    }
                    let x = slice_of(&rest, 0, j);
                    assert(x@ =~= rest@.take(j as int));
                    Some(x)
                },
            }
        },
    }
}

proof fn lemma_find_occurs(hay: Seq<char>, needle: Seq<char>, i: int)
    requires
        find_from(hay, needle, i) is Some,
    ensures
        occurs_at(hay, needle, find_from(hay, needle, i)->0),
        i <= find_from(hay, needle, i)->0,
    decreases hay.len() + 1 - i,
{
    if !(i < 0 || i + needle.len() > hay.len()) && !occurs_at(hay, needle, i) {
        lemma_find_occurs(hay, needle, i + 1);
    }
}

fn trimmed_by_exec(k: Trim, c: char) -> (b: bool)
    ensures
        b == trimmed_by(k, c),
{
    match k {
        Trim::White => is_ws_char(c),
        Trim::QuoteOrSpace => c == '\'' || c == '"' || c == ' ',
        Trim::SpaceOrParen => c == ' ' || c == '(',
    }
}

proof fn lemma_trim_start_step(s: Seq<char>, k: Trim, lo: int)
    requires
        0 <= lo < s.len(),
        trimmed_by(k, s[lo]),
    ensures
        trim_start(s.skip(lo), k) == trim_start(s.skip(lo + 1), k),
{
    assert(s.skip(lo)[0] == s[lo]);
    assert(s.skip(lo).skip(1) =~= s.skip(lo + 1));
}

proof fn lemma_trim_end_step(s: Seq<char>, k: Trim, hi: int)
    requires
        0 < hi <= s.len(),
        trimmed_by(k, s[hi - 1]),
    ensures
        trim_end(s.take(hi), k) == trim_end(s.take(hi - 1), k),
{
    assert(s.take(hi).last() == s[hi - 1]);
    assert(s.take(hi).drop_last() =~= s.take(hi - 1));
}

/// `v` without its leading characters of class `k`.
fn trim_start_exec(v: &Vec<char>, k: Trim) -> (r: Vec<char>)
    ensures
        r@ == trim_start(v@, k),
{
    let mut lo: usize = 0;
    assert(v@.skip(0) =~= v@);
    while lo < v.len() && trimmed_by_exec(k, v[lo])
        invariant
            lo <= v.len(),
            trim_start(v@, k) == trim_start(v@.skip(lo as int), k),
        decreases v.len() - lo,
    {
        proof {
            lemma_trim_start_step(v@, k, lo as int);
        }
        lo += 1;
    }
    let r = slice_of(v, lo, v.len());
    proof {
        assert(r@ =~= v@.skip(lo as int));
        if lo < v.len() {
            assert(v@.skip(lo as int)[0] == v@[lo as int]);
        }
    }
    r
}

/// `v` without its leading and trailing characters of class `k`.
fn trim_exec(v: &Vec<char>, k: Trim) -> (r: Vec<char>)
    ensures
        r@ == trim(v@, k),
{
    let s = trim_start_exec(v, k);
    let mut hi: usize = s.len();
    assert(s@.take(hi as int) =~= s@);
    while hi > 0 && trimmed_by_exec(k, s[hi - 1])
        invariant
            hi <= s.len(),
            trim_end(s@, k) == trim_end(s@.take(hi as int), k),
        decreases hi,
    {
        proof {
            lemma_trim_end_step(s@, k, hi as int);
        }
        hi -= 1;
    }
    let r = slice_of(&s, 0, hi);
    proof {
        assert(r@ =~= s@.take(hi as int));
        if hi > 0 {
            assert(s@.take(hi as int).last() == s@[hi - 1]);
        }
    }
    r
}

/// A decimal `usize` (see [`parse_usize`]).
fn parse_usize_exec(t: &Vec<char>) -> (r: Option<usize>)
    ensures
        match r {
            Some(v) => parse_usize(t@) == Some(v as nat),
            None => parse_usize(t@) is None,
        },
{
    let lo: usize = if t.len() > 0 && t[0] == '+' {
        1
    } else {
        0
    };
    let ghost d = if t@.len() > 0 && t@[0] == '+' {
        t@.skip(1)
    } else {
        t@
    };
    assert(d =~= t@.subrange(lo as int, t.len() as int));
    if lo == t.len() {
        return None;
    }
    if !all_digits_in(t, lo, t.len()) {
        return None;
    }
    let mut v: usize = 0;
    let mut j: usize = lo;
    while j < t.len()
        invariant
            lo <= j <= t.len(),
            d == t@.subrange(lo as int, t.len() as int),
            d == (if t@.len() > 0 && t@[0] == '+' {
                t@.skip(1)
            } else {
                t@
            }),
            d.len() > 0,
            all_digits(d),
            v == digits_value(d.take(j - lo)),
        decreases t.len() - j,
    {
        let c = t[j];
        assert(d[j - lo] == c);
        let dig: usize = (c as u32 - 48) as usize;
        proof {
            assert(d.take(j - lo + 1).drop_last() =~= d.take(j - lo));
            assert(d.take(j - lo + 1).last() == c);
            assert(digits_value(d.take(j - lo + 1)) == v * 10 + dig);
        }
        match v.checked_mul(10) {
            None => {
                proof {
                    lemma_digits_prefix(d, j - lo + 1);
                }
                return None;
            },
            Some(m) => match m.checked_add(dig) {
                None => {
                    proof {
                        lemma_digits_prefix(d, j - lo + 1);
                    }
                    return None;
                },
                Some(nv) => {
                    v = nv;
                },
            },
        }
        j += 1;
    }
    assert(d.take(t.len() - lo) =~= d);
    Some(v)
}

/// The numbers of a shape as naturals.
pub open spec fn shape_view(v: Seq<usize>) -> Seq<nat> {
    v.map_values(|x: usize| x as nat)
}

/// The numbers of the pieces (see [`shape_values`]).
fn shape_numbers(pieces: &Vec<Vec<char>>) -> (out: Vec<usize>)
    ensures
        shape_view(out@) == shape_values(views(pieces@)),
{
    let mut out: Vec<usize> = Vec::new();
    let mut i: usize = 0;
    while i < pieces.len()
        invariant
            i <= pieces.len(),
            shape_view(out@) == shape_values(views(pieces@).take(i as int)),
        decreases pieces.len() - i,
    {
        let t = trim_exec(&pieces[i], Trim::White);
        proof {
            assert(views(pieces@).take(i + 1).drop_last() =~= views(pieces@).take(i as int));
            assert(views(pieces@).take(i + 1).last() == pieces@[i as int]@);
        }
        if t.len() > 0 {
            match parse_usize_exec(&t) {
                Some(v) => {
                    let ghost before = out@;
                    out.push(v);
                    assert(shape_view(out@) =~= shape_view(before).push(v as nat));
                },
                None => {},
            }
        }
        i += 1;
    }
    assert(views(pieces@).take(pieces.len() as int) =~= views(pieces@));
    out
}

/// What an NPY header declares: the element type, the shape and where the
/// data starts.
#[derive(Clone, Debug, PartialEq, Eq)]
pub struct NpyHeader {
    pub descr: String,
    pub shape: Vec<usize>,
    pub data_offset: usize,
}

/// `r` is what `spec` describes: the header it declares, or the I/O error
/// on `path` with its detail.
pub open spec fn header_result_is(
    r: Result<NpyHeader, PldaError>,
    spec: Result<(Seq<char>, Seq<nat>, int), Seq<char>>,
    path: Seq<char>,
) -> bool {
    match spec {
        Ok((d, s, o)) => r matches Ok(h) && h.descr@ == d && shape_view(h.shape@) == s && h.data_offset
            == o,
        Err(e) => r matches Err(PldaError::Io { path: p, detail }) && p@ == path && detail@ == e,
    }
}

/// The fields of a header text with its data offset.
pub open spec fn with_offset(
    f: Result<(Seq<char>, Seq<nat>), Seq<char>>,
    offset: int,
) -> Result<(Seq<char>, Seq<nat>, int), Seq<char>> {
    match f {
        Ok((d, s)) => Ok((d, s, offset)),
        Err(e) => Err(e),
    }
}

fn io_error(path: &str, detail: &str) -> (e: PldaError)
    ensures
        e matches PldaError::Io { path: p, detail: d } && p@ == path@ && d@ == detail@,
{
    PldaError::Io { path: String::from_str(path), detail: String::from_str(detail) }
}

/// Read the element type and shape from the text of an NPY header whose
/// data starts at `data_offset` (see [`header_fields`]); errors name `path`.
pub fn parse_npy_header_text(header: &str, data_offset: usize, path: &str) -> (r: Result<
    NpyHeader,
    PldaError,
>)
    ensures
        header_result_is(r, with_offset(header_fields(header@), data_offset as int), path@),
{
    let h = chars_of(header);
    let descr = match extract_between_exec(&h, "'descr':", ',') {
        Some(x) => Some(x),
        None => extract_between_exec(&h, "\"descr\":", ','),
    };
    let descr = match descr {
        None => {
            return Err(io_error(path, "no descr in NPY header"));
        },
        Some(x) => trim_exec(&trim_exec(&x, Trim::White), Trim::QuoteOrSpace),
    };
    if contains_str(header, "'fortran_order': True") || contains_str(header, "\"fortran_order\": True") {
        return Err(io_error(path, "fortran-order NPY unsupported"));
    }
    let shape_text = match extract_between_exec(&h, "'shape':", ')') {
        Some(x) => Some(x),
        None => extract_between_exec(&h, "\"shape\":", ')'),
    };
    let shape = match shape_text {
        None => {
            return Err(io_error(path, "no shape in NPY header"));
        },
        Some(x) => {
            let pieces = split_by(&trim_start_exec(&x, Trim::SpaceOrParen), ',');
            shape_numbers(&pieces)
        },
    };
    Ok(NpyHeader { descr: string_of(&descr), shape, data_offset })
}

/// What `std::str::from_utf8` makes of `bytes`: the text they encode, or
/// `None` when they are not valid UTF-8.
pub uninterp spec fn utf8_decoded(bytes: Seq<u8>) -> Option<Seq<char>>;

/// Every byte is below 0x80.
pub open spec fn all_ascii(bytes: Seq<u8>) -> bool {
    forall|i: int| 0 <= i < bytes.len() ==> #[trigger] bytes[i] < 0x80
}

/// ASCII bytes read one character each.
pub open spec fn ascii_chars(bytes: Seq<u8>) -> Seq<char> {
    bytes.map_values(|b: u8| b as char)
}

/// `std::str::from_utf8`: the text that `bytes` encode in UTF-8, or `None`
/// when they are not valid UTF-8. The result is named by [`utf8_decoded`];
/// of which other byte strings are valid, and how they decode, only this is
/// stated: ASCII bytes are valid and read one character per byte.
#[verifier::external_body]
fn decode_utf8(bytes: &Vec<u8>) -> (r: Option<String>)
    ensures
        match r {
            Some(s) => utf8_decoded(bytes@) == Some(s@),
            None => utf8_decoded(bytes@) is None,
        },
        all_ascii(bytes@) ==> r is Some && r->0@ == ascii_chars(bytes@),
{
    match std::str::from_utf8(bytes.as_slice()) {
        Ok(s) => Some(s.to_string()),
        Err(_) => None,
    }
}

/// The bytes every NPY file starts with: `\x93NUMPY`.
pub open spec fn npy_magic() -> Seq<u8> {
    seq![0x93u8, 0x4eu8, 0x55u8, 0x4du8, 0x50u8, 0x59u8]
}

/// At least ten bytes, starting with the magic bytes.
pub open spec fn has_magic(bytes: Seq<u8>) -> bool {
    bytes.len() >= 10 && bytes.take(6) == npy_magic()
}

/// A file of version 2 or later too short to hold its four-byte header
/// length.
pub open spec fn cut_in_length(bytes: Seq<u8>) -> bool {
    has_magic(bytes) && bytes[6] >= 2 && bytes.len() < 12
}

/// Where the header text lies, `(start, length)`: the length is two
/// little-endian bytes at offset 8 in version 1 and four from version 2 on.
pub open spec fn header_span(bytes: Seq<u8>) -> Result<(int, int), Seq<char>> {
    if !has_magic(bytes) {
        Err("not an NPY file"@)
    } else {
        let (start, len) = if bytes[6] >= 2 {
            (12int, bytes[8] + 256 * bytes[9] + 65536 * bytes[10] + 16777216 * bytes[11])
        } else {
            (10int, bytes[8] + 256 * bytes[9])
        };
        if start + len > bytes.len() {
            Err("truncated NPY header"@)
        } else {
            Ok((start, len))
        }
    }
}

/// The text of header bytes: ASCII bytes one character each, other bytes
/// as UTF-8 decodes them ([`utf8_decoded`]).
pub open spec fn header_text(bytes: Seq<u8>) -> Option<Seq<char>> {
    if all_ascii(bytes) {
        Some(ascii_chars(bytes))
    } else {
        utf8_decoded(bytes)
    }
}

/// What the bytes of an NPY file declare, `(element type, shape, data
/// offset)`, or the detail of their refusal.
pub open spec fn npy_header(bytes: Seq<u8>) -> Result<(Seq<char>, Seq<nat>, int), Seq<char>> {
    match header_span(bytes) {
        Err(e) => Err(e),
        Ok((start, len)) => match header_text(bytes.subrange(start, start + len)) {
            None => Err("non-utf8 NPY header"@),
            Some(h) => with_offset(header_fields(h), start + len),
        },
    }
}

/// Read the header of an NPY file from its bytes (see [`npy_header`]);
/// errors name `path`.
pub fn parse_npy_header(bytes: &Vec<u8>, path: &str) -> (r: Result<NpyHeader, PldaError>)
    requires
        !cut_in_length(bytes@),
    ensures
        header_result_is(r, npy_header(bytes@), path@),
{
    if bytes.len() < 10 || bytes[0] != 0x93u8 || bytes[1] != 0x4eu8 || bytes[2] != 0x55u8 || bytes[3]
        != 0x4du8 || bytes[4] != 0x50u8 || bytes[5] != 0x59u8 {
        proof {
            if bytes.len() >= 10 {
                assert(bytes@.take(6) != npy_magic()) by {
                    if bytes@.take(6) == npy_magic() {
                        assert(bytes@.take(6)[0] == bytes@[0]);
                        assert(bytes@.take(6)[1] == bytes@[1]);
                        assert(bytes@.take(6)[2] == bytes@[2]);
                        assert(bytes@.take(6)[3] == bytes@[3]);
                        assert(bytes@.take(6)[4] == bytes@[4]);
                        assert(bytes@.take(6)[5] == bytes@[5]);
                    }
                }
            }
        }
        return Err(io_error(path, "not an NPY file"));
    }
    assert(bytes@.take(6) =~= npy_magic());
    let (start, len): (usize, usize) = if bytes[6] >= 2 {
        (
            12,
            bytes[8] as usize + 256 * (bytes[9] as usize) + 65536 * (bytes[10] as usize) + 16777216
                * (bytes[11] as usize),
        )
    } else {
        (10, bytes[8] as usize + 256 * (bytes[9] as usize))
    };
    if (start as u64) + (len as u64) > bytes.len() as u64 {
        return Err(io_error(path, "truncated NPY header"));
    }
    let mut text: Vec<u8> = Vec::new();
    let mut i: usize = start;
    while i < start + len
        invariant
            start <= i <= start + len <= bytes.len(),
            text@ == bytes@.subrange(start as int, i as int),
        decreases start + len - i,
    {
        text.push(bytes[i]);
        assert(bytes@.subrange(start as int, i + 1) =~= bytes@.subrange(start as int, i as int).push(
            bytes@[i as int],
        ));
        i += 1;
    }
    match decode_utf8(&text) {
        None => Err(io_error(path, "non-utf8 NPY header")),
        Some(h) => parse_npy_header_text(h.as_str(), start + len, path),
    }
}

/// The element types of the arrays read.
#[derive(Clone, Copy, Debug, PartialEq, Eq)]
pub enum NpyDtype {
    /// Little-endian `f32` (`<f4`).
    F4,
    /// Little-endian `f64` (`<f8`).
    F8,
    /// Little-endian `i64` (`<i8`).
    I8,
}

impl NpyDtype {
    /// Bytes per element.
    pub open spec fn width_spec(self) -> nat {
        match self {
            NpyDtype::F4 => 4,
            NpyDtype::F8 => 8,
            NpyDtype::I8 => 8,
        }
    }

    /// Bytes per element.
    pub fn width(self) -> (w: usize)
        ensures
            w == self.width_spec(),
    {
        match self {
            NpyDtype::F4 => 4,
            NpyDtype::F8 => 8,
            NpyDtype::I8 => 8,
        }
    }
}

/// The element type a `descr` names, or the detail of its refusal.
pub open spec fn dtype_of(descr: Seq<char>) -> Result<NpyDtype, Seq<char>> {
    if descr == "<f8"@ {
        Ok(NpyDtype::F8)
    } else if descr == "<f4"@ {
        Ok(NpyDtype::F4)
    } else if descr == "<i8"@ {
        Ok(NpyDtype::I8)
    } else {
        Err("unsupported NPY dtype "@ + descr + " (expected <f4, <f8 or <i8)"@)
    }
}

/// The byte count an NPY type descriptor such as `<i8` ends with.
pub open spec fn descr_bytes(descr: Seq<char>) -> int {
    descr[descr.len() - 1] as int - '0' as int
}

/// Each element type is as wide as its descriptor says and as the value it
/// decodes to: `<f4` is 4 bytes, `<f8` is 8 bytes, and `<i8` is 8 bytes, the
/// size of an `i64` (64 bits).
pub proof fn lemma_width_is_descr_size(descr: Seq<char>)
    ensures
        dtype_of(descr) matches Ok(t) ==> t.width_spec() == descr_bytes(descr),
        dtype_of(descr) == Ok::<NpyDtype, Seq<char>>(NpyDtype::I8) ==> {
            &&& NpyDtype::I8.width_spec() == vstd::layout::size_of::<i64>()
            &&& 8 * NpyDtype::I8.width_spec() == i64::BITS
        },
{
    broadcast use vstd::layout::layout_of_primitives;
    reveal_strlit("<f8");
    reveal_strlit("<f4");
    reveal_strlit("<i8");
}

/// The element type `descr` names (see [`dtype_of`]); errors name `path`.
pub fn npy_dtype(descr: &str, path: &str) -> (r: Result<NpyDtype, PldaError>)
    ensures
        match dtype_of(descr@) {
            Ok(d) => r == Ok::<NpyDtype, PldaError>(d),
            Err(e) => r matches Err(PldaError::Io { path: p, detail }) && p@ == path@ && detail@ == e,
        },
{
    if str_eq(descr, "<f8") {
        Ok(NpyDtype::F8)
    } else if str_eq(descr, "<f4") {
        Ok(NpyDtype::F4)
    } else if str_eq(descr, "<i8") {
        Ok(NpyDtype::I8)
    } else {
        let mut detail = String::from_str("unsupported NPY dtype ");
        detail.append(descr);
        detail.append(" (expected <f4, <f8 or <i8)");
        Err(PldaError::Io { path: String::from_str(path), detail })
    }
}

/// The layout of an NPY array: its header, its element type and the number
/// of whole elements after the header.
#[derive(Clone, Debug, PartialEq, Eq)]
pub struct NpyLayout {
    pub header: NpyHeader,
    pub dtype: NpyDtype,
    pub count: usize,
}

/// Read the layout of an NPY array from the bytes of its file: the header
/// ([`parse_npy_header`]), the element type it names ([`npy_dtype`]), and how
/// many whole elements the bytes after the header hold.
pub fn npy_layout(bytes: &Vec<u8>, path: &str) -> (r: Result<NpyLayout, PldaError>)
    requires
        !cut_in_length(bytes@),
    ensures
        match npy_header(bytes@) {
            Err(e) => r matches Err(PldaError::Io { path: p, detail }) && p@ == path@ && detail@ == e,
            Ok((d, s, o)) => match dtype_of(d) {
                Err(e) => r matches Err(PldaError::Io { path: p, detail }) && p@ == path@ && detail@
                    == e,
                Ok(t) => r matches Ok(l) && l.header.descr@ == d && shape_view(l.header.shape@) == s
                    && l.header.data_offset == o && l.dtype == t && l.count == (bytes.len() - o)
                    / (t.width_spec() as int) && l.count * descr_bytes(d) <= bytes.len() - o < (l.count
                    + 1) * descr_bytes(d),
            },
        },
{
    let header = match parse_npy_header(bytes, path) {
        Ok(h) => h,
        Err(e) => {
            return Err(e);
        },
    };
    let dtype = match npy_dtype(header.descr.as_str(), path) {
        Ok(t) => t,
        Err(e) => {
            return Err(e);
        },
    };
    proof {
        assert(header.data_offset <= bytes.len()) by {
            assert(npy_header(bytes@) is Ok);
            assert(header_span(bytes@) is Ok);
        }
    }
    let count = (bytes.len() - header.data_offset) / dtype.width();
    proof {
        lemma_width_is_descr_size(header.descr@);
        let w = dtype.width_spec() as int;
        let rest = bytes.len() - header.data_offset;
        assert(count * w <= rest < (count + 1) * w) by (nonlinear_arith)
            requires
                w > 0,
                rest >= 0,
                count == rest / w,
        ;
    }
    Ok(NpyLayout { header, dtype, count })
}

/// The numbers of `v` separated by `, `.
pub open spec fn joined_decimals(v: Seq<nat>) -> Seq<char>
    decreases v.len(),
{
    if v.len() == 0 {
        Seq::empty()
    } else if v.len() == 1 {
        decimal(v[0])
    } else {
        joined_decimals(v.drop_last()) + ", "@ + decimal(v.last())
    }
}

/// A list of numbers as `{:?}` writes it, e.g. `[3, 4]`.
pub open spec fn debug_list(v: Seq<nat>) -> Seq<char> {
    "["@ + joined_decimals(v) + "]"@
}

/// The rows and columns of a two-dimensional shape; any other shape is
/// refused as not a matrix.
pub fn matrix_dims(shape: &Vec<usize>) -> (r: Result<(usize, usize), PldaError>)
    ensures
        shape.len() == 2 ==> r == Ok::<(usize, usize), PldaError>((shape@[0], shape@[1])),
        shape.len() != 2 ==> (r matches Err(PldaError::Shape { name, expected, actual }) && name@
            == "matrix"@ && expected@ == "2-D"@ && actual@ == debug_list(shape_view(shape@))),
{
    if shape.len() == 2 {
        return Ok((shape[0], shape[1]));
    }
    let mut actual = String::from_str("[");
    let ghost v = shape_view(shape@);
    let mut i: usize = 0;
    while i < shape.len()
        invariant
            i <= shape.len(),
            v == shape_view(shape@),
            actual@ == "["@ + joined_decimals(v.take(i as int)),
        decreases shape.len() - i,
    {
        proof {
            assert(v.take(i + 1).drop_last() =~= v.take(i as int));
            assert(v.take(i + 1).last() == shape@[i as int] as nat);
        }
        if i > 0 {
            actual.append(", ");
        } else {
            assert(v.take(0) =~= Seq::<nat>::empty());
        }
        push_decimal(&mut actual, shape[i] as u64);
        proof {
            if i == 0 {
                assert(v.take(1) =~= seq![shape@[0] as nat]);
            }
        }
        assert(actual@ =~= "["@ + joined_decimals(v.take(i + 1)));
        i += 1;
    }
    actual.append("]");
    assert(v.take(shape.len() as int) =~= v);
    Err(
        PldaError::Shape {
            name: String::from_str("matrix"),
            expected: String::from_str("2-D"),
            actual,
        },
    )
}

} // verus!
