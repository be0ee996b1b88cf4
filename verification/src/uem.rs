//! UEM files: the scored regions of each recording.
//!
//! Each line reads `<file> <channel> <start> <end>` with times in seconds;
//! blank lines and lines starting with `;` or `#` are comments, and lines
//! that do not parse, or whose end is not after their start, are skipped.

use vstd::prelude::*;
use crate::text::{chars_of, push_char, str_eq};
use crate::time::TimeRange;
use crate::decimal::{parse_seconds, parse_seconds_of};

verus! {

/// Unicode white space (the characters `str::trim` and
/// `str::split_whitespace` treat as blanks).
pub open spec fn is_ws(c: char) -> bool {
    ('\u{9}' <= c && c <= '\u{d}') || c == ' ' || c == '\u{85}' || c == '\u{a0}' || c == '\u{1680}'
        || ('\u{2000}' <= c && c <= '\u{200a}') || c == '\u{2028}' || c == '\u{2029}' || c
        == '\u{202f}' || c == '\u{205f}' || c == '\u{3000}'
}

pub(crate) fn is_ws_char(c: char) -> (b: bool)
    ensures
        b == is_ws(c),
{
    ('\u{9}' <= c && c <= '\u{d}') || c == ' ' || c == '\u{85}' || c == '\u{a0}' || c == '\u{1680}'
        || ('\u{2000}' <= c && c <= '\u{200a}') || c == '\u{2028}' || c == '\u{2029}' || c
        == '\u{202f}' || c == '\u{205f}' || c == '\u{3000}'
}

/// The pieces of `s` between `sep` characters (always at least one piece).
pub open spec fn split_on(s: Seq<char>, sep: char) -> Seq<Seq<char>>
    decreases s.len(),
{
    if s.len() == 0 {
        seq![Seq::empty()]
    } else {
        let rest = split_on(s.drop_last(), sep);
        if s.last() == sep {
            rest.push(Seq::empty())
        } else {
            rest.update(rest.len() - 1, rest.last().push(s.last()))
        }
    }
}

/// The maximal runs of non-blank characters of `s`, in order.
pub open spec fn tokens(s: Seq<char>) -> Seq<Seq<char>>
    decreases s.len(),
{
    if s.len() == 0 {
        Seq::empty()
    } else {
        let t = tokens(s.drop_last());
        let c = s.last();
        if is_ws(c) {
            t
        } else if s.len() >= 2 && !is_ws(s[s.len() - 2]) {
            t.update(t.len() - 1, t.last().push(c))
        } else {
            t.push(seq![c])
        }
    }
}

pub open spec fn is_digit(c: char) -> bool {
    '0' <= c && c <= '9'
}

pub open spec fn all_digits(s: Seq<char>) -> bool {
    forall|i: int| 0 <= i < s.len() ==> is_digit(#[trigger] s[i])
}

/// The value of a string of decimal digits.
pub open spec fn digits_value(s: Seq<char>) -> nat
    decreases s.len(),
{
    if s.len() == 0 {
        0
    } else {
        digits_value(s.drop_last()) * 10 + ((s.last() as u32) - 48) as nat
    }
}

pub open spec fn pow10(k: nat) -> nat
    decreases k,
{
    if k == 0 {
        1
    } else {
        10 * pow10((k - 1) as nat)
    }
}

/// The scored region a UEM line declares, with its file name.
pub open spec fn uem_line(line: Seq<char>) -> Option<(Seq<char>, TimeRange)> {
    let t = tokens(line);
    if t.len() >= 4 && t[0][0] != ';' && t[0][0] != '#' {
        match (parse_seconds(t[2]), parse_seconds(t[3])) {
            (Some(s), Some(e)) => if e > s {
                Some((t[0], TimeRange { start: s as i64, end: e as i64 }))
            } else {
                None
            },
            _ => None,
        }
    } else {
        None
    }
}

/// The regions declared by the first `k` lines, in order.
pub open spec fn uem_entries(lines: Seq<Seq<char>>, k: int) -> Seq<(Seq<char>, TimeRange)>
    decreases k,
{
    if k <= 0 {
        Seq::empty()
    } else {
        let e = uem_entries(lines, k - 1);
        match uem_line(lines[k - 1]) {
            Some(x) => e.push(x),
            None => e,
        }
    }
}

/// The ranges of `entries` for file `f`, in order.
pub open spec fn ranges_for(entries: Seq<(Seq<char>, TimeRange)>, f: Seq<char>) -> Seq<TimeRange>
    decreases entries.len(),
{
    if entries.len() == 0 {
        Seq::empty()
    } else {
        let r = ranges_for(entries.drop_last(), f);
        if entries.last().0 == f {
            r.push(entries.last().1)
        } else {
            r
        }
    }
}


pub(crate) proof fn lemma_digits_prefix(s: Seq<char>, j: int)
    requires
        0 <= j <= s.len(),
    ensures
        digits_value(s.take(j)) <= digits_value(s),
    decreases s.len() - j,
{
    if j < s.len() {
        lemma_digits_prefix(s, j + 1);
        assert(s.take(j + 1).drop_last() =~= s.take(j));
    } else {
        assert(s.take(j) =~= s);
    }
}

pub(crate) fn all_digits_in(cs: &Vec<char>, lo: usize, hi: usize) -> (b: bool)
    requires
        lo <= hi <= cs.len(),
    ensures
        b == all_digits(cs@.subrange(lo as int, hi as int)),
{
    let mut j: usize = lo;
    while j < hi
        invariant
            lo <= j <= hi <= cs.len(),
            forall|q: int| lo <= q < j ==> is_digit(#[trigger] cs@[q]),
        decreases hi - j,
    {
        if !(cs[j] >= '0' && cs[j] <= '9') {
            assert(cs@.subrange(lo as int, hi as int)[j - lo] == cs@[j as int]);
            return false;
        }
        j += 1;
    }
    assert forall|i: int| 0 <= i < hi - lo implies is_digit(#[trigger] cs@.subrange(lo as int, hi as int)[i]) by {
        assert(cs@.subrange(lo as int, hi as int)[i] == cs@[lo + i]);
    }
    true
}

/// The views of a list of character vectors.
pub open spec fn views(v: Seq<Vec<char>>) -> Seq<Seq<char>> {
    v.map_values(|x: Vec<char>| x@)
}

/// Append `c` to the last piece of `pieces`.
fn push_to_last(pieces: &mut Vec<Vec<char>>, c: char)
    requires
        old(pieces).len() > 0,
    ensures
        views(final(pieces)@) == views(old(pieces)@).update(
            old(pieces).len() - 1,
            views(old(pieces)@).last().push(c),
        ),
{
    let last = pieces.len() - 1;
    let mut piece = pieces[last].clone();
    assert(piece@ =~= pieces@[last as int]@);
    piece.push(c);
    let ghost before = pieces@;
    pieces.set(last, piece);
    assert(views(pieces@) =~= views(before).update(before.len() - 1, views(before).last().push(c)));
}

/// The pieces of `cs` between `sep` characters.
pub(crate) fn split_by(cs: &Vec<char>, sep: char) -> (pieces: Vec<Vec<char>>)
    ensures
        views(pieces@) == split_on(cs@, sep),
{
    let mut lines: Vec<Vec<char>> = Vec::new();
    lines.push(Vec::new());
    assert(views(lines@) =~= split_on(cs@.take(0), sep));
    let mut i: usize = 0;
    while i < cs.len()
        invariant
            i <= cs.len(),
            lines.len() > 0,
            views(lines@) == split_on(cs@.take(i as int), sep),
        decreases cs.len() - i,
    {
        let c = cs[i];
        proof {
            assert(cs@.take(i as int + 1).drop_last() =~= cs@.take(i as int));
            assert(cs@.take(i as int + 1).last() == c);
        }
        if c == sep {
            let ghost before = lines@;
            lines.push(Vec::new());
            assert(views(lines@) =~= views(before).push(Seq::empty()));
        } else {
            push_to_last(&mut lines, c);
        }
        i += 1;
    }
    assert(cs@.take(cs.len() as int) =~= cs@);
    lines
}

/// The pieces of `cs` between newlines.
pub(crate) fn split_lines(cs: &Vec<char>) -> (lines: Vec<Vec<char>>)
    ensures
        views(lines@) == split_on(cs@, '\n'),
{
    split_by(cs, '\n')
}

proof fn lemma_tokens_nonempty_tail(s: Seq<char>)
    requires
        s.len() >= 1,
        !is_ws(s.last()),
    ensures
        tokens(s).len() > 0,
    decreases s.len(),
{
    if s.len() >= 2 && !is_ws(s[s.len() - 2]) {
        assert(s.drop_last().last() == s[s.len() - 2]);
        lemma_tokens_nonempty_tail(s.drop_last());
    }
}

/// Every token holds at least one character.
proof fn lemma_tokens_nonempty(s: Seq<char>)
    ensures
        forall|i: int| 0 <= i < tokens(s).len() ==> (#[trigger] tokens(s)[i]).len() > 0,
    decreases s.len(),
{
    if s.len() > 0 {
        lemma_tokens_nonempty(s.drop_last());
        if !is_ws(s.last()) && s.len() >= 2 && !is_ws(s[s.len() - 2]) {
            assert(s.drop_last().last() == s[s.len() - 2]);
            lemma_tokens_nonempty_tail(s.drop_last());
        }
    }
}

/// The maximal runs of non-blank characters of `cs`.
pub(crate) fn tokenize(cs: &Vec<char>) -> (toks: Vec<Vec<char>>)
    ensures
        views(toks@) == tokens(cs@),
{
    let mut toks: Vec<Vec<char>> = Vec::new();
    assert(views(toks@) =~= tokens(cs@.take(0)));
    let mut i: usize = 0;
    while i < cs.len()
        invariant
            i <= cs.len(),
            views(toks@) == tokens(cs@.take(i as int)),
        decreases cs.len() - i,
    {
        let c = cs[i];
        let ghost pre = cs@.take(i as int);
        let ghost cur = cs@.take(i as int + 1);
        proof {
            assert(cur.drop_last() =~= pre);
            assert(cur.last() == c);
        }
        if is_ws_char(c) {
        } else if i >= 1 && !is_ws_char(cs[i - 1]) {
            proof {
                assert(cur[cur.len() - 2] == cs@[i - 1]);
                assert(pre.last() == cs@[i - 1]);
                lemma_tokens_nonempty_tail(pre);
            }
            push_to_last(&mut toks, c);
        } else {
            let ghost before = toks@;
            let mut t: Vec<char> = Vec::new();
            t.push(c);
            toks.push(t);
            proof {
                if i >= 1 {
                    assert(cur[cur.len() - 2] == cs@[i - 1]);
                }
                assert(views(toks@) =~= views(before).push(seq![c]));
            }
        }
        i += 1;
    }
    assert(cs@.take(cs.len() as int) =~= cs@);
    toks
}

/// A string holding the characters of `v`.
pub(crate) fn string_of(v: &Vec<char>) -> (s: String)
    ensures
        s@ == v@,
{
    let mut s = String::new();
    let mut i: usize = 0;
    while i < v.len()
        invariant
            i <= v.len(),
            s@ == v@.take(i as int),
        decreases v.len() - i,
    {
        push_char(&mut s, v[i]);
        assert(v@.take(i as int + 1) =~= v@.take(i as int).push(v@[i as int]));
        i += 1;
    }
    assert(v@.take(v.len() as int) =~= v@);
    s
}

/// The scored region declared by one line (see [`uem_line`]).
fn uem_line_of(line: &Vec<char>) -> (r: Option<(String, TimeRange)>)
    ensures
        match r {
            Some((f, t)) => uem_line(line@) == Some((f@, t)),
            None => uem_line(line@) is None,
        },
{
    let toks = tokenize(line);
    proof {
        assert(views(toks@).len() == toks@.len());
        lemma_tokens_nonempty(line@);
    }
    if toks.len() < 4 {
        return None;
    }
    proof {
        assert(views(toks@)[0] == toks@[0]@);
        assert(views(toks@)[2] == toks@[2]@);
        assert(views(toks@)[3] == toks@[3]@);
    }
    if toks[0].len() > 0 && (toks[0][0] == ';' || toks[0][0] == '#') {
        return None;
    }
    proof {
        if toks@[0]@.len() == 0 {
            assert(tokens(line@)[0].len() == 0);
        }
    }
    let start = match parse_seconds_of(&toks[2]) {
        Some(v) => v,
        None => {
            return None;
        },
    };
    let end = match parse_seconds_of(&toks[3]) {
        Some(v) => v,
        None => {
            return None;
        },
    };
    if !(end > start) {
        return None;
    }
    let f = string_of(&toks[0]);
    assert(f@ == tokens(line@)[0]);
    Some((f, TimeRange { start, end }))
}

/// One recording's scored regions.
#[derive(Clone, Debug, PartialEq, Eq)]
pub struct UemFile {
    pub file: String,
    pub ranges: Vec<TimeRange>,
}

/// The scored regions of each recording, in order of first appearance.
#[derive(Clone, Debug, PartialEq, Eq)]
pub struct UemMap {
    pub files: Vec<UemFile>,
}

/// The map holds, for each file of `entries` and only for those, its ranges
/// in order, each file once.
pub open spec fn uem_map_of(entries: Seq<(Seq<char>, TimeRange)>, files: Seq<UemFile>) -> bool {
    &&& forall|a: int, b: int| 0 <= a < b < files.len() ==> (#[trigger] files[a]).file@ != (#[trigger] files[b]).file@
    &&& forall|k: int| 0 <= k < files.len() ==> (#[trigger] files[k]).ranges@ == ranges_for(entries, files[k].file@)
    &&& forall|f: Seq<char>| #![trigger names_file(files, f)] #![trigger names_entry(entries, f)] names_file(files, f) <==> names_entry(entries, f)
}

/// Some file of the map is named `f`.
pub open spec fn names_file(files: Seq<UemFile>, f: Seq<char>) -> bool {
    exists|k: int| 0 <= k < files.len() && (#[trigger] files[k]).file@ == f
}

/// Some entry is for file `f`.
pub open spec fn names_entry(entries: Seq<(Seq<char>, TimeRange)>, f: Seq<char>) -> bool {
    exists|j: int| 0 <= j < entries.len() && (#[trigger] entries[j]).0 == f
}

impl UemMap {
    /// The scored ranges of `file`, if it has any.
    pub fn get(&self, file: &str) -> (r: Option<&Vec<TimeRange>>)
        ensures
            match r {
                Some(v) => exists|k: int| 0 <= k < self.files.len() && (#[trigger] self.files@[k]).file@ == file@ && v@ == self.files@[k].ranges@,
                None => forall|k: int| 0 <= k < self.files.len() ==> (#[trigger] self.files@[k]).file@ != file@,
            },
    {
        let mut k: usize = 0;
        while k < self.files.len()
            invariant
                k <= self.files.len(),
                forall|q: int| 0 <= q < k ==> (#[trigger] self.files@[q]).file@ != file@,
            decreases self.files.len() - k,
        {
            if str_eq(self.files[k].file.as_str(), file) {
                return Some(&self.files[k].ranges);
            }
            k += 1;
        }
        None
    }

    /// Whether `file` has scored ranges.
    pub fn contains_key(&self, file: &str) -> (b: bool)
        ensures
            b == exists|k: int| 0 <= k < self.files.len() && (#[trigger] self.files@[k]).file@ == file@,
    {
        match self.get(file) {
            Some(_) => true,
            None => false,
        }
    }
}

proof fn lemma_ranges_for_push(entries: Seq<(Seq<char>, TimeRange)>, x: (Seq<char>, TimeRange), f: Seq<char>)
    ensures
        ranges_for(entries.push(x), f) == if x.0 == f {
            ranges_for(entries, f).push(x.1)
        } else {
            ranges_for(entries, f)
        },
{
    assert(entries.push(x).drop_last() =~= entries);
}

proof fn lemma_ranges_for_absent(entries: Seq<(Seq<char>, TimeRange)>, f: Seq<char>)
    requires
        forall|j: int| 0 <= j < entries.len() ==> (#[trigger] entries[j]).0 != f,
    ensures
        ranges_for(entries, f) == Seq::<TimeRange>::empty(),
    decreases entries.len(),
{
    if entries.len() > 0 {
        assert forall|j: int| 0 <= j < entries.drop_last().len() implies (#[trigger] entries.drop_last()[j]).0 != f by {
            assert(entries.drop_last()[j] == entries[j]);
        }
        lemma_ranges_for_absent(entries.drop_last(), f);
    }
}

proof fn lemma_names_entry_push(entries: Seq<(Seq<char>, TimeRange)>, x: (Seq<char>, TimeRange), g: Seq<char>)
    ensures
        names_entry(entries.push(x), g) <==> (names_entry(entries, g) || x.0 == g),
{
    let n = entries.push(x);
    if names_entry(n, g) {
        let j = choose|j: int| 0 <= j < n.len() && (#[trigger] n[j]).0 == g;
        if j < entries.len() {
            assert(entries[j] == n[j]);
        }
    }
    if names_entry(entries, g) {
        let j = choose|j: int| 0 <= j < entries.len() && (#[trigger] entries[j]).0 == g;
        assert(n[j] == entries[j]);
    }
    if x.0 == g {
        assert(n[entries.len() as int] == x);
    }
}

/// Add one declared region to the map.
fn add_entry(files: &mut Vec<UemFile>, f: String, t: TimeRange, Ghost(entries): Ghost<Seq<(Seq<char>, TimeRange)>>)
    requires
        uem_map_of(entries, old(files)@),
    ensures
        uem_map_of(entries.push((f@, t)), final(files)@),
{
    let ghost new_entries = entries.push((f@, t));
    let ghost before = files@;
    let mut k: usize = 0;
    while k < files.len()
        invariant
            files@ == before,
            new_entries == entries.push((f@, t)),
            uem_map_of(entries, before),
            k <= files.len(),
            forall|q: int| 0 <= q < k ==> (#[trigger] files@[q]).file@ != f@,
        decreases files.len() - k,
    {
        if str_eq(files[k].file.as_str(), f.as_str()) {
            let mut ranges = files[k].ranges.clone();
            assert(ranges@ =~= files@[k as int].ranges@);
            ranges.push(t);
            let entry = UemFile { file: files[k].file.clone(), ranges };
            files.set(k, entry);
            proof {
                assert(before[k as int].file@ == f@);
                assert forall|q: int| 0 <= q < files@.len() implies (#[trigger] files@[q]).file@ == before[q].file@ by {}
                assert forall|q: int| 0 <= q < files@.len() implies (#[trigger] files@[q]).ranges@ == ranges_for(new_entries, files@[q].file@) by {
                    lemma_ranges_for_push(entries, (f@, t), files@[q].file@);
                    assert(before[q].ranges@ == ranges_for(entries, before[q].file@));
                    if q != k {
                        assert(files@[q] == before[q]);
                    } else {
                        assert(files@[q].ranges@ == before[q].ranges@.push(t));
                        assert(files@[q].file@ == f@);
                        lemma_ranges_for_push(entries, (f@, t), f@);
                        assert(new_entries == entries.push((f@, t)));
                        assert(ranges_for(new_entries, f@) == ranges_for(entries, f@).push(t));
                    }
                    if q < k {
                        assert(before[q].file@ != before[k as int].file@);
                    } else if q > k {
                        assert(before[k as int].file@ != before[q].file@);
                    }
                }
                assert forall|a: int, b: int| 0 <= a < b < files@.len() implies (#[trigger] files@[a]).file@ != (#[trigger] files@[b]).file@ by {
                    assert(before[a].file@ != before[b].file@);
                }
                assert forall|g: Seq<char>| names_file(files@, g) <==> names_entry(new_entries, g) by {
                    lemma_names_entry_push(entries, (f@, t), g);
                    assert(before[k as int].file@ == f@);
                    assert(names_file(before, f@));
                    assert(names_file(before, g) <==> names_entry(entries, g));
                    assert(names_file(before, f@) <==> names_entry(entries, f@));
                    if names_file(files@, g) {
                        let q = choose|q: int| 0 <= q < files@.len() && (#[trigger] files@[q]).file@ == g;
                        assert(before[q].file@ == g);
                        assert(names_file(before, g));
                        assert(names_entry(new_entries, g));
                    }
                    if names_entry(new_entries, g) {
                        assert(names_entry(entries, g));
                        assert(names_file(before, g));
                        let q = choose|q: int| 0 <= q < before.len() && (#[trigger] before[q]).file@ == g;
                        assert(files@[q].file@ == g);
                        assert(names_file(files@, g));
                    }
                }
            }
            return;
        }
        k += 1;
    }
    let mut ranges: Vec<TimeRange> = Vec::new();
    ranges.push(t);
    let name = f.clone();
    files.push(UemFile { file: name, ranges });
    proof {
        assert(!names_file(before, f@));
        assert(names_file(before, f@) <==> names_entry(entries, f@));
        assert forall|j: int| 0 <= j < entries.len() implies (#[trigger] entries[j]).0 != f@ by {}
        lemma_ranges_for_absent(entries, f@);
        assert forall|q: int| 0 <= q < files@.len() implies (#[trigger] files@[q]).ranges@ == ranges_for(new_entries, files@[q].file@) by {
            lemma_ranges_for_push(entries, (f@, t), files@[q].file@);
            if q < before.len() {
                assert(files@[q] == before[q]);
                assert(before[q].file@ != f@);
            } else {
                assert(files@[q].ranges@ =~= seq![t]);
                assert(Seq::<TimeRange>::empty().push(t) =~= seq![t]);
            }
        }
        assert forall|a: int, b: int| 0 <= a < b < files@.len() implies (#[trigger] files@[a]).file@ != (#[trigger] files@[b]).file@ by {
            if b < before.len() {
                assert(before[a].file@ != before[b].file@);
            } else {
                assert(files@[a] == before[a]);
            }
        }
        assert forall|g: Seq<char>| names_file(files@, g) <==> names_entry(new_entries, g) by {
            lemma_names_entry_push(entries, (f@, t), g);
            assert(names_file(before, g) <==> names_entry(entries, g));
            if names_file(files@, g) {
                let q = choose|q: int| 0 <= q < files@.len() && (#[trigger] files@[q]).file@ == g;
                if q < before.len() {
                    assert(before[q].file@ == g);
                }
            }
            if names_file(before, g) {
                let q = choose|q: int| 0 <= q < before.len() && (#[trigger] before[q]).file@ == g;
                assert(files@[q].file@ == g);
            }
            if g == f@ {
                assert(files@[before.len() as int].file@ == g);
            }
        }
    }
}

/// Parse a UEM file: for each recording, its scored regions in file order.
///
/// Each line reads `<file> <channel> <start> <end>`, times in seconds; blank
/// lines and lines starting with `;` or `#` are skipped, and so are lines
/// with fewer than four fields, times that do not parse, and regions whose
/// end is not after their start.
pub fn parse_uem(text: &str) -> (m: UemMap)
    ensures
        uem_map_of(uem_entries(split_on(text@, '\n'), split_on(text@, '\n').len() as int), m.files@),
{
    let cs = chars_of(text);
    let lines = split_lines(&cs);
    let ghost ls = views(lines@);
    let mut files: Vec<UemFile> = Vec::new();
    let mut i: usize = 0;
    while i < lines.len()
        invariant
            ls == views(lines@),
            ls == split_on(text@, '\n'),
            i <= lines.len(),
            uem_map_of(uem_entries(ls, i as int), files@),
        decreases lines.len() - i,
    {
        assert(ls[i as int] == lines@[i as int]@);
        match uem_line_of(&lines[i]) {
            Some((f, t)) => {
                add_entry(&mut files, f, t, Ghost(uem_entries(ls, i as int)));
            },
            None => {},
        }
        i += 1;
    }
    UemMap { files }
}

} // verus!
