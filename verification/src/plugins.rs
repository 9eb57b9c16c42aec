//! Plugin files: header masters, flags, the record census, and the census cache.
//!
//! A plugin tells what it is and what it needs. Its first record, `TES4`, is a run of
//! subrecords (type, 16-bit size, data) that names its masters; after it stand groups
//! (`GRUP`, total size, label) that nest groups and records (signature, data size,
//! flags). Malformed input ends its own branch and nothing else.
use vstd::prelude::*;
use std::io::Read;
use crate::game;
#[allow(unused_imports)]
use crate::game::{info_of, selected};
use crate::list;
#[allow(unused_imports)]
use crate::list::firsts;
#[allow(unused_imports)]
use crate::map::{found, inserted, key_from};
use crate::masters;
#[allow(unused_imports)]
use crate::masters::is_base;
use crate::profile;
#[allow(unused_imports)]
use crate::profile::data_path;
use crate::sort;
#[allow(unused_imports)]
use crate::sort::sorted;
use crate::text;
#[allow(unused_imports)]
use crate::text::{after_prefix, ascii_lowered, contains_text, decimal, ended, joined, lines_of, lowercase, number, split_last, split_on};

verus! {

pub struct PluginInfo {
    /// The file name.
    pub plugin: String,
    /// The masters that the header names, in its order.
    pub masters: Vec<String>,
    pub is_esm: bool,
    pub is_esl: bool,
    /// The record count that the header states.
    pub record_count: u32,
    /// Top-level group labels and how often each occurs.
    pub groups: Vec<(String, u32)>,
    /// Record signatures and how often each occurs.
    pub records: Vec<(String, u32)>,
    /// Keyword form numbers of semantic records, as `master|number`, with counts.
    pub keywords: Vec<(String, u32)>,
}

pub type Counts = Seq<(Seq<char>, u32)>;

#[verifier::ext_equal]
pub struct PluginView {
    pub plugin: Seq<char>,
    pub masters: Seq<Seq<char>>,
    pub is_esm: bool,
    pub is_esl: bool,
    pub record_count: u32,
    pub groups: Counts,
    pub records: Counts,
    pub keywords: Counts,
}

impl DeepView for PluginInfo {
    type V = PluginView;

    open spec fn deep_view(&self) -> PluginView {
        PluginView {
            plugin: self.plugin@,
            masters: self.masters.deep_view(),
            is_esm: self.is_esm,
            is_esl: self.is_esl,
            record_count: self.record_count,
            groups: self.groups.deep_view(),
            records: self.records.deep_view(),
            keywords: self.keywords.deep_view(),
        }
    }
}

pub fn copy_counts(v: &Vec<(String, u32)>) -> (r: Vec<(String, u32)>)
    ensures
        r.deep_view() == v.deep_view(),
{
    let mut out: Vec<(String, u32)> = list::none();
    let mut i: usize = 0;
    while i < v.len()
        invariant
            i <= v.len(),
            out.deep_view() == v.deep_view().take(i as int),
        decreases v.len() - i,
    {
        list::put(&mut out, (v[i].0.clone(), v[i].1));
        i = i + 1;
        assert(out.deep_view() =~= v.deep_view().take(i as int));
    }
    assert(v.deep_view().take(i as int) =~= v.deep_view());
    out
}

impl Clone for PluginInfo {
    fn clone(&self) -> (r: PluginInfo)
        ensures
            r.deep_view() == self.deep_view(),
    {
        PluginInfo {
            plugin: self.plugin.clone(),
            masters: list::copy(&self.masters),
            is_esm: self.is_esm,
            is_esl: self.is_esl,
            record_count: self.record_count,
            groups: copy_counts(&self.groups),
            records: copy_counts(&self.records),
            keywords: copy_counts(&self.keywords),
        }
    }
}

/// Which mod folder owns a plugin file.
pub struct PluginOwner {
    pub mod_name: String,
    pub section: String,
    pub plugin: String,
    pub path: String,
}

#[verifier::ext_equal]
pub struct OwnerView {
    pub mod_name: Seq<char>,
    pub section: Seq<char>,
    pub plugin: Seq<char>,
    pub path: Seq<char>,
}

impl DeepView for PluginOwner {
    type V = OwnerView;

    open spec fn deep_view(&self) -> OwnerView {
        OwnerView {
            mod_name: self.mod_name@,
            section: self.section@,
            plugin: self.plugin@,
            path: self.path@,
        }
    }
}

// ---- outside functions ----

/// What the bytes read as, where every sequence that is no UTF-8 becomes a
/// replacement character.
pub uninterp spec fn lossy(bytes: Seq<u8>) -> Seq<char>;

/// `String::from_utf8_lossy`: a function of the bytes alone; ASCII bytes stand for
/// the characters of the same numbers.
#[verifier::external_body]
pub(crate) fn utf8_lossy(bytes: &[u8]) -> (r: String)
    ensures
        r@ == lossy(bytes@),
        (forall|i: int| 0 <= i < bytes@.len() ==> (#[trigger] bytes@[i]) < 128) ==> r@ == Seq::new(
            bytes@.len(),
            |i: int| bytes@[i] as char,
        ),
{
    String::from_utf8_lossy(bytes).into_owned()
}

/// What a zlib stream at the start of the bytes holds, if it is whole and sound.
pub uninterp spec fn inflated(bytes: Seq<u8>) -> Option<Seq<u8>>;

/// `flate2::read::ZlibDecoder`, read to its end: a function of the bytes alone, which
/// fails where the stream is corrupt or incomplete.
#[verifier::external_body]
fn inflate(bytes: &[u8]) -> (r: Option<Vec<u8>>)
    ensures
        match r {
            Some(out) => inflated(bytes@) == Some(out@),
            None => inflated(bytes@) is None,
        },
{
    let mut out = Vec::new();
    let mut decoder = flate2::read::ZlibDecoder::new(bytes);
    match decoder.read_to_end(&mut out) {
        Ok(_) => Some(out),
        Err(_) => None,
    }
}

// ---- bytes ----

pub open spec fn u32_at(b: Seq<u8>, i: int) -> u32 {
    (b[i] + b[i + 1] * 0x100 + b[i + 2] * 0x1_0000 + b[i + 3] * 0x100_0000) as u32
}

pub open spec fn u16_at(b: Seq<u8>, i: int) -> int {
    b[i] + b[i + 1] * 0x100
}

/// The four bytes at `i`.
pub open spec fn tag(b: Seq<u8>, i: int) -> Seq<u8> {
    b.subrange(i, i + 4)
}

pub open spec fn tag_of(a: char, b: char, c: char, d: char) -> Seq<u8> {
    seq![a as u8, b as u8, c as u8, d as u8]
}

pub fn u32le(b: &[u8], off: usize) -> (r: u32)
    requires
        off + 4 <= b@.len(),
    ensures
        r == u32_at(b@, off as int),
{
    (b[off] as u32) + (b[off + 1] as u32) * 0x100 + (b[off + 2] as u32) * 0x1_0000 + (b[off
        + 3] as u32) * 0x100_0000
}

fn u16le(b: &[u8], off: usize) -> (r: usize)
    requires
        off + 2 <= b@.len(),
    ensures
        r == u16_at(b@, off as int),
{
    (b[off] as usize) + (b[off + 1] as usize) * 0x100
}

fn tag_is(b: &[u8], off: usize, w: char, x: char, y: char, z: char) -> (r: bool)
    requires
        off + 4 <= b@.len(),
    ensures
        r == (tag(b@, off as int) == tag_of(w, x, y, z)),
{
    let r = b[off] == w as u8 && b[off + 1] == x as u8 && b[off + 2] == y as u8 && b[off + 3]
        == z as u8;
    proof {
        let t = tag(b@, off as int);
        let u = tag_of(w, x, y, z);
        if r {
            assert(t =~= u);
        } else {
            assert(t[0] == b@[off as int] && t[1] == b@[off + 1] && t[2] == b@[off + 2] && t[3]
                == b@[off + 3]);
            assert(u[0] == w as u8 && u[1] == x as u8 && u[2] == y as u8 && u[3] == z as u8);
        }
    }
    r
}

fn bytes_between(b: &[u8], from: usize, to: usize) -> (r: Vec<u8>)
    requires
        from <= to <= b@.len(),
    ensures
        r@ == b@.subrange(from as int, to as int),
{
    let mut out: Vec<u8> = Vec::new();
    let mut i: usize = from;
    while i < to
        invariant
            from <= i <= to <= b@.len(),
            out@ == b@.subrange(from as int, i as int),
        decreases to - i,
    {
        out.push(b[i]);
        i = i + 1;
    }
    out
}

// ---- counts ----

pub open spec fn one_more(n: u32) -> u32 {
    if n == u32::MAX {
        0
    } else {
        (n + 1) as u32
    }
}

/// The counts once `k` has been seen once more.
pub open spec fn bumped(counts: Counts, k: Seq<char>) -> Counts {
    match found(counts, k) {
        Some(n) => inserted(counts, k, one_more(n)),
        None => inserted(counts, k, 1),
    }
}

pub fn bump(counts: &mut Vec<(String, u32)>, k: String)
    ensures
        final(counts).deep_view() == bumped(old(counts).deep_view(), k@),
{
    let ghost before = counts.deep_view();
    let mut i: usize = 0;
    while i < counts.len()
        invariant
            i <= counts.len(),
            before == old(counts).deep_view(),
            counts.deep_view() == before,
            key_from(before, k@, i as int) == key_from(before, k@, 0),
        decreases counts.len() - i,
    {
        assert(before[i as int] == counts@[i as int].deep_view());
        if counts[i].0 == k {
            let n: u32 = counts[i].1;
            let more: u32 = if n == u32::MAX {
                0
            } else {
                n + 1
            };
            list::set_at(counts, i, (k, more));
            return;
        }
        i = i + 1;
    }
    list::put(counts, (k, 1));
}

// ---- keywords of a record ----

pub open spec fn is_semantic(t: Seq<u8>) -> bool {
    t == tag_of('A', 'R', 'M', 'O') || t == tag_of('W', 'E', 'A', 'P') || t == tag_of(
        'A',
        'M',
        'M',
        'O',
    ) || t == tag_of('N', 'P', 'C', '_') || t == tag_of('R', 'A', 'C', 'E') || t == tag_of(
        'S',
        'P',
        'E',
        'L',
    ) || t == tag_of('M', 'G', 'E', 'F')
}

fn semantic_keyword_record(b: &[u8], off: usize) -> (r: bool)
    requires
        off + 4 <= b@.len(),
    ensures
        r == is_semantic(tag(b@, off as int)),
{
    tag_is(b, off, 'A', 'R', 'M', 'O') || tag_is(b, off, 'W', 'E', 'A', 'P') || tag_is(
        b,
        off,
        'A',
        'M',
        'M',
        'O',
    ) || tag_is(b, off, 'N', 'P', 'C', '_') || tag_is(b, off, 'R', 'A', 'C', 'E') || tag_is(
        b,
        off,
        'S',
        'P',
        'E',
        'L',
    ) || tag_is(b, off, 'M', 'G', 'E', 'F')
}

/// A form number as the master that its first byte counts out, and the rest in hex.
pub open spec fn keyword_name(id: u32, masters: Seq<Seq<char>>) -> Seq<char> {
    let index = (id / 0x100_0000) as int;
    (if index < masters.len() {
        masters[index]
    } else {
        "self"@
    }) + "|"@ + text::hex_fixed((id % 0x100_0000) as nat, 8)
}

pub fn keyword_key(form_id: u32, masters: &Vec<String>) -> (r: String)
    ensures
        r@ == keyword_name(form_id, masters.deep_view()),
{
    let index: usize = (form_id / 0x100_0000) as usize;
    let mut r = if index < masters.len() {
        masters[index].clone()
    } else {
        "self".to_string()
    };
    assert(index < masters.len() ==> masters.deep_view()[index as int] == masters@[index as int]@);
    r.append("|");
    let h = text::hex((form_id % 0x100_0000) as u128, 8);
    r.append(h.as_str());
    r
}

/// The counts once the form numbers of `data[from..to]` have been seen.
pub open spec fn with_forms(
    kws: Counts,
    data: Seq<u8>,
    from: int,
    to: int,
    masters: Seq<Seq<char>>,
) -> Counts
    decreases to - from,
{
    if from + 4 > to {
        kws
    } else {
        with_forms(
            bumped(kws, keyword_name(u32_at(data, from), masters)),
            data,
            from + 4,
            to,
            masters,
        )
    }
}

/// The counts once the subrecords from `off` on have been read: each `KWDA` holds
/// form numbers.
pub open spec fn with_subrecords(kws: Counts, data: Seq<u8>, off: int, masters: Seq<Seq<char>>) -> Counts
    decreases data.len() - off,
{
    if off < 0 || off + 6 > data.len() {
        kws
    } else {
        let body = off + 6;
        let end = body + u16_at(data, off + 4);
        if end > data.len() {
            kws
        } else if tag(data, off) == tag_of('K', 'W', 'D', 'A') {
            with_subrecords(with_forms(kws, data, body, end, masters), data, end, masters)
        } else {
            with_subrecords(kws, data, end, masters)
        }
    }
}

pub open spec fn is_compressed(flags: u32) -> bool {
    flags & 0x0004_0000u32 != 0
}

/// The counts once a record's data has been read, whose inflated form is `unpacked`.
pub open spec fn with_record(
    kws: Counts,
    data: Seq<u8>,
    flags: u32,
    unpacked: Option<Seq<u8>>,
    masters: Seq<Seq<char>>,
) -> Counts {
    if is_compressed(flags) {
        if data.len() < 4 {
            kws
        } else {
            match unpacked {
                Some(d) => with_subrecords(kws, d, 0, masters),
                None => kws,
            }
        }
    } else {
        with_subrecords(kws, data, 0, masters)
    }
}

/// The counts once a record's data has been read. A compressed record starts with
/// its unpacked size; one that does not inflate adds nothing.
pub open spec fn with_keywords(kws: Counts, data: Seq<u8>, flags: u32, masters: Seq<Seq<char>>) -> Counts {
    with_record(kws, data, flags, inflated(data.skip(4)), masters)
}

fn add_forms(
    keywords: &mut Vec<(String, u32)>,
    data: &[u8],
    from: usize,
    to: usize,
    masters: &Vec<String>,
)
    requires
        from <= to <= data@.len(),
    ensures
        final(keywords).deep_view() == with_forms(
            old(keywords).deep_view(),
            data@,
            from as int,
            to as int,
            masters.deep_view(),
        ),
{
    let ghost start = keywords.deep_view();
    let mut i: usize = from;
    while to - i >= 4
        invariant
            from <= i <= to <= data@.len(),
            with_forms(
                keywords.deep_view(),
                data@,
                i as int,
                to as int,
                masters.deep_view(),
            ) == with_forms(start, data@, from as int, to as int, masters.deep_view()),
        decreases to - i,
    {
        let id = u32le(data, i);
        bump(keywords, keyword_key(id, masters));
        i = i + 4;
    }
}

/// Adds the keywords that stand in plain subrecords.
pub fn add_subrecords(keywords: &mut Vec<(String, u32)>, data: &[u8], masters: &Vec<String>)
    ensures
        final(keywords).deep_view() == with_subrecords(
            old(keywords).deep_view(),
            data@,
            0,
            masters.deep_view(),
        ),
{
    let ghost start = keywords.deep_view();
    let ghost ms = masters.deep_view();
    let mut off: usize = 0;
    while data.len() - off >= 6
        invariant
            off <= data@.len(),
            ms == masters.deep_view(),
            start == old(keywords).deep_view(),
            with_subrecords(keywords.deep_view(), data@, off as int, ms) == with_subrecords(
                start,
                data@,
                0,
                ms,
            ),
        decreases data@.len() - off,
    {
        let size = u16le(data, off + 4);
        let body: usize = off + 6;
        if size > data.len() - body {
            return;
        }
        if tag_is(data, off, 'K', 'W', 'D', 'A') {
            add_forms(keywords, data, body, body + size, masters);
        }
        off = body + size;
    }
}

/// Adds the keywords of one record.
pub fn record_keyword_ids(
    data: &[u8],
    flags: u32,
    masters: &Vec<String>,
    keywords: &mut Vec<(String, u32)>,
)
    ensures
        final(keywords).deep_view() == with_keywords(
            old(keywords).deep_view(),
            data@,
            flags,
            masters.deep_view(),
        ),
{
    if flags & 0x0004_0000u32 != 0 {
        if data.len() < 4 {
            return;
        }
        let packed = bytes_between(data, 4, data.len());
        assert(packed@ =~= data@.skip(4));
        match inflate(packed.as_slice()) {
            Some(d) => add_subrecords(keywords, d.as_slice(), masters),
            None => {},
        }
    } else {
        add_subrecords(keywords, data, masters);
    }
}

// ---- records in groups ----

#[verifier::ext_equal]
pub struct Scan {
    pub pos: int,
    pub records: Counts,
    pub keywords: Counts,
}

/// What the records and groups from `pos` to `end` add. Groups nest no deeper than 64
/// levels; the walk stops where a header does not fit or a size is wrong.
pub open spec fn scanned(
    b: Seq<u8>,
    pos: int,
    end: int,
    depth: int,
    masters: Seq<Seq<char>>,
    records: Counts,
    keywords: Counts,
) -> Scan
    decreases 65 - depth, end - pos,
{
    let size = u32_at(b, pos + 4) as int;
    if depth > 64 || pos < 0 || pos + 24 > end || pos + 24 > b.len() {
        Scan { pos, records, keywords }
    } else if tag(b, pos) == tag_of('G', 'R', 'U', 'P') {
        if size < 24 || pos + size > end {
            Scan { pos, records, keywords }
        } else {
            let inner = scanned(b, pos + 24, pos + size, depth + 1, masters, records, keywords);
            scanned(b, pos + size, end, depth, masters, inner.records, inner.keywords)
        }
    } else if pos + 24 + size > end {
        Scan { pos, records, keywords }
    } else {
        let more = bumped(records, lossy(tag(b, pos)));
        if is_semantic(tag(b, pos)) {
            if pos + 24 + size > b.len() {
                Scan { pos, records: more, keywords }
            } else {
                scanned(
                    b,
                    pos + 24 + size,
                    end,
                    depth,
                    masters,
                    more,
                    with_keywords(
                        keywords,
                        b.subrange(pos + 24, pos + 24 + size),
                        u32_at(b, pos + 8),
                        masters,
                    ),
                )
            }
        } else {
            scanned(b, pos + 24 + size, end, depth, masters, more, keywords)
        }
    }
}

/// Adds the records between `pos` and `end`, which may lie past the end of the bytes,
/// and tells where the walk stopped.
fn scan_records(
    bytes: &[u8],
    pos: u128,
    end: u128,
    depth: u8,
    records: &mut Vec<(String, u32)>,
    masters: &Vec<String>,
    keywords: &mut Vec<(String, u32)>,
) -> (stop: u128)
    requires
        end <= usize::MAX + u32::MAX,
    ensures
        ({
            let s = scanned(
                bytes@,
                pos as int,
                end as int,
                depth as int,
                masters.deep_view(),
                old(records).deep_view(),
                old(keywords).deep_view(),
            );
            &&& stop == s.pos
            &&& final(records).deep_view() == s.records
            &&& final(keywords).deep_view() == s.keywords
        }),
        stop == pos || stop <= end,
    decreases 65 - depth,
{
    if depth > 64 {
        return pos;
    }
    let ghost ms = masters.deep_view();
    let ghost goal = scanned(
        bytes@,
        pos as int,
        end as int,
        depth as int,
        ms,
        records.deep_view(),
        keywords.deep_view(),
    );
    let ghost from = pos;
    let mut pos: u128 = pos;
    while bytes.len() >= 24 && pos <= (bytes.len() - 24) as u128 && pos <= end && end - pos >= 24
        invariant_except_break
            scanned(
                bytes@,
                pos as int,
                end as int,
                depth as int,
                ms,
                records.deep_view(),
                keywords.deep_view(),
            ) == goal,
        invariant
            depth <= 64,
            end <= usize::MAX + u32::MAX,
            ms == masters.deep_view(),
            pos == from || pos <= end,
        ensures
            pos == goal.pos,
            records.deep_view() == goal.records,
            keywords.deep_view() == goal.keywords,
        decreases end - pos,
    {
        let start: usize = pos as usize;
        let size: u128 = u32le(bytes, start + 4) as u128;
        if tag_is(bytes, start, 'G', 'R', 'U', 'P') {
            if size < 24 || size > end - pos {
                break;
            }
            let _ = scan_records(
                bytes,
                pos + 24,
                pos + size,
                depth + 1,
                records,
                masters,
                keywords,
            );
            pos = pos + size;
        } else {
            if size > end - pos - 24 {
                break;
            }
            let sig = bytes_between(bytes, start, start + 4);
            assert(sig@ =~= tag(bytes@, start as int));
            bump(records, utf8_lossy(sig.as_slice()));
            if semantic_keyword_record(bytes, start) {
                if size > (bytes.len() - start - 24) as u128 {
                    break;
                }
                let data = bytes_between(bytes, start + 24, start + 24 + size as usize);
                let flags = u32le(bytes, start + 8);
                record_keyword_ids(data.as_slice(), flags, masters, keywords);
            }
            pos = pos + 24 + size;
        }
    }
    pos
}

/// Adds the records between `pos` and `end`.
pub fn scan_bytes_records(
    bytes: &[u8],
    pos: &mut usize,
    end: usize,
    depth: u8,
    records: &mut Vec<(String, u32)>,
    masters: &Vec<String>,
    keywords: &mut Vec<(String, u32)>,
)
    requires
        end <= bytes@.len(),
    ensures
        ({
            let s = scanned(
                bytes@,
                *old(pos) as int,
                end as int,
                depth as int,
                masters.deep_view(),
                old(records).deep_view(),
                old(keywords).deep_view(),
            );
            &&& *final(pos) == s.pos
            &&& final(records).deep_view() == s.records
            &&& final(keywords).deep_view() == s.keywords
        }),
{
    let stop = scan_records(bytes, *pos as u128, end as u128, depth, records, masters, keywords);
    *pos = stop as usize;
}

// ---- whole plugins ----

/// The bytes before the first zero.
pub open spec fn before_zero(b: Seq<u8>, i: int) -> int
    decreases b.len() - i,
{
    if 0 <= i < b.len() && b[i] != 0 {
        before_zero(b, i + 1)
    } else {
        i
    }
}

pub open spec fn master_name(raw: Seq<u8>) -> Seq<char> {
    lowercase(lossy(raw.take(before_zero(raw, 0))))
}

#[verifier::ext_equal]
pub struct Header {
    pub masters: Seq<Seq<char>>,
    pub record_count: u32,
}

/// What the header's subrecords from `off` on say.
pub open spec fn header_from(data: Seq<u8>, off: int, h: Header) -> Header
    decreases data.len() - off,
{
    if off < 0 || off + 6 > data.len() {
        h
    } else {
        let size = u16_at(data, off + 4);
        let body = off + 6;
        let end = body + size;
        if end > data.len() {
            h
        } else if tag(data, off) == tag_of('M', 'A', 'S', 'T') {
            header_from(
                data,
                end,
                Header { masters: h.masters.push(master_name(data.subrange(body, end))), ..h },
            )
        } else if tag(data, off) == tag_of('H', 'E', 'D', 'R') && size >= 8 {
            header_from(data, end, Header { record_count: u32_at(data, body + 4), ..h })
        } else {
            header_from(data, end, h)
        }
    }
}

pub open spec fn header_of(data: Seq<u8>) -> Header {
    header_from(data, 0, Header { masters: Seq::empty(), record_count: 0 })
}

#[verifier::ext_equal]
pub struct Census {
    pub groups: Counts,
    pub records: Counts,
    pub keywords: Counts,
}

/// What the top level from `pos` on adds. Where `whole` is set, a group that does not
/// fit in the bytes ends the walk.
pub open spec fn census_from(
    b: Seq<u8>,
    pos: int,
    whole: bool,
    masters: Seq<Seq<char>>,
    c: Census,
) -> Census
    decreases b.len() + 0x1_0000_0000 - pos,
{
    let size = u32_at(b, pos + 4) as int;
    if pos < 0 || pos + 24 > b.len() || size < 24 || (whole && pos + size > b.len()) {
        c
    } else if tag(b, pos) == tag_of('G', 'R', 'U', 'P') {
        let s = scanned(b, pos + 24, pos + size, 1, masters, c.records, c.keywords);
        census_from(
            b,
            pos + size,
            whole,
            masters,
            Census {
                groups: bumped(c.groups, lossy(tag(b, pos + 8))),
                records: s.records,
                keywords: s.keywords,
            },
        )
    } else {
        census_from(b, pos + size, whole, masters, c)
    }
}

pub open spec fn no_census() -> Census {
    Census { groups: Seq::empty(), records: Seq::empty(), keywords: Seq::empty() }
}

/// What a plugin says whose header data ends at `data_end`.
pub open spec fn plugin_from(b: Seq<u8>, name: Seq<char>, data_end: int, whole: bool) -> PluginView {
    let h = header_of(b.subrange(24, data_end));
    let c = census_from(b, data_end, whole, h.masters, no_census());
    let flags = u32_at(b, 8);
    PluginView {
        plugin: name,
        masters: h.masters,
        is_esm: flags & 0x1u32 != 0,
        is_esl: flags & 0x200u32 != 0,
        record_count: h.record_count,
        groups: c.groups,
        records: c.records,
        keywords: c.keywords,
    }
}

/// What bytes held in memory say: header data past the end is cut off.
pub open spec fn plugin_of_bytes(b: Seq<u8>, name: Seq<char>) -> Option<PluginView> {
    if b.len() < 24 || tag(b, 0) != tag_of('T', 'E', 'S', '4') {
        None
    } else {
        let end = 24 + u32_at(b, 4);
        Some(
            plugin_from(
                b,
                name,
                if end < b.len() {
                    end
                } else {
                    b.len() as int
                },
                true,
            ),
        )
    }
}

/// What a file with these bytes says: its header data must be whole, and a last group
/// that is cut off still counts.
pub open spec fn plugin_of_file(b: Seq<u8>, name: Seq<char>) -> Option<PluginView> {
    if b.len() < 24 || tag(b, 0) != tag_of('T', 'E', 'S', '4') || 24 + u32_at(b, 4) > b.len() {
        None
    } else {
        Some(plugin_from(b, lowercase(name), 24 + u32_at(b, 4), false))
    }
}

fn name_before_zero(raw: &Vec<u8>) -> (r: String)
    ensures
        r@ == master_name(raw@),
{
    let mut i: usize = 0;
    while i < raw.len() && raw[i] != 0
        invariant
            i <= raw.len(),
            before_zero(raw@, i as int) == before_zero(raw@, 0),
        decreases raw.len() - i,
    {
        i = i + 1;
    }
    let cut = bytes_between(raw.as_slice(), 0, i);
    assert(cut@ =~= raw@.take(i as int));
    let name = utf8_lossy(cut.as_slice());
    name.as_str().to_lowercase()
}

fn read_header(data: &Vec<u8>) -> (r: (Vec<String>, u32))
    ensures
        r.0.deep_view() == header_of(data@).masters,
        r.1 == header_of(data@).record_count,
{
    let mut masters: Vec<String> = list::none();
    let mut record_count: u32 = 0;
    let ghost goal = header_of(data@);
    let b = data.as_slice();
    let mut off: usize = 0;
    while b.len() - off >= 6
        invariant_except_break
            header_from(
                data@,
                off as int,
                Header { masters: masters.deep_view(), record_count },
            ) == goal,
        invariant
            off <= b@.len(),
            b@ == data@,
        ensures
            masters.deep_view() == goal.masters,
            record_count == goal.record_count,
        decreases b@.len() - off,
    {
        let size = u16le(b, off + 4);
        let body: usize = off + 6;
        if size > b.len() - body {
            break;
        }
        if tag_is(b, off, 'M', 'A', 'S', 'T') {
            let raw = bytes_between(b, body, body + size);
            list::put(&mut masters, name_before_zero(&raw));
        } else if tag_is(b, off, 'H', 'E', 'D', 'R') && size >= 8 {
            record_count = u32le(b, body + 4);
        }
        off = body + size;
    }
    (masters, record_count)
}

fn read_plugin(bytes: &[u8], name: String, data_end: usize, whole: bool) -> (r: PluginInfo)
    requires
        24 <= data_end <= bytes@.len(),
    ensures
        r.deep_view() == plugin_from(bytes@, name@, data_end as int, whole),
{
    let flags = u32le(bytes, 8);
    let data = bytes_between(bytes, 24, data_end);
    let (masters, record_count) = read_header(&data);
    let ghost ms = masters.deep_view();
    let ghost goal = census_from(bytes@, data_end as int, whole, ms, no_census());
    let mut groups: Vec<(String, u32)> = list::none();
    let mut records: Vec<(String, u32)> = list::none();
    let mut keywords: Vec<(String, u32)> = list::none();
    let mut pos: u128 = data_end as u128;
    while bytes.len() >= 24 && pos <= (bytes.len() - 24) as u128
        invariant_except_break
            census_from(
                bytes@,
                pos as int,
                whole,
                ms,
                Census {
                    groups: groups.deep_view(),
                    records: records.deep_view(),
                    keywords: keywords.deep_view(),
                },
            ) == goal,
        invariant
            24 <= pos,
            ms == masters.deep_view(),
        ensures
            groups.deep_view() == goal.groups,
            records.deep_view() == goal.records,
            keywords.deep_view() == goal.keywords,
        decreases bytes@.len() + 0x1_0000_0000 - pos,
    {
        let start: usize = pos as usize;
        let size: u128 = u32le(bytes, start + 4) as u128;
        if size < 24 || (whole && size > (bytes.len() - start) as u128) {
            break;
        }
        if tag_is(bytes, start, 'G', 'R', 'U', 'P') {
            let label = bytes_between(bytes, start + 8, start + 12);
            assert(label@ =~= tag(bytes@, start + 8));
            bump(&mut groups, utf8_lossy(label.as_slice()));
            let _ = scan_records(
                bytes,
                pos + 24,
                pos + size,
                1,
                &mut records,
                &masters,
                &mut keywords,
            );
        }
        pos = pos + size;
    }
    PluginInfo {
        plugin: name,
        masters,
        is_esm: flags & 0x1u32 != 0,
        is_esl: flags & 0x200u32 != 0,
        record_count,
        groups,
        records,
        keywords,
    }
}

/// Reads a plugin that is held in memory; anything that does not start as a plugin
/// gives nothing.
pub fn parse_plugin_bytes(bytes: &[u8], file_name: &str) -> (r: Option<PluginInfo>)
    ensures
        r.deep_view() == plugin_of_bytes(bytes@, file_name@),
{
    if bytes.len() < 24 || !tag_is(bytes, 0, 'T', 'E', 'S', '4') {
        return None;
    }
    let size: usize = u32le(bytes, 4) as usize;
    let data_end: usize = if size < bytes.len() - 24 {
        24 + size
    } else {
        bytes.len()
    };
    Some(read_plugin(bytes, file_name.to_string(), data_end, true))
}

/// Reads the plugin that a file of that name and content is.
pub fn parse_plugin(bytes: &[u8], file_name: &str) -> (r: Option<PluginInfo>)
    ensures
        r.deep_view() == plugin_of_file(bytes@, file_name@),
{
    if bytes.len() < 24 || !tag_is(bytes, 0, 'T', 'E', 'S', '4') {
        return None;
    }
    let size: usize = u32le(bytes, 4) as usize;
    if size > bytes.len() - 24 {
        return None;
    }
    Some(read_plugin(bytes, file_name.to_lowercase(), 24 + size, false))
}

// ---- census ----

/// The plugins of the enabled mods: mod name, section, plugin.
pub type CensusView = Seq<(Seq<char>, Seq<char>, PluginView)>;

/// The first `n` counts as `name:count`.
pub open spec fn count_texts(counts: Counts, n: int) -> Seq<Seq<char>>
    decreases n,
{
    if n <= 0 {
        Seq::empty()
    } else {
        count_texts(counts, n - 1).push(
            counts[n - 1].0 + ":"@ + decimal(counts[n - 1].1 as nat),
        )
    }
}

pub open spec fn counts_joined(counts: Counts, sep: Seq<char>) -> Seq<char> {
    joined(count_texts(counts, counts.len() as int), sep)
}

fn join_counts(counts: &Vec<(String, u32)>, sep: &str) -> (r: String)
    ensures
        r@ == counts_joined(counts.deep_view(), sep@),
{
    let mut parts: Vec<String> = list::none();
    let mut i: usize = 0;
    while i < counts.len()
        invariant
            i <= counts.len(),
            parts.deep_view() == count_texts(counts.deep_view(), i as int),
        decreases counts.len() - i,
    {
        assert(counts.deep_view()[i as int] == counts@[i as int].deep_view());
        let n = text::dec(counts[i].1 as u128);
        list::put(&mut parts, text::cat3(counts[i].0.as_str(), ":", n.as_str()));
        i = i + 1;
    }
    text::join(&parts, sep)
}

impl PluginInfo {
    /// The census on one line: records, or groups where there are none.
    pub fn census_line(&self) -> (r: String)
        ensures
            r@ == counts_joined(
                if self.deep_view().records.len() == 0 {
                    self.deep_view().groups
                } else {
                    self.deep_view().records
                },
                " "@,
            ),
    {
        assert(self.records.deep_view().len() == self.records.len());
        if self.records.len() == 0 {
            join_counts(&self.groups, " ")
        } else {
            join_counts(&self.records, " ")
        }
    }
}

pub open spec fn fnv_step(h: u64, b: u64) -> u64 {
    ((((h ^ b) as int) * 0x100000001b3) % 0x1_0000_0000_0000_0000) as u64
}

/// The hash once the first `n` bytes are mixed in.
pub open spec fn fnv_bytes(h: u64, bytes: Seq<u8>, n: int) -> u64
    decreases n,
{
    if n <= 0 {
        h
    } else {
        fnv_step(fnv_bytes(h, bytes, n - 1), bytes[n - 1] as u64)
    }
}

/// The hash of the first `n` names, each ended by a mark that no UTF-8 text holds.
pub open spec fn fnv_names(names: Seq<Seq<char>>, n: int) -> u64
    decreases n,
{
    if n <= 0 {
        0xcbf29ce484222325
    } else {
        let b = vstd::utf8::encode_utf8(names[n - 1]);
        fnv_step(fnv_bytes(fnv_names(names, n - 1), b, b.len() as int), 0xff)
    }
}

pub open spec fn fingerprint(enabled: Seq<(Seq<char>, Seq<char>)>) -> u64 {
    fnv_names(sorted::<String>(firsts(enabled)), enabled.len() as int)
}

pub(crate) fn mix(h: u64, b: u64) -> (r: u64)
    ensures
        r == fnv_step(h, b),
{
    let x: u64 = h ^ b;
    x.wrapping_mul(0x100000001b3)
}

/// A hash of the names of the enabled mods, whatever their order.
pub fn census_fingerprint(enabled: &Vec<(String, String)>) -> (r: u64)
    ensures
        r == fingerprint(enabled.deep_view()),
{
    let mut names: Vec<String> = list::none();
    let mut i: usize = 0;
    while i < enabled.len()
        invariant
            i <= enabled.len(),
            names.deep_view() == firsts(enabled.deep_view().take(i as int)),
        decreases enabled.len() - i,
    {
        list::put(&mut names, enabled[i].0.clone());
        i = i + 1;
        assert(names.deep_view() =~= firsts(enabled.deep_view().take(i as int)));
    }
    assert(enabled.deep_view().take(i as int) =~= enabled.deep_view());
    let names = sort::sort(names);
    proof {
        sort::sorting_orders_and_keeps::<String>(firsts(enabled.deep_view()));
    }
    assert(names.deep_view().len() == names.len());
    let mut h: u64 = 0xcbf29ce484222325;
    let mut k: usize = 0;
    while k < names.len()
        invariant
            k <= names.len(),
            h == fnv_names(names.deep_view(), k as int),
        decreases names.len() - k,
    {
        assert(names.deep_view()[k as int] == names@[k as int]@);
        let bytes = names[k].as_str().as_bytes();
        let ghost start = h;
        let mut j: usize = 0;
        while j < bytes.len()
            invariant
                j <= bytes@.len(),
                h == fnv_bytes(start, bytes@, j as int),
            decreases bytes@.len() - j,
        {
            h = mix(h, bytes[j] as u64);
            j = j + 1;
        }
        h = mix(h, 0xff);
        k = k + 1;
    }
    h
}

/// The fields of a census line: mod, plugin, flags, count, masters, groups, records,
/// keywords, with tabs between them.
pub open spec fn census_fields(name: Seq<char>, p: PluginView) -> Seq<Seq<char>> {
    seq![
        name,
        p.plugin,
        (if p.is_esm {
            "e"@
        } else {
            ""@
        }) + (if p.is_esl {
            "l"@
        } else {
            ""@
        }),
        decimal(p.record_count as nat),
        joined(p.masters, ","@),
        counts_joined(p.groups, ","@),
        counts_joined(p.records, ","@),
        counts_joined(p.keywords, ","@),
    ]
}

pub open spec fn census_row(name: Seq<char>, p: PluginView) -> Seq<char> {
    joined(census_fields(name, p), "\t"@)
}

pub open spec fn census_head(fp: u64) -> Seq<char> {
    "#modslut-census-v3 "@ + text::hex_fixed(fp as nat, 16)
}

pub open spec fn census_rows(census: CensusView, n: int) -> Seq<Seq<char>>
    decreases n,
{
    if n <= 0 {
        Seq::empty()
    } else {
        census_rows(census, n - 1).push(census_row(census[n - 1].0, census[n - 1].2))
    }
}

pub open spec fn census_text(fp: u64, census: CensusView) -> Seq<char> {
    ended(seq![census_head(fp)] + census_rows(census, census.len() as int))
}

fn row_text(name: &str, info: &PluginInfo) -> (r: String)
    ensures
        r@ == census_row(name@, info.deep_view()),
{
    let mut f: Vec<String> = list::none();
    list::put(&mut f, name.to_string());
    list::put(&mut f, info.plugin.clone());
    list::put(
        &mut f,
        text::cat(
            if info.is_esm {
                "e"
            } else {
                ""
            },
            if info.is_esl {
                "l"
            } else {
                ""
            },
        ),
    );
    list::put(&mut f, text::dec(info.record_count as u128));
    list::put(&mut f, text::join(&info.masters, ","));
    list::put(&mut f, join_counts(&info.groups, ","));
    list::put(&mut f, join_counts(&info.records, ","));
    list::put(&mut f, join_counts(&info.keywords, ","));
    assert(f.deep_view() =~= census_fields(name@, info.deep_view()));
    text::join(&f, "\t")
}

/// The text of a census cache.
pub fn save_census(fp: u64, census: &Vec<(String, String, PluginInfo)>) -> (r: String)
    ensures
        r@ == census_text(fp, census.deep_view()),
{
    let mut lines: Vec<String> = list::none();
    let h = text::hex(fp as u128, 16);
    list::put(&mut lines, text::cat("#modslut-census-v3 ", h.as_str()));
    let ghost top = lines.deep_view();
    let mut i: usize = 0;
    assert(top + census_rows(census.deep_view(), 0) =~= top);
    while i < census.len()
        invariant
            i <= census.len(),
            lines.deep_view() == top + census_rows(census.deep_view(), i as int),
        decreases census.len() - i,
    {
        assert(census.deep_view()[i as int] == census@[i as int].deep_view());
        list::put(&mut lines, row_text(census[i].0.as_str(), &census[i].2));
        i = i + 1;
        assert(lines.deep_view() =~= top + census_rows(census.deep_view(), i as int));
    }
    assert(lines.deep_view() =~= seq![census_head(fp)] + census_rows(
        census.deep_view(),
        census.len() as int,
    ));
    text::end_lines(&lines)
}

pub open spec fn number_or_zero(s: Seq<char>) -> u32 {
    match number(s, u32::MAX as nat) {
        Some(v) => v as u32,
        None => 0,
    }
}

/// The counts in the first `n` pieces; a piece without a colon is left out.
pub open spec fn counts_in(pieces: Seq<Seq<char>>, n: int) -> Counts
    decreases n,
{
    if n <= 0 {
        Seq::empty()
    } else {
        match split_last(pieces[n - 1], ":"@) {
            Some((g, c)) => counts_in(pieces, n - 1).push((g, number_or_zero(c))),
            None => counts_in(pieces, n - 1),
        }
    }
}

pub open spec fn counts_from(s: Seq<char>) -> Counts {
    if s.len() == 0 {
        Seq::empty()
    } else {
        counts_in(split_on(s, ","@), split_on(s, ","@).len() as int)
    }
}

pub open spec fn names_from(s: Seq<char>) -> Seq<Seq<char>> {
    if s.len() == 0 {
        Seq::empty()
    } else {
        split_on(s, ","@)
    }
}

/// What a census line holds, if it has its eight fields.
pub open spec fn row_from(line: Seq<char>) -> Option<(Seq<char>, PluginView)> {
    let f = split_on(line, "\t"@);
    if f.len() != 8 {
        None
    } else {
        Some(
            (
                f[0],
                PluginView {
                    plugin: f[1],
                    masters: names_from(f[4]),
                    is_esm: contains_text(f[2], "e"@),
                    is_esl: contains_text(f[2], "l"@),
                    record_count: number_or_zero(f[3]),
                    groups: counts_from(f[5]),
                    records: counts_from(f[6]),
                    keywords: counts_from(f[7]),
                },
            ),
        )
    }
}

/// The rows of the lines up to index `n`, the first line left out; one line that is
/// no row spoils them all.
pub open spec fn rows_from(lines: Seq<Seq<char>>, n: int) -> Option<Seq<(Seq<char>, PluginView)>>
    decreases n,
{
    if n <= 1 {
        Some(Seq::empty())
    } else {
        match (rows_from(lines, n - 1), row_from(lines[n - 1])) {
            (Some(rows), Some(r)) => Some(rows.push(r)),
            _ => None,
        }
    }
}

/// The rows of a cache that was written for the fingerprint `fp`.
pub open spec fn census_from_text(text: Seq<char>, fp: u64) -> Option<
    Seq<(Seq<char>, PluginView)>,
> {
    let lines = lines_of(text);
    if lines.len() == 0 {
        None
    } else {
        match after_prefix(lines[0], "#modslut-census-v3 "@) {
            Some(stored) => if stored == text::hex_fixed(fp as nat, 16) {
                rows_from(lines, lines.len() as int)
            } else {
                None
            },
            None => None,
        }
    }
}

fn number_of(s: &str) -> (r: u32)
    ensures
        r == number_or_zero(s@),
{
    match text::parse_number(s, 0xffff_ffff) {
        Some(n) => n as u32,
        None => 0,
    }
}

fn read_counts(s: &str) -> (r: Vec<(String, u32)>)
    ensures
        r.deep_view() == counts_from(s@),
{
    let mut out: Vec<(String, u32)> = list::none();
    if s.is_empty() {
        return out;
    }
    let pieces = text::split(s, ",");
    let mut i: usize = 0;
    while i < pieces.len()
        invariant
            i <= pieces.len(),
            out.deep_view() == counts_in(pieces.deep_view(), i as int),
        decreases pieces.len() - i,
    {
        assert(pieces.deep_view()[i as int] == pieces@[i as int]@);
        if let Some((g, c)) = text::rsplit_once(pieces[i].as_str(), ":") {
            let n = number_of(c.as_str());
            list::put(&mut out, (g, n));
        }
        i = i + 1;
    }
    out
}

fn read_row(line: &str) -> (r: Option<(String, PluginInfo)>)
    ensures
        r.deep_view() == row_from(line@),
{
    let f = text::split(line, "\t");
    assert(f.deep_view().len() == f.len());
    if f.len() != 8 {
        return None;
    }
    assert forall|i: int| 0 <= i < 8 implies #[trigger] f.deep_view()[i] == f@[i]@ by {}
    let masters = if f[4].as_str().is_empty() {
        list::none()
    } else {
        text::split(f[4].as_str(), ",")
    };
    Some(
        (
            f[0].clone(),
            PluginInfo {
                plugin: f[1].clone(),
                masters,
                is_esm: text::contains(f[2].as_str(), "e"),
                is_esl: text::contains(f[2].as_str(), "l"),
                record_count: number_of(f[3].as_str()),
                groups: read_counts(f[5].as_str()),
                records: read_counts(f[6].as_str()),
                keywords: read_counts(f[7].as_str()),
            },
        ),
    )
}

/// The rows of a census cache, if it was written for this fingerprint and is sound.
pub fn load_census(text: &str, fp: u64) -> (r: Option<Vec<(String, PluginInfo)>>)
    ensures
        r.deep_view() == census_from_text(text@, fp),
{
    let lines = text::lines(text);
    assert(lines.deep_view().len() == lines.len());
    if lines.len() == 0 {
        return None;
    }
    assert(lines.deep_view()[0] == lines@[0]@);
    let stored = match text::strip_prefix(lines[0].as_str(), "#modslut-census-v3 ") {
        Some(s) => s,
        None => {
            return None;
        },
    };
    let wanted = text::hex(fp as u128, 16);
    if !(stored == wanted) {
        return None;
    }
    let ghost all = lines.deep_view();
    let mut out: Vec<(String, PluginInfo)> = list::none();
    let mut i: usize = 1;
    while i < lines.len()
        invariant
            1 <= i <= lines.len(),
            all == lines.deep_view(),
            rows_from(all, i as int) == Some(out.deep_view()),
            census_from_text(text@, fp) == rows_from(all, all.len() as int),
        decreases lines.len() - i,
    {
        assert(all[i as int] == lines@[i as int]@);
        match read_row(lines[i].as_str()) {
            Some(row) => list::put(&mut out, row),
            None => {
                proof {
                    lemma_bad_row(all, i + 1, all.len() as int);
                }
                return None;
            },
        }
        i = i + 1;
    }
    Some(out)
}

proof fn lemma_bad_row(lines: Seq<Seq<char>>, n: int, m: int)
    requires
        n <= m,
        rows_from(lines, n) is None,
    ensures
        rows_from(lines, m) is None,
    decreases m,
{
    if n < m {
        lemma_bad_row(lines, n, m - 1);
    }
}

// ---- master order ----

/// A plugin that loads before something it requires.
pub struct MasterViolation {
    pub mod_name: String,
    pub plugin: String,
    pub master: String,
    pub section: String,
}

#[verifier::ext_equal]
pub struct ViolationView {
    pub mod_name: Seq<char>,
    pub plugin: Seq<char>,
    pub master: Seq<char>,
    pub section: Seq<char>,
}

impl DeepView for MasterViolation {
    type V = ViolationView;

    open spec fn deep_view(&self) -> ViolationView {
        ViolationView {
            mod_name: self.mod_name@,
            plugin: self.plugin@,
            master: self.master@,
            section: self.section@,
        }
    }
}

/// The first place from `i` on at which `x` stands.
pub open spec fn place_from(order: Seq<Seq<char>>, x: Seq<char>, i: int) -> Option<int>
    decreases order.len() - i,
{
    if i < 0 || i >= order.len() {
        None
    } else if order[i] == x {
        Some(i)
    } else {
        place_from(order, x, i + 1)
    }
}

/// The first master from `i` on that stands behind the place `at` in the order.
pub open spec fn late_master(
    masters: Seq<Seq<char>>,
    order: Seq<Seq<char>>,
    at: int,
    i: int,
) -> Option<int>
    decreases masters.len() - i,
{
    if i < 0 || i >= masters.len() {
        None
    } else {
        match place_from(order, masters[i], 0) {
            Some(m) => if m > at {
                Some(i)
            } else {
                late_master(masters, order, at, i + 1)
            },
            None => late_master(masters, order, at, i + 1),
        }
    }
}

/// The violation of a plugin with these masters, if it loads before one of them. Masters
/// and plugins that the order does not hold are no matter of order.
pub open spec fn violation(
    name: Seq<char>,
    section: Seq<char>,
    plugin: Seq<char>,
    masters: Seq<Seq<char>>,
    order: Seq<Seq<char>>,
) -> Option<ViolationView> {
    match place_from(order, plugin, 0) {
        Some(at) => match late_master(masters, order, at, 0) {
            Some(k) => Some(ViolationView { mod_name: name, plugin, master: masters[k], section }),
            None => None,
        },
        None => None,
    }
}

/// The violations among the first `n` plugins, one for each plugin at most.
pub open spec fn violations_first(census: CensusView, order: Seq<Seq<char>>, n: int) -> Seq<
    ViolationView,
>
    decreases n,
{
    if n <= 0 {
        Seq::empty()
    } else {
        let before = violations_first(census, order, n - 1);
        let (name, section, p) = census[n - 1];
        match violation(name, section, p.plugin, p.masters, order) {
            Some(v) => before.push(v),
            None => before,
        }
    }
}

/// The first `n` masters without those of the base game and the creation club, which
/// the organizer keeps in their place.
pub open spec fn loose_masters(masters: Seq<Seq<char>>, base: Seq<Seq<char>>, n: int) -> Seq<
    Seq<char>,
>
    decreases n,
{
    if n <= 0 {
        Seq::empty()
    } else {
        let before = loose_masters(masters, base, n - 1);
        if is_base(base, masters[n - 1]) {
            before
        } else {
            before.push(masters[n - 1])
        }
    }
}

/// The violations among the first `n` plugins where only loose masters count.
pub open spec fn loose_violations_first(
    census: CensusView,
    base: Seq<Seq<char>>,
    order: Seq<Seq<char>>,
    n: int,
) -> Seq<ViolationView>
    decreases n,
{
    if n <= 0 {
        Seq::empty()
    } else {
        let before = loose_violations_first(census, base, order, n - 1);
        let (name, section, p) = census[n - 1];
        match violation(
            name,
            section,
            p.plugin,
            loose_masters(p.masters, base, p.masters.len() as int),
            order,
        ) {
            Some(v) => before.push(v),
            None => before,
        }
    }
}

pub fn place_of(order: &Vec<String>, x: &str) -> (r: Option<usize>)
    ensures
        match r {
            Some(i) => place_from(order.deep_view(), x@, 0) == Some(i as int) && i < order.len(),
            None => place_from(order.deep_view(), x@, 0) is None,
        },
{
    let key = x.to_string();
    let mut i: usize = 0;
    while i < order.len()
        invariant
            i <= order.len(),
            key@ == x@,
            place_from(order.deep_view(), x@, i as int) == place_from(order.deep_view(), x@, 0),
        decreases order.len() - i,
    {
        assert(order.deep_view()[i as int] == order@[i as int]@);
        if order[i] == key {
            return Some(i);
        }
        i = i + 1;
    }
    None
}

fn first_late(masters: &Vec<String>, order: &Vec<String>, at: usize) -> (r: Option<usize>)
    ensures
        match r {
            Some(k) => late_master(masters.deep_view(), order.deep_view(), at as int, 0) == Some(
                k as int,
            ) && k < masters.len(),
            None => late_master(masters.deep_view(), order.deep_view(), at as int, 0) is None,
        },
{
    let ghost ms = masters.deep_view();
    let ghost ord = order.deep_view();
    let mut i: usize = 0;
    while i < masters.len()
        invariant
            i <= masters.len(),
            ms == masters.deep_view(),
            ord == order.deep_view(),
            late_master(ms, ord, at as int, i as int) == late_master(ms, ord, at as int, 0),
        decreases masters.len() - i,
    {
        assert(ms[i as int] == masters@[i as int]@);
        if let Some(m) = place_of(order, masters[i].as_str()) {
            if m > at {
                return Some(i);
            }
        }
        i = i + 1;
    }
    None
}

fn find_violation(
    mod_name: &str,
    section: &str,
    plugin: &str,
    masters: &Vec<String>,
    order: &Vec<String>,
) -> (r: Option<MasterViolation>)
    ensures
        r.deep_view() == violation(
            mod_name@,
            section@,
            plugin@,
            masters.deep_view(),
            order.deep_view(),
        ),
{
    if let Some(at) = place_of(order, plugin) {
        if let Some(k) = first_late(masters, order, at) {
            assert(masters.deep_view()[k as int] == masters@[k as int]@);
            return Some(
                MasterViolation {
                    mod_name: mod_name.to_string(),
                    plugin: plugin.to_string(),
                    master: masters[k].clone(),
                    section: section.to_string(),
                },
            );
        }
    }
    None
}

/// The plugins that load before a master of theirs.
pub fn violations_from_census(
    census: &Vec<(String, String, PluginInfo)>,
    load_order: &Vec<String>,
) -> (r: Vec<MasterViolation>)
    ensures
        r.deep_view() == violations_first(
            census.deep_view(),
            load_order.deep_view(),
            census.len() as int,
        ),
{
    let mut out: Vec<MasterViolation> = list::none();
    let mut i: usize = 0;
    while i < census.len()
        invariant
            i <= census.len(),
            out.deep_view() == violations_first(
                census.deep_view(),
                load_order.deep_view(),
                i as int,
            ),
        decreases census.len() - i,
    {
        let row = &census[i];
        assert(census.deep_view()[i as int] == row.deep_view());
        if let Some(v) = find_violation(
            row.0.as_str(),
            row.1.as_str(),
            row.2.plugin.as_str(),
            &row.2.masters,
            load_order,
        ) {
            list::put(&mut out, v);
        }
        i = i + 1;
    }
    out
}

fn without_base(masters: &Vec<String>, base: &[&str]) -> (r: Vec<String>)
    ensures
        r.deep_view() == loose_masters(
            masters.deep_view(),
            base.deep_view(),
            masters.len() as int,
        ),
{
    let mut out: Vec<String> = list::none();
    let mut i: usize = 0;
    while i < masters.len()
        invariant
            i <= masters.len(),
            out.deep_view() == loose_masters(masters.deep_view(), base.deep_view(), i as int),
        decreases masters.len() - i,
    {
        assert(masters.deep_view()[i as int] == masters@[i as int]@);
        if !masters::base_master(base, masters[i].as_str()) {
            list::put(&mut out, masters[i].clone());
        }
        i = i + 1;
    }
    out
}

fn loose_violations(
    census: &Vec<(String, String, PluginInfo)>,
    base: &[&str],
    order: &Vec<String>,
) -> (r: Vec<MasterViolation>)
    ensures
        r.deep_view() == loose_violations_first(
            census.deep_view(),
            base.deep_view(),
            order.deep_view(),
            census.len() as int,
        ),
{
    let mut out: Vec<MasterViolation> = list::none();
    let mut i: usize = 0;
    while i < census.len()
        invariant
            i <= census.len(),
            out.deep_view() == loose_violations_first(
                census.deep_view(),
                base.deep_view(),
                order.deep_view(),
                i as int,
            ),
        decreases census.len() - i,
    {
        let row = &census[i];
        assert(census.deep_view()[i as int] == row.deep_view());
        let loose = without_base(&row.2.masters, base);
        assert(row.2.masters.deep_view().len() == row.2.masters.len());
        if let Some(v) = find_violation(
            row.0.as_str(),
            row.1.as_str(),
            row.2.plugin.as_str(),
            &loose,
            order,
        ) {
            list::put(&mut out, v);
        }
        i = i + 1;
    }
    out
}

/// The plugin does not load before the master, as far as the order holds both.
pub open spec fn loads_behind(order: Seq<Seq<char>>, plugin: Seq<char>, master: Seq<char>) -> bool {
    match (place_from(order, plugin, 0), place_from(order, master, 0)) {
        (Some(at), Some(m)) => m <= at,
        _ => true,
    }
}

/// No plugin of the census loads before a master of its own.
pub open spec fn masters_first(census: CensusView, order: Seq<Seq<char>>) -> bool {
    forall|i: int, j: int|
        0 <= i < census.len() && 0 <= j < census[i].2.masters.len() ==> #[trigger] loads_behind(
            order,
            census[i].2.plugin,
            census[i].2.masters[j],
        )
}

proof fn lemma_late_master(masters: Seq<Seq<char>>, order: Seq<Seq<char>>, at: int, i: int)
    requires
        0 <= i,
    ensures
        match late_master(masters, order, at, i) {
            Some(k) => i <= k < masters.len() && (place_from(order, masters[k], 0) matches Some(m)
                && m > at),
            None => forall|j: int|
                i <= j < masters.len() ==> (place_from(order, #[trigger] masters[j], 0) matches Some(
                    m,
                ) ==> m <= at),
        },
    decreases masters.len() - i,
{
    if i < masters.len() {
        lemma_late_master(masters, order, at, i + 1);
    }
}

proof fn lemma_no_violations(census: CensusView, order: Seq<Seq<char>>, n: int)
    requires
        0 <= n <= census.len(),
    ensures
        violations_first(census, order, n).len() == 0 <==> masters_first(census.take(n), order),
    decreases n,
{
    if n > 0 {
        lemma_no_violations(census, order, n - 1);
        let front = census.take(n - 1);
        let all = census.take(n);
        let p = census[n - 1].2;
        assert(all[n - 1] == census[n - 1]);
        assert forall|i: int| 0 <= i < n - 1 implies front[i] == all[i] by {}
        if let Some(at) = place_from(order, p.plugin, 0) {
            lemma_late_master(p.masters, order, at, 0);
            if let Some(k) = late_master(p.masters, order, at, 0) {
                assert(!loads_behind(order, all[n - 1].2.plugin, all[n - 1].2.masters[k]));
            }
        }
        if violations_first(census, order, n).len() == 0 {
            assert forall|i: int, j: int|
                0 <= i < n && 0 <= j < all[i].2.masters.len() implies #[trigger] loads_behind(
                order,
                all[i].2.plugin,
                all[i].2.masters[j],
            ) by {
                if i < n - 1 {
                    assert(loads_behind(order, front[i].2.plugin, front[i].2.masters[j]));
                } else {
                    assert(p.masters[j] == all[i].2.masters[j]);
                }
            }
        }
        if masters_first(all, order) {
            assert forall|i: int, j: int|
                0 <= i < n - 1 && 0 <= j < front[i].2.masters.len() implies #[trigger] loads_behind(
                order,
                front[i].2.plugin,
                front[i].2.masters[j],
            ) by {
                assert(loads_behind(order, all[i].2.plugin, all[i].2.masters[j]));
            }
        }
    }
}

/// Nothing is reported exactly where every plugin loads behind all of its masters.
pub proof fn silence_means_masters_first(census: CensusView, order: Seq<Seq<char>>)
    ensures
        violations_first(census, order, census.len() as int).len() == 0 <==> masters_first(
            census,
            order,
        ),
{
    lemma_no_violations(census, order, census.len() as int);
    assert(census.take(census.len() as int) =~= census);
}

/// Where the census of a profile is kept.
pub fn census_cache_path(folder: &str) -> (r: String)
    ensures
        r@ == data_path(folder@, "plugin_census.cache"@),
{
    profile::profile_data_path(folder, "plugin_census.cache")
}

// ---- files of mods ----

/// A file name with the extension of a plugin.
pub open spec fn is_plugin_name(name: Seq<char>) -> bool {
    match split_last(name, "."@) {
        Some((stem, ext)) => stem.len() > 0 && (ascii_lowered(ext) == "esp"@ || ascii_lowered(ext)
            == "esm"@ || ascii_lowered(ext) == "esl"@),
        None => false,
    }
}

pub fn plugin_name(name: &str) -> (r: bool)
    ensures
        r == is_plugin_name(name@),
{
    match text::rsplit_once(name, ".") {
        Some((stem, ext)) => {
            let chars = text::chars_of(stem.as_str());
            let ext = text::ascii_lower(ext.as_str());
            let ext = ext.as_str();
            chars.len() > 0 && (text::same(ext, "esp") || text::same(ext, "esm") || text::same(
                ext,
                "esl",
            ))
        },
        None => false,
    }
}

/// The plugins among the first `n` files, each with its name and path.
pub open spec fn plugin_files(files: Seq<(Seq<char>, Seq<char>)>, n: int) -> Seq<
    (Seq<char>, Seq<char>),
>
    decreases n,
{
    if n <= 0 {
        Seq::empty()
    } else {
        let before = plugin_files(files, n - 1);
        if is_plugin_name(files[n - 1].0) {
            before.push(files[n - 1])
        } else {
            before
        }
    }
}

/// The plugins among the files of a mod.
pub fn plugins_in_mod(files: &Vec<(String, String)>) -> (r: Vec<(String, String)>)
    ensures
        r.deep_view() == plugin_files(files.deep_view(), files.len() as int),
{
    let ghost fv = files.deep_view();
    let mut out: Vec<(String, String)> = list::none();
    let mut i: usize = 0;
    while i < files.len()
        invariant
            i <= files.len(),
            fv == files.deep_view(),
            out.deep_view() == plugin_files(fv, i as int),
        decreases files.len() - i,
    {
        assert(fv[i as int] == files@[i as int].deep_view());
        if plugin_name(files[i].0.as_str()) {
            list::put(&mut out, (files[i].0.clone(), files[i].1.clone()));
        }
        i = i + 1;
    }
    out
}

/// The files of one mod: their names and paths.
pub struct ModFiles {
    pub mod_name: String,
    pub section: String,
    pub files: Vec<(String, String)>,
}

#[verifier::ext_equal]
pub struct ModFilesView {
    pub mod_name: Seq<char>,
    pub section: Seq<char>,
    pub files: Seq<(Seq<char>, Seq<char>)>,
}

impl DeepView for ModFiles {
    type V = ModFilesView;

    open spec fn deep_view(&self) -> ModFilesView {
        ModFilesView {
            mod_name: self.mod_name@,
            section: self.section@,
            files: self.files.deep_view(),
        }
    }
}

/// The owner entries for the plugins of a mod.
pub open spec fn owned(m: ModFilesView) -> Seq<OwnerView> {
    let files = plugin_files(m.files, m.files.len() as int);
    Seq::new(
        files.len(),
        |i: int|
            OwnerView {
                mod_name: m.mod_name,
                section: m.section,
                plugin: ascii_lowered(files[i].0),
                path: files[i].1,
            },
    )
}

pub open spec fn owners_first(mods: Seq<ModFilesView>, n: int) -> Seq<OwnerView>
    decreases n,
{
    if n <= 0 {
        Seq::empty()
    } else {
        owners_first(mods, n - 1) + owned(mods[n - 1])
    }
}

/// Which mod owns which plugin, in the order of the mods.
pub fn plugin_owners(mods: &Vec<ModFiles>) -> (r: Vec<PluginOwner>)
    ensures
        r.deep_view() == owners_first(mods.deep_view(), mods.len() as int),
{
    let ghost mv = mods.deep_view();
    let mut out: Vec<PluginOwner> = list::none();
    let mut i: usize = 0;
    while i < mods.len()
        invariant
            i <= mods.len(),
            mv == mods.deep_view(),
            out.deep_view() == owners_first(mv, i as int),
        decreases mods.len() - i,
    {
        let m = &mods[i];
        assert(mv[i as int] == m.deep_view());
        assert(m.files.deep_view().len() == m.files.len());
        let files = plugins_in_mod(&m.files);
        let ghost fv = files.deep_view();
        assert(fv.len() == files.len());
        let ghost before = out.deep_view();
        let ghost all = owned(mv[i as int]);
        let mut k: usize = 0;
        assert(before + all.take(0) =~= before);
        while k < files.len()
            invariant
                k <= files.len() == fv.len(),
                fv == files.deep_view(),
                all == owned(m.deep_view()),
                fv == plugin_files(m.deep_view().files, m.deep_view().files.len() as int),
                out.deep_view() == before + all.take(k as int),
            decreases files.len() - k,
        {
            assert(fv[k as int] == files@[k as int].deep_view());
            list::put(
                &mut out,
                PluginOwner {
                    mod_name: m.mod_name.clone(),
                    section: m.section.clone(),
                    plugin: text::ascii_lower(files[k].0.as_str()),
                    path: files[k].1.clone(),
                },
            );
            k = k + 1;
            assert(out.deep_view() =~= before + all.take(k as int));
        }
        assert(all.take(k as int) =~= all);
        i = i + 1;
    }
    out
}

/// A plugin file of an enabled mod, with its content.
pub struct PluginFile {
    pub mod_name: String,
    pub section: String,
    pub name: String,
    pub bytes: Vec<u8>,
}

#[verifier::ext_equal]
pub struct PluginFileView {
    pub mod_name: Seq<char>,
    pub section: Seq<char>,
    pub name: Seq<char>,
    pub bytes: Seq<u8>,
}

impl DeepView for PluginFile {
    type V = PluginFileView;

    open spec fn deep_view(&self) -> PluginFileView {
        PluginFileView {
            mod_name: self.mod_name@,
            section: self.section@,
            name: self.name@,
            bytes: self.bytes@,
        }
    }
}

/// The census of the first `n` files; one that is no plugin is left out.
pub open spec fn census_first(files: Seq<PluginFileView>, n: int) -> CensusView
    decreases n,
{
    if n <= 0 {
        Seq::empty()
    } else {
        let before = census_first(files, n - 1);
        let f = files[n - 1];
        match plugin_of_file(f.bytes, f.name) {
            Some(p) => before.push((f.mod_name, f.section, p)),
            None => before,
        }
    }
}

/// Reads the plugins of the enabled mods, and finds those that load before a master. The
/// masters of the game that the order shows, and of the creation club, are exempt.
pub fn master_violations(files: &Vec<PluginFile>, load_order: &Vec<String>) -> (r: (
    Vec<MasterViolation>,
    Vec<(String, String, PluginInfo)>,
))
    ensures
        ({
            let census = census_first(files.deep_view(), files.len() as int);
            &&& r.1.deep_view() == census
            &&& r.0.deep_view() == loose_violations_first(
                census,
                info_of(selected(load_order.deep_view(), None)).base_masters,
                load_order.deep_view(),
                census.len() as int,
            )
        }),
{
    let ghost fv = files.deep_view();
    let mut census: Vec<(String, String, PluginInfo)> = list::none();
    let mut i: usize = 0;
    while i < files.len()
        invariant
            i <= files.len(),
            fv == files.deep_view(),
            census.deep_view() == census_first(fv, i as int),
        decreases files.len() - i,
    {
        let f = &files[i];
        assert(fv[i as int] == f.deep_view());
        if let Some(p) = parse_plugin(f.bytes.as_slice(), f.name.as_str()) {
            list::put(&mut census, (f.mod_name.clone(), f.section.clone(), p));
        }
        i = i + 1;
    }
    assert(census.deep_view().len() == census.len());
    let known = game::detect_or_skyrim(load_order.as_slice());
    let violations = loose_violations(&census, known.base_masters, load_order);
    (violations, census)
}

} // verus!
