//! What stands beside a masterlist: its stamp, its source, and the settings of the tool
//! that owns it.
use vstd::prelude::*;
use crate::game::GameInfo;
#[allow(unused_imports)]
use crate::game::GameInfoView;
use crate::keys;
#[allow(unused_imports)]
use crate::keys::with_item;
use crate::list;
use crate::loot;
use crate::loot::LootData;
#[allow(unused_imports)]
use crate::loot::{masterlist_rules, unquoted, RulesView};
use crate::sort;
#[allow(unused_imports)]
use crate::sort::sorted;
use crate::text;
#[allow(unused_imports)]
use crate::text::{after_prefix, ascii_lowered, begins, byte_len, contains_text, decimal, indent_of, is_digit, lines_of, lowercase, set_trimmed, split_first, split_on, trimmed, trimmed_start, without_prefixes, zero_padded};

verus! {

// ---- status ----

/// What is known of a local masterlist.
pub struct MasterlistStatus {
    pub revision: Option<String>,
    pub updated: Option<String>,
    pub source: Option<String>,
}

/// The value that a line gives a key, without quotes.
pub open spec fn quoted(line: Seq<char>, key: Seq<char>) -> Option<Seq<char>> {
    match after_prefix(trimmed(line), key) {
        Some(rest) => {
            let v = trimmed_start(rest);
            let w = match after_prefix(v, "="@) {
                Some(w) => w,
                None => v,
            };
            Some(set_trimmed(trimmed(w), "'\""@))
        },
        None => None,
    }
}

pub fn quoted_value(line: &str, key: &str) -> (r: Option<String>)
    ensures
        r.deep_view() == quoted(line@, key@),
{
    let t = text::trim(line);
    match text::strip_prefix(t.as_str(), key) {
        Some(rest) => {
            let v = text::trim_start(rest.as_str());
            let w = match text::strip_prefix(v.as_str(), "=") {
                Some(w) => w,
                None => v,
            };
            let w = text::trim(w.as_str());
            Some(text::trim_of(w.as_str(), "'\""))
        },
        None => None,
    }
}

/// The first value that a line from `i` on gives a key.
pub open spec fn value_from(lines: Seq<Seq<char>>, key: Seq<char>, i: int) -> Option<Seq<char>>
    decreases lines.len() - i,
{
    if i < 0 || i >= lines.len() {
        None
    } else if quoted(lines[i], key) is Some {
        quoted(lines[i], key)
    } else {
        value_from(lines, key, i + 1)
    }
}

fn find_value(lines: &Vec<String>, key: &str) -> (r: Option<String>)
    ensures
        r.deep_view() == value_from(lines.deep_view(), key@, 0),
{
    let ghost lv = lines.deep_view();
    let mut i: usize = 0;
    while i < lines.len()
        invariant
            i <= lines.len(),
            lv == lines.deep_view(),
            value_from(lv, key@, i as int) == value_from(lv, key@, 0),
        decreases lines.len() - i,
    {
        assert(lv[i as int] == lines@[i as int]@);
        if let Some(v) = quoted_value(lines[i].as_str(), key) {
            return Some(v);
        }
        i = i + 1;
    }
    None
}

pub struct SourceSearch {
    /// Whether the game at hand has the folder.
    pub here: bool,
    pub source: Option<Seq<char>>,
}

/// The source that the first `n` lines of the settings give the game in a folder.
pub open spec fn source_first(lines: Seq<Seq<char>>, folder: Seq<char>, n: int) -> SourceSearch
    decreases n,
{
    if n <= 0 {
        SourceSearch { here: false, source: None }
    } else {
        let before = source_first(lines, folder, n - 1);
        let line = trimmed(lines[n - 1]);
        if line == "[[games]]"@ {
            SourceSearch { here: false, ..before }
        } else {
            match quoted(line, "folder"@) {
                Some(v) => SourceSearch { here: ascii_lowered(v) == ascii_lowered(folder), ..before },
                None => if before.here && before.source is None {
                    SourceSearch { source: quoted(line, "masterlistSource"@), ..before }
                } else {
                    before
                },
            }
        }
    }
}

fn find_source(lines: &Vec<String>, folder: &str) -> (r: Option<String>)
    ensures
        r.deep_view() == source_first(lines.deep_view(), folder@, lines.len() as int).source,
{
    let ghost lv = lines.deep_view();
    let mut here = false;
    let mut source: Option<String> = None;
    let mut i: usize = 0;
    while i < lines.len()
        invariant
            i <= lines.len(),
            lv == lines.deep_view(),
            source_first(lv, folder@, i as int) == (SourceSearch {
                here,
                source: source.deep_view(),
            }),
        decreases lines.len() - i,
    {
        assert(lv[i as int] == lines@[i as int]@);
        let line = text::trim(lines[i].as_str());
        if text::same(line.as_str(), "[[games]]") {
            here = false;
        } else if let Some(v) = quoted_value(line.as_str(), "folder") {
            here = text::same_ignoring_case(v.as_str(), folder);
        } else if here && source.is_none() {
            source = quoted_value(line.as_str(), "masterlistSource");
        }
        i = i + 1;
    }
    source
}

pub open spec fn lines_or_none(s: Option<Seq<char>>) -> Seq<Seq<char>> {
    match s {
        Some(t) => lines_of(t),
        None => Seq::empty(),
    }
}

/// What is known of a masterlist: `metadata` is the stamp beside it, `folder` the folder
/// that holds it, and `settings` the settings of the tool.
pub fn masterlist_status(metadata: Option<&str>, folder: Option<&str>, settings: Option<&str>) -> (r:
    MasterlistStatus)
    ensures
        r.revision.deep_view() == value_from(
            lines_or_none(metadata.deep_view()),
            "blob_sha1"@,
            0,
        ),
        r.updated.deep_view() == value_from(
            lines_or_none(metadata.deep_view()),
            "update_timestamp"@,
            0,
        ),
        r.source.deep_view() == (match (folder, settings) {
            (Some(f), Some(s)) => source_first(lines_of(s@), f@, lines_of(s@).len() as int).source,
            _ => None,
        }),
{
    let lines = match metadata {
        Some(s) => text::lines(s),
        None => list::none(),
    };
    let revision = find_value(&lines, "blob_sha1");
    let updated = find_value(&lines, "update_timestamp");
    let source = match (folder, settings) {
        (Some(f), Some(s)) => {
            let lines = text::lines(s);
            assert(lines.deep_view().len() == lines.len());
            find_source(&lines, f)
        },
        _ => None,
    };
    MasterlistStatus { revision, updated, source }
}

// ---- dates ----

pub open spec fn is_leap(year: int) -> bool {
    year % 4 == 0 && (year % 100 != 0 || year % 400 == 0)
}

pub open spec fn month_length(year: int, month: int) -> int {
    if month == 2 {
        if is_leap(year) {
            29
        } else {
            28
        }
    } else if month == 4 || month == 6 || month == 9 || month == 11 {
        30
    } else {
        31
    }
}

/// The days of the Gregorian calendar before the first of January of a year.
pub open spec fn days_before_year(year: int) -> int {
    let n = year - 1;
    365 * n + n / 4 - n / 100 + n / 400
}

/// The days of a year before its month.
pub open spec fn days_before_month(year: int, month: int) -> int
    decreases month,
{
    if month <= 1 {
        0
    } else {
        days_before_month(year, month - 1) + month_length(year, month - 1)
    }
}

pub open spec fn is_date(year: int, month: int, day: int) -> bool {
    1 <= year && 1 <= month <= 12 && 1 <= day <= month_length(year, month)
}

/// The number of days from the first of January 1970 to a date.
pub open spec fn day_number(year: int, month: int, day: int) -> int {
    days_before_year(year) + days_before_month(year, month) + day - 1 - days_before_year(1970)
}

pub open spec fn date_text(year: nat, month: nat, day: nat) -> Seq<char> {
    zero_padded(decimal(year), 4) + "-"@ + zero_padded(decimal(month), 2) + "-"@ + zero_padded(
        decimal(day),
        2,
    )
}

/// The text is that of the day on which the second falls.
pub open spec fn is_day_text(s: Seq<char>, secs: int) -> bool {
    exists|year: nat, month: nat, day: nat|
        is_date(year as int, month as int, day as int) && #[trigger] day_number(
            year as int,
            month as int,
            day as int,
        ) == secs / 86400 && s == date_text(year, month, day)
}

fn before_year(year: u64) -> (r: u64)
    requires
        1 <= year <= 0x1_0000_0000_0000,
    ensures
        r == days_before_year(year as int),
{
    let n: u64 = year - 1;
    365 * n + n / 4 - n / 100 + n / 400
}

fn length_of(year: u64, month: u64) -> (r: u64)
    ensures
        r == month_length(year as int, month as int),
{
    if month == 2 {
        if year % 4 == 0 && (year % 100 != 0 || year % 400 == 0) {
            29
        } else {
            28
        }
    } else if month == 4 || month == 6 || month == 9 || month == 11 {
        30
    } else {
        31
    }
}

/// A year has as many days as its months.
proof fn lemma_year_length(year: int)
    requires
        1 <= year,
    ensures
        days_before_year(year + 1) - days_before_year(year) == days_before_month(year, 12)
            + month_length(year, 12),
{
    reveal_with_fuel(days_before_month, 13);
    let n = year - 1;
    assert(year / 4 == n / 4 + (if year % 4 == 0 {
        1int
    } else {
        0
    }));
    assert(year / 100 == n / 100 + (if year % 100 == 0 {
        1int
    } else {
        0
    }));
    assert(year / 400 == n / 400 + (if year % 400 == 0 {
        1int
    } else {
        0
    }));
    assert(year % 400 == 0 ==> year % 100 == 0);
    assert(year % 100 == 0 ==> year % 4 == 0);
}

proof fn lemma_years_grow(year: int)
    requires
        1 <= year,
    ensures
        days_before_year(year) + 365 <= days_before_year(year + 1) <= days_before_year(year) + 366,
{
    lemma_year_length(year);
    reveal_with_fuel(days_before_month, 13);
}

/// The date of a day, counted from the first of January 1970.
fn civil(days: u64) -> (r: (u64, u64, u64))
    requires
        days <= 0x1_0000_0000_0000,
    ensures
        is_date(r.0 as int, r.1 as int, r.2 as int),
        day_number(r.0 as int, r.1 as int, r.2 as int) == days,
{
    let target: u64 = days + before_year(1970);
    let mut year: u64 = 1970 + days / 366;
    assert(days_before_year(year as int) <= target) by {
        lemma_estimate((days / 366) as int);
    }
    while before_year(year + 1) <= target
        invariant
            1970 <= year,
            target <= 0x1_0000_0000_0000 + 719162,
            365 * (year - 1970) <= target,
            days_before_year(year as int) <= target,
        ensures
            1970 <= year,
            days_before_year(year as int) <= target < days_before_year(year + 1),
            365 * (year - 1970) <= target,
        decreases target + 1 - days_before_year(year as int),
    {
        proof {
            lemma_years_grow(year as int);
            lemma_many_years((year + 1 - 1970) as int);
        }
        year = year + 1;
    }
    let rest: u64 = target - before_year(year);
    let mut month: u64 = 1;
    let mut left: u64 = rest;
    proof {
        lemma_year_length(year as int);
    }
    while month < 12 && left >= length_of(year, month)
        invariant
            1 <= month <= 12,
            left == rest - days_before_month(year as int, month as int),
            rest < days_before_month(year as int, 12) + month_length(year as int, 12),
        ensures
            1 <= month <= 12,
            left == rest - days_before_month(year as int, month as int),
            left < month_length(year as int, month as int),
        decreases 12 - month,
    {
        left = left - length_of(year, month);
        month = month + 1;
    }
    (year, month, left + 1)
}

/// So many years later at least so many days have passed.
proof fn lemma_many_years(n: int)
    requires
        0 <= n,
    ensures
        days_before_year(1970 + n) >= days_before_year(1970) + 365 * n,
        days_before_year(1970 + n) <= days_before_year(1970) + 366 * n,
    decreases n,
{
    if n > 0 {
        lemma_many_years(n - 1);
        lemma_years_grow(1970 + n - 1);
    }
}

proof fn lemma_estimate(n: int)
    requires
        0 <= n,
    ensures
        days_before_year(1970 + n) <= days_before_year(1970) + 366 * n,
{
    lemma_many_years(n);
}

/// The day on which a second since the start of 1970 falls, as `YYYY-MM-DD`.
pub fn today_utc(secs: u64) -> (r: String)
    ensures
        is_day_text(r@, secs as int),
{
    let days: u64 = secs / 86400;
    let (year, month, day) = civil(days);
    let y = text::zero_pad(text::dec(year as u128), 4);
    let m = text::zero_pad(text::dec(month as u128), 2);
    let d = text::zero_pad(text::dec(day as u128), 2);
    let mut r = text::cat3(y.as_str(), "-", m.as_str());
    r.append("-");
    r.append(d.as_str());
    assert(r@ == date_text(year as nat, month as nat, day as nat));
    assert(day_number(year as nat as int, month as nat as int, day as nat as int) == days);
    r
}

/// A day has one date.
pub proof fn dates_are_unique(y1: int, m1: int, d1: int, y2: int, m2: int, d2: int)
    requires
        is_date(y1, m1, d1),
        is_date(y2, m2, d2),
        day_number(y1, m1, d1) == day_number(y2, m2, d2),
    ensures
        y1 == y2,
        m1 == m2,
        d1 == d2,
{
    lemma_in_year(y1, m1, d1);
    lemma_in_year(y2, m2, d2);
    if y1 < y2 {
        lemma_years_ordered(y1 + 1, y2);
    } else if y2 < y1 {
        lemma_years_ordered(y2 + 1, y1);
    }
    reveal_with_fuel(days_before_month, 13);
}

proof fn lemma_in_year(y: int, m: int, d: int)
    requires
        is_date(y, m, d),
    ensures
        days_before_year(y) <= day_number(y, m, d) + days_before_year(1970) < days_before_year(y + 1),
{
    lemma_year_length(y);
    reveal_with_fuel(days_before_month, 13);
}

proof fn lemma_years_ordered(a: int, b: int)
    requires
        1 <= a <= b,
    ensures
        days_before_year(a) <= days_before_year(b),
    decreases b - a,
{
    if a < b {
        lemma_years_ordered(a, b - 1);
        lemma_years_grow(b - 1);
    }
}

// ---- updates ----

pub open spec fn is_hex_digit(c: char) -> bool {
    is_digit(c) || ('a' <= c && c <= 'f') || ('A' <= c && c <= 'F')
}

/// The hexadecimal digits among the first `n` characters.
pub open spec fn hex_in(s: Seq<char>, n: int) -> Seq<char>
    decreases n,
{
    if n <= 0 {
        Seq::empty()
    } else if is_hex_digit(s[n - 1]) {
        hex_in(s, n - 1).push(s[n - 1])
    } else {
        hex_in(s, n - 1)
    }
}

/// The first line from `i` on with just the digits of a SHA-1 hash.
pub open spec fn hash_from(lines: Seq<Seq<char>>, i: int) -> Option<Seq<char>>
    decreases lines.len() - i,
{
    if i < 0 || i >= lines.len() {
        None
    } else if hex_in(lines[i], lines[i].len() as int).len() == 40 {
        Some(ascii_lowered(hex_in(lines[i], lines[i].len() as int)))
    } else {
        hash_from(lines, i + 1)
    }
}

fn hex_of(s: &str) -> (r: (String, usize))
    ensures
        r.0@ == hex_in(s@, s@.len() as int),
        r.1 == r.0@.len(),
{
    let v = text::chars_of(s);
    let mut out = String::new();
    let mut n: usize = 0;
    let mut i: usize = 0;
    assert(out@ =~= Seq::<char>::empty());
    while i < v.len()
        invariant
            n <= i <= v.len(),
            v@ == s@,
            out@ == hex_in(s@, i as int),
            n == out@.len(),
        decreases v.len() - i,
    {
        let c = v[i];
        if ('0' <= c && c <= '9') || ('a' <= c && c <= 'f') || ('A' <= c && c <= 'F') {
            out.push(c);
            n = n + 1;
        }
        i = i + 1;
    }
    (out, n)
}

/// The hash in the output of the hashing tool.
pub fn sha1_from_certutil(output: &str) -> (r: Result<String, String>)
    ensures
        match hash_from(lines_of(output@), 0) {
            Some(h) => r matches Ok(s) && s@ == h,
            None => r matches Err(e) && e@
                == "certutil returned no SHA-1 for downloaded masterlist"@,
        },
{
    let lines = text::lines(output);
    let ghost lv = lines.deep_view();
    let mut i: usize = 0;
    while i < lines.len()
        invariant
            i <= lines.len(),
            lv == lines.deep_view(),
            lv == lines_of(output@),
            hash_from(lv, i as int) == hash_from(lv, 0),
        decreases lines.len() - i,
    {
        assert(lv[i as int] == lines@[i as int]@);
        let (h, n) = hex_of(lines[i].as_str());
        if n == 40 {
            return Ok(text::ascii_lower(h.as_str()));
        }
        i = i + 1;
    }
    Err("certutil returned no SHA-1 for downloaded masterlist".to_string())
}

/// Whether a masterlist may be fetched from a source.
pub fn check_source(source: &str) -> (r: Result<(), String>)
    ensures
        if begins(source@, "https://"@) {
            r is Ok
        } else {
            r matches Err(e) && e@
                == "LOOT masterlist source is not a secure HTTPS URL; update was not attempted"@
        },
{
    if text::starts_with(source, "https://") {
        Ok(())
    } else {
        Err("LOOT masterlist source is not a secure HTTPS URL; update was not attempted".to_string())
    }
}

/// What an update of a masterlist writes beside it.
pub struct Update {
    pub revision: String,
    /// The name of the copy of the old masterlist.
    pub backup: String,
    /// The text of the stamp.
    pub metadata: String,
}

pub open spec fn looks_like_masterlist(preview: Seq<char>) -> bool {
    byte_len(preview) >= 512 && contains_text(preview, "plugins:"@)
}

/// Checks what was fetched, and says what is to be written with it. `hash_output` is what
/// the hashing tool printed of it, and `secs` the time.
pub fn update_masterlist(source: &str, preview: &str, hash_output: &str, secs: u64) -> (r: Result<
    Update,
    String,
>)
    ensures
        if !begins(source@, "https://"@) {
            r matches Err(e) && e@
                == "LOOT masterlist source is not a secure HTTPS URL; update was not attempted"@
        } else if !looks_like_masterlist(preview@) {
            r matches Err(e) && e@
                == "download did not look like a LOOT masterlist; existing file was kept"@
        } else {
            match hash_from(lines_of(hash_output@), 0) {
                Some(h) => r matches Ok(u) && u.revision@ == h && exists|day: Seq<char>|
                    #[trigger] is_day_text(day, secs as int) && u.backup@
                        == "masterlist.yaml.modslut-backup-"@ + day + "-"@ + decimal(secs as nat)
                        && u.metadata@ == "blob_sha1 = '"@ + h + "'\nupdate_timestamp = '"@ + day
                        + "'\n"@,
                None => r matches Err(e) && e@
                    == "certutil returned no SHA-1 for downloaded masterlist"@,
            }
        },
{
    match check_source(source) {
        Ok(_) => {},
        Err(e) => {
            return Err(e);
        },
    }
    if text::bytes_in(preview) < 512 || !text::contains(preview, "plugins:") {
        return Err(
            "download did not look like a LOOT masterlist; existing file was kept".to_string(),
        );
    }
    let revision = match sha1_from_certutil(hash_output) {
        Ok(h) => h,
        Err(e) => {
            return Err(e);
        },
    };
    let day = today_utc(secs);
    let number = text::dec(secs as u128);
    let mut backup = text::cat3("masterlist.yaml.modslut-backup-", day.as_str(), "-");
    backup.append(number.as_str());
    let mut metadata = text::cat3("blob_sha1 = '", revision.as_str(), "'\nupdate_timestamp = '");
    metadata.append(day.as_str());
    metadata.append("'\n");
    assert(is_day_text(day@, secs as int));
    Ok(Update { revision, backup, metadata })
}

// ---- settings ----

/// One of the values, whatever the case.
pub open spec fn is_one_of(values: Seq<Seq<char>>, s: Seq<char>) -> bool {
    exists|i: int| 0 <= i < values.len() && ascii_lowered(#[trigger] values[i]) == ascii_lowered(s)
}

fn one_of(values: &[&str], s: &str) -> (r: bool)
    ensures
        r == is_one_of(values.deep_view(), s@),
{
    let ghost vv = values.deep_view();
    let mut i: usize = 0;
    while i < values.len()
        invariant
            i <= values.len(),
            vv == values.deep_view(),
            forall|j: int| 0 <= j < i ==> ascii_lowered(#[trigger] vv[j]) != ascii_lowered(s@),
        decreases values.len() - i,
    {
        assert(vv[i as int] == values@[i as int]@);
        if text::same_ignoring_case(values[i], s) {
            return true;
        }
        i = i + 1;
    }
    assert(vv.len() == values.len());
    false
}

/// The type that a line of the settings gives to the game at hand: a new entry has none
/// until its line says so.
pub open spec fn type_after(kind: Option<Seq<char>>, raw: Seq<char>, loose: bool) -> Option<
    Option<Seq<char>>,
> {
    let indent = indent_of(raw);
    let line = trimmed(raw);
    if line.len() == 0 || begins(line, "#"@) {
        Some(kind)
    } else if indent == 2 && begins(line, "- "@) {
        match after_prefix(without_prefixes(line, "- "@), "type:"@) {
            Some(t) => Some(Some(unquoted(t))),
            None => Some(None),
        }
    } else if (indent == 2 || indent >= 4 || (loose && indent == 3)) && begins(line, "type:"@) {
        Some(Some(unquoted(without_prefixes(line, "type:"@))))
    } else {
        None
    }
}

fn read_type(kind: &Option<String>, raw: &str, loose: bool) -> (r: Option<Option<String>>)
    ensures
        r.deep_view() == type_after(kind.deep_view(), raw@, loose),
{
    let indent: u128 = text::indent(raw);
    let line = text::trim(raw);
    let chars = text::chars_of(line.as_str());
    if chars.len() == 0 || text::starts_with(line.as_str(), "#") {
        Some(
            match kind {
                Some(k) => Some(k.clone()),
                None => None,
            },
        )
    } else if indent == 2 && text::starts_with(line.as_str(), "- ") {
        let rest = text::trim_prefixes(line.as_str(), "- ");
        match text::strip_prefix(rest.as_str(), "type:") {
            Some(t) => Some(Some(loot::unquote(t.as_str()))),
            None => Some(None),
        }
    } else if (indent == 2 || indent >= 4 || (loose && indent == 3)) && text::starts_with(
        line.as_str(),
        "type:",
    ) {
        let t = text::trim_prefixes(line.as_str(), "type:");
        Some(Some(loot::unquote(t.as_str())))
    } else {
        None
    }
}

pub open spec fn is_wanted(kind: Option<Seq<char>>, types: Seq<Seq<char>>) -> bool {
    match kind {
        Some(k) => is_one_of(types, k),
        None => false,
    }
}

fn wanted(kind: &Option<String>, types: &[&str]) -> (r: bool)
    ensures
        r == is_wanted(kind.deep_view(), types.deep_view()),
{
    match kind {
        Some(k) => one_of(types, k.as_str()),
        None => false,
    }
}

pub struct Walk {
    pub kind: Option<Seq<char>>,
    pub found: Seq<Seq<char>>,
}

/// The folders that the first `n` lines of the settings give a game.
pub open spec fn folders_first(lines: Seq<Seq<char>>, types: Seq<Seq<char>>, n: int) -> Walk
    decreases n,
{
    if n <= 0 {
        Walk { kind: None, found: Seq::empty() }
    } else {
        let before = folders_first(lines, types, n - 1);
        match type_after(before.kind, lines[n - 1], false) {
            Some(kind) => Walk { kind, ..before },
            None => {
                let line = trimmed(lines[n - 1]);
                if indent_of(lines[n - 1]) >= 4 && begins(line, "folder:"@) && is_wanted(
                    before.kind,
                    types,
                ) {
                    let f = unquoted(without_prefixes(line, "folder:"@));
                    Walk {
                        found: if f.len() == 0 {
                            before.found
                        } else {
                            with_item(before.found, f)
                        },
                        ..before
                    }
                } else {
                    before
                }
            },
        }
    }
}

/// The folders of a game that the tool's settings name.
pub fn folders_from_settings(settings: &str, game: &GameInfo) -> (r: Vec<String>)
    ensures
        r.deep_view() == folders_first(
            lines_of(settings@),
            game.deep_view().loot_types,
            lines_of(settings@).len() as int,
        ).found,
{
    let lines = text::lines(settings);
    let ghost lv = lines.deep_view();
    let ghost tv = game.loot_types.deep_view();
    let mut kind: Option<String> = None;
    let mut out: Vec<String> = list::none();
    let mut i: usize = 0;
    while i < lines.len()
        invariant
            i <= lines.len(),
            lv == lines.deep_view(),
            tv == game.loot_types.deep_view(),
            folders_first(lv, tv, i as int) == (Walk {
                kind: kind.deep_view(),
                found: out.deep_view(),
            }),
        decreases lines.len() - i,
    {
        assert(lv[i as int] == lines@[i as int]@);
        let raw = lines[i].as_str();
        match read_type(&kind, raw, false) {
            Some(k) => {
                kind = k;
            },
            None => {
                let line = text::trim(raw);
                if text::indent(raw) >= 4 && text::starts_with(line.as_str(), "folder:") && wanted(
                    &kind,
                    game.loot_types,
                ) {
                    let f = text::trim_prefixes(line.as_str(), "folder:");
                    let f = loot::unquote(f.as_str());
                    let chars = text::chars_of(f.as_str());
                    if chars.len() > 0 {
                        keys::add_item(&mut out, f);
                    }
                }
            },
        }
        i = i + 1;
    }
    assert(lv.len() == lines.len());
    out
}

/// The folders among the first `n` that the scan key of a game is part of.
pub open spec fn scanned_first(dirs: Seq<Seq<char>>, key: Seq<char>, n: int) -> Seq<Seq<char>>
    decreases n,
{
    if n <= 0 {
        Seq::empty()
    } else {
        let before = scanned_first(dirs, key, n - 1);
        if contains_text(lowercase(dirs[n - 1]), key) {
            before.push(dirs[n - 1])
        } else {
            before
        }
    }
}

/// The folders that may hold the masterlist of a game, the most likely first: those of the
/// settings, the well-known ones, and those with the game's name in theirs.
pub open spec fn folders_of(
    settings: Option<Seq<char>>,
    game: GameInfoView,
    dirs: Seq<Seq<char>>,
) -> Seq<Seq<char>> {
    (match settings {
        Some(s) => folders_first(lines_of(s), game.loot_types, lines_of(s).len() as int).found,
        None => Seq::empty(),
    }) + game.loot_folders + sorted::<String>(
        scanned_first(dirs, game.loot_scan_key, dirs.len() as int),
    )
}

pub fn masterlist_folders(settings: Option<&str>, game: &GameInfo, dirs: &Vec<String>) -> (r: Vec<
    String,
>)
    ensures
        r.deep_view() == folders_of(settings.deep_view(), game.deep_view(), dirs.deep_view()),
{
    let ghost gv = game.deep_view();
    let mut out: Vec<String> = match settings {
        Some(s) => folders_from_settings(s, game),
        None => list::none(),
    };
    let ghost first = out.deep_view();
    let mut i: usize = 0;
    assert(first + gv.loot_folders.take(0) =~= first);
    while i < game.loot_folders.len()
        invariant
            i <= game.loot_folders.len(),
            gv == game.deep_view(),
            out.deep_view() == first + gv.loot_folders.take(i as int),
        decreases game.loot_folders.len() - i,
    {
        assert(gv.loot_folders[i as int] == game.loot_folders@[i as int]@);
        list::put(&mut out, game.loot_folders[i].to_string());
        i = i + 1;
        assert(out.deep_view() =~= first + gv.loot_folders.take(i as int));
    }
    assert(gv.loot_folders.take(i as int) =~= gv.loot_folders);
    let ghost dv = dirs.deep_view();
    let mut scanned: Vec<String> = list::none();
    let mut i: usize = 0;
    while i < dirs.len()
        invariant
            i <= dirs.len(),
            dv == dirs.deep_view(),
            gv == game.deep_view(),
            scanned.deep_view() == scanned_first(dv, gv.loot_scan_key, i as int),
        decreases dirs.len() - i,
    {
        assert(dv[i as int] == dirs@[i as int]@);
        let lower = dirs[i].to_lowercase();
        if text::contains(lower.as_str(), game.loot_scan_key) {
            list::put(&mut scanned, dirs[i].clone());
        }
        i = i + 1;
    }
    assert(dv.len() == dirs.len());
    list::put_all(&mut out, sort::sort(scanned));
    out
}

/// The first file from `i` on that could be read.
pub open spec fn readable_from(files: Seq<(Seq<char>, Option<Seq<char>>)>, i: int) -> Option<
    (Seq<char>, Seq<char>),
>
    decreases files.len() - i,
{
    if i < 0 || i >= files.len() {
        None
    } else {
        match files[i].1 {
            Some(t) => Some((files[i].0, t)),
            None => readable_from(files, i + 1),
        }
    }
}

/// The ordering data of a game, out of the first masterlist that could be read. `files`
/// holds their paths, the most likely first, with the texts of those that could.
pub fn load(files: &Vec<(String, Option<String>)>) -> (r: Option<LootData>)
    ensures
        match readable_from(files.deep_view(), 0) {
            Some((path, t)) => match r {
                Some(d) => masterlist_rules(t) == Some(
                    RulesView {
                        after: d.deep_view().after,
                        groups: d.deep_view().groups,
                        group_after: d.deep_view().group_after,
                        group_order: d.deep_view().group_order,
                    },
                ) && d.deep_view().path == path,
                None => masterlist_rules(t) is None,
            },
            None => r is None,
        },
{
    let ghost fv = files.deep_view();
    let mut i: usize = 0;
    while i < files.len()
        invariant
            i <= files.len(),
            fv == files.deep_view(),
            readable_from(fv, i as int) == readable_from(fv, 0),
        decreases files.len() - i,
    {
        assert(fv[i as int] == files@[i as int].deep_view());
        match &files[i].1 {
            Some(t) => {
                return loot::loot_data(t.as_str(), files[i].0.clone());
            },
            None => {},
        }
        i = i + 1;
    }
    None
}

/// The value that the first `n` lines of an entry give a key; the last one counts.
pub open spec fn entry_value(lines: Seq<Seq<char>>, key: Seq<char>, n: int) -> Option<Seq<char>>
    decreases n,
{
    if n <= 0 {
        None
    } else {
        match split_first(trimmed(lines[n - 1]), "="@) {
            Some((k, v)) => if trimmed(k) == key {
                Some(unquoted(v))
            } else {
                entry_value(lines, key, n - 1)
            },
            None => entry_value(lines, key, n - 1),
        }
    }
}

/// The path of a game in an entry of the settings that is about it.
pub open spec fn entry_path(block: Seq<char>, game: GameInfoView) -> Option<Seq<char>> {
    let lines = lines_of(block);
    let n = lines.len() as int;
    if is_wanted(entry_value(lines, "gameId"@, n), game.loot_types) || is_wanted(
        entry_value(lines, "folder"@, n),
        game.loot_folders,
    ) {
        entry_value(lines, "path"@, n)
    } else {
        None
    }
}

/// The paths in the first `n` pieces of the settings; the first piece is no entry.
pub open spec fn entry_paths(blocks: Seq<Seq<char>>, game: GameInfoView, n: int) -> Seq<Seq<char>>
    decreases n,
{
    if n <= 1 {
        Seq::empty()
    } else {
        let before = entry_paths(blocks, game, n - 1);
        match entry_path(blocks[n - 1], game) {
            Some(p) => before.push(p),
            None => before,
        }
    }
}

fn read_entry(lines: &Vec<String>, key: &str) -> (r: Option<String>)
    ensures
        r.deep_view() == entry_value(lines.deep_view(), key@, lines.len() as int),
{
    let ghost lv = lines.deep_view();
    let mut out: Option<String> = None;
    let mut i: usize = 0;
    while i < lines.len()
        invariant
            i <= lines.len(),
            lv == lines.deep_view(),
            out.deep_view() == entry_value(lv, key@, i as int),
        decreases lines.len() - i,
    {
        assert(lv[i as int] == lines@[i as int]@);
        let line = text::trim(lines[i].as_str());
        if let Some((k, v)) = text::split_once(line.as_str(), "=") {
            let k = text::trim(k.as_str());
            if text::same(k.as_str(), key) {
                out = Some(loot::unquote(v.as_str()));
            }
        }
        i = i + 1;
    }
    out
}

fn paths_in_entries(settings: &str, game: &GameInfo) -> (r: Vec<String>)
    ensures
        ({
            let blocks = split_on(settings@, "[[games]]"@);
            r.deep_view() == entry_paths(blocks, game.deep_view(), blocks.len() as int)
        }),
{
    proof {
        reveal_strlit("[[games]]");
    }
    let blocks = text::split(settings, "[[games]]");
    let ghost bv = blocks.deep_view();
    let ghost gv = game.deep_view();
    assert(bv.len() == blocks.len());
    let mut out: Vec<String> = list::none();
    let mut i: usize = 1;
    while i < blocks.len()
        invariant
            1 <= i,
            i <= blocks.len() || i == 1,
            bv == blocks.deep_view(),
            gv == game.deep_view(),
            out.deep_view() == entry_paths(bv, gv, i as int),
        decreases blocks.len() - i,
    {
        assert(bv[i as int] == blocks@[i as int]@);
        let lines = text::lines(blocks[i].as_str());
        assert(lines.deep_view().len() == lines.len());
        let id = read_entry(&lines, "gameId");
        let folder = read_entry(&lines, "folder");
        let path = read_entry(&lines, "path");
        if wanted(&id, game.loot_types) || wanted(&folder, game.loot_folders) {
            if let Some(p) = path {
                list::put(&mut out, p);
            }
        }
        i = i + 1;
    }
    out
}

/// The paths that the first `n` lines of the old settings give a game.
pub open spec fn old_paths_first(lines: Seq<Seq<char>>, types: Seq<Seq<char>>, n: int) -> Walk
    decreases n,
{
    if n <= 0 {
        Walk { kind: None, found: Seq::empty() }
    } else {
        let before = old_paths_first(lines, types, n - 1);
        match type_after(before.kind, lines[n - 1], true) {
            Some(kind) => Walk { kind, ..before },
            None => {
                let line = trimmed(lines[n - 1]);
                if indent_of(lines[n - 1]) >= 4 && begins(line, "path:"@) && is_wanted(
                    before.kind,
                    types,
                ) {
                    Walk {
                        found: before.found.push(
                            trimmed(unquoted(without_prefixes(line, "path:"@))),
                        ),
                        ..before
                    }
                } else {
                    before
                }
            },
        }
    }
}

fn old_paths(settings: &str, game: &GameInfo) -> (r: Vec<String>)
    ensures
        r.deep_view() == old_paths_first(
            lines_of(settings@),
            game.deep_view().loot_types,
            lines_of(settings@).len() as int,
        ).found,
{
    let lines = text::lines(settings);
    let ghost lv = lines.deep_view();
    let ghost tv = game.loot_types.deep_view();
    let mut kind: Option<String> = None;
    let mut out: Vec<String> = list::none();
    let mut i: usize = 0;
    while i < lines.len()
        invariant
            i <= lines.len(),
            lv == lines.deep_view(),
            tv == game.loot_types.deep_view(),
            old_paths_first(lv, tv, i as int) == (Walk {
                kind: kind.deep_view(),
                found: out.deep_view(),
            }),
        decreases lines.len() - i,
    {
        assert(lv[i as int] == lines@[i as int]@);
        let raw = lines[i].as_str();
        match read_type(&kind, raw, true) {
            Some(k) => {
                kind = k;
            },
            None => {
                let line = text::trim(raw);
                if text::indent(raw) >= 4 && text::starts_with(line.as_str(), "path:") && wanted(
                    &kind,
                    game.loot_types,
                ) {
                    let p = text::trim_prefixes(line.as_str(), "path:");
                    let p = loot::unquote(p.as_str());
                    list::put(&mut out, text::trim(p.as_str()));
                }
            },
        }
        i = i + 1;
    }
    assert(lv.len() == lines.len());
    out
}

/// The paths at which a game may be installed, as the tool's settings say, the newer
/// settings first. The first that is a folder counts.
pub fn game_install_path(settings: Option<&str>, old_settings: Option<&str>, game: &GameInfo) -> (r:
    Vec<String>)
    ensures
        r.deep_view() == (match settings {
            Some(s) => {
                let blocks = split_on(s@, "[[games]]"@);
                entry_paths(blocks, game.deep_view(), blocks.len() as int)
            },
            None => Seq::empty(),
        }) + (match old_settings {
            Some(s) => old_paths_first(
                lines_of(s@),
                game.deep_view().loot_types,
                lines_of(s@).len() as int,
            ).found,
            None => Seq::empty(),
        }),
{
    let mut out: Vec<String> = match settings {
        Some(s) => paths_in_entries(s, game),
        None => list::none(),
    };
    let more: Vec<String> = match old_settings {
        Some(s) => old_paths(s, game),
        None => list::none(),
    };
    list::put_all(&mut out, more);
    out
}

} // verus!
