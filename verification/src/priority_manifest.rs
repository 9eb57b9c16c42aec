//! The priority manifest: a profile's rows in the order in which they are shown.
use vstd::prelude::*;
use crate::keys;
#[allow(unused_imports)]
use crate::keys::folded;
use crate::list;
use crate::map::TextMap;
#[allow(unused_imports)]
use crate::map::{found, insert_then_get, inserted};
use crate::profile;
#[allow(unused_imports)]
use crate::profile::data_path;
use crate::text;
#[allow(unused_imports)]
use crate::text::{after_prefix, begins, decimal, ended, lines_of, number, set_trimmed_start, split_first, trimmed};

#[allow(unused_imports)]
use crate::map::lemma_key_from;
#[allow(unused_imports)]
use crate::readback::{lemma_decimal, lemma_number_read_back, lemma_split_at, lemma_trim_tight, lemma_trimmed_is_tight, tight};
#[allow(unused_imports)]
use crate::text::{is_digit, is_line};

verus! {

/// The position of each row, by its name.
pub struct PriorityManifest {
    pub priorities: TextMap<usize>,
    /// Whether the positions were counted anew.
    pub refreshed: bool,
}

/// A row without its marks.
pub open spec fn entry_of(row: Seq<char>) -> Seq<char> {
    trimmed(set_trimmed_start(trimmed(row), "+-*"@))
}

pub fn entry_name(row: &str) -> (r: String)
    ensures
        r@ == entry_of(row@),
{
    let a = text::trim(row);
    let b = text::trim_start_of(a.as_str(), "+-*");
    text::trim(b.as_str())
}

pub open spec fn row_key(row: Seq<char>) -> Seq<char> {
    folded(entry_of(row))
}

fn key_of(row: &str) -> (r: String)
    ensures
        r@ == row_key(row@),
{
    let n = entry_name(row);
    keys::fold(n.as_str())
}

pub type Positions = Seq<(Seq<char>, usize)>;

// ---- the saved manifest ----

/// What the first lines of a manifest say: its format, the stamp, and the positions.
pub struct Saved {
    pub current: bool,
    pub stamp: Option<nat>,
    pub positions: Positions,
}

/// The manifest with one more line; none where a position is no number.
pub open spec fn with_line(m: Saved, raw: Seq<char>) -> Option<Saved> {
    let line = trimmed(raw);
    if line.len() == 0 || begins(line, "#"@) {
        Some(m)
    } else if line == "format=4"@ {
        Some(Saved { current: true, ..m })
    } else {
        match after_prefix(line, "modlist_modified_unix_nanos="@) {
            Some(v) => Some(Saved { stamp: number(trimmed(v), u128::MAX as nat), ..m }),
            None => match split_first(line, "\t"@) {
                Some((value, name)) => match number(trimmed(value), usize::MAX as nat) {
                    Some(p) => Some(
                        Saved {
                            positions: inserted(m.positions, row_key(name), p as usize),
                            ..m
                        },
                    ),
                    None => None,
                },
                None => Some(m),
            },
        }
    }
}

pub open spec fn saved_first(lines: Seq<Seq<char>>, n: int) -> Option<Saved>
    decreases n,
{
    if n <= 0 {
        Some(Saved { current: false, stamp: None, positions: Seq::empty() })
    } else {
        match saved_first(lines, n - 1) {
            Some(m) => with_line(m, lines[n - 1]),
            None => None,
        }
    }
}

/// The positions in a manifest that was made for the list with that stamp.
pub open spec fn positions_in(s: Seq<char>, stamp: nat) -> Option<Positions> {
    match saved_first(lines_of(s), lines_of(s).len() as int) {
        Some(m) => if m.current && m.stamp == Some(stamp) && m.positions.len() > 0 {
            Some(m.positions)
        } else {
            None
        },
        None => None,
    }
}

proof fn lemma_saved_stopped(lines: Seq<Seq<char>>, n: int, m: int)
    requires
        n <= m,
        saved_first(lines, n) is None,
    ensures
        saved_first(lines, m) is None,
    decreases m,
{
    if n < m {
        lemma_saved_stopped(lines, n, m - 1);
    }
}

/// Reads a manifest that is still good.
pub fn parse(s: &str, wanted_timestamp: u128) -> (r: Option<TextMap<usize>>)
    ensures
        r.deep_view() == positions_in(s@, wanted_timestamp as nat),
{
    let lines = text::lines(s);
    let ghost lv = lines.deep_view();
    let mut current = false;
    let mut stamp: Option<u128> = None;
    let mut values: TextMap<usize> = TextMap::new();
    let mut i: usize = 0;
    assert(lv.len() == lines.len());
    while i < lines.len()
        invariant
            i <= lines.len(),
            lv == lines.deep_view(),
            lv == lines_of(s@),
            lv.len() == lines.len(),
            saved_first(lv, i as int) == Some(
                Saved {
                    current,
                    stamp: match stamp {
                        Some(n) => Some(n as nat),
                        None => None,
                    },
                    positions: values.deep_view(),
                },
            ),
        decreases lines.len() - i,
    {
        assert(lv[i as int] == lines@[i as int]@);
        let line = text::trim(lines[i].as_str());
        let chars = text::chars_of(line.as_str());
        if chars.len() == 0 || text::starts_with(line.as_str(), "#") {
        } else if text::same(line.as_str(), "format=4") {
            current = true;
        } else if let Some(v) = text::strip_prefix(line.as_str(), "modlist_modified_unix_nanos=") {
            let v = text::trim(v.as_str());
            stamp = text::parse_number(v.as_str(), u128::MAX);
        } else if let Some((value, name)) = text::split_once(line.as_str(), "\t") {
            let value = text::trim(value.as_str());
            match text::parse_number(value.as_str(), usize::MAX as u128) {
                Some(p) => {
                    values.insert(key_of(name.as_str()), p as usize);
                },
                None => {
                    proof {
                        lemma_saved_stopped(lv, i + 1, lv.len() as int);
                    }
                    return None;
                },
            }
        }
        i = i + 1;
    }
    let fits = match stamp {
        Some(n) => n == wanted_timestamp,
        None => false,
    };
    if current && fits && values.len() > 0 {
        Some(values)
    } else {
        None
    }
}

// ---- a new manifest ----

/// The rows among the first `n` lines of a list, without its head.
pub open spec fn rows_first(lines: Seq<Seq<char>>, n: int) -> Seq<Seq<char>>
    decreases n,
{
    if n <= 1 {
        Seq::empty()
    } else {
        let before = rows_first(lines, n - 1);
        let row = trimmed(lines[n - 1]);
        if row.len() == 0 {
            before
        } else {
            before.push(row)
        }
    }
}

pub open spec fn rows_of(s: Seq<char>) -> Seq<Seq<char>> {
    rows_first(lines_of(s), lines_of(s).len() as int)
}

/// The positions of the first `n` rows. The last row of the file is shown first.
pub open spec fn counted_first(rows: Seq<Seq<char>>, n: int) -> Positions
    decreases n,
{
    if n <= 0 {
        Seq::empty()
    } else {
        inserted(
            counted_first(rows, n - 1),
            row_key(rows[n - 1]),
            (rows.len() - (n - 1)) as usize,
        )
    }
}

pub open spec fn positions_of(rows: Seq<Seq<char>>) -> Positions {
    counted_first(rows, rows.len() as int)
}

pub open spec fn position_or_zero(p: Positions, row: Seq<char>) -> nat {
    match found(p, row_key(row)) {
        Some(n) => n as nat,
        None => 0,
    }
}

/// The last `n` rows, in the order in which they are shown.
pub open spec fn ledger_first(rows: Seq<Seq<char>>, n: int) -> Seq<Seq<char>>
    decreases n,
{
    if n <= 0 {
        Seq::empty()
    } else {
        let row = rows[rows.len() - n];
        ledger_first(rows, n - 1).push(
            decimal(position_or_zero(positions_of(rows), row)) + "\t"@ + row,
        )
    }
}

pub open spec fn manifest_lines(rows: Seq<Seq<char>>, stamp: nat) -> Seq<Seq<char>> {
    seq![
        "# ModSlut priority manifest; generated from modlist.txt."@,
        "# Rows are written in MO2's visible top-to-bottom order: position 1 first."@,
        "# The left column includes every mod and separator; the right preserves MO2's + enabled, - disabled, and * foreign markers."@,
        "format=4"@,
        "modlist_modified_unix_nanos="@ + decimal(stamp),
    ] + ledger_first(rows, rows.len() as int)
}

pub fn list_rows(source: &str) -> (r: Vec<String>)
    ensures
        r.deep_view() == rows_of(source@),
{
    let lines = text::lines(source);
    let ghost lv = lines.deep_view();
    assert(lv.len() == lines.len());
    let mut out: Vec<String> = list::none();
    let mut i: usize = 1;
    while i < lines.len()
        invariant
            1 <= i,
            lv == lines.deep_view(),
            i <= lines.len() || i == 1,
            out.deep_view() == rows_first(lv, i as int),
        decreases lines.len() - i,
    {
        assert(lv[i as int] == lines@[i as int]@);
        let row = text::trim(lines[i].as_str());
        let chars = text::chars_of(row.as_str());
        if chars.len() > 0 {
            list::put(&mut out, row);
        }
        i = i + 1;
    }
    out
}

pub fn count_rows(rows: &Vec<String>) -> (r: TextMap<usize>)
    ensures
        r.deep_view() == positions_of(rows.deep_view()),
{
    let ghost rv = rows.deep_view();
    let mut out: TextMap<usize> = TextMap::new();
    let mut i: usize = 0;
    assert(rv.len() == rows.len());
    while i < rows.len()
        invariant
            i <= rows.len(),
            rv == rows.deep_view(),
            rv.len() == rows.len(),
            out.deep_view() == counted_first(rv, i as int),
        decreases rows.len() - i,
    {
        assert(rv[i as int] == rows@[i as int]@);
        out.insert(key_of(rows[i].as_str()), rows.len() - i);
        i = i + 1;
    }
    out
}

fn manifest(rows: &Vec<String>, positions: &TextMap<usize>, stamp: u128) -> (r: String)
    requires
        positions.deep_view() == positions_of(rows.deep_view()),
    ensures
        r@ == ended(manifest_lines(rows.deep_view(), stamp as nat)),
{
    let ghost rv = rows.deep_view();
    assert(rv.len() == rows.len());
    let mut out: Vec<String> = list::none();
    list::put(&mut out, "# ModSlut priority manifest; generated from modlist.txt.".to_string());
    list::put(
        &mut out,
        "# Rows are written in MO2's visible top-to-bottom order: position 1 first.".to_string(),
    );
    list::put(
        &mut out,
        "# The left column includes every mod and separator; the right preserves MO2's + enabled, - disabled, and * foreign markers.".to_string(),
    );
    list::put(&mut out, "format=4".to_string());
    let number = text::dec(stamp);
    list::put(&mut out, text::cat("modlist_modified_unix_nanos=", number.as_str()));
    let ghost head = out.deep_view();
    let mut i: usize = rows.len();
    assert(head + ledger_first(rv, 0) =~= head);
    while i > 0
        invariant
            i <= rows.len(),
            rv == rows.deep_view(),
            rv.len() == rows.len(),
            positions.deep_view() == positions_of(rv),
            out.deep_view() == head + ledger_first(rv, rows.len() - i),
        decreases i,
    {
        i = i - 1;
        assert(rv[i as int] == rows@[i as int]@);
        let k = key_of(rows[i].as_str());
        let p: usize = match positions.get(k.as_str()) {
            Some(p) => *p,
            None => 0,
        };
        let shown = text::dec(p as u128);
        list::put(&mut out, text::cat3(shown.as_str(), "\t", rows[i].as_str()));
        assert(rv[rv.len() - (rows.len() - i)] == rv[i as int]);
        assert(out.deep_view() =~= head + ledger_first(rv, rows.len() - i));
    }
    assert(out.deep_view() =~= manifest_lines(rv, stamp as nat));
    text::end_lines(&out)
}

/// The positions of a list's rows, out of the saved manifest where it is still good, and
/// the manifest that is to be saved where it is not.
pub fn load_or_refresh(cached: Option<&str>, wanted_timestamp: u128, source: &str) -> (r: (
    PriorityManifest,
    Option<String>,
))
    ensures
        ({
            let kept = match cached {
                Some(s) => positions_in(s@, wanted_timestamp as nat),
                None => None,
            };
            match kept {
                Some(p) => r.0.priorities.deep_view() == p && !r.0.refreshed && r.1 is None,
                None => r.0.priorities.deep_view() == positions_of(rows_of(source@))
                    && r.0.refreshed && r.1.deep_view() == Some(
                    ended(manifest_lines(rows_of(source@), wanted_timestamp as nat)),
                ),
            }
        }),
{
    if let Some(s) = cached {
        if let Some(priorities) = parse(s, wanted_timestamp) {
            return (PriorityManifest { priorities, refreshed: false }, None);
        }
    }
    let rows = list_rows(source);
    let priorities = count_rows(&rows);
    let text = manifest(&rows, &priorities, wanted_timestamp);
    (PriorityManifest { priorities, refreshed: true }, Some(text))
}

/// Where the manifest of a profile is kept.
pub fn path_for(folder: &str) -> (r: String)
    ensures
        r@ == data_path(folder@, "priority_manifest.ini"@),
{
    profile::profile_data_path(folder, "priority_manifest.ini")
}

// ---- laws ----

/// A row of a list: nothing is to be trimmed, and it is one line.
pub open spec fn is_row(row: Seq<char>) -> bool {
    row.len() > 0 && tight(row) && !row.contains('\n')
}

proof fn lemma_rows_are_rows(lines: Seq<Seq<char>>, n: int)
    requires
        n <= lines.len(),
        forall|i: int| 0 <= i < lines.len() ==> !(#[trigger] lines[i]).contains('\n'),
    ensures
        forall|i: int| 0 <= i < rows_first(lines, n).len() ==> is_row(#[trigger] rows_first(lines, n)[i]),
    decreases n,
{
    if n > 1 {
        lemma_rows_are_rows(lines, n - 1);
        let before = rows_first(lines, n - 1);
        let all = rows_first(lines, n);
        let line = lines[n - 1];
        let row = trimmed(line);
        lemma_trimmed_is_tight(line);
        text::lemma_past_white(line, 0);
        let t = text::trimmed_start(line);
        text::lemma_before_white(t, t.len() as int);
        assert forall|i: int| 0 <= i < row.len() implies row[i] != '\n' by {
            let at = i + text::past_white(line, 0);
            assert(row[i] == line[at]);
            assert(line.contains(line[at]));
        }
        assert forall|i: int| 0 <= i < all.len() implies is_row(#[trigger] all[i]) by {
            if i < before.len() {
                assert(all[i] == before[i]);
            }
        }
    }
}

proof fn lemma_ledger_row(p: nat, row: Seq<char>, m: Saved)
    requires
        is_row(row),
        p <= usize::MAX,
    ensures
        with_line(m, decimal(p) + "\t"@ + row) == Some(
            Saved { positions: inserted(m.positions, row_key(row), p as usize), ..m },
        ),
        is_line(decimal(p) + "\t"@ + row),
{
    reveal_strlit("\t");
    reveal_strlit("#");
    reveal_strlit("format=4");
    reveal_strlit("modlist_modified_unix_nanos=");
    assert("\t"@ =~= seq!['\t']);
    let d = decimal(p);
    lemma_decimal(p);
    lemma_number_read_back(p, usize::MAX as nat);
    let line = d + "\t"@ + row;
    assert(is_digit(d[0]));
    assert(line[0] == d[0] && line.last() == row.last());
    lemma_trim_tight(line);
    assert(line.take(1)[0] == d[0]);
    assert("format=4"@[0] == 'f');
    assert(line != "format=4"@);
    let lead = "modlist_modified_unix_nanos="@;
    assert(!begins(line, lead)) by {
        if begins(line, lead) {
            assert(line.take(lead.len() as int)[0] == lead[0]);
        }
    }
    assert(!d.contains('\t')) by {
        if d.contains('\t') {
            assert(is_digit('\t'));
        }
    }
    lemma_split_at(d, '\t', row);
    lemma_trim_tight(d);
    assert forall|i: int| 0 <= i < line.len() implies line[i] != '\n' by {
        if i < d.len() {
            assert(line[i] == d[i]);
            assert(is_digit(d[i]));
        } else if i > d.len() {
            assert(line[i] == row[i - d.len() - 1]);
        }
    }
}

proof fn lemma_head(stamp: nat)
    requires
        stamp <= u128::MAX,
    ensures
        ({
            let lines = manifest_lines(Seq::empty(), stamp);
            &&& lines.len() == 5
            &&& saved_first(lines, 5) == Some(
                Saved { current: true, stamp: Some(stamp), positions: Seq::empty() },
            )
            &&& forall|i: int| 0 <= i < 5 ==> is_line(#[trigger] lines[i])
        }),
{
    let lines = manifest_lines(Seq::empty(), stamp);
    reveal_strlit("# ModSlut priority manifest; generated from modlist.txt.");
    reveal_strlit("# Rows are written in MO2's visible top-to-bottom order: position 1 first.");
    reveal_strlit(
        "# The left column includes every mod and separator; the right preserves MO2's + enabled, - disabled, and * foreign markers.",
    );
    reveal_strlit("format=4");
    reveal_strlit("modlist_modified_unix_nanos=");
    reveal_strlit("#");
    let a = lines[0];
    let b = lines[1];
    let c = lines[2];
    let d = lines[3];
    let e = lines[4];
    let lead = "modlist_modified_unix_nanos="@;
    let n = decimal(stamp);
    lemma_decimal(stamp);
    lemma_number_read_back(stamp, u128::MAX as nat);
    assert(a == "# ModSlut priority manifest; generated from modlist.txt."@);
    assert(b == "# Rows are written in MO2's visible top-to-bottom order: position 1 first."@);
    assert(c
        == "# The left column includes every mod and separator; the right preserves MO2's + enabled, - disabled, and * foreign markers."@);
    assert(d == "format=4"@ && e == lead + n);
    lemma_trim_tight(a);
    lemma_trim_tight(b);
    lemma_trim_tight(c);
    lemma_trim_tight(d);
    assert(is_digit(n.last())) by {
        assert(is_digit(n[n.len() - 1]));
    }
    assert(e[0] == lead[0] && e.last() == n.last());
    lemma_trim_tight(e);
    lemma_trim_tight(n);
    assert(a.take(1) =~= "#"@ && b.take(1) =~= "#"@ && c.take(1) =~= "#"@);
    assert(d.take(1)[0] == 'f');
    assert(e.take(1)[0] == 'm');
    assert(e != "format=4"@);
    assert(e.take(lead.len() as int) =~= lead);
    assert(e.skip(lead.len() as int) =~= n);
    assert forall|i: int| 0 <= i < e.len() implies e[i] != '\n' by {
        if i < lead.len() {
            assert(e[i] == lead[i]);
        } else {
            assert(e[i] == n[i - lead.len()]);
            assert(is_digit(n[i - lead.len()]));
        }
    }
    assert(saved_first(lines, 1) == saved_first(lines, 0));
    assert(saved_first(lines, 2) == saved_first(lines, 1));
    assert(saved_first(lines, 3) == saved_first(lines, 2));
    assert(saved_first(lines, 4) is Some);
    assert(saved_first(lines, 5) is Some);
}

proof fn lemma_counted(rows: Seq<Seq<char>>, n: int, k: Seq<char>)
    requires
        0 <= n <= rows.len(),
    ensures
        found(counted_first(rows, n), k) is Some <==> exists|i: int|
            0 <= i < n && #[trigger] row_key(rows[i]) == k,
    decreases n,
{
    if n > 0 {
        lemma_counted(rows, n - 1, k);
        insert_then_get(
            counted_first(rows, n - 1),
            row_key(rows[n - 1]),
            (rows.len() - (n - 1)) as usize,
            k,
        );
        if found(counted_first(rows, n), k) is Some {
            if row_key(rows[n - 1]) != k {
                let i = choose|i: int| 0 <= i < n - 1 && #[trigger] row_key(rows[i]) == k;
                assert(row_key(rows[i]) == k);
            }
        }
    } else {
        lemma_key_from(counted_first(rows, 0), k, 0);
    }
}

proof fn lemma_ledger(rows: Seq<Seq<char>>, stamp: nat, n: int, k: Seq<char>)
    requires
        0 <= n <= rows.len(),
        stamp <= u128::MAX,
        forall|i: int| 0 <= i < rows.len() ==> is_row(#[trigger] rows[i]),
    ensures
        ({
            let lines = manifest_lines(rows, stamp);
            &&& ledger_first(rows, n).len() == n
            &&& forall|i: int| 0 <= i < n ==> is_line(#[trigger] ledger_first(rows, n)[i])
            &&& forall|i: int| 0 <= i < n ==> #[trigger] ledger_first(rows, n)[i] == decimal(
                position_or_zero(positions_of(rows), rows[rows.len() - 1 - i]),
            ) + "\t"@ + rows[rows.len() - 1 - i]
        }),
    decreases n,
{
    if n > 0 {
        lemma_ledger(rows, stamp, n - 1, k);
        let row = rows[rows.len() - n];
        assert(is_row(row));
        let m = Saved { current: true, stamp: None, positions: Seq::empty() };
        lemma_ledger_row(position_or_zero(positions_of(rows), row), row, m);
        let before = ledger_first(rows, n - 1);
        let all = ledger_first(rows, n);
        assert forall|i: int| 0 <= i < n implies is_line(#[trigger] all[i]) by {
            if i < n - 1 {
                assert(all[i] == before[i]);
            }
        }
        assert forall|i: int| 0 <= i < n implies #[trigger] all[i] == decimal(
            position_or_zero(positions_of(rows), rows[rows.len() - 1 - i]),
        ) + "\t"@ + rows[rows.len() - 1 - i] by {
            if i < n - 1 {
                assert(all[i] == before[i]);
            }
        }
    }
}

proof fn lemma_saved_prefix(a: Seq<Seq<char>>, b: Seq<Seq<char>>, n: int)
    requires
        0 <= n <= a.len(),
        n <= b.len(),
        forall|i: int| 0 <= i < n ==> #[trigger] a[i] == b[i],
    ensures
        saved_first(a, n) == saved_first(b, n),
    decreases n,
{
    if n > 0 {
        lemma_saved_prefix(a, b, n - 1);
        assert(a[n - 1] == b[n - 1]);
    }
}

proof fn lemma_read_ledger(rows: Seq<Seq<char>>, stamp: nat, n: int, k: Seq<char>)
    requires
        0 <= n <= rows.len(),
        stamp <= u128::MAX,
        rows.len() <= usize::MAX,
        forall|i: int| 0 <= i < rows.len() ==> is_row(#[trigger] rows[i]),
    ensures
        ({
            let s = saved_first(manifest_lines(rows, stamp), n + 5);
            &&& s is Some
            &&& s->0.current
            &&& s->0.stamp == Some(stamp)
            &&& n > 0 ==> s->0.positions.len() > 0
            &&& found(s->0.positions, k) == (if exists|i: int|
                0 <= i < n && #[trigger] row_key(rows[rows.len() - 1 - i]) == k {
                found(positions_of(rows), k)
            } else {
                None
            })
        }),
    decreases n,
{
    let lines = manifest_lines(rows, stamp);
    let all = ledger_first(rows, rows.len() as int);
    lemma_ledger(rows, stamp, rows.len() as int, k);
    if n > 0 {
        lemma_read_ledger(rows, stamp, n - 1, k);
        let before = saved_first(lines, n + 4)->0;
        let row = rows[rows.len() - n];
        assert(is_row(row));
        let p = position_or_zero(positions_of(rows), row);
        assert(lines[n + 4] == all[n - 1]);
        assert(all[n - 1] == decimal(
            position_or_zero(positions_of(rows), rows[rows.len() - 1 - (n - 1)]),
        ) + "\t"@ + rows[rows.len() - 1 - (n - 1)]);
        lemma_ledger_row(p, row, before);
        insert_then_get(before.positions, row_key(row), p as usize, k);
        lemma_key_from(before.positions, row_key(row), 0);
        lemma_counted(rows, rows.len() as int, row_key(row));
        assert(row_key(rows[rows.len() - n]) == row_key(row));
        assert(found(positions_of(rows), row_key(row)) is Some);
        if row_key(row) == k {
            assert(row_key(rows[rows.len() - 1 - (n - 1)]) == k);
        } else if exists|i: int| 0 <= i < n && #[trigger] row_key(rows[rows.len() - 1 - i]) == k {
            let i = choose|i: int| 0 <= i < n && #[trigger] row_key(rows[rows.len() - 1 - i]) == k;
            assert(i < n - 1);
            assert(row_key(rows[rows.len() - 1 - i]) == k);
        }
    } else {
        lemma_head(stamp);
        let head = manifest_lines(Seq::empty(), stamp);
        assert forall|i: int| 0 <= i < 5 implies #[trigger] lines[i] == head[i] by {}
        lemma_saved_prefix(lines, head, 5);
        lemma_key_from(Seq::<(Seq<char>, usize)>::empty(), k, 0);
    }
}

/// A manifest that was written for a list is good for that list as long as its stamp
/// stays, and gives every position.
pub proof fn refreshed_manifest_is_valid(source: Seq<char>, stamp: nat, k: Seq<char>)
    requires
        rows_of(source).len() > 0,
        rows_of(source).len() <= usize::MAX,
        stamp <= u128::MAX,
    ensures
        ({
            let rows = rows_of(source);
            let p = positions_in(ended(manifest_lines(rows, stamp)), stamp);
            p is Some && found(p->0, k) == found(positions_of(rows), k)
        }),
{
    let rows = rows_of(source);
    text::lemma_lines_have_no_feed(source, 0);
    lemma_rows_are_rows(lines_of(source), lines_of(source).len() as int);
    let n = rows.len() as int;
    let lines = manifest_lines(rows, stamp);
    lemma_ledger(rows, stamp, n, k);
    lemma_head(stamp);
    let head = manifest_lines(Seq::empty(), stamp);
    assert forall|i: int| 0 <= i < lines.len() implies is_line(#[trigger] lines[i]) by {
        if i < 5 {
            assert(lines[i] == head[i]);
        } else {
            assert(lines[i] == ledger_first(rows, n)[i - 5]);
        }
    }
    text::lemma_lines_read_back(lines);
    lemma_read_ledger(rows, stamp, n, k);
    lemma_counted(rows, n, k);
    if exists|i: int| 0 <= i < n && #[trigger] row_key(rows[i]) == k {
        let i = choose|i: int| 0 <= i < n && #[trigger] row_key(rows[i]) == k;
        assert(row_key(rows[n - 1 - (n - 1 - i)]) == k);
    } else if exists|i: int| 0 <= i < n && #[trigger] row_key(rows[n - 1 - i]) == k {
        let i = choose|i: int| 0 <= i < n && #[trigger] row_key(rows[n - 1 - i]) == k;
        assert(row_key(rows[n - 1 - i]) == k);
    }
}

/// The list's last row has position one: positions count from the bottom of the file.
pub proof fn last_row_comes_first(rows: Seq<Seq<char>>)
    requires
        rows.len() > 0,
    ensures
        found(positions_of(rows), row_key(rows.last())) == Some(1usize),
{
    let n = rows.len() as int;
    insert_then_get(
        counted_first(rows, n - 1),
        row_key(rows[n - 1]),
        (rows.len() - (n - 1)) as usize,
        row_key(rows[n - 1]),
    );
}

} // verus!
