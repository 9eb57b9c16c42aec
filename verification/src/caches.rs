//! What the caches keep is read back as it was: the census of the plugins and the content
//! index.
use vstd::prelude::*;
#[allow(unused_imports)]
use crate::content_index::{cache_lines, content_row, fact_texts, facts_first, header, index_of, kept_first, kept_of, ContentView, Contents, FactView};
#[allow(unused_imports)]
use crate::list::firsts;
#[allow(unused_imports)]
use crate::map::distinct_keys;
#[allow(unused_imports)]
use crate::plugins::{census_fields, census_from_text, census_head, census_row, census_rows, census_text, count_texts, counts_from, counts_in, counts_joined, fingerprint, names_from, row_from, rows_from, CensusView, Counts, PluginView};
#[allow(unused_imports)]
use crate::readback::{gathered, lemma_decimal, lemma_gathered, lemma_number_read_back};
#[allow(unused_imports)]
use crate::sort::{sorting_forgets_the_order, sorting_orders_and_keeps};
#[allow(unused_imports)]
use crate::text::{contains_text, decimal, digit, ended, find_from, hex_fixed, is_digit, is_line, joined, joined_first, lemma_find, lemma_lines_read_back, lemma_rfind, occurs_at, rfind_from, split_last, split_on};

verus! {

// ---- separators ----

proof fn lemma_at(s: Seq<char>, c: char, i: int)
    ensures
        occurs_at(s, seq![c], i) <==> 0 <= i < s.len() && s[i] == c,
{
    if 0 <= i < s.len() {
        assert(s.subrange(i, i + 1) =~= seq![s[i]]);
        assert(seq![s[i]][0] == s[i] && seq![c][0] == c);
    }
}

/// One more piece behind a separator is one more piece of the split.
proof fn lemma_split_grows(s: Seq<char>, c: char, t: Seq<char>)
    requires
        !t.contains(c),
    ensures
        split_on(s + seq![c] + t, seq![c]) == split_on(s, seq![c]).push(t),
    decreases s.len(),
{
    let p = seq![c];
    let whole = s + p + t;
    lemma_find(whole, p, 0);
    lemma_find(s, p, 0);
    lemma_at(whole, c, s.len() as int);
    let k = find_from(whole, p, 0)->0;
    lemma_at(whole, c, k);
    match find_from(s, p, 0) {
        Some(i) => {
            lemma_at(s, c, i);
            lemma_at(whole, c, i);
            if k < i {
                lemma_at(s, c, k);
            }
            assert(k == i);
            assert(whole.take(k) =~= s.take(i));
            assert(whole.skip(k + 1) =~= s.skip(i + 1) + p + t);
            lemma_split_grows(s.skip(i + 1), c, t);
            assert(split_on(whole, p) =~= split_on(s, p).push(t));
        },
        None => {
            if k < s.len() {
                lemma_at(s, c, k);
            }
            assert(k == s.len());
            assert(whole.take(k) =~= s);
            assert(whole.skip(k + 1) =~= t);
            lemma_split_whole(t, c);
            assert(split_on(whole, p) =~= split_on(s, p).push(t));
        },
    }
}

proof fn lemma_split_whole(t: Seq<char>, c: char)
    requires
        !t.contains(c),
    ensures
        split_on(t, seq![c]) == seq![t],
{
    lemma_find(t, seq![c], 0);
    if find_from(t, seq![c], 0) is Some {
        lemma_at(t, c, find_from(t, seq![c], 0)->0);
    }
}

proof fn lemma_split_joined_first(parts: Seq<Seq<char>>, c: char, n: int)
    requires
        1 <= n <= parts.len(),
        forall|i: int| 0 <= i < parts.len() ==> !(#[trigger] parts[i]).contains(c),
    ensures
        split_on(joined_first(parts, seq![c], n), seq![c]) == parts.take(n),
    decreases n,
{
    assert(!parts[n - 1].contains(c));
    if n == 1 {
        lemma_split_whole(parts[0], c);
        assert(parts.take(1) =~= seq![parts[0]]);
    } else {
        lemma_split_joined_first(parts, c, n - 1);
        lemma_split_grows(joined_first(parts, seq![c], n - 1), c, parts[n - 1]);
        assert(parts.take(n) =~= parts.take(n - 1).push(parts[n - 1]));
    }
}

/// Parts that are joined with a separator none of them holds are split into the same parts.
pub proof fn joined_parts_are_split(parts: Seq<Seq<char>>, c: char)
    requires
        parts.len() > 0,
        forall|i: int| 0 <= i < parts.len() ==> !(#[trigger] parts[i]).contains(c),
    ensures
        split_on(joined(parts, seq![c]), seq![c]) == parts,
{
    lemma_split_joined_first(parts, c, parts.len() as int);
    assert(parts.take(parts.len() as int) =~= parts);
}

proof fn lemma_last_split(a: Seq<char>, c: char, b: Seq<char>)
    requires
        !b.contains(c),
    ensures
        split_last(a + seq![c] + b, seq![c]) == Some((a, b)),
{
    let s = a + seq![c] + b;
    let p = seq![c];
    lemma_rfind(s, p, s.len() as int);
    lemma_at(s, c, a.len() as int);
    let k = rfind_from(s, p, s.len() as int)->0;
    lemma_at(s, c, k);
    if k > a.len() {
        assert(s[k] == b[k - a.len() - 1]);
    }
    assert(s.take(k) =~= a);
    assert(s.skip(k + 1) =~= b);
}

/// What the parts and the separator do not hold, the joined text does not hold.
proof fn lemma_joined_without(parts: Seq<Seq<char>>, sep: Seq<char>, c: char, n: int)
    requires
        0 <= n <= parts.len(),
        !sep.contains(c),
        forall|i: int| 0 <= i < parts.len() ==> !(#[trigger] parts[i]).contains(c),
    ensures
        !joined_first(parts, sep, n).contains(c),
    decreases n,
{
    if n == 1 {
        assert(!parts[0].contains(c));
    } else if n > 1 {
        lemma_joined_without(parts, sep, c, n - 1);
        let a = joined_first(parts, sep, n - 1);
        let b = parts[n - 1];
        let s = a + sep + b;
        if s.contains(c) {
            let i = choose|i: int| 0 <= i < s.len() && s[i] == c;
            if i < a.len() {
                assert(a[i] == c);
            } else if i < a.len() + sep.len() {
                assert(sep[i - a.len()] == c);
            } else {
                assert(b[i - a.len() - sep.len()] == c);
                assert(parts[n - 1].contains(c));
            }
        }
    }
}

proof fn lemma_joined_size(parts: Seq<Seq<char>>, sep: Seq<char>, n: int)
    requires
        1 <= n <= parts.len(),
    ensures
        joined_first(parts, sep, n).len() >= parts[n - 1].len(),
{
}

/// A text that can stand in a field: no tab, no line feed, no comma.
pub open spec fn plain(s: Seq<char>) -> bool {
    !s.contains('\t') && !s.contains('\n') && !s.contains(',')
}

/// A text that can be one of several between tabs on a line.
pub open spec fn one_field(s: Seq<char>) -> bool {
    !s.contains('\t') && !s.contains('\n')
}

proof fn lemma_decimal_plain(n: nat)
    ensures
        plain(decimal(n)),
        !decimal(n).contains(':'),
        decimal(n).len() > 0,
{
    lemma_decimal(n);
    let s = decimal(n);
    assert forall|i: int| 0 <= i < s.len() implies is_digit(#[trigger] s[i]) by {}
    if s.contains('\t') || s.contains('\n') || s.contains(',') || s.contains(':') {
        let i = choose|i: int|
            0 <= i < s.len() && (s[i] == '\t' || s[i] == '\n' || s[i] == ',' || s[i] == ':');
        assert(is_digit(s[i]));
    }
}

/// A name and a count, with a colon between them.
proof fn lemma_pair_plain(name: Seq<char>, n: nat)
    requires
        plain(name),
    ensures
        plain(name + ":"@ + decimal(n)),
        split_last(name + ":"@ + decimal(n), ":"@) == Some((name, decimal(n))),
        (name + ":"@ + decimal(n)).len() > 0,
{
    reveal_strlit(":");
    assert(":"@ =~= seq![':']);
    lemma_decimal_plain(n);
    lemma_last_split(name, ':', decimal(n));
    let s = name + ":"@ + decimal(n);
    assert forall|c: char| s.contains(c) implies name.contains(c) || c == ':' || decimal(
        n,
    ).contains(c) by {
        let i = choose|i: int| 0 <= i < s.len() && s[i] == c;
        if i < name.len() {
            assert(name[i] == c);
        } else if i == name.len() {
            assert(c == ':');
        } else {
            assert(decimal(n)[i - name.len() - 1] == c);
        }
    }
}

proof fn lemma_separators()
    ensures
        "\t"@ == seq!['\t'],
        ","@ == seq![','],
        ":"@ == seq![':'],
{
    reveal_strlit("\t");
    reveal_strlit(",");
    reveal_strlit(":");
    assert("\t"@ =~= seq!['\t']);
    assert(","@ =~= seq![',']);
    assert(":"@ =~= seq![':']);
}

proof fn lemma_hex_line(n: nat, width: nat)
    ensures
        !hex_fixed(n, width).contains('\n'),
        !hex_fixed(n, width).contains('\r'),
    decreases width,
{
    if width > 0 {
        lemma_hex_line(n / 16, (width - 1) as nat);
        let a = hex_fixed(n / 16, (width - 1) as nat);
        let d = digit((n % 16) as int);
        assert(d != '\n' && d != '\r');
        let s = a.push(d);
        if s.contains('\n') {
            let i = choose|i: int| 0 <= i < s.len() && s[i] == '\n';
            assert(a[i] == '\n');
        }
        if s.contains('\r') {
            let i = choose|i: int| 0 <= i < s.len() && s[i] == '\r';
            assert(a[i] == '\r');
        }
    }
}

pub open spec fn sixteens(width: nat) -> nat
    decreases width,
{
    if width == 0 {
        1
    } else {
        16 * sixteens((width - 1) as nat)
    }
}

/// Numbers that fit the width differ in their digits.
proof fn lemma_hex_apart(a: nat, b: nat, width: nat)
    requires
        a < sixteens(width),
        b < sixteens(width),
        hex_fixed(a, width) == hex_fixed(b, width),
    ensures
        a == b,
    decreases width,
{
    if width > 0 {
        let w = (width - 1) as nat;
        let x = hex_fixed(a, width);
        let y = hex_fixed(b, width);
        assert(x.last() == digit((a % 16) as int) && y.last() == digit((b % 16) as int));
        assert(x.drop_last() =~= hex_fixed(a / 16, w));
        assert(y.drop_last() =~= hex_fixed(b / 16, w));
        lemma_hex_apart(a / 16, b / 16, w);
    }
}

/// Two fingerprints are written differently.
proof fn lemma_fingerprints_apart(a: u64, b: u64)
    requires
        a != b,
    ensures
        hex_fixed(a as nat, 16) != hex_fixed(b as nat, 16),
{
    reveal_with_fuel(sixteens, 17);
    assert(sixteens(16) == 0x1_0000_0000_0000_0000nat);
    if hex_fixed(a as nat, 16) == hex_fixed(b as nat, 16) {
        lemma_hex_apart(a as nat, b as nat, 16);
    }
}

/// A fixed text in front of a fingerprint can stand as a line.
proof fn lemma_head_line(front: Seq<char>, n: nat)
    requires
        !front.contains('\n'),
        !front.contains('\r'),
    ensures
        is_line(front + hex_fixed(n, 16)),
{
    lemma_hex_line(n, 16);
    let h = hex_fixed(n, 16);
    let s = front + h;
    if s.contains('\n') {
        let i = choose|i: int| 0 <= i < s.len() && s[i] == '\n';
        if i < front.len() {
            assert(front[i] == '\n');
        } else {
            assert(h[i - front.len()] == '\n');
        }
    }
    if s.len() > 0 && s.last() == '\r' {
        if h.len() > 0 {
            assert(h.last() == '\r');
            assert(h.contains('\r'));
        } else {
            assert(front.last() == '\r');
            assert(front.contains('\r'));
        }
    }
}

// ---- the census ----

pub open spec fn plain_counts(counts: Counts) -> bool {
    forall|i: int| 0 <= i < counts.len() ==> plain((#[trigger] counts[i]).0)
}

/// What a census row can keep: the names of the mod and the plugin stand between tabs,
/// masters and counts between commas too, and a master has a name.
pub open spec fn row_keeps(name: Seq<char>, p: PluginView) -> bool {
    &&& one_field(name)
    &&& one_field(p.plugin)
    &&& forall|i: int| 0 <= i < p.masters.len() ==> plain(#[trigger] p.masters[i]) && p.masters[i].len() > 0
    &&& plain_counts(p.groups)
    &&& plain_counts(p.records)
    &&& plain_counts(p.keywords)
}

proof fn lemma_count_texts(counts: Counts, n: int)
    requires
        0 <= n <= counts.len(),
        plain_counts(counts),
    ensures
        count_texts(counts, n).len() == n,
        forall|i: int|
            0 <= i < n ==> plain(#[trigger] count_texts(counts, n)[i]) && count_texts(
                counts,
                n,
            )[i].len() > 0,
        counts_in(count_texts(counts, n), n) == counts.take(n),
    decreases n,
{
    if n > 0 {
        lemma_count_texts(counts, n - 1);
        let before = count_texts(counts, n - 1);
        let texts = count_texts(counts, n);
        assert(plain(counts[n - 1].0));
        lemma_pair_plain(counts[n - 1].0, counts[n - 1].1 as nat);
        lemma_number_read_back(counts[n - 1].1 as nat, u32::MAX as nat);
        assert forall|i: int| 0 <= i < n implies plain(#[trigger] texts[i]) && texts[i].len() > 0 by {
            if i < n - 1 {
                assert(texts[i] == before[i]);
            }
        }
        lemma_counts_prefix(texts, before, n - 1);
        assert(counts.take(n) =~= counts.take(n - 1).push(counts[n - 1]));
    } else {
        assert(counts.take(0) =~= Seq::empty());
    }
}

proof fn lemma_counts_prefix(a: Seq<Seq<char>>, b: Seq<Seq<char>>, n: int)
    requires
        n <= a.len(),
        n <= b.len(),
        forall|i: int| 0 <= i < n ==> #[trigger] a[i] == b[i],
    ensures
        counts_in(a, n) == counts_in(b, n),
    decreases n,
{
    if n > 0 {
        lemma_counts_prefix(a, b, n - 1);
        assert(a[n - 1] == b[n - 1]);
    }
}

proof fn lemma_counts_kept(counts: Counts)
    requires
        plain_counts(counts),
    ensures
        counts_from(counts_joined(counts, ","@)) == counts,
        !counts_joined(counts, ","@).contains('\t'),
        !counts_joined(counts, ","@).contains('\n'),
        counts.len() > 0 ==> counts_joined(counts, ","@).len() > 0 && is_digit(
            counts_joined(counts, ","@).last(),
        ),
{
    lemma_separators();
    let n = counts.len() as int;
    let texts = count_texts(counts, n);
    lemma_count_texts(counts, n);
    assert(!seq![','].contains('\t') && !seq![','].contains('\n'));
    assert forall|i: int| 0 <= i < texts.len() implies !(#[trigger] texts[i]).contains('\t')
        && !texts[i].contains('\n') && !texts[i].contains(',') by {
        assert(plain(texts[i]));
    }
    lemma_joined_without(texts, ","@, '\t', n);
    lemma_joined_without(texts, ","@, '\n', n);
    assert(counts.take(n) =~= counts);
    if n > 0 {
        joined_parts_are_split(texts, ',');
        lemma_joined_size(texts, ","@, n);
        assert(texts[n - 1].len() > 0);
        let s = joined(texts, ","@);
        let d = decimal(counts[n - 1].1 as nat);
        lemma_decimal(counts[n - 1].1 as nat);
        assert(texts[n - 1] == counts[n - 1].0 + ":"@ + d);
        assert(s.last() == texts[n - 1].last());
        assert(texts[n - 1].last() == d.last());
        assert(is_digit(d[d.len() - 1]));
    }
}

proof fn lemma_names_kept(names: Seq<Seq<char>>)
    requires
        forall|i: int| 0 <= i < names.len() ==> plain(#[trigger] names[i]) && names[i].len() > 0,
    ensures
        names_from(joined(names, ","@)) == names,
        !joined(names, ","@).contains('\t'),
        !joined(names, ","@).contains('\n'),
{
    lemma_separators();
    let n = names.len() as int;
    assert(!seq![','].contains('\t') && !seq![','].contains('\n'));
    assert forall|i: int| 0 <= i < names.len() implies !(#[trigger] names[i]).contains('\t')
        && !names[i].contains('\n') && !names[i].contains(',') by {
        assert(plain(names[i]));
    }
    lemma_joined_without(names, ","@, '\t', n);
    lemma_joined_without(names, ","@, '\n', n);
    if n > 0 {
        joined_parts_are_split(names, ',');
        lemma_joined_size(names, ","@, n);
        assert(names[n - 1].len() > 0);
    } else {
        assert(names =~= Seq::empty());
    }
}

/// The flags of a row say which a plugin has.
proof fn lemma_flags(esm: bool, esl: bool)
    ensures
        ({
            let s = (if esm {
                "e"@
            } else {
                ""@
            }) + (if esl {
                "l"@
            } else {
                ""@
            });
            &&& contains_text(s, "e"@) == esm
            &&& contains_text(s, "l"@) == esl
            &&& plain(s)
        }),
{
    reveal_strlit("e");
    reveal_strlit("l");
    reveal_strlit("");
    assert("e"@ =~= seq!['e']);
    assert("l"@ =~= seq!['l']);
    assert(""@ =~= Seq::<char>::empty());
    let s = (if esm {
        "e"@
    } else {
        ""@
    }) + (if esl {
        "l"@
    } else {
        ""@
    });
    assert forall|i: int| 0 <= i < s.len() implies (s[i] == 'e' && esm) || (s[i] == 'l' && esl) by {}
    if esm {
        lemma_at(s, 'e', 0);
        assert(occurs_at(s, "e"@, 0));
    } else if contains_text(s, "e"@) {
        let i = choose|i: int| #[trigger] occurs_at(s, "e"@, i);
        lemma_at(s, 'e', i);
    }
    if esl {
        lemma_at(s, 'l', s.len() - 1);
        assert(occurs_at(s, "l"@, s.len() - 1));
    } else if contains_text(s, "l"@) {
        let i = choose|i: int| #[trigger] occurs_at(s, "l"@, i);
        lemma_at(s, 'l', i);
    }
}

proof fn lemma_row_kept(name: Seq<char>, p: PluginView)
    requires
        row_keeps(name, p),
    ensures
        row_from(census_row(name, p)) == Some((name, p)),
        is_line(census_row(name, p)),
{
    lemma_separators();
    let f = census_fields(name, p);
    lemma_flags(p.is_esm, p.is_esl);
    lemma_decimal_plain(p.record_count as nat);
    lemma_number_read_back(p.record_count as nat, u32::MAX as nat);
    lemma_names_kept(p.masters);
    lemma_counts_kept(p.groups);
    lemma_counts_kept(p.records);
    lemma_counts_kept(p.keywords);
    assert forall|i: int| 0 <= i < f.len() implies !(#[trigger] f[i]).contains('\t')
        && !f[i].contains('\n') by {
        assert(i == 0 || i == 1 || i == 2 || i == 3 || i == 4 || i == 5 || i == 6 || i == 7);
    }
    joined_parts_are_split(f, '\t');
    assert(!seq!['\t'].contains('\n'));
    lemma_joined_without(f, "\t"@, '\n', 8);
    let s = census_row(name, p);
    assert(s == joined_first(f, "\t"@, 7) + "\t"@ + f[7]);
    if f[7].len() > 0 {
        assert(s.last() == f[7].last());
        if p.keywords.len() == 0 {
            assert(count_texts(p.keywords, 0).len() == 0);
        }
    } else {
        assert(s.last() == '\t');
    }
    let q = (row_from(s)->0).1;
    assert(q =~= p);
}

proof fn lemma_rows(census: CensusView, n: int)
    requires
        0 <= n <= census.len(),
        forall|i: int|
            0 <= i < census.len() ==> row_keeps((#[trigger] census[i]).0, census[i].2),
    ensures
        census_rows(census, n).len() == n,
        forall|i: int|
            0 <= i < n ==> is_line(#[trigger] census_rows(census, n)[i]) && row_from(
                census_rows(census, n)[i],
            ) == Some((census[i].0, census[i].2)),
    decreases n,
{
    if n > 0 {
        lemma_rows(census, n - 1);
        assert(row_keeps(census[n - 1].0, census[n - 1].2));
        lemma_row_kept(census[n - 1].0, census[n - 1].2);
        let before = census_rows(census, n - 1);
        let rows = census_rows(census, n);
        assert forall|i: int| 0 <= i < n implies is_line(#[trigger] rows[i]) && row_from(rows[i])
            == Some((census[i].0, census[i].2)) by {
            if i < n - 1 {
                assert(rows[i] == before[i]);
            }
        }
    }
}

/// The mods and plugins of a census, without the sections.
pub open spec fn without_sections(census: CensusView) -> Seq<(Seq<char>, PluginView)> {
    Seq::new(census.len(), |i: int| (census[i].0, census[i].2))
}

proof fn lemma_rows_read(lines: Seq<Seq<char>>, rows: Seq<(Seq<char>, PluginView)>, n: int)
    requires
        1 <= n <= lines.len(),
        lines.len() == rows.len() + 1,
        forall|i: int| 0 < i < lines.len() ==> row_from(#[trigger] lines[i]) == Some(rows[i - 1]),
    ensures
        rows_from(lines, n) == Some(rows.take(n - 1)),
    decreases n,
{
    if n > 1 {
        lemma_rows_read(lines, rows, n - 1);
        assert(row_from(lines[n - 1]) == Some(rows[n - 2]));
        assert(rows.take(n - 1) =~= rows.take(n - 2).push(rows[n - 2]));
    } else {
        assert(rows.take(0) =~= Seq::empty());
    }
}

/// A census that was saved is loaded as it was, for the fingerprint that it was saved for,
/// and for no other. A tab or a line feed in a name, or a comma in one that stands in a
/// list, would make several of it.
pub proof fn saved_census_is_loaded(fp: u64, census: CensusView)
    requires
        forall|i: int|
            0 <= i < census.len() ==> row_keeps((#[trigger] census[i]).0, census[i].2),
    ensures
        census_from_text(census_text(fp, census), fp) == Some(without_sections(census)),
        forall|other: u64|
            other != fp ==> #[trigger] census_from_text(census_text(fp, census), other) is None,
{
    let n = census.len() as int;
    let rows = census_rows(census, n);
    let head = census_head(fp);
    let lines = seq![head] + rows;
    let front = "#modslut-census-v3 "@;
    lemma_rows(census, n);
    assert(!front.contains('\n') && !front.contains('\r')) by {
        reveal_strlit("#modslut-census-v3 ");
    }
    lemma_head_line(front, fp as nat);
    assert forall|i: int| 0 <= i < lines.len() implies is_line(#[trigger] lines[i]) by {
        if i > 0 {
            assert(lines[i] == rows[i - 1]);
        }
    }
    lemma_lines_read_back(lines);
    assert(lines[0] == front + hex_fixed(fp as nat, 16));
    assert(lines[0].take(front.len() as int) =~= front);
    assert(lines[0].skip(front.len() as int) =~= hex_fixed(fp as nat, 16));
    let kept = without_sections(census);
    assert forall|i: int| 0 < i < lines.len() implies row_from(#[trigger] lines[i]) == Some(
        kept[i - 1],
    ) by {
        assert(lines[i] == rows[i - 1]);
    }
    lemma_rows_read(lines, kept, lines.len() as int);
    assert(kept.take(lines.len() - 1) =~= kept);
    assert forall|other: u64| other != fp implies #[trigger] census_from_text(
        census_text(fp, census),
        other,
    ) is None by {
        lemma_fingerprints_apart(fp, other);
    }
}

// ---- the content index ----

/// What a row of the index can keep: the name of the mod stands between tabs, concepts
/// between commas too.
pub open spec fn content_keeps(name: Seq<char>, c: ContentView) -> bool {
    &&& one_field(name)
    &&& c.plugins <= usize::MAX
    &&& forall|i: int| 0 <= i < c.facts.len() ==> plain((#[trigger] c.facts[i]).concept)
}

proof fn lemma_facts_read(facts: Seq<FactView>, items: Seq<Seq<char>>, n: int)
    requires
        0 <= n <= facts.len(),
        items == fact_texts(facts),
        forall|i: int| 0 <= i < facts.len() ==> plain((#[trigger] facts[i]).concept),
    ensures
        facts_first(items, n) == facts.take(n),
        forall|i: int| 0 <= i < n ==> plain(#[trigger] items[i]),
        n > 0 ==> is_digit(items[n - 1].last()) && items[n - 1].len() > 0,
    decreases n,
{
    if n > 0 {
        lemma_facts_read(facts, items, n - 1);
        let x = facts[n - 1];
        assert(plain(facts[n - 1].concept));
        lemma_pair_plain(x.concept, x.confidence as nat);
        lemma_number_read_back(x.confidence as nat, 255);
        lemma_decimal(x.confidence as nat);
        let d = decimal(x.confidence as nat);
        assert(items[n - 1] == x.concept + ":"@ + d);
        assert(items[n - 1].last() == d.last());
        assert(is_digit(d[d.len() - 1]));
        assert forall|i: int| 0 <= i < n implies plain(#[trigger] items[i]) by {}
        assert(facts.take(n) =~= facts.take(n - 1).push(x));
    } else {
        assert(facts.take(0) =~= Seq::empty());
    }
}

proof fn lemma_content_kept(name: Seq<char>, c: ContentView)
    requires
        content_keeps(name, c),
    ensures
        kept_of(content_row((name, c))) == Some((name, c)),
        is_line(content_row((name, c))),
{
    lemma_separators();
    let items = fact_texts(c.facts);
    let n = items.len() as int;
    lemma_facts_read(c.facts, items, n);
    assert(c.facts.take(n) =~= c.facts);
    lemma_decimal_plain(c.plugins);
    lemma_number_read_back(c.plugins, usize::MAX as nat);
    let listed = joined(items, ","@);
    assert(!seq![','].contains('\t') && !seq![','].contains('\n'));
    assert forall|i: int| 0 <= i < items.len() implies !(#[trigger] items[i]).contains('\t')
        && !items[i].contains('\n') && !items[i].contains(',') by {
        assert(plain(items[i]));
    }
    lemma_joined_without(items, ","@, '\t', n);
    lemma_joined_without(items, ","@, '\n', n);
    let f = seq![name, decimal(c.plugins), listed];
    let s = content_row((name, c));
    assert(joined_first(f, "\t"@, 1) == name);
    assert(joined_first(f, "\t"@, 2) == name + "\t"@ + decimal(c.plugins));
    assert(joined_first(f, "\t"@, 3) == name + "\t"@ + decimal(c.plugins) + "\t"@ + listed);
    assert(s == joined(f, "\t"@));
    assert forall|i: int| 0 <= i < f.len() implies !(#[trigger] f[i]).contains('\t')
        && !f[i].contains('\n') by {
        assert(i == 0 || i == 1 || i == 2);
    }
    joined_parts_are_split(f, '\t');
    assert(!seq!['\t'].contains('\n'));
    lemma_joined_without(f, "\t"@, '\n', 3);
    if n > 0 {
        joined_parts_are_split(items, ',');
        lemma_joined_size(items, ","@, n);
        assert(listed.last() == items[n - 1].last());
        assert(s.last() == listed.last());
    } else {
        assert(listed =~= Seq::<char>::empty());
        assert(s.last() == '\t');
        lemma_split_whole(listed, ',');
        lemma_rfind(listed, ":"@, 0);
        if rfind_from(listed, ":"@, 0) is Some {
            lemma_at(listed, ':', rfind_from(listed, ":"@, 0)->0);
        }
        assert(facts_first(seq![listed], 1) =~= facts_first(seq![listed], 0));
        assert(c.facts =~= Seq::empty());
    }
    assert((kept_of(s)->0).1 =~= c);
}

proof fn lemma_kept_read(lines: Seq<Seq<char>>, entries: Contents, n: int)
    requires
        1 <= n <= lines.len(),
        lines.len() == entries.len() + 1,
        forall|i: int| 0 < i < lines.len() ==> kept_of(#[trigger] lines[i]) == Some(entries[i - 1]),
    ensures
        kept_first(lines, n) == Some(gathered(entries, n - 1)),
    decreases n,
{
    if n > 1 {
        lemma_kept_read(lines, entries, n - 1);
        assert(kept_of(lines[n - 1]) == Some(entries[n - 2]));
    }
}

/// An index that was saved is loaded as it was, for the fingerprint that it was saved for,
/// and for no other. A tab or a line feed in a name, or a comma in a concept, would make
/// several of it.
pub proof fn saved_index_is_loaded(entries: Contents, fingerprint: u64)
    requires
        distinct_keys(entries),
        forall|i: int|
            0 <= i < entries.len() ==> content_keeps((#[trigger] entries[i]).0, entries[i].1),
    ensures
        index_of(ended(cache_lines(entries, fingerprint)), fingerprint) == Some(entries),
        forall|other: u64|
            other != fingerprint ==> #[trigger] index_of(
                ended(cache_lines(entries, fingerprint)),
                other,
            ) is None,
{
    let lines = cache_lines(entries, fingerprint);
    let front = "#modslut-content-index-v4 "@;
    assert(!front.contains('\n') && !front.contains('\r')) by {
        reveal_strlit("#modslut-content-index-v4 ");
    }
    lemma_head_line(front, fingerprint as nat);
    assert forall|i: int| 0 < i < lines.len() implies is_line(#[trigger] lines[i]) && kept_of(
        lines[i],
    ) == Some(entries[i - 1]) by {
        let e = entries[i - 1];
        assert(content_keeps(e.0, e.1));
        lemma_content_kept(e.0, e.1);
        assert(lines[i] == content_row(entries[i - 1]));
        assert(content_row(entries[i - 1]) == content_row((e.0, e.1)));
    }
    assert forall|i: int| 0 <= i < lines.len() implies is_line(#[trigger] lines[i]) by {
        if i == 0 {
            assert(lines[0] == header(fingerprint));
        }
    }
    lemma_lines_read_back(lines);
    lemma_kept_read(lines, entries, lines.len() as int);
    lemma_gathered(entries, entries.len() as int);
    assert(entries.take(entries.len() as int) =~= entries);
    assert forall|other: u64| other != fingerprint implies #[trigger] index_of(
        ended(lines),
        other,
    ) is None by {
        lemma_fingerprints_apart(fingerprint, other);
        let h = header(other);
        assert(lines[0] == header(fingerprint));
        assert(lines[0].skip(front.len() as int) =~= hex_fixed(fingerprint as nat, 16));
        assert(h.skip(front.len() as int) =~= hex_fixed(other as nat, 16));
    }
}

// ---- fingerprints ----

proof fn lemma_same_fingerprint(
    a: Seq<(Seq<char>, Seq<char>)>,
    b: Seq<(Seq<char>, Seq<char>)>,
)
    requires
        firsts(a).to_multiset() == firsts(b).to_multiset(),
    ensures
        fingerprint(a) == fingerprint(b),
{
    sorting_forgets_the_order(firsts(a), firsts(b));
    sorting_orders_and_keeps::<String>(firsts(a));
    sorting_orders_and_keeps::<String>(firsts(b));
    assert(a.len() == firsts(a).len() && b.len() == firsts(b).len());
}

/// The fingerprint of the enabled mods is that of their names, in whatever order and
/// under whatever sections they stand: a sort never makes the census stale.
pub proof fn sorting_keeps_the_census_fresh(
    a: Seq<(Seq<char>, Seq<char>)>,
    b: Seq<(Seq<char>, Seq<char>)>,
    census: CensusView,
)
    requires
        firsts(a).to_multiset() == firsts(b).to_multiset(),
        forall|i: int|
            0 <= i < census.len() ==> row_keeps((#[trigger] census[i]).0, census[i].2),
    ensures
        fingerprint(a) == fingerprint(b),
        census_from_text(census_text(fingerprint(a), census), fingerprint(b)) == Some(
            without_sections(census),
        ),
{
    lemma_same_fingerprint(a, b);
    saved_census_is_loaded(fingerprint(a), census);
}

} // verus!
