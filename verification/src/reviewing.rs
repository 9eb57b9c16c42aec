//! What a review of the roadmap comes to: a concept that was given a separator is mapped
//! to it, and to nothing else. What the review shows are the mappings, each once.
use vstd::prelude::*;
#[allow(unused_imports)]
use crate::keys::{header_of, is_comment, lemma_run_end, plain_words_from, plain_words_of, run_end, section_after, slug_of, with_item};
#[allow(unused_imports)]
use crate::map::{distinct_keys, found, insert_then_get, inserted, key_from, lemma_key_at, lemma_key_from};
#[allow(unused_imports)]
use crate::readback::{lemma_found_permuted, lemma_joined_lines, lemma_keys_permuted, lemma_split_at, lemma_trim_padded, lemma_trim_tight, lemma_trimmed_cut, tight};
#[allow(unused_imports)]
use crate::section_map::{header_place, is_map_row, is_multi_row, kept_first, none_yet, reviewed_lines, roadmap_of, routes_first, rows_first, section_end};
#[allow(unused_imports)]
use crate::sort::{sorted, sorting_orders_and_keeps, Ranked};
#[allow(unused_imports)]
use crate::text::{ascii_lowered, before, find_from, is_alnum, is_white, joined, joined_first, lemma_before_total, lemma_find, lemma_lines_have_no_feed, lines_of, lower_char, split_first, trimmed, without_cr};

verus! {

// ---- slugs ----

/// A word of a slug: letters and digits in lower case.
pub open spec fn is_word(w: Seq<char>) -> bool {
    w.len() > 0 && forall|i: int|
        0 <= i < w.len() ==> is_alnum(#[trigger] w[i]) && lower_char(w[i]) == w[i]
}

proof fn lemma_run_cat(s: Seq<char>, sep: char, t: Seq<char>, i: int)
    requires
        !is_alnum(sep),
        0 <= i <= s.len(),
    ensures
        run_end(s + seq![sep] + t, i) == run_end(s, i),
    decreases s.len() - i,
{
    let whole = s + seq![sep] + t;
    if i < s.len() {
        assert(whole[i] == s[i]);
        if is_alnum(s[i]) {
            lemma_run_cat(s, sep, t, i + 1);
        }
    } else {
        assert(whole[i] == sep);
    }
}

proof fn lemma_run_shift(pre: Seq<char>, t: Seq<char>, i: int)
    requires
        0 <= i <= t.len(),
    ensures
        run_end(pre + t, pre.len() + i) == pre.len() + run_end(t, i),
    decreases t.len() - i,
{
    if i < t.len() {
        assert((pre + t)[pre.len() + i] == t[i]);
        if is_alnum(t[i]) {
            lemma_run_shift(pre, t, i + 1);
        }
    }
}

proof fn lemma_words_shift(pre: Seq<char>, t: Seq<char>, i: int)
    requires
        0 <= i <= t.len(),
    ensures
        plain_words_from(pre + t, pre.len() + i) == plain_words_from(t, i),
    decreases t.len() - i,
{
    let whole = pre + t;
    if i < t.len() {
        assert(whole[pre.len() + i] == t[i]);
        if is_alnum(t[i]) {
            lemma_run_shift(pre, t, i);
            lemma_run_end(t, i);
            let e = run_end(t, i);
            assert(whole.subrange(pre.len() + i, pre.len() + e) =~= t.subrange(i, e));
            lemma_words_shift(pre, t, e);
        } else {
            lemma_words_shift(pre, t, i + 1);
        }
    }
}

/// The words on both sides of a separator.
proof fn lemma_words_cat(s: Seq<char>, sep: char, t: Seq<char>, i: int)
    requires
        !is_alnum(sep),
        0 <= i <= s.len(),
    ensures
        plain_words_from(s + seq![sep] + t, i) == plain_words_from(s, i) + plain_words_of(t),
    decreases s.len() - i,
{
    let whole = s + seq![sep] + t;
    if i < s.len() {
        assert(whole[i] == s[i]);
        if is_alnum(s[i]) {
            lemma_run_cat(s, sep, t, i);
            lemma_run_end(s, i);
            let e = run_end(s, i);
            assert(whole.subrange(i, e) =~= s.subrange(i, e));
            lemma_words_cat(s, sep, t, e);
            assert(plain_words_from(whole, i) =~= plain_words_from(s, i) + plain_words_of(t));
        } else {
            lemma_words_cat(s, sep, t, i + 1);
        }
    } else {
        assert(whole[i] == sep);
        let pre = s + seq![sep];
        lemma_words_shift(pre, t, 0);
        assert(plain_words_from(s, i) =~= Seq::empty());
        assert(plain_words_from(s, i) + plain_words_of(t) =~= plain_words_of(t));
    }
}

proof fn lemma_run_all(s: Seq<char>, i: int)
    requires
        0 <= i <= s.len(),
        forall|j: int| 0 <= j < s.len() ==> is_alnum(#[trigger] s[j]),
    ensures
        run_end(s, i) == s.len(),
    decreases s.len() - i,
{
    if i < s.len() {
        lemma_run_all(s, i + 1);
    }
}

/// Letters and digits alone are one word.
proof fn lemma_one_word(s: Seq<char>)
    requires
        s.len() > 0,
        forall|j: int| 0 <= j < s.len() ==> is_alnum(#[trigger] s[j]),
    ensures
        plain_words_of(s) == seq![ascii_lowered(s)],
{
    lemma_run_all(s, 0);
    assert(s.subrange(0, s.len() as int) =~= s);
    assert(is_alnum(s[0]));
    assert(plain_words_from(s, s.len() as int) =~= Seq::empty());
    assert(plain_words_of(s) =~= seq![ascii_lowered(s)]);
}

proof fn lemma_run_alnum(s: Seq<char>, i: int)
    requires
        0 <= i <= s.len(),
    ensures
        forall|j: int| i <= j < run_end(s, i) ==> is_alnum(#[trigger] s[j]),
    decreases s.len() - i,
{
    if i < s.len() && is_alnum(s[i]) {
        lemma_run_alnum(s, i + 1);
    }
}

proof fn lemma_words_are_words(s: Seq<char>, i: int)
    requires
        0 <= i <= s.len(),
    ensures
        forall|k: int|
            0 <= k < plain_words_from(s, i).len() ==> is_word(#[trigger] plain_words_from(s, i)[k]),
    decreases s.len() - i,
{
    if i < s.len() {
        if is_alnum(s[i]) {
            lemma_run_end(s, i);
            lemma_run_alnum(s, i);
            let e = run_end(s, i);
            lemma_words_are_words(s, e);
            let w = ascii_lowered(s.subrange(i, e));
            let rest = plain_words_from(s, e);
            assert forall|j: int| 0 <= j < w.len() implies is_alnum(#[trigger] w[j]) && lower_char(
                w[j],
            ) == w[j] by {
                assert(is_alnum(s[i + j]));
            }
            assert(is_word(w));
            let all = plain_words_from(s, i);
            assert(all == seq![w] + rest);
            assert forall|k: int| 0 <= k < all.len() implies is_word(#[trigger] all[k]) by {
                if k > 0 {
                    assert(all[k] == rest[k - 1]);
                }
            }
        } else {
            lemma_words_are_words(s, i + 1);
            assert(plain_words_from(s, i) == plain_words_from(s, i + 1));
        }
    } else {
        assert(plain_words_from(s, i) =~= Seq::empty());
    }
}

proof fn lemma_words_joined(words: Seq<Seq<char>>, n: int)
    requires
        1 <= n <= words.len(),
        forall|k: int| 0 <= k < words.len() ==> is_word(#[trigger] words[k]),
    ensures
        plain_words_of(joined_first(words, seq!['-'], n)) == words.take(n),
        joined_first(words, seq!['-'], n).len() > 0,
        is_alnum(joined_first(words, seq!['-'], n)[0]),
        forall|i: int|
            0 <= i < joined_first(words, seq!['-'], n).len() ==> is_alnum(
                #[trigger] joined_first(words, seq!['-'], n)[i],
            ) || joined_first(words, seq!['-'], n)[i] == '-',
    decreases n,
{
    let w = words[n - 1];
    assert(is_word(words[n - 1]));
    assert(ascii_lowered(w) =~= w);
    assert forall|j: int| 0 <= j < w.len() implies is_alnum(#[trigger] w[j]) by {}
    lemma_one_word(w);
    if n == 1 {
        assert(words.take(1) =~= seq![words[0]]);
    } else {
        lemma_words_joined(words, n - 1);
        let before = joined_first(words, seq!['-'], n - 1);
        lemma_words_cat(before, '-', w, 0);
        assert(words.take(n) =~= words.take(n - 1) + seq![w]);
        let all = joined_first(words, seq!['-'], n);
        assert(all[0] == before[0]);
        assert forall|i: int| 0 <= i < all.len() implies is_alnum(#[trigger] all[i]) || all[i] == '-' by {
            if i < before.len() {
                assert(all[i] == before[i]);
            } else if i > before.len() {
                assert(all[i] == w[i - before.len() - 1]);
            }
        }
    }
}

/// A slug is its own slug, also with a space behind it, and holds nothing but letters,
/// digits and hyphens.
pub proof fn slugs_are_settled(s: Seq<char>)
    ensures
        slug_of(slug_of(s)) == slug_of(s),
        slug_of(slug_of(s) + seq![' ']) == slug_of(s),
        forall|i: int|
            0 <= i < slug_of(s).len() ==> is_alnum(#[trigger] slug_of(s)[i]) || slug_of(s)[i] == '-',
        slug_of(s).len() > 0 ==> is_alnum(slug_of(s)[0]),
{
    reveal_strlit("-");
    assert("-"@ =~= seq!['-']);
    let words = plain_words_of(s);
    let slug = slug_of(s);
    let none = Seq::<char>::empty();
    lemma_words_are_words(s, 0);
    lemma_words_cat(slug, ' ', none, 0);
    assert(slug + seq![' '] + none =~= slug + seq![' ']);
    assert(plain_words_of(none) =~= Seq::empty());
    assert(plain_words_of(slug) + plain_words_of(none) =~= plain_words_of(slug));
    if words.len() > 0 {
        lemma_words_joined(words, words.len() as int);
        assert(words.take(words.len() as int) =~= words);
    } else {
        assert(slug =~= none);
        assert(plain_words_of(slug) =~= words);
    }
}

// ---- the lines that stay ----

proof fn lemma_section_prefix(a: Seq<Seq<char>>, b: Seq<Seq<char>>, n: int)
    requires
        n <= a.len(),
        n <= b.len(),
        forall|i: int| 0 <= i < n ==> #[trigger] a[i] == b[i],
    ensures
        section_after(a, n) == section_after(b, n),
    decreases n,
{
    if n > 0 {
        lemma_section_prefix(a, b, n - 1);
        assert(a[n - 1] == b[n - 1]);
    }
}

/// A header is a bracket, a name and a bracket.
proof fn lemma_header(line: Seq<char>)
    requires
        header_of(line) is Some,
    ensures
        line.len() >= 2,
        line == seq!['['] + header_of(line)->0 + seq![']'],
{
    reveal_strlit("[");
    reveal_strlit("]");
    assert(line.take(1)[0] == "["@[0]);
    assert(line.skip(line.len() - 1)[0] == "]"@[0]);
    assert(line[0] == '[' && line.last() == ']');
    assert(line =~= seq!['['] + header_of(line)->0 + seq![']']);
}

/// No header is a row for a concept.
proof fn lemma_headers_stay(lines: Seq<Seq<char>>, k: int, wanted: Seq<char>)
    requires
        0 <= k < lines.len(),
        header_of(trimmed(lines[k])) is Some,
        wanted != "multi-destination"@,
    ensures
        !is_map_row(lines, k, wanted, true),
        !is_multi_row(lines, k, wanted),
{
    let line = trimmed(lines[k]);
    let h = header_of(line)->0;
    reveal_strlit("map");
    reveal_strlit("=");
    reveal_strlit("-");
    reveal_strlit("multi-destination");
    assert("="@ =~= seq!['=']);
    assert("-"@ =~= seq!['-']);
    assert(section_after(lines, k + 1) == h);
    if is_map_row(lines, k, wanted, true) {
        assert(h.len() == ascii_lowered(h).len());
        assert(h.len() == 3);
        lemma_header(line);
        lemma_find(line, "="@, 0);
        let i = find_from(line, "="@, 0)->0;
        assert(line.subrange(i, i + 1)[0] == '=');
        assert(line[i] == '=');
        assert(h[i - 1] == '=');
        assert(ascii_lowered(h)[i - 1] == lower_char(h[i - 1]));
        assert(ascii_lowered("map"@)[i - 1] == lower_char("map"@[i - 1]));
    }
    if is_multi_row(lines, k, wanted) {
        let m = "multi-destination"@;
        assert(h.len() == ascii_lowered(h).len());
        assert(h.len() == 17);
        lemma_header(line);
        let none = Seq::<char>::empty();
        let a = h.take(5);
        let b = h.skip(6);
        assert(ascii_lowered(m) =~= m);
        assert forall|i: int| 0 <= i < 17 implies lower_char(#[trigger] h[i]) == m[i] by {
            assert(ascii_lowered(h)[i] == m[i]);
        }
        assert(h[5] == '-') by {
            assert(lower_char(h[5]) == m[5]);
        }
        assert forall|j: int| 0 <= j < a.len() implies is_alnum(#[trigger] a[j]) by {
            assert(lower_char(h[j]) == m[j]);
        }
        assert forall|j: int| 0 <= j < b.len() implies is_alnum(#[trigger] b[j]) by {
            assert(lower_char(h[j + 6]) == m[j + 6]);
        }
        lemma_one_word(a);
        lemma_one_word(b);
        assert(h =~= a + seq!['-'] + b);
        lemma_words_cat(a, '-', b, 0);
        lemma_words_cat(h, ']', none, 0);
        assert(h + seq![']'] + none =~= h + seq![']']);
        assert(plain_words_of(none) =~= Seq::empty());
        lemma_words_cat(none, '[', h + seq![']'], 0);
        assert(line =~= none + seq!['['] + (h + seq![']']));
        let words = plain_words_of(line);
        assert(words =~= seq![ascii_lowered(a), ascii_lowered(b)]);
        assert(slug_of(line) == joined_first(words, "-"@, 2));
        assert(joined_first(words, "-"@, 1) == words[0]);
        assert(slug_of(line) =~= words[0] + seq!['-'] + words[1]);
        assert forall|i: int| 0 <= i < 17 implies slug_of(line)[i] == m[i] by {
            if i < 5 {
                assert(slug_of(line)[i] == lower_char(a[i]));
            } else if i > 5 {
                assert(slug_of(line)[i] == lower_char(b[i - 6]));
            } else {
                assert(slug_of(line)[i] == '-');
            }
        }
        assert(slug_of(line) =~= m);
    }
}

/// A line that is no row for the concept.
pub open spec fn is_silent(lines: Seq<Seq<char>>, k: int, wanted: Seq<char>) -> bool {
    !is_map_row(lines, k, wanted, true) && !is_multi_row(lines, k, wanted)
}

proof fn lemma_kept(lines: Seq<Seq<char>>, wanted: Seq<char>, n: int)
    requires
        0 <= n <= lines.len(),
        wanted != "multi-destination"@,
        forall|i: int| 0 <= i < lines.len() ==> !(#[trigger] lines[i]).contains('\n'),
    ensures
        ({
            let kept = kept_first(lines, wanted, true, n);
            &&& section_after(kept, kept.len() as int) == section_after(lines, n)
            &&& forall|j: int| 0 <= j < kept.len() ==> !(#[trigger] kept[j]).contains('\n')
            &&& forall|j: int| 0 <= j < kept.len() ==> #[trigger] is_silent(kept, j, wanted)
        }),
    decreases n,
{
    if n > 0 {
        lemma_kept(lines, wanted, n - 1);
        let before = kept_first(lines, wanted, true, n - 1);
        let kept = kept_first(lines, wanted, true, n);
        let line = lines[n - 1];
        if header_of(trimmed(line)) is Some {
            lemma_headers_stay(lines, n - 1, wanted);
        }
        if is_map_row(lines, n - 1, wanted, true) || is_multi_row(lines, n - 1, wanted) {
            assert(section_after(lines, n) == section_after(lines, n - 1));
        } else {
            let m = before.len() as int;
            lemma_section_prefix(kept, before, m);
            assert(section_after(kept, m + 1) == section_after(lines, n));
            assert forall|j: int| 0 <= j < kept.len() implies !(#[trigger] kept[j]).contains('\n') by {
                if j < m {
                    assert(kept[j] == before[j]);
                } else {
                    assert(kept[j] == lines[n - 1]);
                }
            }
            assert forall|j: int| 0 <= j < kept.len() implies #[trigger] is_silent(kept, j, wanted) by {
                if j < m {
                    assert(is_silent(before, j, wanted));
                    assert(kept[j] == before[j]);
                    lemma_section_prefix(kept, before, j + 1);
                } else {
                    assert(kept[j] == lines[n - 1]);
                }
            }
        }
    }
}

// ---- reading ----

/// Rows that are the same once they are trimmed say the same.
proof fn lemma_rows_alike(a: Seq<Seq<char>>, b: Seq<Seq<char>>, n: int)
    requires
        n <= a.len(),
        n <= b.len(),
        forall|i: int| 0 <= i < n ==> trimmed(#[trigger] a[i]) == trimmed(b[i]),
    ensures
        rows_first(a, n) == rows_first(b, n),
        section_after(a, n) == section_after(b, n),
    decreases n,
{
    if n > 0 {
        lemma_rows_alike(a, b, n - 1);
        assert(trimmed(a[n - 1]) == trimmed(b[n - 1]));
    }
}

proof fn lemma_header_found(lines: Seq<Seq<char>>, header: Seq<char>, i: int)
    requires
        0 <= i,
        header_place(lines, header, i) is Some,
    ensures
        i <= header_place(lines, header, i)->0 < lines.len(),
        ascii_lowered(trimmed(lines[header_place(lines, header, i)->0])) == ascii_lowered(header),
    decreases lines.len() - i,
{
    if i < lines.len() && ascii_lowered(trimmed(lines[i])) != ascii_lowered(header) {
        lemma_header_found(lines, header, i + 1);
    }
}

/// The section is open up to its end.
proof fn lemma_section_open(lines: Seq<Seq<char>>, i: int)
    requires
        0 <= i <= lines.len(),
    ensures
        i <= section_end(lines, i) <= lines.len(),
        section_after(lines, section_end(lines, i)) == section_after(lines, i),
    decreases lines.len() - i,
{
    if i < lines.len() && header_of(trimmed(lines[i])) is None {
        lemma_section_open(lines, i + 1);
    }
}

/// The header `[map]`, whatever its case, opens the section of mappings.
proof fn lemma_map_header(line: Seq<char>)
    requires
        ascii_lowered(line) == ascii_lowered("[map]"@),
    ensures
        header_of(line) is Some,
        ascii_lowered(header_of(line)->0) == "map"@,
        ascii_lowered(header_of(line)->0) == ascii_lowered("map"@),
{
    reveal_strlit("[map]");
    reveal_strlit("map");
    reveal_strlit("[");
    reveal_strlit("]");
    let m = "[map]"@;
    assert(ascii_lowered(line).len() == line.len());
    assert(ascii_lowered(m).len() == 5);
    assert forall|i: int| 0 <= i < 5 implies lower_char(#[trigger] line[i]) == lower_char(m[i]) by {
        assert(ascii_lowered(line)[i] == ascii_lowered(m)[i]);
    }
    assert(lower_char(line[0]) == '[' && lower_char(line[4]) == ']');
    assert(lower_char(line[1]) == 'm' && lower_char(line[2]) == 'a' && lower_char(line[3]) == 'p');
    assert(line.take(1) =~= "["@);
    assert(line.skip(4) =~= "]"@);
    assert(ascii_lowered(line.subrange(1, 4)) =~= "map"@);
    assert(ascii_lowered("map"@) =~= "map"@);
}

/// What the row of a review says.
proof fn lemma_row(wanted: Seq<char>, home: Seq<char>)
    requires
        wanted.len() > 0,
        slug_of(wanted + seq![' ']) == wanted,
        forall|i: int| 0 <= i < wanted.len() ==> is_alnum(#[trigger] wanted[i]) || wanted[i] == '-',
        is_alnum(wanted[0]),
        home.len() > 0,
        tight(home),
        !home.contains('\n'),
    ensures
        ({
            let row = wanted + " = "@ + home;
            &&& trimmed(row) == row
            &&& row.len() > 0
            &&& !is_comment(row)
            &&& header_of(row) is None
            &&& !row.contains('\n')
            &&& split_first(row, "="@) == Some((wanted + seq![' '], seq![' '] + home))
            &&& trimmed(seq![' '] + home) == home
        }),
{
    reveal_strlit(" = ");
    reveal_strlit("=");
    reveal_strlit("[");
    reveal_strlit("#");
    reveal_strlit(";");
    let row = wanted + " = "@ + home;
    assert("="@ =~= seq!['=']);
    assert(row =~= (wanted + seq![' ']) + seq!['='] + (seq![' '] + home));
    let a = wanted + seq![' '];
    if a.contains('=') {
        let i = choose|i: int| 0 <= i < a.len() && a[i] == '=';
        assert(i == wanted.len() || a[i] == wanted[i]);
    }
    lemma_split_at(a, '=', seq![' '] + home);
    assert(row[0] == wanted[0]);
    assert(!is_white(row[0]));
    assert(row.last() == home.last());
    lemma_trim_tight(row);
    let none = Seq::<char>::empty();
    lemma_trim_padded(seq![' '], home, none);
    assert(seq![' '] + home + none =~= seq![' '] + home);
    assert(row.take(1)[0] == row[0]);
    if row.contains('\n') {
        let i = choose|i: int| 0 <= i < row.len() && row[i] == '\n';
        if i < wanted.len() {
            assert(row[i] == wanted[i]);
        } else if i < wanted.len() + 3 {
            assert(row[i] == " = "@[i - wanted.len()]);
        } else {
            assert(row[i] == home[i - wanted.len() - 3]);
        }
    }
}

/// A line that is no row for the concept adds nothing to it.
proof fn lemma_other_row(lines: Seq<Seq<char>>, wanted: Seq<char>, n: int)
    requires
        0 < n <= lines.len(),
        is_silent(lines, n - 1, wanted),
        distinct_keys(rows_first(lines, n - 1).candidates),
        !rows_first(lines, n - 1).multi.contains(wanted),
    ensures
        distinct_keys(rows_first(lines, n).candidates),
        found(rows_first(lines, n).candidates, wanted) == found(
            rows_first(lines, n - 1).candidates,
            wanted,
        ),
        !rows_first(lines, n).multi.contains(wanted),
{
    let r = rows_first(lines, n - 1);
    let line = trimmed(lines[n - 1]);
    let section = section_after(lines, n);
    reveal_strlit("map");
    reveal_strlit("multi-destination");
    assert(ascii_lowered("map"@) =~= "map"@);
    assert(ascii_lowered("multi-destination"@) =~= "multi-destination"@);
    if !(line.len() == 0 || is_comment(line) || header_of(line) is Some) {
        if ascii_lowered(section) == "map"@ {
            if let Some((a, b)) = split_first(line, "="@) {
                let concept = slug_of(a);
                insert_then_get(
                    r.candidates,
                    concept,
                    with_item(none_yet(found(r.candidates, concept)), trimmed(b)),
                    wanted,
                );
            }
        }
    }
}

/// The row of a review is the only one for its concept.
proof fn lemma_new_row(lines: Seq<Seq<char>>, wanted: Seq<char>, home: Seq<char>, n: int)
    requires
        0 < n <= lines.len(),
        lines[n - 1] == wanted + " = "@ + home,
        ascii_lowered(section_after(lines, n - 1)) == "map"@,
        distinct_keys(rows_first(lines, n - 1).candidates),
        found(rows_first(lines, n - 1).candidates, wanted) is None,
        wanted.len() > 0,
        slug_of(wanted + seq![' ']) == wanted,
        forall|i: int| 0 <= i < wanted.len() ==> is_alnum(#[trigger] wanted[i]) || wanted[i] == '-',
        is_alnum(wanted[0]),
        home.len() > 0,
        tight(home),
        !home.contains('\n'),
    ensures
        distinct_keys(rows_first(lines, n).candidates),
        found(rows_first(lines, n).candidates, wanted) == Some(seq![home]),
        rows_first(lines, n).multi == rows_first(lines, n - 1).multi,
        section_after(lines, n) == section_after(lines, n - 1),
{
    let r = rows_first(lines, n - 1);
    lemma_row(wanted, home);
    let none = Seq::<Seq<char>>::empty();
    assert(with_item(none, home) =~= seq![home]);
    insert_then_get(r.candidates, wanted, seq![home], wanted);
}

proof fn lemma_reviewed_rows(
    kept: Seq<Seq<char>>,
    e: int,
    wanted: Seq<char>,
    home: Seq<char>,
    n: int,
)
    requires
        0 <= e <= kept.len(),
        ascii_lowered(section_after(kept, e)) == "map"@,
        forall|j: int| 0 <= j < kept.len() ==> #[trigger] is_silent(kept, j, wanted),
        wanted.len() > 0,
        slug_of(wanted + seq![' ']) == wanted,
        forall|i: int| 0 <= i < wanted.len() ==> is_alnum(#[trigger] wanted[i]) || wanted[i] == '-',
        is_alnum(wanted[0]),
        home.len() > 0,
        tight(home),
        !home.contains('\n'),
        0 <= n <= kept.len() + 1,
    ensures
        ({
            let all = kept.insert(e, wanted + " = "@ + home);
            let r = rows_first(all, n);
            &&& distinct_keys(r.candidates)
            &&& found(r.candidates, wanted) == (if n <= e {
                None::<Seq<Seq<char>>>
            } else {
                Some(seq![home])
            })
            &&& !r.multi.contains(wanted)
            &&& n <= e ==> section_after(all, n) == section_after(kept, n)
            &&& n > e ==> section_after(all, n) == section_after(kept, n - 1)
        }),
    decreases n,
{
    let row = wanted + " = "@ + home;
    let all = kept.insert(e, row);
    if n > 0 {
        lemma_reviewed_rows(kept, e, wanted, home, n - 1);
        let r = rows_first(all, n - 1);
        if n - 1 == e {
            assert(all[n - 1] == row);
            lemma_new_row(all, wanted, home, n);
        } else {
            let j = if n - 1 < e {
                n - 1
            } else {
                n - 2
            };
            assert(all[n - 1] == kept[j]);
            assert(is_silent(kept, j, wanted));
            assert(section_after(all, n) == section_after(kept, j + 1));
            assert(is_silent(all, n - 1, wanted));
            lemma_other_row(all, wanted, n);
        }
    } else {
        lemma_key_from(rows_first(all, 0).candidates, wanted, 0);
    }
}

proof fn lemma_routes(
    candidates: Seq<(Seq<char>, Seq<Seq<char>>)>,
    multi: Seq<Seq<char>>,
    wanted: Seq<char>,
    home: Seq<char>,
    at: int,
    n: int,
)
    requires
        0 <= n <= candidates.len(),
        distinct_keys(candidates),
        0 <= at < candidates.len(),
        candidates[at] == (wanted, seq![home]),
        !multi.contains(wanted),
    ensures
        ({
            let r = routes_first(candidates, multi, n);
            &&& !r.multi.contains(wanted)
            &&& n > at ==> found(r.mappings, wanted) == Some(home)
        }),
    decreases n,
{
    if n > 0 {
        lemma_routes(candidates, multi, wanted, home, at, n - 1);
        let r = routes_first(candidates, multi, n - 1);
        let (concept, homes) = candidates[n - 1];
        if n - 1 != at {
            if n - 1 < at {
                assert(candidates[n - 1].0 != candidates[at].0);
            } else {
                assert(candidates[at].0 != candidates[n - 1].0);
            }
        }
        if homes.len() == 1 {
            insert_then_get(r.mappings, concept, homes[0], wanted);
        }
    }
}

/// A concept that a review files under a separator is mapped to that separator, and is
/// no longer one with several. A concept that is called like the section of those would
/// take its header for a row.
pub proof fn reviewed_concept_is_mapped(s: Seq<char>, concept: Seq<char>, home: Seq<char>)
    requires
        slug_of(concept).len() > 0,
        slug_of(concept) != "multi-destination"@,
        home.len() > 0,
        tight(home),
        !home.contains('\n'),
        reviewed_lines(lines_of(s), slug_of(concept), home) is Some,
    ensures
        ({
            let lines = reviewed_lines(lines_of(s), slug_of(concept), home)->0;
            let m = roadmap_of(joined(lines, "\n"@) + "\n"@);
            &&& found(m.mappings, slug_of(concept)) == Some(home)
            &&& !m.multi_destination.contains(slug_of(concept))
        }),
{
    let wanted = slug_of(concept);
    let lines = lines_of(s);
    let kept = kept_first(lines, wanted, true, lines.len() as int);
    slugs_are_settled(concept);
    lemma_lines_have_no_feed(s, 0);
    lemma_kept(lines, wanted, lines.len() as int);
    let start = header_place(kept, "[map]"@, 0)->0;
    lemma_header_found(kept, "[map]"@, 0);
    lemma_map_header(trimmed(kept[start]));
    lemma_section_open(kept, start + 1);
    let e = section_end(kept, start + 1);
    let row = wanted + " = "@ + home;
    let all = kept.insert(e, row);
    lemma_row(wanted, home);
    assert(reviewed_lines(lines, wanted, home) == Some(all));
    assert forall|i: int| 0 <= i < all.len() implies !(#[trigger] all[i]).contains('\n') by {
        if i < e {
            assert(all[i] == kept[i]);
        } else if i > e {
            assert(all[i] == kept[i - 1]);
        }
    }
    let n = all.len() as int;
    lemma_reviewed_rows(kept, e, wanted, home, n);
    lemma_joined_lines(all);
    let read = lines_of(joined(all, "\n"@) + "\n"@);
    assert forall|i: int| 0 <= i < n implies trimmed(#[trigger] read[i]) == trimmed(all[i]) by {
        assert(read[i] == without_cr(all[i]));
        lemma_trimmed_cut(all[i]);
    }
    lemma_rows_alike(read, all, n);
    let r = rows_first(all, n);
    lemma_key_from(r.candidates, wanted, 0);
    let at = key_from(r.candidates, wanted, 0)->0;
    lemma_routes(r.candidates, r.multi, wanted, home, at, r.candidates.len() as int);
}

// ---- the mappings of a roadmap ----

/// The concepts of a roadmap are slugs, each once.
proof fn lemma_concepts(lines: Seq<Seq<char>>, n: int)
    requires
        0 <= n <= lines.len(),
    ensures
        distinct_keys(rows_first(lines, n).candidates),
        forall|i: int|
            0 <= i < rows_first(lines, n).candidates.len() ==> slug_of(
                (#[trigger] rows_first(lines, n).candidates[i]).0,
            ) == rows_first(lines, n).candidates[i].0,
    decreases n,
{
    if n > 0 {
        lemma_concepts(lines, n - 1);
        let old = rows_first(lines, n - 1).candidates;
        let new = rows_first(lines, n).candidates;
        let line = trimmed(lines[n - 1]);
        if new != old {
            let (a, b) = split_first(line, "="@)->0;
            let concept = slug_of(a);
            let homes = with_item(none_yet(found(old, concept)), trimmed(b));
            assert(new == inserted(old, concept, homes));
            slugs_are_settled(a);
            insert_then_get(old, concept, homes, concept);
            lemma_key_from(old, concept, 0);
            assert forall|i: int| 0 <= i < new.len() implies slug_of((#[trigger] new[i]).0)
                == new[i].0 by {
                if i < old.len() {
                    assert(slug_of(old[i].0) == old[i].0);
                }
            }
        }
    }
}

/// A candidate among the first `n`, with one home or with another number of them.
spec fn is_candidate(
    candidates: Seq<(Seq<char>, Seq<Seq<char>>)>,
    n: int,
    concept: Seq<char>,
    single: bool,
) -> bool {
    exists|j: int|
        0 <= j < n && (#[trigger] candidates[j]).0 == concept && (candidates[j].1.len() == 1)
            == single
}

proof fn lemma_routes_apart(
    candidates: Seq<(Seq<char>, Seq<Seq<char>>)>,
    multi: Seq<Seq<char>>,
    n: int,
)
    requires
        0 <= n <= candidates.len(),
    ensures
        ({
            let r = routes_first(candidates, multi, n);
            &&& distinct_keys(r.mappings)
            &&& forall|i: int|
                0 <= i < r.mappings.len() ==> is_candidate(
                    candidates,
                    n,
                    (#[trigger] r.mappings[i]).0,
                    true,
                )
            &&& forall|i: int|
                0 <= i < r.branches.len() ==> is_candidate(
                    candidates,
                    n,
                    (#[trigger] r.branches[i]).0,
                    false,
                )
        }),
    decreases n,
{
    if n > 0 {
        lemma_routes_apart(candidates, multi, n - 1);
        let old = routes_first(candidates, multi, n - 1);
        let r = routes_first(candidates, multi, n);
        let (concept, homes) = candidates[n - 1];
        assert forall|k: Seq<char>, single: bool| #[trigger]
            is_candidate(candidates, n - 1, k, single) implies is_candidate(
            candidates,
            n,
            k,
            single,
        ) by {
            let j = choose|j: int|
                0 <= j < n - 1 && (#[trigger] candidates[j]).0 == k && (candidates[j].1.len() == 1)
                    == single;
            assert(0 <= j < n && candidates[j].0 == k);
        }
        assert(is_candidate(candidates, n, concept, homes.len() == 1));
        lemma_key_from(old.mappings, concept, 0);
        lemma_key_from(old.branches, concept, 0);
        if homes.len() == 1 {
            insert_then_get(old.mappings, concept, homes[0], concept);
        }
        assert forall|i: int| 0 <= i < r.mappings.len() implies is_candidate(
            candidates,
            n,
            (#[trigger] r.mappings[i]).0,
            true,
        ) by {
            if i < old.mappings.len() {
                assert(is_candidate(candidates, n - 1, old.mappings[i].0, true));
            }
        }
        assert forall|i: int| 0 <= i < r.branches.len() implies is_candidate(
            candidates,
            n,
            (#[trigger] r.branches[i]).0,
            false,
        ) by {
            if i < old.branches.len() {
                assert(is_candidate(candidates, n - 1, old.branches[i].0, false));
            }
        }
    }
}

/// The mappings of a roadmap that was read are shown in alphabetical order, each concept
/// once and none left out. Each is the destination of its concept, and no such concept
/// is one with several.
pub proof fn mappings_are_shown_in_order(s: Seq<char>)
    ensures
        ({
            let m = roadmap_of(s);
            let rows = sorted::<(String, String)>(m.mappings);
            &&& rows.len() == m.mappings.len()
            &&& forall|i: int, j: int|
                0 <= i < j < rows.len() ==> before((#[trigger] rows[i]).0, (#[trigger] rows[j]).0)
            &&& forall|i: int|
                0 <= i < rows.len() ==> found(m.mappings, slug_of((#[trigger] rows[i]).0)) == Some(
                    rows[i].1,
                ) && found(m.branch_destinations, slug_of(rows[i].0)) is None
        }),
{
    let m = roadmap_of(s);
    let rows = sorted::<(String, String)>(m.mappings);
    let lines = lines_of(s);
    let r = rows_first(lines, lines.len() as int);
    let n = r.candidates.len() as int;
    lemma_concepts(lines, lines.len() as int);
    lemma_routes_apart(r.candidates, r.multi, n);
    sorting_orders_and_keeps::<(String, String)>(m.mappings);
    lemma_keys_permuted(m.mappings, rows);
    assert forall|i: int, j: int| 0 <= i < j < rows.len() implies before(
        (#[trigger] rows[i]).0,
        (#[trigger] rows[j]).0,
    ) by {
        let (a, b) = (rows[i].0, rows[j].0);
        assert(<(String, String) as Ranked>::precedes(rows[i], rows[j]));
        assert(a.take(0) =~= b.take(0));
        lemma_before_total(a, b, 0);
    }
    assert forall|i: int| 0 <= i < rows.len() implies found(
        m.mappings,
        slug_of((#[trigger] rows[i]).0),
    ) == Some(rows[i].1) && found(m.branch_destinations, slug_of(rows[i].0)) is None by {
        let k = rows[i].0;
        lemma_found_permuted(m.mappings, rows, k);
        assert forall|h: int| 0 <= h < i implies #[trigger] rows[h].0 != k by {}
        lemma_key_at(rows, k, 0, i);
        lemma_key_from(m.mappings, k, 0);
        let at = key_from(m.mappings, k, 0)->0;
        assert(is_candidate(r.candidates, n, m.mappings[at].0, true));
        let j = choose|j: int|
            0 <= j < n && (#[trigger] r.candidates[j]).0 == k && (r.candidates[j].1.len() == 1)
                == true;
        assert(slug_of(r.candidates[j].0) == r.candidates[j].0);
        lemma_key_from(m.branch_destinations, k, 0);
        if key_from(m.branch_destinations, k, 0) is Some {
            let b = key_from(m.branch_destinations, k, 0)->0;
            assert(is_candidate(r.candidates, n, m.branch_destinations[b].0, false));
            let h = choose|h: int|
                0 <= h < n && (#[trigger] r.candidates[h]).0 == k && (r.candidates[h].1.len() == 1)
                    == false;
            assert(h != j);
            assert(r.candidates[h].0 != r.candidates[j].0);
        }
    }
}

} // verus!
