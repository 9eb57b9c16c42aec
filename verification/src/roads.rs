//! What a roadmap tells: each row counts under the heading above it, and a concept has its
//! one separator, or several and then none of its own.
use vstd::prelude::*;
#[allow(unused_imports)]
use crate::keys::{header_of, is_comment, section_after, slug_of, with_item};
#[allow(unused_imports)]
use crate::map::{distinct_keys, found, insert_then_get, key_from, lemma_key_at, lemma_key_from};
#[allow(unused_imports)]
use crate::readback::{lemma_trim_tight, tight};
#[allow(unused_imports)]
use crate::section_map::{category_home, homes_first, none_yet, roadmap_of, routes_first, rows_first, with_candidate, Rows, SectionMapView};
#[allow(unused_imports)]
use crate::sort::sorted;
#[allow(unused_imports)]
use crate::text::{ascii_lowered, begins, ended, is_line, is_white, lemma_lines_read_back, split_first, trimmed};

verus! {

// ---- how a roadmap is written ----

/// A line of a roadmap: the heading of a part, a row, or a comment.
pub enum Written {
    Heading(Seq<char>),
    Row(Seq<char>),
    Comment(Seq<char>),
}

pub open spec fn written_line(w: Written) -> Seq<char> {
    match w {
        Written::Heading(name) => seq!['['] + name + seq![']'],
        Written::Row(s) => s,
        Written::Comment(s) => seq!['#'] + s,
    }
}

pub open spec fn written_lines(ws: Seq<Written>) -> Seq<Seq<char>> {
    Seq::new(ws.len(), |i: int| written_line(ws[i]))
}

pub open spec fn is_piece(s: Seq<char>) -> bool {
    s.len() > 0 && tight(s) && !s.contains('\n')
}

pub open spec fn written_sound(w: Written) -> bool {
    match w {
        Written::Heading(name) => is_piece(name),
        Written::Row(s) => is_piece(s) && s[0] != '[' && s[0] != '#' && s[0] != ';',
        Written::Comment(s) => is_piece(s),
    }
}

/// The part that the first `n` lines leave open.
pub open spec fn part_after(ws: Seq<Written>, n: int) -> Seq<char>
    decreases n,
{
    if n <= 0 {
        Seq::empty()
    } else {
        match ws[n - 1] {
            Written::Heading(name) => name,
            _ => part_after(ws, n - 1),
        }
    }
}

/// Line `i` is a row of that part.
pub open spec fn row_of(ws: Seq<Written>, i: int, part: Seq<char>) -> Option<Seq<char>> {
    match ws[i] {
        Written::Row(s) => if ascii_lowered(part_after(ws, i)) == part {
            Some(s)
        } else {
            None
        },
        _ => None,
    }
}

// ---- what it means ----

/// Line `i` says that the concept goes to `home`.
pub open spec fn maps(ws: Seq<Written>, i: int, concept: Seq<char>, home: Seq<char>) -> bool {
    row_of(ws, i, "map"@) matches Some(s) && split_first(s, "="@) matches Some((a, b)) && slug_of(a)
        == concept && concept.len() > 0 && trimmed(b) == home && home.len() > 0
}

/// The separators that the first `n` lines give the concept, each once.
pub open spec fn homes(ws: Seq<Written>, n: int, concept: Seq<char>) -> Seq<Seq<char>>
    decreases n,
{
    if n <= 0 {
        Seq::empty()
    } else {
        let before = homes(ws, n - 1, concept);
        match row_of(ws, n - 1, "map"@) {
            Some(s) => match split_first(s, "="@) {
                Some((_, b)) => if maps(ws, n - 1, concept, trimmed(b)) && !before.contains(
                    trimmed(b),
                ) {
                    before.push(trimmed(b))
                } else {
                    before
                },
                None => before,
            },
            None => before,
        }
    }
}

/// One of the first `n` lines is a row of that part that says so.
pub open spec fn says(ws: Seq<Written>, n: int, part: Seq<char>, slug: Seq<char>) -> bool {
    exists|i: int|
        0 <= i < n && (#[trigger] row_of(ws, i, part) matches Some(s) && slug_of(s) == slug)
}

// ---- lines ----

proof fn lemma_without(a: Seq<char>, b: Seq<char>, c: char)
    requires
        !a.contains(c),
        !b.contains(c),
    ensures
        !(a + b).contains(c),
{
    let s = a + b;
    if s.contains(c) {
        let i = choose|i: int| 0 <= i < s.len() && s[i] == c;
        if i < a.len() {
            assert(a[i] == c);
        } else {
            assert(b[i - a.len()] == c);
        }
    }
}

proof fn lemma_first_char(s: Seq<char>, c: char)
    requires
        s.len() > 0,
    ensures
        begins(s, seq![c]) == (s[0] == c),
{
    assert(s.take(1) =~= seq![s[0]]);
    assert(seq![s[0]][0] == s[0]);
    assert(seq![c][0] == c);
}

proof fn lemma_line(w: Written)
    requires
        written_sound(w),
    ensures
        is_piece(written_line(w)),
        trimmed(written_line(w)) == written_line(w),
        header_of(written_line(w)) == (match w {
            Written::Heading(name) => Some(name),
            _ => None,
        }),
        is_comment(written_line(w)) == (w is Comment),
{
    reveal_strlit(";");
    reveal_strlit("#");
    reveal_strlit("[");
    reveal_strlit("]");
    assert(";"@ =~= seq![';']);
    assert("#"@ =~= seq!['#']);
    assert("["@ =~= seq!['[']);
    assert("]"@ =~= seq![']']);
    let l = written_line(w);
    match w {
        Written::Heading(name) => {
            lemma_without(seq!['['], name, '\n');
            lemma_without(seq!['['] + name, seq![']'], '\n');
            assert(l[0] == '[');
            assert(l.last() == ']');
            assert(l.skip(l.len() - 1) =~= seq![']']);
            assert(l.subrange(1, l.len() - 1) =~= name);
        },
        Written::Row(s) => {},
        Written::Comment(s) => {
            lemma_without(seq!['#'], s, '\n');
            assert(l[0] == '#');
            assert(l.last() == s.last());
        },
    }
    lemma_trim_tight(l);
    lemma_first_char(l, ';');
    lemma_first_char(l, '#');
    lemma_first_char(l, '[');
}

proof fn lemma_part(ws: Seq<Written>, n: int)
    requires
        0 <= n <= ws.len(),
        forall|i: int| 0 <= i < ws.len() ==> written_sound(#[trigger] ws[i]),
    ensures
        section_after(written_lines(ws), n) == part_after(ws, n),
    decreases n,
{
    if n > 0 {
        lemma_part(ws, n - 1);
        assert(written_sound(ws[n - 1]));
        lemma_line(ws[n - 1]);
        assert(written_lines(ws)[n - 1] == written_line(ws[n - 1]));
    }
}

proof fn lemma_parts_differ()
    ensures
        "map"@ != "protected"@,
        "map"@ != "context"@,
        "map"@ != "terminal"@,
        "map"@ != "multi-destination"@,
        "protected"@ != "context"@,
        "protected"@ != "terminal"@,
        "protected"@ != "multi-destination"@,
        "context"@ != "terminal"@,
        "context"@ != "multi-destination"@,
        "terminal"@ != "multi-destination"@,
{
    reveal_strlit("map");
    reveal_strlit("protected");
    reveal_strlit("context");
    reveal_strlit("terminal");
    reveal_strlit("multi-destination");
    assert("map"@.len() == 3);
    assert("protected"@.len() == 9);
    assert("context"@.len() == 7);
    assert("terminal"@.len() == 8);
    assert("multi-destination"@.len() == 17);
}

proof fn lemma_with_item(s: Seq<Seq<char>>, x: Seq<char>, y: Seq<char>)
    ensures
        with_item(s, x).contains(y) == (s.contains(y) || x == y),
{
    let t = with_item(s, x);
    if s.contains(y) {
        let i = choose|i: int| 0 <= i < s.len() && s[i] == y;
        assert(t[i] == y);
    }
    if !s.contains(x) {
        assert(t[s.len() as int] == x);
        if t.contains(y) && x != y {
            let i = choose|i: int| 0 <= i < t.len() && t[i] == y;
            assert(s[i] == y);
        }
    }
}

/// Every key once, and nothing under it that is empty.
spec fn solid(m: Seq<(Seq<char>, Seq<Seq<char>>)>) -> bool {
    &&& distinct_keys(m)
    &&& forall|k: Seq<char>| #[trigger] found(m, k) matches Some(l) ==> l.len() > 0
}

/// What the first `n` lines leave, by a concept and by a slug.
spec fn rows_tell(r: Rows, ws: Seq<Written>, n: int, c: Seq<char>) -> bool {
    &&& solid(r.candidates)
    &&& none_yet(found(r.candidates, c)) == homes(ws, n, c)
    &&& r.protected.contains(c) == says(ws, n, "protected"@, c)
    &&& r.context.contains(c) == says(ws, n, "context"@, c)
    &&& r.terminal.contains(c) == says(ws, n, "terminal"@, c)
    &&& r.multi.contains(c) == (c.len() > 0 && says(ws, n, "multi-destination"@, c))
}

proof fn lemma_says(ws: Seq<Written>, n: int, part: Seq<char>, c: Seq<char>)
    requires
        0 < n,
    ensures
        says(ws, n, part, c) == (says(ws, n - 1, part, c) || (row_of(ws, n - 1, part) matches Some(s)
            && slug_of(s) == c)),
{
    if says(ws, n - 1, part, c) {
        let i = choose|i: int|
            0 <= i < n - 1 && (#[trigger] row_of(ws, i, part) matches Some(s) && slug_of(s) == c);
        assert(row_of(ws, i, part) is Some);
    }
    if says(ws, n, part, c) {
        let i = choose|i: int|
            0 <= i < n && (#[trigger] row_of(ws, i, part) matches Some(s) && slug_of(s) == c);
        if i < n - 1 {
            assert(says(ws, n - 1, part, c));
        }
    }
}

proof fn lemma_candidate(r: Rows, ws: Seq<Written>, n: int, s: Seq<char>, c: Seq<char>)
    requires
        0 < n,
        row_of(ws, n - 1, "map"@) == Some(s),
        solid(r.candidates),
        none_yet(found(r.candidates, c)) == homes(ws, n - 1, c),
    ensures
        solid(with_candidate(r, s).candidates),
        none_yet(found(with_candidate(r, s).candidates, c)) == homes(ws, n, c),
{
    match split_first(s, "="@) {
        Some((a, b)) => {
            let concept = slug_of(a);
            let home = trimmed(b);
            if concept.len() > 0 && home.len() > 0 {
                let old = none_yet(found(r.candidates, concept));
                let put = with_item(old, home);
                insert_then_get(r.candidates, concept, put, c);
                let t = with_candidate(r, s).candidates;
                lemma_with_item(old, home, home);
                assert forall|q: Seq<char>| (#[trigger] found(t, q)) is Some implies (found(
                    t,
                    q,
                )->0).len() > 0 by {
                    insert_then_get(r.candidates, concept, put, q);
                }
            }
        },
        None => {},
    }
}

proof fn lemma_rows(ws: Seq<Written>, n: int, c: Seq<char>)
    requires
        0 <= n <= ws.len(),
        forall|i: int| 0 <= i < ws.len() ==> written_sound(#[trigger] ws[i]),
    ensures
        rows_tell(rows_first(written_lines(ws), n), ws, n, c),
    decreases n,
{
    if n > 0 {
        lemma_rows(ws, n - 1, c);
        lemma_parts_differ();
        let lines = written_lines(ws);
        let before = rows_first(lines, n - 1);
        let w = ws[n - 1];
        assert(written_sound(ws[n - 1]));
        lemma_line(w);
        lemma_part(ws, n);
        assert(lines[n - 1] == written_line(w));
        lemma_says(ws, n, "protected"@, c);
        lemma_says(ws, n, "context"@, c);
        lemma_says(ws, n, "terminal"@, c);
        lemma_says(ws, n, "multi-destination"@, c);
        match w {
            Written::Row(s) => {
                let part = ascii_lowered(part_after(ws, n - 1));
                assert(part_after(ws, n) == part_after(ws, n - 1));
                lemma_with_item(before.protected, slug_of(s), c);
                lemma_with_item(before.context, slug_of(s), c);
                lemma_with_item(before.terminal, slug_of(s), c);
                lemma_with_item(before.multi, slug_of(s), c);
                if part == "map"@ {
                    lemma_candidate(before, ws, n, s, c);
                }
            },
            _ => {},
        }
    } else {
        assert(homes(ws, 0, c) =~= Seq::empty());
    }
}

// ---- routes ----

proof fn lemma_take(m: Seq<(Seq<char>, Seq<Seq<char>>)>, n: int, c: Seq<char>)
    requires
        0 < n <= m.len(),
        distinct_keys(m),
    ensures
        found(m.take(n), c) == (if m[n - 1].0 == c {
            Some(m[n - 1].1)
        } else {
            found(m.take(n - 1), c)
        }),
        m[n - 1].0 == c ==> found(m.take(n - 1), c) is None,
{
    let a = m.take(n - 1);
    let b = m.take(n);
    lemma_key_from(a, c, 0);
    lemma_key_from(b, c, 0);
    if m[n - 1].0 == c {
        assert forall|i: int| 0 <= i < n - 1 implies #[trigger] b[i].0 != c by {
            assert(m[i].0 != m[n - 1].0);
        }
        lemma_key_at(b, c, 0, n - 1);
        if key_from(a, c, 0) is Some {
            let i = key_from(a, c, 0)->0;
            assert(m[i].0 != m[n - 1].0);
        }
    } else {
        match key_from(a, c, 0) {
            Some(i) => {
                assert forall|h: int| 0 <= h < i implies #[trigger] b[h].0 != c by {
                    assert(a[h].0 != c);
                }
                lemma_key_at(b, c, 0, i);
            },
            None => {
                if key_from(b, c, 0) is Some {
                    let i = key_from(b, c, 0)->0;
                    if i < n - 1 {
                        assert(a[i].0 != c);
                    }
                }
            },
        }
    }
}

proof fn lemma_routes(
    m: Seq<(Seq<char>, Seq<Seq<char>>)>,
    multi: Seq<Seq<char>>,
    n: int,
    c: Seq<char>,
)
    requires
        0 <= n <= m.len(),
        distinct_keys(m),
    ensures
        ({
            let r = routes_first(m, multi, n);
            let h = found(m.take(n), c);
            &&& found(r.mappings, c) == (if h is Some && (h->0).len() == 1 {
                Some((h->0)[0])
            } else {
                None
            })
            &&& found(r.branches, c) == (if h is Some && (h->0).len() != 1 {
                Some(sorted::<String>(h->0))
            } else {
                None
            })
            &&& r.multi.contains(c) == (multi.contains(c) || (h is Some && (h->0).len() != 1))
        }),
    decreases n,
{
    if n > 0 {
        lemma_routes(m, multi, n - 1, c);
        lemma_take(m, n, c);
        let r = routes_first(m, multi, n - 1);
        let (concept, list) = m[n - 1];
        if list.len() == 1 {
            insert_then_get(r.mappings, concept, list[0], c);
        } else {
            insert_then_get(r.branches, concept, sorted::<String>(list), c);
            lemma_with_item(r.multi, concept, c);
        }
    } else {
        assert(found(m.take(0), c) is None);
    }
}

/// Of a roadmap, what is read is what was written. A concept with one separator under
/// `[map]` is mapped to it; one with several is mapped to none, has them all in order, and
/// counts as one without a single place, like those under `[multi-destination]`. The labels
/// under `[protected]`, `[context]` and `[terminal]` are known by their words.
pub proof fn roadmaps_are_read_as_written(ws: Seq<Written>, c: Seq<char>)
    requires
        forall|i: int| 0 <= i < ws.len() ==> written_sound(#[trigger] ws[i]),
    ensures
        ({
            let m = roadmap_of(ended(written_lines(ws)));
            let n = ws.len() as int;
            let h = homes(ws, n, c);
            &&& found(m.mappings, c) == (if h.len() == 1 {
                Some(h[0])
            } else {
                None
            })
            &&& found(m.branch_destinations, c) == (if h.len() > 1 {
                Some(sorted::<String>(h))
            } else {
                None
            })
            &&& m.multi_destination.contains(c) == (h.len() > 1 || (c.len() > 0 && says(
                ws,
                n,
                "multi-destination"@,
                c,
            )))
            &&& m.protected.contains(c) == says(ws, n, "protected"@, c)
            &&& m.context.contains(c) == says(ws, n, "context"@, c)
            &&& m.terminal.contains(c) == says(ws, n, "terminal"@, c)
            &&& m.ambiguous.len() == 0
        }),
{
    let lines = written_lines(ws);
    let n = ws.len() as int;
    assert forall|i: int| 0 <= i < lines.len() implies is_line(#[trigger] lines[i]) by {
        assert(written_sound(ws[i]));
        lemma_line(ws[i]);
        assert(is_white('\r'));
    }
    lemma_lines_read_back(lines);
    lemma_rows(ws, n, c);
    let r = rows_first(lines, n);
    let k = r.candidates.len() as int;
    lemma_routes(r.candidates, r.multi, k, c);
    assert(r.candidates.take(k) =~= r.candidates);
    if found(r.candidates, c) is Some {
        assert((found(r.candidates, c)->0).len() > 0);
    }
}

// ---- destinations ----

/// The destinations that the words lead to are all one.
pub open spec fn all_lead_to(
    mappings: Seq<(Seq<char>, Seq<char>)>,
    words: Seq<Seq<char>>,
    home: Seq<char>,
) -> bool {
    &&& exists|i: int| 0 <= i < words.len() && found(mappings, #[trigger] words[i]) == Some(home)
    &&& forall|i: int|
        0 <= i < words.len() && found(mappings, #[trigger] words[i]) is Some ==> found(
            mappings,
            words[i],
        ) == Some(home)
}

proof fn lemma_homes_first(
    mappings: Seq<(Seq<char>, Seq<char>)>,
    words: Seq<Seq<char>>,
    n: int,
    home: Seq<char>,
)
    requires
        0 <= n <= words.len(),
    ensures
        homes_first(mappings, words, n).no_duplicates(),
        homes_first(mappings, words, n).contains(home) == exists|i: int|
            0 <= i < n && found(mappings, #[trigger] words[i]) == Some(home),
    decreases n,
{
    if n > 0 {
        lemma_homes_first(mappings, words, n - 1, home);
        let before = homes_first(mappings, words, n - 1);
        match found(mappings, words[n - 1]) {
            Some(d) => {
                lemma_with_item(before, d, home);
                let all = with_item(before, d);
                if !before.contains(d) {
                    assert forall|i: int, j: int|
                        0 <= i < all.len() && 0 <= j < all.len() && i != j implies all[i]
                        != all[j] by {
                        if i < before.len() {
                            assert(before.contains(before[i]));
                        }
                        if j < before.len() {
                            assert(before.contains(before[j]));
                        }
                    }
                }
            },
            None => {},
        }
    }
}

/// A category goes where its whole name is mapped to, or else where all of its words that
/// are mapped lead to, if that is one place.
pub proof fn categories_go_where_their_words_lead(
    m: SectionMapView,
    category: Seq<char>,
    home: Seq<char>,
)
    ensures
        (category_home(m, category) == Some(home)) == (match found(m.mappings, slug_of(category)) {
            Some(d) => d == home,
            None => all_lead_to(m.mappings, crate::keys::plain_words_of(category), home),
        }),
{
    let w = crate::keys::plain_words_of(category);
    let n = w.len() as int;
    let hs = homes_first(m.mappings, w, n);
    lemma_homes_first(m.mappings, w, n, home);
    if found(m.mappings, slug_of(category)) is None {
        if hs.len() == 1 && hs[0] == home {
            assert(hs.contains(home));
            assert forall|i: int|
                0 <= i < w.len() && found(m.mappings, #[trigger] w[i]) is Some implies found(
                m.mappings,
                w[i],
            ) == Some(home) by {
                let d = found(m.mappings, w[i])->0;
                lemma_homes_first(m.mappings, w, n, d);
                assert(hs.contains(d));
            }
        }
        if all_lead_to(m.mappings, w, home) {
            assert(hs.contains(home));
            if hs.len() != 1 {
                let i = choose|i: int| 0 <= i < hs.len() && hs[i] == home;
                let j: int = if i == 0 {
                    1
                } else {
                    0
                };
                let d = hs[j];
                assert(hs.contains(d));
                lemma_homes_first(m.mappings, w, n, d);
                let k = choose|k: int|
                    0 <= k < n && found(m.mappings, #[trigger] w[k]) == Some(d);
                assert(found(m.mappings, w[k]) == Some(home));
                assert(hs[i] != hs[j]);
            }
        }
    }
}

} // verus!
