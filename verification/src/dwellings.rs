//! Where a list says that a mod stands, which orderings wait for it, and what is a link in
//! a message.
use vstd::prelude::*;
#[allow(unused_imports)]
use crate::browser::{pieces_of, plain_of, text_piece, PieceView};
#[allow(unused_imports)]
use crate::edits::{ends_first, other_end};
#[allow(unused_imports)]
use crate::keys::squeezed;
#[allow(unused_imports)]
use crate::learning::{is_operational, placements_of, settled, walked_first, PlacementView, Placements};
#[allow(unused_imports)]
use crate::map::{found, insert_then_get};
#[allow(unused_imports)]
use crate::priority_manifest::{entry_of, rows_of};
#[allow(unused_imports)]
use crate::text::{before_suffix, begins, find_from, finishes, occurs_at, split_first, trimmed};

verus! {

// ---- where mods stand ----

/// The label of a row, if it is a separator.
pub open spec fn label_in(row: Seq<char>) -> Option<Seq<char>> {
    match before_suffix(entry_of(row), "_separator"@) {
        Some(l) => Some(trimmed(l)),
        None => None,
    }
}

/// The row is that of a mod which goes by that key.
pub open spec fn is_row_of(row: Seq<char>, key: Seq<char>) -> bool {
    label_in(row) is None && entry_of(row).len() > 0 && squeezed(entry_of(row)) == key
}

/// The mod waits at `p`, and no later one goes by its key.
pub open spec fn waits_at(
    pending: Seq<(Seq<char>, usize)>,
    key: Seq<char>,
    priority: usize,
    p: int,
) -> bool {
    0 <= p < pending.len() && squeezed(pending[p].0) == key && pending[p].1 == priority && forall|
        q: int,
    |
        p < q < pending.len() ==> squeezed(#[trigger] pending[q].0) != key
}

pub open spec fn none_waits(pending: Seq<(Seq<char>, usize)>, key: Seq<char>) -> bool {
    forall|q: int| 0 <= q < pending.len() ==> squeezed(#[trigger] pending[q].0) != key
}

proof fn lemma_settled_at(
    placed: Placements,
    pending: Seq<(Seq<char>, usize)>,
    section: Seq<char>,
    n: int,
    key: Seq<char>,
    priority: usize,
    p: int,
)
    requires
        p < n <= pending.len(),
        waits_at(pending, key, priority, p),
    ensures
        found(settled(placed, pending, section, n), key) == Some(PlacementView { section, priority }),
    decreases n,
{
    let before = settled(placed, pending, section, n - 1);
    let place = PlacementView { section, priority: pending[n - 1].1 };
    insert_then_get(before, squeezed(pending[n - 1].0), place, key);
    if p < n - 1 {
        lemma_settled_at(placed, pending, section, n - 1, key, priority, p);
        assert(squeezed(pending[n - 1].0) != key);
    }
}

proof fn lemma_settled_past(
    placed: Placements,
    pending: Seq<(Seq<char>, usize)>,
    section: Seq<char>,
    n: int,
    key: Seq<char>,
)
    requires
        0 <= n <= pending.len(),
        none_waits(pending, key),
    ensures
        found(settled(placed, pending, section, n), key) == found(placed, key),
    decreases n,
{
    if n > 0 {
        let before = settled(placed, pending, section, n - 1);
        let place = PlacementView { section, priority: pending[n - 1].1 };
        lemma_settled_past(placed, pending, section, n - 1, key);
        assert(squeezed(pending[n - 1].0) != key);
        insert_then_get(before, squeezed(pending[n - 1].0), place, key);
    }
}

/// Until its separator comes, a mod waits.
proof fn lemma_waits(rows: Seq<Seq<char>>, i: int, n: int, key: Seq<char>)
    requires
        0 <= i < n <= rows.len(),
        rows.len() <= usize::MAX,
        is_row_of(rows[i], key),
        forall|j: int| i < j < n ==> label_in(#[trigger] rows[j]) is None,
        forall|j: int| i < j < n ==> !is_row_of(#[trigger] rows[j], key),
    ensures
        exists|p: int| #[trigger]
            waits_at(walked_first(rows, n).pending, key, (rows.len() - i) as usize, p),
    decreases n,
{
    let before = walked_first(rows, n - 1).pending;
    let now = walked_first(rows, n).pending;
    let priority = (rows.len() - i) as usize;
    let bare = entry_of(rows[n - 1]);
    if i == n - 1 {
        assert(now == before.push((bare, priority)));
        assert(waits_at(now, key, priority, before.len() as int));
    } else {
        lemma_waits(rows, i, n - 1, key);
        let p = choose|p: int| #[trigger] waits_at(before, key, priority, p);
        assert(label_in(rows[n - 1]) is None);
        assert(!is_row_of(rows[n - 1], key));
        if bare.len() > 0 {
            assert(now == before.push((bare, (rows.len() - (n - 1)) as usize)));
            assert forall|q: int| p < q < now.len() implies squeezed(#[trigger] now[q].0) != key by {
                if q < before.len() {
                    assert(squeezed(before[q].0) != key);
                }
            }
        }
        assert(waits_at(now, key, priority, p));
    }
}

/// Behind its separator the place of a mod stays, as long as no other row has its key.
proof fn lemma_placed(rows: Seq<Seq<char>>, i: int, k: int, n: int, key: Seq<char>)
    requires
        0 <= i < k < n <= rows.len(),
        rows.len() <= usize::MAX,
        is_row_of(rows[i], key),
        label_in(rows[k]) is Some,
        !is_operational(label_in(rows[k])->0),
        forall|j: int| i < j < k ==> label_in(#[trigger] rows[j]) is None,
        forall|j: int| i < j < n ==> !is_row_of(#[trigger] rows[j], key),
    ensures
        none_waits(walked_first(rows, n).pending, key),
        found(walked_first(rows, n).placed, key) == Some(
            PlacementView { section: label_in(rows[k])->0, priority: (rows.len() - i) as usize },
        ),
    decreases n,
{
    let before = walked_first(rows, n - 1);
    let now = walked_first(rows, n);
    let priority = (rows.len() - i) as usize;
    let bare = entry_of(rows[n - 1]);
    if k == n - 1 {
        lemma_waits(rows, i, k, key);
        let p = choose|p: int| #[trigger] waits_at(before.pending, key, priority, p);
        lemma_settled_at(
            before.placed,
            before.pending,
            label_in(rows[k])->0,
            before.pending.len() as int,
            key,
            priority,
            p,
        );
    } else {
        lemma_placed(rows, i, k, n - 1, key);
        assert(!is_row_of(rows[n - 1], key));
        match label_in(rows[n - 1]) {
            Some(l) => {
                lemma_settled_past(
                    before.placed,
                    before.pending,
                    l,
                    before.pending.len() as int,
                    key,
                );
            },
            None => {
                if bare.len() > 0 {
                    assert forall|q: int| 0 <= q < now.pending.len() implies squeezed(
                        #[trigger] now.pending[q].0,
                    ) != key by {
                        if q < before.pending.len() {
                            assert(squeezed(before.pending[q].0) != key);
                        }
                    }
                }
            },
        }
    }
}

/// A mod stands in the section of the first separator below its row, at a place that counts
/// from the last row, which has the lowest. The last row with its name counts.
pub proof fn mods_stand_in_the_section_below(text: Seq<char>, i: int, k: int, key: Seq<char>)
    requires
        0 <= i < k < rows_of(text).len() <= usize::MAX,
        is_row_of(rows_of(text)[i], key),
        label_in(rows_of(text)[k]) is Some,
        !is_operational(label_in(rows_of(text)[k])->0),
        forall|j: int| i < j < k ==> label_in(#[trigger] rows_of(text)[j]) is None,
        forall|j: int|
            i < j < rows_of(text).len() ==> !is_row_of(#[trigger] rows_of(text)[j], key),
    ensures
        found(placements_of(text), key) == Some(
            PlacementView {
                section: label_in(rows_of(text)[k])->0,
                priority: (rows_of(text).len() - i) as usize,
            },
        ),
{
    let rows = rows_of(text);
    lemma_placed(rows, i, k, rows.len() as int, key);
}

// ---- orderings that wait ----

/// An ordering as it is written: the first loads after the second.
pub open spec fn ordering_text(first: Seq<char>, second: Seq<char>) -> Seq<char> {
    ">"@ + first + " = "@ + second
}

proof fn lemma_other_end(edge: Seq<char>, name: Seq<char>, after: bool, o: Seq<char>)
    ensures
        (other_end(edge, name, after) == Some(o)) == (edge == (if after {
            ordering_text(name, o)
        } else {
            ordering_text(o, name)
        })),
{
    let sign = ">"@;
    let mid = " = "@;
    if after {
        let p = sign + name + mid;
        if begins(edge, p) {
            assert(edge =~= edge.take(p.len() as int) + edge.skip(p.len() as int));
        }
        assert((p + o).take(p.len() as int) =~= p);
        assert((p + o).skip(p.len() as int) =~= o);
    } else {
        let t = mid + name;
        let whole = ordering_text(o, name);
        assert(whole =~= sign + (o + t));
        assert(whole.take(sign.len() as int) =~= sign);
        assert(whole.skip(sign.len() as int) =~= o + t);
        assert((o + t).skip((o + t).len() - t.len()) =~= t);
        assert((o + t).take((o + t).len() - t.len()) =~= o);
        if begins(edge, sign) {
            let body = edge.skip(sign.len() as int);
            assert(edge =~= edge.take(sign.len() as int) + body);
            if finishes(body, t) {
                assert(body =~= body.take(body.len() - t.len()) + body.skip(body.len() - t.len()));
                if body.take(body.len() - t.len()) == o {
                    assert(edge =~= sign + (o + t));
                }
            }
        }
    }
}

/// The orderings that are listed for a mod are those that name it on the side that is asked
/// for, each under its own number and with the other mod, and no others.
pub proof fn orderings_of_a_mod_are_listed(
    edges: Seq<Seq<char>>,
    name: Seq<char>,
    after: bool,
    n: int,
    k: usize,
    o: Seq<char>,
)
    requires
        0 <= n <= edges.len() <= usize::MAX,
    ensures
        ends_first(edges, name, after, n).contains((k, o)) == (k < n && edges[k as int] == (if after {
            ordering_text(name, o)
        } else {
            ordering_text(o, name)
        })),
    decreases n,
{
    let s = ends_first(edges, name, after, n);
    if n > 0 {
        orderings_of_a_mod_are_listed(edges, name, after, n - 1, k, o);
        let before = ends_first(edges, name, after, n - 1);
        lemma_other_end(edges[n - 1], name, after, o);
        if before.contains((k, o)) {
            let i = choose|i: int| 0 <= i < before.len() && before[i] == (k, o);
            assert(s[i] == (k, o));
        }
        if k == n - 1 && other_end(edges[n - 1], name, after) == Some(o) {
            assert(s[before.len() as int] == (k, o));
        }
        if s.contains((k, o)) && !before.contains((k, o)) {
            let i = choose|i: int| 0 <= i < s.len() && s[i] == (k, o);
            if i < before.len() {
                assert(before[i] == (k, o));
            }
        }
    }
}

// ---- links in messages ----

proof fn lemma_found_at(s: Seq<char>, sep: Seq<char>, c: char, i: int, k: int)
    requires
        sep.len() > 0,
        sep[0] == c,
        0 <= i <= k,
        k + sep.len() <= s.len(),
        s.subrange(k, k + sep.len()) == sep,
        forall|j: int| i <= j < k ==> s[j] != c,
    ensures
        find_from(s, sep, i) == Some(k),
    decreases k - i,
{
    if i < k {
        if occurs_at(s, sep, i) {
            assert(s.subrange(i, i + sep.len())[0] == s[i]);
        }
        lemma_found_at(s, sep, c, i + 1, k);
    }
}

proof fn lemma_split_at(a: Seq<char>, sep: Seq<char>, c: char, b: Seq<char>)
    requires
        sep.len() > 0,
        sep[0] == c,
        !a.contains(c),
    ensures
        split_first(a + sep + b, sep) == Some((a, b)),
{
    let s = a + sep + b;
    let k = a.len() as int;
    assert(s.subrange(k, k + sep.len()) =~= sep);
    assert forall|j: int| 0 <= j < k implies s[j] != c by {
        assert(s[j] == a[j]);
    }
    lemma_found_at(s, sep, c, 0, k);
    assert(s.take(k) =~= a);
    assert(s.skip(k + sep.len()) =~= b);
}

proof fn lemma_not_found(a: Seq<char>, sep: Seq<char>, c: char, i: int)
    requires
        sep.len() > 0,
        sep[0] == c,
        !a.contains(c),
        0 <= i,
    ensures
        find_from(a, sep, i) is None,
    decreases a.len() + 1 - i,
{
    if i + sep.len() <= a.len() {
        if occurs_at(a, sep, i) {
            assert(a.subrange(i, i + sep.len())[0] == a[i]);
        }
        lemma_not_found(a, sep, c, i + 1);
    }
}

/// A link of a message: its label, and the address that it leads to.
pub open spec fn link_text(label: Seq<char>, url: Seq<char>) -> Seq<char> {
    "["@ + label + "]("@ + url + ")"@
}

/// What stands before a link is text, a link to the web is a link, and what stands behind
/// it is read in the same way. A message without a link is text alone.
pub proof fn links_are_told_from_text(
    before: Seq<char>,
    label: Seq<char>,
    url: Seq<char>,
    rest: Seq<char>,
)
    requires
        !before.contains('['),
        !label.contains(']'),
        !url.contains(')'),
        begins(url, "https://"@) || begins(url, "http://"@),
    ensures
        pieces_of(before) == text_piece(before),
        pieces_of(before + link_text(label, url) + rest) == text_piece(before) + seq![
            PieceView::Link(plain_of(label), url),
        ] + pieces_of(rest),
{
    reveal_strlit("[");
    reveal_strlit("](");
    reveal_strlit(")");
    let open = "["@;
    let mid = "]("@;
    let close = ")"@;
    assert(open[0] == '[' && mid[0] == ']' && close[0] == ')');
    lemma_not_found(before, open, '[', 0);
    let address = url + close + rest;
    let tail = label + mid + address;
    let s = before + link_text(label, url) + rest;
    assert(s =~= before + open + tail);
    lemma_split_at(before, open, '[', tail);
    lemma_split_at(label, mid, ']', address);
    lemma_split_at(url, close, ')', rest);
}

} // verus!
