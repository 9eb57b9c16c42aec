//! What other profiles say: the references of a mod are its votes, and they must agree.
use vstd::prelude::*;
#[allow(unused_imports)]
use crate::keys::{place_alike, squeezed};
#[allow(unused_imports)]
use crate::map::{found, insert_then_get};
#[allow(unused_imports)]
use crate::readback::{lemma_split_at, lemma_trim_tight, tight};
#[allow(unused_imports)]
use crate::reference::{agreed, filed, filed_in, homes_first, homes_of, homes_or_none, is_operational, new_rows, unanimous, votes_first, walked, walked_first, Homes, Walk};
#[allow(unused_imports)]
use crate::text::{ascii_lowered, contains_text, ended, finishes, is_line, is_white, lemma_lines_read_back, past_set, set_trimmed_start, split_first, trimmed};

verus! {

// ---- votes ----

/// The reference is a vote for that section: the first with the same letters and digits.
pub open spec fn votes_for(sections: Seq<Seq<char>>, home: Seq<char>, s: Seq<char>) -> bool {
    exists|i: int|
        0 <= i < sections.len() && #[trigger] sections[i] == s && squeezed(s) == squeezed(home)
            && forall|j: int| 0 <= j < i ==> squeezed(#[trigger] sections[j]) != squeezed(home)
}

pub open spec fn is_vote(sections: Seq<Seq<char>>, home: Seq<char>) -> bool {
    exists|s: Seq<char>| votes_for(sections, home, s)
}

/// How many of the first `n` references are votes.
pub open spec fn votes_in(homes: Seq<Seq<char>>, sections: Seq<Seq<char>>, n: int) -> nat
    decreases n,
{
    if n <= 0 {
        0
    } else {
        votes_in(homes, sections, n - 1) + (if is_vote(sections, homes[n - 1]) {
            1nat
        } else {
            0
        })
    }
}

/// All votes are for that section, and there is one.
pub open spec fn all_vote_for(
    homes: Seq<Seq<char>>,
    sections: Seq<Seq<char>>,
    n: int,
    s: Seq<char>,
) -> bool {
    &&& exists|i: int| 0 <= i < n && votes_for(sections, #[trigger] homes[i], s)
    &&& forall|i: int, t: Seq<char>|
        0 <= i < n && #[trigger] votes_for(sections, homes[i], t) ==> t == s
}

proof fn lemma_alike(sections: Seq<Seq<char>>, x: Seq<char>, i: int)
    requires
        0 <= i,
        forall|j: int| 0 <= j < i && j < sections.len() ==> squeezed(#[trigger] sections[j])
            != squeezed(x),
    ensures
        match place_alike(sections, x, i) {
            Some(k) => 0 <= k < sections.len() && votes_for(sections, x, sections[k]),
            None => forall|j: int|
                0 <= j < sections.len() ==> squeezed(#[trigger] sections[j]) != squeezed(x),
        },
    decreases sections.len() - i,
{
    if i < sections.len() {
        if squeezed(sections[i]) != squeezed(x) {
            lemma_alike(sections, x, i + 1);
        } else {
            assert(votes_for(sections, x, sections[i]));
        }
    }
}

proof fn lemma_one_vote(sections: Seq<Seq<char>>, x: Seq<char>, a: Seq<char>, b: Seq<char>)
    requires
        votes_for(sections, x, a),
        votes_for(sections, x, b),
    ensures
        a == b,
{
    let i = choose|i: int|
        0 <= i < sections.len() && #[trigger] sections[i] == a && squeezed(a) == squeezed(x)
            && forall|j: int| 0 <= j < i ==> squeezed(#[trigger] sections[j]) != squeezed(x);
    let k = choose|k: int|
        0 <= k < sections.len() && #[trigger] sections[k] == b && squeezed(b) == squeezed(x)
            && forall|j: int| 0 <= j < k ==> squeezed(#[trigger] sections[j]) != squeezed(x);
    if i < k {
        assert(squeezed(sections[i]) != squeezed(x));
    } else if k < i {
        assert(squeezed(sections[k]) != squeezed(x));
    }
}

proof fn lemma_votes(homes: Seq<Seq<char>>, sections: Seq<Seq<char>>, n: int, s: Seq<char>)
    requires
        0 <= n <= homes.len(),
    ensures
        votes_first(homes, sections, n).len() == votes_in(homes, sections, n),
        votes_first(homes, sections, n).contains(s) == exists|i: int|
            0 <= i < n && votes_for(sections, #[trigger] homes[i], s),
    decreases n,
{
    if n > 0 {
        lemma_votes(homes, sections, n - 1, s);
        let before = votes_first(homes, sections, n - 1);
        let all = votes_first(homes, sections, n);
        lemma_alike(sections, homes[n - 1], 0);
        if before.contains(s) {
            let i = choose|i: int| 0 <= i < before.len() && before[i] == s;
            assert(all[i] == s);
        }
        match place_alike(sections, homes[n - 1], 0) {
            Some(k) => {
                let v = sections[k];
                assert(votes_for(sections, homes[n - 1], v));
                assert(all == before.push(v));
                assert(all[before.len() as int] == v);
                if votes_for(sections, homes[n - 1], s) {
                    lemma_one_vote(sections, homes[n - 1], v, s);
                }
                if all.contains(s) && s != v {
                    let i = choose|i: int| 0 <= i < all.len() && all[i] == s;
                    assert(before[i] == s);
                }
            },
            None => {
                let home = homes[n - 1];
                if is_vote(sections, home) {
                    let t = choose|t: Seq<char>| votes_for(sections, home, t);
                    let i = choose|i: int|
                        0 <= i < sections.len() && #[trigger] sections[i] == t && squeezed(t)
                            == squeezed(homes[n - 1]) && forall|j: int|
                            0 <= j < i ==> squeezed(#[trigger] sections[j]) != squeezed(
                                homes[n - 1],
                            );
                    assert(squeezed(sections[i]) != squeezed(homes[n - 1]));
                }
            },
        }
        if exists|i: int| 0 <= i < n - 1 && votes_for(sections, #[trigger] homes[i], s) {
            let i = choose|i: int| 0 <= i < n - 1 && votes_for(sections, #[trigger] homes[i], s);
            assert(votes_for(sections, homes[i], s));
        }
    }
}

/// The references of a mod decide its section exactly where all of them that name a section
/// of this profile name the same; two of them are near certain, one is a little less so.
pub proof fn agreed_section_is_unanimous(
    entries: Homes,
    name: Seq<char>,
    sections: Seq<Seq<char>>,
    s: Seq<char>,
    sure: u8,
)
    ensures
        (agreed(entries, name, sections) == Some((s, sure))) == (found(
            entries,
            squeezed(name),
        ) matches Some(homes) && {
            let n = homes.len() as int;
            &&& all_vote_for(homes, sections, n, s)
            &&& sure == (if votes_in(homes, sections, n) >= 2 {
                99u8
            } else {
                92u8
            })
        }),
{
    if found(entries, squeezed(name)) is Some {
        let homes = found(entries, squeezed(name))->0;
        let n = homes.len() as int;
        let votes = votes_first(homes, sections, n);
        lemma_votes(homes, sections, n, s);
        if unanimous(votes) && votes[0] == s {
            assert(votes.contains(s));
            assert forall|i: int, t: Seq<char>|
                0 <= i < n && #[trigger] votes_for(sections, homes[i], t) implies t == s by {
                lemma_votes(homes, sections, n, t);
                assert(votes.contains(t));
                let k = choose|k: int| 0 <= k < votes.len() && votes[k] == t;
                assert(votes[k] == votes[0]);
            }
        }
        if all_vote_for(homes, sections, n, s) {
            assert(votes.contains(s));
            assert forall|i: int| 0 <= i < votes.len() implies #[trigger] votes[i] == s by {
                lemma_votes(homes, sections, n, votes[i]);
                assert(votes.contains(votes[i]));
                let k = choose|k: int|
                    0 <= k < n && votes_for(sections, #[trigger] homes[k], votes[i]);
                assert(votes_for(sections, homes[k], votes[i]));
            }
            assert(unanimous(votes));
        }
    }
}

// ---- reference files ----

pub open spec fn is_text(s: Seq<char>) -> bool {
    s.len() > 0 && tight(s) && !s.contains('\n') && !s.contains('\t')
}

/// The rows of a reference file: a mod and the section that holds it.
pub open spec fn home_lines(rows: Seq<(Seq<char>, Seq<char>)>) -> Seq<Seq<char>> {
    Seq::new(rows.len(), |i: int| rows[i].0 + seq!['\t'] + rows[i].1)
}

/// A section that says nothing of where a mod belongs.
pub open spec fn says_nothing(section: Seq<char>) -> bool {
    let s = ascii_lowered(section);
    ||| contains_text(s, "end of list"@)
    ||| contains_text(s, "output"@)
    ||| contains_text(s, "testing"@)
    ||| contains_text(s, "game folder"@)
    ||| contains_text(s, "creation kit"@)
}

/// The sections that the first `n` rows give a mod of those letters and digits.
pub open spec fn homes_given(
    rows: Seq<(Seq<char>, Seq<char>)>,
    n: int,
    key: Seq<char>,
) -> Seq<Seq<char>>
    decreases n,
{
    if n <= 0 {
        Seq::empty()
    } else {
        let before = homes_given(rows, n - 1, key);
        if squeezed(rows[n - 1].0) == key && !says_nothing(rows[n - 1].1) {
            before.push(rows[n - 1].1)
        } else {
            before
        }
    }
}

pub open spec fn rows_sound(rows: Seq<(Seq<char>, Seq<char>)>) -> bool {
    forall|i: int|
        0 <= i < rows.len() ==> is_text((#[trigger] rows[i]).0) && is_text(rows[i].1)
}

proof fn lemma_without(a: Seq<char>, b: Seq<char>, c: char)
    requires
        !a.contains(c),
        !b.contains(c),
    ensures
        !(a + b).contains(c),
{
    let s = a + b;
    if s.contains(c) {
        let i = choose|i: int| 0 <= i < s.len() && s[i] == c;
        if i < a.len() {
            assert(a[i] == c);
        } else {
            assert(b[i - a.len()] == c);
        }
    }
}

proof fn lemma_home_line(a: Seq<char>, b: Seq<char>)
    requires
        is_text(a),
        is_text(b),
    ensures
        is_line(a + seq!['\t'] + b),
        split_first(a + seq!['\t'] + b, "\t"@) == Some((a, b)),
        trimmed(a) == a,
        trimmed(b) == b,
{
    reveal_strlit("\t");
    assert("\t"@ =~= seq!['\t']);
    lemma_split_at(a, '\t', b);
    lemma_without(a, seq!['\t'], '\n');
    lemma_without(a + seq!['\t'], b, '\n');
    let l = a + seq!['\t'] + b;
    assert(l.last() == b.last());
    assert(is_white('\r'));
    lemma_trim_tight(a);
    lemma_trim_tight(b);
}

proof fn lemma_homes(rows: Seq<(Seq<char>, Seq<char>)>, n: int, key: Seq<char>)
    requires
        0 <= n <= rows.len(),
        rows_sound(rows),
    ensures
        homes_or_none(found(homes_first(home_lines(rows), n), key)) == homes_given(rows, n, key),
        found(homes_first(home_lines(rows), n), key) is Some == (homes_given(rows, n, key).len()
            > 0),
    decreases n,
{
    if n > 0 {
        lemma_homes(rows, n - 1, key);
        let (a, b) = rows[n - 1];
        assert(is_text(rows[n - 1].0));
        lemma_home_line(a, b);
        let lines = home_lines(rows);
        let before = homes_first(lines, n - 1);
        assert(lines[n - 1] == a + seq!['\t'] + b);
        if !is_operational(b) {
            lemma_homes(rows, n - 1, squeezed(a));
            insert_then_get(
                before,
                squeezed(a),
                homes_or_none(found(before, squeezed(a))).push(b),
                key,
            );
        }
    } else {
        assert(homes_given(rows, 0, key) =~= Seq::empty());
    }
}

/// The rows of a reference file are read back, for each mod in their order; sections of
/// outputs, tests and the like are passed over.
pub proof fn references_are_read_as_written(rows: Seq<(Seq<char>, Seq<char>)>, key: Seq<char>)
    requires
        rows_sound(rows),
    ensures
        ({
            let given = homes_given(rows, rows.len() as int, key);
            found(homes_of(Some(ended(home_lines(rows)))), key) == (if given.len() > 0 {
                Some(given)
            } else {
                None
            })
        }),
{
    let lines = home_lines(rows);
    assert forall|i: int| 0 <= i < lines.len() implies is_line(#[trigger] lines[i]) by {
        assert(is_text(rows[i].0));
        lemma_home_line(rows[i].0, rows[i].1);
    }
    lemma_lines_read_back(lines);
    lemma_homes(rows, rows.len() as int, key);
}

// ---- importing ----

/// A row of a mod list that is imported: a mod, ticked or not, or a separator.
pub enum Listed {
    Mod(bool, Seq<char>),
    Separator(Seq<char>),
}

pub open spec fn listed_line(l: Listed) -> Seq<char> {
    match l {
        Listed::Mod(on, name) => seq![
            if on {
                '+'
            } else {
                '-'
            },
        ] + name,
        Listed::Separator(label) => seq!['-'] + label + "_separator"@,
    }
}

pub open spec fn listed_lines(ls: Seq<Listed>) -> Seq<Seq<char>> {
    Seq::new(ls.len(), |i: int| listed_line(ls[i]))
}

pub open spec fn is_name(s: Seq<char>) -> bool {
    s.len() > 0 && tight(s) && !s.contains('\n') && s[0] != '+' && s[0] != '-'
}

pub open spec fn listed_sound(l: Listed) -> bool {
    match l {
        Listed::Mod(_, name) => is_name(name) && !finishes(name, "_separator"@),
        Listed::Separator(label) => is_name(label),
    }
}

/// The mods above row `n` that no separator above it has taken.
pub open spec fn waiting(ls: Seq<Listed>, n: int) -> Seq<Seq<char>>
    decreases n,
{
    if n <= 0 {
        Seq::empty()
    } else {
        match ls[n - 1] {
            Listed::Mod(_, name) => waiting(ls, n - 1).push(name),
            Listed::Separator(_) => Seq::empty(),
        }
    }
}

/// The mods that the separators among the first `n` rows take, each with its separator.
pub open spec fn taken(ls: Seq<Listed>, n: int) -> Seq<(Seq<char>, Seq<char>)>
    decreases n,
{
    if n <= 0 {
        Seq::empty()
    } else {
        match ls[n - 1] {
            Listed::Mod(_, _) => taken(ls, n - 1),
            Listed::Separator(label) => if says_nothing(label) {
                taken(ls, n - 1)
            } else {
                taken(ls, n - 1) + waiting(ls, n - 1).map_values(|m: Seq<char>| (m, label))
            },
        }
    }
}

proof fn lemma_set_start(mark: char, s: Seq<char>)
    requires
        mark == '+' || mark == '-',
        is_name(s),
    ensures
        set_trimmed_start(seq![mark] + s, "+-"@) == s,
{
    reveal_strlit("+-");
    assert("+-"@ =~= seq!['+', '-']);
    let set = "+-"@;
    assert(set[0] == '+' && set[1] == '-');
    let t = seq![mark] + s;
    assert(set.contains(t[0]));
    assert(t[1] == s[0]);
    assert(!set.contains(s[0]));
    assert(past_set(t, set, 1) == 1);
    assert(past_set(t, set, 0) == 1);
    assert(t.skip(1) =~= s);
}

proof fn lemma_listed(w: Walk, l: Listed)
    requires
        listed_sound(l),
    ensures
        is_line(listed_line(l)),
        walked(w, listed_line(l)) == (match l {
            Listed::Mod(_, name) => Walk { bucket: w.bucket.push(name), ..w },
            Listed::Separator(label) => Walk {
                bucket: Seq::empty(),
                rows: if says_nothing(label) {
                    w.rows
                } else {
                    w.rows + filed(w.bucket, label)
                },
            },
        }),
{
    reveal_strlit("_separator");
    reveal_strlit("+");
    reveal_strlit("-");
    assert("+"@ =~= seq!['+']);
    assert("-"@ =~= seq!['-']);
    let line = listed_line(l);
    assert(is_white('\r'));
    match l {
        Listed::Mod(on, name) => {
            let mark = if on {
                '+'
            } else {
                '-'
            };
            lemma_without(seq![mark], name, '\n');
            assert(line[0] == mark);
            assert(line.last() == name.last());
            lemma_trim_tight(line);
            lemma_set_start(mark, name);
            lemma_trim_tight(name);
            assert(line.take(1) =~= seq![mark]);
        },
        Listed::Separator(label) => {
            let tail = "_separator"@;
            assert(tail =~= seq!['_', 's', 'e', 'p', 'a', 'r', 'a', 't', 'o', 'r']);
            assert(!tail.contains('\n'));
            let body = label + tail;
            lemma_without(label, tail, '\n');
            lemma_without(seq!['-'], body, '\n');
            assert(line =~= seq!['-'] + body);
            assert(body[0] == label[0]);
            assert(body.last() == 'r');
            assert(is_name(body));
            assert(line[0] == '-');
            assert(line.last() == 'r');
            lemma_trim_tight(line);
            lemma_set_start('-', body);
            lemma_trim_tight(body);
            assert(body.skip(body.len() - tail.len()) =~= tail);
            assert(body.take(body.len() - tail.len()) =~= label);
            lemma_trim_tight(label);
        },
    }
}

proof fn lemma_walked(ls: Seq<Listed>, n: int)
    requires
        0 <= n <= ls.len(),
        forall|i: int| 0 <= i < ls.len() ==> listed_sound(#[trigger] ls[i]),
    ensures
        walked_first(listed_lines(ls), n).bucket == waiting(ls, n),
        walked_first(listed_lines(ls), n).rows == taken(ls, n),
    decreases n,
{
    if n > 0 {
        lemma_walked(ls, n - 1);
        assert(listed_sound(ls[n - 1]));
        let w = walked_first(listed_lines(ls), n - 1);
        lemma_listed(w, ls[n - 1]);
        assert(listed_lines(ls)[n - 1] == listed_line(ls[n - 1]));
        if let Listed::Separator(label) = ls[n - 1] {
            assert(filed(w.bucket, label) =~= waiting(ls, n - 1).map_values(
                |m: Seq<char>| (m, label),
            ));
        }
    }
}

/// Of a mod list that is imported, every mod is filed under the first separator below it in
/// the file, whether it is ticked or not; separators of outputs, tests and the like file
/// nothing, and neither is filed what no separator follows.
pub proof fn imported_mods_are_filed_under_their_separator(ls: Seq<Listed>)
    requires
        forall|i: int| 0 <= i < ls.len() ==> listed_sound(#[trigger] ls[i]),
    ensures
        filed_in(ended(listed_lines(ls))) == taken(ls, ls.len() as int),
{
    let lines = listed_lines(ls);
    assert forall|i: int| 0 <= i < lines.len() implies is_line(#[trigger] lines[i]) by {
        assert(listed_sound(ls[i]));
        lemma_listed(Walk { bucket: Seq::empty(), rows: Seq::empty() }, ls[i]);
    }
    lemma_lines_read_back(lines);
    lemma_walked(ls, ls.len() as int);
}

proof fn lemma_new_rows(
    known: Seq<Seq<char>>,
    rows: Seq<(Seq<char>, Seq<char>)>,
    n: int,
    x: Seq<char>,
)
    requires
        0 <= n <= rows.len(),
    ensures
        new_rows(known, rows, n).no_duplicates(),
        new_rows(known, rows, n).contains(x) == (!known.contains(x) && exists|i: int|
            0 <= i < n && x == (#[trigger] rows[i]).0 + "\t"@ + rows[i].1),
    decreases n,
{
    if n > 0 {
        lemma_new_rows(known, rows, n - 1, x);
        let before = new_rows(known, rows, n - 1);
        let all = new_rows(known, rows, n);
        let row = rows[n - 1].0 + "\t"@ + rows[n - 1].1;
        if before.contains(x) {
            let i = choose|i: int| 0 <= i < before.len() && before[i] == x;
            assert(all[i] == x);
        }
        if !(known.contains(row) || before.contains(row)) {
            assert(all == before.push(row));
            assert(all[before.len() as int] == row);
            if all.contains(x) && x != row {
                let i = choose|i: int| 0 <= i < all.len() && all[i] == x;
                assert(before[i] == x);
            }
            assert forall|i: int, j: int|
                0 <= i < all.len() && 0 <= j < all.len() && i != j implies all[i] != all[j] by {
                if i < before.len() {
                    assert(before.contains(before[i]));
                }
                if j < before.len() {
                    assert(before.contains(before[j]));
                }
            }
        }
        if exists|i: int| 0 <= i < n - 1 && x == (#[trigger] rows[i]).0 + "\t"@ + rows[i].1 {
            let i = choose|i: int|
                0 <= i < n - 1 && x == (#[trigger] rows[i]).0 + "\t"@ + rows[i].1;
            assert(x == rows[i].0 + "\t"@ + rows[i].1);
        }
    }
}

/// Importing adds each row that is not there yet, and each once.
pub proof fn imports_add_what_is_new(
    known: Seq<Seq<char>>,
    rows: Seq<(Seq<char>, Seq<char>)>,
    x: Seq<char>,
)
    ensures
        ({
            let added = new_rows(known, rows, rows.len() as int);
            &&& added.no_duplicates()
            &&& added.contains(x) == (!known.contains(x) && exists|i: int|
                0 <= i < rows.len() && x == (#[trigger] rows[i]).0 + "\t"@ + rows[i].1)
        }),
{
    lemma_new_rows(known, rows, rows.len() as int, x);
}

} // verus!
