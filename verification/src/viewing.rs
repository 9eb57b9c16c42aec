//! What the window shows: the mods by priority, what a search leaves, and where a mod is
//! from.
use vstd::prelude::*;
#[allow(unused_imports)]
use crate::browser::{by_priority, changes_first, enabled_first, enabled_mods, finds, hits_from, left_by_search, priorities_first, priority_of, terms_first, weighed, Weighted};
#[allow(unused_imports)]
use crate::map::{found, insert_then_get};
#[allow(unused_imports)]
use crate::modlist::{EntryView, SectionView};
#[allow(unused_imports)]
use crate::plan::ChangeView;
#[allow(unused_imports)]
use crate::priority_manifest::{counted_first, positions_of, row_key};
#[allow(unused_imports)]
use crate::sort::{sorted, sorting_orders_and_keeps};
#[allow(unused_imports)]
use crate::text::{ascii_lowered, before_suffix, begins, contains_text, set_trimmed_start, trimmed, trimmed_start};

verus! {

// ---- priority ----

/// The mods are shown from the highest priority down, all of them.
pub proof fn higher_priority_is_shown_first(
    mods: Seq<EntryView>,
    ranks: Seq<(Seq<char>, usize)>,
)
    ensures
        ({
            let s = sorted::<Weighted>(weighed(mods, ranks));
            let shown = by_priority(mods, ranks);
            &&& s.to_multiset() == weighed(mods, ranks).to_multiset()
            &&& shown.len() == mods.len()
            &&& forall|i: int| 0 <= i < shown.len() ==> #[trigger] shown[i] == s[i].1
            &&& forall|i: int|
                0 <= i < s.len() ==> (#[trigger] s[i]).0 == (match found(
                    ranks,
                    ascii_lowered(s[i].1.name),
                ) {
                    Some(p) => p,
                    None => 0usize,
                })
            &&& forall|i: int, j: int|
                0 <= i < j < s.len() ==> (#[trigger] s[i]).0 >= (#[trigger] s[j]).0
        }),
{
    broadcast use vstd::seq_lib::group_to_multiset_ensures;

    let w = weighed(mods, ranks);
    let s = sorted::<Weighted>(w);
    sorting_orders_and_keeps::<Weighted>(w);
    assert forall|i: int| 0 <= i < s.len() implies (#[trigger] s[i]).0 == priority_of(
        ranks,
        s[i].1.name,
    ) by {
        assert(s.contains(s[i]));
        assert(s.to_multiset().count(s[i]) > 0);
        assert(w.contains(s[i]));
        let k = choose|k: int| 0 <= k < w.len() && w[k] == s[i];
    }
    assert forall|i: int, j: int| 0 <= i < j < s.len() implies (#[trigger] s[i]).0 >= (
    #[trigger] s[j]).0 by {
        assert(<Weighted as crate::sort::Ranked>::precedes(s[i], s[j]));
    }
}

/// The place of the last of the first `n` rows that go by that key.
pub open spec fn last_row(rows: Seq<Seq<char>>, n: int, key: Seq<char>) -> Option<int>
    decreases n,
{
    if n <= 0 {
        None
    } else if row_key(rows[n - 1]) == key {
        Some(n - 1)
    } else {
        last_row(rows, n - 1, key)
    }
}

proof fn lemma_positions(rows: Seq<Seq<char>>, n: int, key: Seq<char>)
    requires
        0 <= n <= rows.len(),
    ensures
        found(counted_first(rows, n), key) == (match last_row(rows, n, key) {
            Some(i) => Some((rows.len() - i) as usize),
            None => None,
        }),
    decreases n,
{
    if n > 0 {
        lemma_positions(rows, n - 1, key);
        insert_then_get(
            counted_first(rows, n - 1),
            row_key(rows[n - 1]),
            (rows.len() - (n - 1)) as usize,
            key,
        );
    }
}

/// A row's position counts the rows from the end of the file up to it.
pub proof fn positions_count_from_the_end(rows: Seq<Seq<char>>, key: Seq<char>)
    ensures
        found(positions_of(rows), key) == (match last_row(rows, rows.len() as int, key) {
            Some(i) => Some((rows.len() - i) as usize),
            None => None,
        }),
{
    lemma_positions(rows, rows.len() as int, key);
}

/// The mod that a row holds, if it holds one and no separator.
pub open spec fn mod_in(row: Seq<char>) -> Option<Seq<char>> {
    let bare = trimmed(set_trimmed_start(row, "+-*"@));
    if before_suffix(bare, "_separator"@) is Some || bare.len() == 0 {
        None
    } else {
        Some(bare)
    }
}

/// The separator that a row holds, if it holds one.
pub open spec fn separator_in(row: Seq<char>) -> Option<Seq<char>> {
    match before_suffix(trimmed(set_trimmed_start(row, "+-*"@)), "_separator"@) {
        Some(l) => Some(trimmed(l)),
        None => None,
    }
}

pub open spec fn last_mod_row(rows: Seq<Seq<char>>, n: int, name: Seq<char>) -> Option<int>
    decreases n,
{
    if n <= 0 {
        None
    } else if mod_in(rows[n - 1]) == Some(name) {
        Some(n - 1)
    } else {
        last_mod_row(rows, n - 1, name)
    }
}

pub open spec fn last_separator_row(rows: Seq<Seq<char>>, n: int, label: Seq<char>) -> Option<int>
    decreases n,
{
    if n <= 0 {
        None
    } else if separator_in(rows[n - 1]) == Some(label) {
        Some(n - 1)
    } else {
        last_separator_row(rows, n - 1, label)
    }
}

/// The last mark among the first `n` rows that stands before that mod.
pub open spec fn last_mark(rows: Seq<Seq<char>>, n: int, name: Seq<char>) -> Option<char>
    decreases n,
{
    if n <= 0 {
        None
    } else {
        let c = rows[n - 1][0];
        if mod_in(rows[n - 1]) == Some(name) && (c == '+' || c == '-' || c == '*') {
            Some(c)
        } else {
            last_mark(rows, n - 1, name)
        }
    }
}

proof fn lemma_priorities(rows: Seq<Seq<char>>, n: int, name: Seq<char>)
    requires
        0 <= n <= rows.len(),
    ensures
        ({
            let p = priorities_first(rows, n);
            &&& found(p.mods, name) == (match last_mod_row(rows, n, name) {
                Some(i) => Some((rows.len() - i) as usize),
                None => None,
            })
            &&& found(p.separators, name) == (match last_separator_row(rows, n, name) {
                Some(i) => Some((rows.len() - i) as usize),
                None => None,
            })
            &&& found(p.states, name) == last_mark(rows, n, name)
        }),
    decreases n,
{
    if n > 0 {
        lemma_priorities(rows, n - 1, name);
        let before = priorities_first(rows, n - 1);
        let row = rows[n - 1];
        let priority = (rows.len() - (n - 1)) as usize;
        let bare = trimmed(set_trimmed_start(row, "+-*"@));
        match before_suffix(bare, "_separator"@) {
            Some(label) => {
                insert_then_get(before.separators, trimmed(label), priority, name);
            },
            None => {
                insert_then_get(before.mods, bare, priority, name);
                insert_then_get(before.states, bare, row[0], name);
            },
        }
    }
}

/// Of every mod and separator the rows tell its priority, the first row the highest, and of
/// every mod whether it is ticked.
pub proof fn rows_tell_priorities(rows: Seq<Seq<char>>, name: Seq<char>)
    ensures
        ({
            let n = rows.len() as int;
            let p = priorities_first(rows, n);
            &&& found(p.mods, name) == (match last_mod_row(rows, n, name) {
                Some(i) => Some((rows.len() - i) as usize),
                None => None,
            })
            &&& found(p.separators, name) == (match last_separator_row(rows, n, name) {
                Some(i) => Some((rows.len() - i) as usize),
                None => None,
            })
            &&& found(p.states, name) == last_mark(rows, n, name)
        }),
{
    lemma_priorities(rows, rows.len() as int, name);
}

// ---- searching ----

/// A search leaves the mod: nothing is sought, or the section or the mod has the text in
/// what is listed under its name.
pub open spec fn is_left(
    section: Seq<char>,
    m: Seq<char>,
    terms: Seq<(Seq<char>, Seq<char>)>,
    needle: Seq<char>,
) -> bool {
    ||| needle.len() == 0
    ||| found(terms, section) matches Some(t) && contains_text(t, needle)
    ||| found(terms, m) matches Some(t) && contains_text(t, needle)
}

proof fn lemma_left(
    section: Seq<char>,
    mods: Seq<Seq<char>>,
    terms: Seq<(Seq<char>, Seq<char>)>,
    needle: Seq<char>,
    n: int,
)
    requires
        0 <= n <= mods.len(),
    ensures
        left_by_search(section, mods, terms, needle, n) == mods.take(n).filter(
            |m: Seq<char>| is_left(section, m, terms, needle),
        ),
    decreases n,
{
    reveal(Seq::filter);
    if n > 0 {
        lemma_left(section, mods, terms, needle, n - 1);
        let t = mods.take(n);
        assert(t.drop_last() =~= mods.take(n - 1));
        assert(t.last() == mods[n - 1]);
    } else {
        assert(mods.take(0) =~= Seq::empty());
    }
}

/// A search leaves those mods of a section that are found, in their order, or all of them
/// where the section itself is.
pub proof fn searches_leave_what_is_found(
    section: Seq<char>,
    mods: Seq<Seq<char>>,
    terms: Seq<(Seq<char>, Seq<char>)>,
    needle: Seq<char>,
)
    ensures
        left_by_search(section, mods, terms, needle, mods.len() as int) == mods.filter(
            |m: Seq<char>| is_left(section, m, terms, needle),
        ),
{
    lemma_left(section, mods, terms, needle, mods.len() as int);
    assert(mods.take(mods.len() as int) =~= mods);
}

proof fn lemma_terms(names: Seq<Seq<char>>, n: int, name: Seq<char>)
    requires
        0 <= n <= names.len(),
    ensures
        found(terms_first(names, n), name) == (if names.take(n).contains(name) {
            Some(ascii_lowered(name))
        } else {
            None
        }),
    decreases n,
{
    if n > 0 {
        lemma_terms(names, n - 1, name);
        insert_then_get(
            terms_first(names, n - 1),
            names[n - 1],
            ascii_lowered(names[n - 1]),
            name,
        );
        let a = names.take(n - 1);
        let b = names.take(n);
        if a.contains(name) {
            let i = choose|i: int| 0 <= i < a.len() && a[i] == name;
            assert(b[i] == name);
        }
        assert(b[n - 1] == names[n - 1]);
        if b.contains(name) {
            let i = choose|i: int| 0 <= i < b.len() && b[i] == name;
            if i < n - 1 {
                assert(a[i] == name);
            }
        }
    }
}

/// Every name is listed under itself by its lower case, so that a search finds it whatever
/// the case.
pub proof fn names_are_listed_in_lower_case(names: Seq<Seq<char>>, name: Seq<char>)
    ensures
        found(terms_first(names, names.len() as int), name) == (if names.contains(name) {
            Some(ascii_lowered(name))
        } else {
            None
        }),
{
    lemma_terms(names, names.len() as int, name);
    assert(names.take(names.len() as int) =~= names);
}

/// The names from `i` on that have the text in them, but for the mod's own.
pub open spec fn matching_from(
    names: Seq<Seq<char>>,
    own: Option<Seq<char>>,
    needle: Seq<char>,
    i: int,
) -> Seq<Seq<char>>
    decreases names.len() - i,
{
    if i < 0 || i >= names.len() {
        Seq::empty()
    } else if own != Some(names[i]) && contains_text(ascii_lowered(names[i]), needle) {
        seq![names[i]] + matching_from(names, own, needle, i + 1)
    } else {
        matching_from(names, own, needle, i + 1)
    }
}

/// The hits of a search are the first names that match, and no more than were asked for.
pub proof fn hits_are_the_first_matches(
    names: Seq<Seq<char>>,
    own: Option<Seq<char>>,
    needle: Seq<char>,
    most: nat,
    i: int,
)
    requires
        0 <= i <= names.len(),
    ensures
        ({
            let all = matching_from(names, own, needle, i);
            hits_from(names, own, needle, most, i) == (if all.len() <= most {
                all
            } else {
                all.take(most as int)
            })
        }),
    decreases names.len() - i,
{
    let all = matching_from(names, own, needle, i);
    let hits = hits_from(names, own, needle, most, i);
    if i < names.len() && most > 0 {
        if own != Some(names[i]) && contains_text(ascii_lowered(names[i]), needle) {
            hits_are_the_first_matches(names, own, needle, (most - 1) as nat, i + 1);
            let rest = matching_from(names, own, needle, i + 1);
            if all.len() > most {
                assert(all.take(most as int) =~= seq![names[i]] + rest.take(most - 1));
            }
        } else {
            hits_are_the_first_matches(names, own, needle, most, i + 1);
        }
    } else if most == 0 {
        if all.len() > 0 {
            assert(all.take(0) =~= Seq::empty());
        } else {
            assert(all =~= Seq::empty());
        }
    }
}

// ---- changes ----

/// The places of the changes of a name among the first `n`.
pub open spec fn places_of(plan: Seq<ChangeView>, n: int, name: Seq<char>) -> Seq<usize>
    decreases n,
{
    if n <= 0 {
        Seq::empty()
    } else if plan[n - 1].name == name {
        places_of(plan, n - 1, name).push((n - 1) as usize)
    } else {
        places_of(plan, n - 1, name)
    }
}

proof fn lemma_changes(plan: Seq<ChangeView>, n: int, name: Seq<char>)
    requires
        0 <= n <= plan.len(),
    ensures
        found(changes_first(plan, n), name) == (if places_of(plan, n, name).len() > 0 {
            Some(places_of(plan, n, name))
        } else {
            None
        }),
    decreases n,
{
    if n > 0 {
        lemma_changes(plan, n - 1, name);
        let before = changes_first(plan, n - 1);
        let own = plan[n - 1].name;
        let put = match found(before, own) {
            Some(v) => v.push((n - 1) as usize),
            None => seq![(n - 1) as usize],
        };
        insert_then_get(before, own, put, name);
        if own == name && found(before, own) is None {
            assert(places_of(plan, n - 1, name) =~= Seq::empty());
            assert(places_of(plan, n, name) =~= seq![(n - 1) as usize]);
        }
    }
}

/// Every name has its changes, all of them and in their order.
pub proof fn changes_are_found_by_name(plan: Seq<ChangeView>, name: Seq<char>)
    ensures
        ({
            let places = places_of(plan, plan.len() as int, name);
            found(changes_first(plan, plan.len() as int), name) == (if places.len() > 0 {
                Some(places)
            } else {
                None
            })
        }),
{
    lemma_changes(plan, plan.len() as int, name);
}

// ---- ticked mods ----


proof fn lemma_enabled_mods(
    mods: Seq<EntryView>,
    label: Seq<char>,
    n: int,
    x: (Seq<char>, Seq<char>),
)
    requires
        0 <= n <= mods.len(),
    ensures
        enabled_mods(mods, label, n).contains(x) == (x.1 == label && exists|j: int|
            0 <= j < n && (#[trigger] mods[j]).name == x.0 && begins(
                trimmed_start(mods[j].raw),
                "+"@,
            )),
    decreases n,
{
    if n > 0 {
        lemma_enabled_mods(mods, label, n - 1, x);
        let before = enabled_mods(mods, label, n - 1);
        let all = enabled_mods(mods, label, n);
        let m = mods[n - 1];
        if before.contains(x) {
            let i = choose|i: int| 0 <= i < before.len() && before[i] == x;
            assert(all[i] == x);
        }
        if begins(trimmed_start(m.raw), "+"@) {
            assert(all == before.push((m.name, label)));
            assert(all[before.len() as int] == (m.name, label));
            if all.contains(x) && x != (m.name, label) {
                let i = choose|i: int| 0 <= i < all.len() && all[i] == x;
                assert(before[i] == x);
            }
        }
        if exists|j: int|
            0 <= j < n - 1 && (#[trigger] mods[j]).name == x.0 && begins(
                trimmed_start(mods[j].raw),
                "+"@,
            ) {
            let j = choose|j: int|
                0 <= j < n - 1 && (#[trigger] mods[j]).name == x.0 && begins(
                    trimmed_start(mods[j].raw),
                    "+"@,
                );
            assert(mods[j].name == x.0);
        }
    }
}

/// A section holds the ticked mod.
pub open spec fn holds_ticked(s: SectionView, x: (Seq<char>, Seq<char>)) -> bool {
    x.1 == s.label && exists|j: int|
        0 <= j < s.mods.len() && (#[trigger] s.mods[j]).name == x.0 && begins(
            trimmed_start(s.mods[j].raw),
            "+"@,
        )
}

proof fn lemma_enabled(sections: Seq<SectionView>, n: int, x: (Seq<char>, Seq<char>))
    requires
        0 <= n <= sections.len(),
    ensures
        enabled_first(sections, n).contains(x) == exists|i: int|
            0 <= i < n && holds_ticked(#[trigger] sections[i], x),
    decreases n,
{
    if n > 0 {
        lemma_enabled(sections, n - 1, x);
        let s = sections[n - 1];
        lemma_enabled_mods(s.mods, s.label, s.mods.len() as int, x);
        let a = enabled_first(sections, n - 1);
        let b = enabled_mods(s.mods, s.label, s.mods.len() as int);
        if a.contains(x) {
            let i = choose|i: int| 0 <= i < a.len() && a[i] == x;
            assert((a + b)[i] == x);
        }
        if b.contains(x) {
            let i = choose|i: int| 0 <= i < b.len() && b[i] == x;
            assert((a + b)[a.len() + i] == x);
        }
        if exists|i: int| 0 <= i < n - 1 && holds_ticked(#[trigger] sections[i], x) {
            let i = choose|i: int| 0 <= i < n - 1 && holds_ticked(#[trigger] sections[i], x);
            assert(holds_ticked(sections[i], x));
        }
        assert(holds_ticked(s, x) == b.contains(x));
    }
}

/// The ticked mods are listed with the label of their section, and no other.
pub proof fn ticked_mods_are_listed(sections: Seq<SectionView>, x: (Seq<char>, Seq<char>))
    ensures
        enabled_first(sections, sections.len() as int).contains(x) == exists|i: int|
            0 <= i < sections.len() && holds_ticked(#[trigger] sections[i], x),
{
    lemma_enabled(sections, sections.len() as int, x);
}

} // verus!
