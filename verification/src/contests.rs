//! Who wins which file: what the conflict index counts of the files of the mods.
use vstd::prelude::*;
#[allow(unused_imports)]
use crate::conflicts::{built, contested, count_or_zero, file_name, least, pairs_first, providers_first, winner_is_first_in_priority, wins, with_files, with_losers, with_pair, PairsView, ProvidersView};
#[allow(unused_imports)]
use crate::map::{distinct_keys, found, insert_then_get, inserted};
#[allow(unused_imports)]
use crate::text::{char_replaced, lowercase};

verus! {

// ---- who holds a file ----

/// A file of a mod goes by that name: slashes are one, case does not count, and the mod's
/// own notes are no content.
pub open spec fn goes_by(file: Seq<char>, key: Seq<char>) -> bool {
    lowercase(char_replaced(file, '\\', '/')) == key && key != "meta.ini"@
}

/// How many of the first `n` files go by that name.
pub open spec fn copies(files: Seq<Seq<char>>, n: int, key: Seq<char>) -> nat
    decreases n,
{
    if n <= 0 {
        0
    } else {
        copies(files, n - 1, key) + (if goes_by(files[n - 1], key) {
            1nat
        } else {
            0
        })
    }
}

/// The first `n` mods that hold a file of that name, in their order.
pub open spec fn holders(mods: Seq<(usize, Seq<Seq<char>>)>, n: int, key: Seq<char>) -> Seq<usize>
    decreases n,
{
    if n <= 0 {
        Seq::empty()
    } else {
        let m = mods[n - 1];
        holders(mods, n - 1, key) + Seq::new(
            copies(m.1, m.1.len() as int, key),
            |i: int| m.0,
        )
    }
}

spec fn listed(m: ProvidersView, key: Seq<char>) -> Seq<usize> {
    match found(m, key) {
        Some(ps) => ps,
        None => Seq::empty(),
    }
}

/// Every key once, and nobody left out under one.
spec fn peopled(m: ProvidersView) -> bool {
    distinct_keys(m) && forall|k: Seq<char>| #[trigger] found(m, k) matches Some(ps) ==> ps.len() > 0
}

proof fn lemma_with_files(
    m: ProvidersView,
    files: Seq<Seq<char>>,
    who: usize,
    n: int,
    key: Seq<char>,
)
    requires
        0 <= n <= files.len(),
        peopled(m),
    ensures
        peopled(with_files(m, files, who, n)),
        listed(with_files(m, files, who, n), key) == listed(m, key) + Seq::new(
            copies(files, n, key),
            |i: int| who,
        ),
    decreases n,
{
    if n > 0 {
        lemma_with_files(m, files, who, n - 1, key);
        let before = with_files(m, files, who, n - 1);
        let all = with_files(m, files, who, n);
        match file_name(files[n - 1]) {
            Some(k) => {
                let put = match found(before, k) {
                    Some(ps) => ps.push(who),
                    None => seq![who],
                };
                insert_then_get(before, k, put, key);
                assert forall|q: Seq<char>| (#[trigger] found(all, q)) is Some implies (found(
                    all,
                    q,
                )->0).len() > 0 by {
                    insert_then_get(before, k, put, q);
                }
            },
            None => {},
        }
        assert(listed(all, key) =~= listed(m, key) + Seq::new(
            copies(files, n, key),
            |i: int| who,
        ));
    } else {
        assert(listed(m, key) + Seq::new(0nat, |i: int| who) =~= listed(m, key));
    }
}

/// Under every name stand the mods that hold a file of that name, in their order, and a
/// name that none of them holds is not listed.
pub proof fn every_file_lists_its_holders(mods: Seq<(usize, Seq<Seq<char>>)>, n: int, key: Seq<char>)
    requires
        0 <= n <= mods.len(),
    ensures
        found(providers_first(mods, n), key) == (if holders(mods, n, key).len() > 0 {
            Some(holders(mods, n, key))
        } else {
            None
        }),
{
    lemma_holders(mods, n, key);
    let m = providers_first(mods, n);
    if found(m, key) is Some {
        assert((found(m, key)->0).len() > 0);
    }
}

proof fn lemma_holders(mods: Seq<(usize, Seq<Seq<char>>)>, n: int, key: Seq<char>)
    requires
        0 <= n <= mods.len(),
    ensures
        peopled(providers_first(mods, n)),
        listed(providers_first(mods, n), key) == holders(mods, n, key),
    decreases n,
{
    if n > 0 {
        lemma_holders(mods, n - 1, key);
        let m = mods[n - 1];
        lemma_with_files(providers_first(mods, n - 1), m.1, m.0, m.1.len() as int, key);
    } else {
        assert(listed(Seq::empty(), key) =~= Seq::empty());
    }
}

// ---- who wins it ----

/// The mod at place `w` is the first in priority of those that hold a file.
pub open spec fn is_first(ps: Seq<usize>, w: usize) -> bool {
    ps.contains(w) && forall|i: int| 0 <= i < ps.len() ==> w <= #[trigger] ps[i]
}

/// How often `l` is named among the first `n` holders, other than the winner.
pub open spec fn beaten(
    active: Seq<Seq<char>>,
    ps: Seq<usize>,
    winner: usize,
    l: Seq<char>,
    n: int,
) -> nat
    decreases n,
{
    if n <= 0 {
        0
    } else {
        beaten(active, ps, winner, l, n - 1) + (if ps[n - 1] != winner && active[ps[n - 1] as int]
            == l {
            1nat
        } else {
            0
        })
    }
}

/// How many of the first `n` files `w` wins over `l`: those that two mods hold at least and
/// twelve at most, and of which `w` is the first.
pub open spec fn won(
    files: ProvidersView,
    active: Seq<Seq<char>>,
    w: Seq<char>,
    l: Seq<char>,
    n: int,
) -> nat
    decreases n,
{
    if n <= 0 {
        0
    } else {
        let ps = files[n - 1].1;
        won(files, active, w, l, n - 1) + (if 2 <= ps.len() <= 12 {
            let first = choose|x: usize| is_first(ps, x);
            if active[first as int] == w {
                beaten(active, ps, first, l, ps.len() as int)
            } else {
                0
            }
        } else {
            0
        })
    }
}

proof fn lemma_first(ps: Seq<usize>)
    requires
        ps.len() > 0,
    ensures
        least(ps) == (choose|x: usize| is_first(ps, x)),
{
    let a = least(ps);
    assert forall|i: int| 0 <= i < ps.len() implies a <= #[trigger] ps[i] by {
        winner_is_first_in_priority(ps, i);
    }
    winner_is_first_in_priority(ps, 0);
    assert(is_first(ps, a));
    let b = choose|x: usize| is_first(ps, x);
    let i = choose|i: int| 0 <= i < ps.len() && ps[i] == a;
    let j = choose|j: int| 0 <= j < ps.len() && ps[j] == b;
    assert(b <= ps[i]);
    assert(a <= ps[j]);
}

proof fn lemma_pair(
    pairs: PairsView,
    w: Seq<char>,
    l: Seq<char>,
    n: u32,
    x: Seq<char>,
    y: Seq<char>,
)
    ensures
        wins(with_pair(pairs, w, l, n), x, y) == (if x == w && y == l {
            Some(n)
        } else {
            wins(pairs, x, y)
        }),
{
    let inner = match found(pairs, w) {
        Some(m) => m,
        None => Seq::empty(),
    };
    insert_then_get(inner, l, n, y);
    insert_then_get(pairs, w, inserted(inner, l, n), x);
    assert(found(Seq::<(Seq<char>, u32)>::empty(), y) is None);
}

proof fn lemma_losers(
    pairs: PairsView,
    active: Seq<Seq<char>>,
    winner: usize,
    ps: Seq<usize>,
    n: int,
    w: Seq<char>,
    l: Seq<char>,
)
    requires
        0 <= n <= ps.len(),
        active[winner as int] == w ==> count_or_zero(wins(pairs, w, l)) + beaten(
            active,
            ps,
            winner,
            l,
            n,
        ) <= u32::MAX,
    ensures
        count_or_zero(wins(with_losers(pairs, active, winner, ps, n), w, l)) == count_or_zero(
            wins(pairs, w, l),
        ) + (if active[winner as int] == w {
            beaten(active, ps, winner, l, n)
        } else {
            0
        }),
        (wins(pairs, w, l) matches Some(k) ==> k > 0) ==> (wins(
            with_losers(pairs, active, winner, ps, n),
            w,
            l,
        ) matches Some(k) ==> k > 0),
    decreases n,
{
    if n > 0 {
        lemma_losers(pairs, active, winner, ps, n - 1, w, l);
        let before = with_losers(pairs, active, winner, ps, n - 1);
        if ps[n - 1] != winner {
            let a = active[winner as int];
            let b = active[ps[n - 1] as int];
            let put = match wins(before, a, b) {
                Some(k) => (k + 1) as u32,
                None => 1,
            };
            lemma_pair(before, a, b, put, w, l);
        }
    }
}

proof fn lemma_pairs(files: ProvidersView, active: Seq<Seq<char>>, n: int, w: Seq<char>, l: Seq<char>)
    requires
        0 <= n <= files.len(),
        won(files, active, w, l, n) <= u32::MAX,
    ensures
        count_or_zero(wins(pairs_first(files, active, n), w, l)) == won(files, active, w, l, n),
        wins(pairs_first(files, active, n), w, l) matches Some(k) ==> k > 0,
    decreases n,
{
    if n > 0 {
        lemma_pairs(files, active, n - 1, w, l);
        let ps = files[n - 1].1;
        let before = pairs_first(files, active, n - 1);
        if contested(ps) {
            lemma_first(ps);
            lemma_losers(before, active, least(ps), ps, ps.len() as int, w, l);
        }
    } else {
        assert(wins(Seq::empty(), w, l) is None);
    }
}

/// The index counts for every two mods how many files the one wins over the other: of each
/// file that two to twelve mods hold, the first in priority wins over every other. A pair
/// without such a file is not listed.
pub proof fn shared_files_are_counted(
    active: Seq<Seq<char>>,
    mods: Seq<(usize, Seq<Seq<char>>)>,
    w: Seq<char>,
    l: Seq<char>,
)
    requires
        ({
            let files = providers_first(mods, mods.len() as int);
            won(files, active, w, l, files.len() as int) <= u32::MAX
        }),
    ensures
        ({
            let files = providers_first(mods, mods.len() as int);
            let n = won(files, active, w, l, files.len() as int);
            wins(built(active, mods).pairs, w, l) == (if n > 0 {
                Some(n as u32)
            } else {
                None
            })
        }),
{
    let files = providers_first(mods, mods.len() as int);
    lemma_pairs(files, active, files.len() as int, w, l);
}

/// How many of the first `n` files of a mod are content.
pub open spec fn content_in(files: Seq<Seq<char>>, n: int) -> nat
    decreases n,
{
    if n <= 0 {
        0
    } else {
        content_in(files, n - 1) + (if lowercase(char_replaced(files[n - 1], '\\', '/'))
            == "meta.ini"@ {
            0nat
        } else {
            1
        })
    }
}

pub open spec fn all_content(mods: Seq<(usize, Seq<Seq<char>>)>, n: int) -> nat
    decreases n,
{
    if n <= 0 {
        0
    } else {
        all_content(mods, n - 1) + content_in(mods[n - 1].1, mods[n - 1].1.len() as int)
    }
}

proof fn lemma_content(files: Seq<Seq<char>>, n: int)
    ensures
        crate::conflicts::content_first(files, n) == content_in(files, n),
    decreases n,
{
    if n > 0 {
        lemma_content(files, n - 1);
    }
}

proof fn lemma_all_content(mods: Seq<(usize, Seq<Seq<char>>)>, n: int)
    ensures
        crate::conflicts::files_first(mods, n) == all_content(mods, n),
    decreases n,
{
    if n > 0 {
        lemma_all_content(mods, n - 1);
        lemma_content(mods[n - 1].1, mods[n - 1].1.len() as int);
    }
}

/// Every file but the mods' own notes is counted, once for each mod that holds it.
pub proof fn content_files_are_counted(active: Seq<Seq<char>>, mods: Seq<(usize, Seq<Seq<char>>)>)
    ensures
        built(active, mods).files_indexed == all_content(mods, mods.len() as int) as usize,
{
    lemma_all_content(mods, mods.len() as int);
}

} // verus!
