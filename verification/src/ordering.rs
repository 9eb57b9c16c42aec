//! What each pass over the order inside a section comes to: parents before their patches,
//! winners after losers, and every mod after its plugin masters once the sweeps come to
//! rest.
use vstd::prelude::*;
#[allow(unused_imports)]
use crate::keeping::families_keep;
#[allow(unused_imports)]
use crate::place::{by_family, duel_one, duel_sweeps, duels_first, early_from, esm_steps, family_key, family_keys, last_esm_first, latest_parent, later, lemma_mod_from, lineage, mod_from, moved_past, parent_at, parents_first, parents_one, parents_sweeps, promote_one, slot_at, slot_of, Bench, DuelView, FamilyKey, Mods, Work};
#[allow(unused_imports)]
use crate::map::found;
#[allow(unused_imports)]
use crate::loot::Edges;
#[allow(unused_imports)]
use crate::plugins::CensusView;
#[allow(unused_imports)]
use crate::sort::{sorted, sorting_orders_and_keeps, Ranked};

verus! {

/// No two mods of a section have one name.
pub open spec fn singly_named(u: Mods) -> bool {
    forall|i: int, j: int|
        #![trigger u[i], u[j]]
        0 <= i < j < u.len() ==> u[i].name != u[j].name
}

// ---- families ----

/// One step further down, a chain that ends is one step longer and ends at the same root.
proof fn lemma_lineage_shift(parents: Seq<Option<usize>>, cur: usize, depth: nat)
    requires
        lineage(parents, cur, depth + 1).0 <= parents.len(),
    ensures
        lineage(parents, cur, depth + 1) == (
            (lineage(parents, cur, depth).0 + 1) as nat,
            lineage(parents, cur, depth).1,
        ),
    decreases parents.len() + 1 - depth,
{
    match parent_at(parents, cur as int) {
        Some(p) => {
            if depth + 2 <= parents.len() {
                lemma_lineage_shift(parents, p, depth + 1);
            }
        },
        None => {},
    }
}

/// The place of a key in the order of families.
proof fn lemma_key_placed(work: Mods, parents: Seq<Option<usize>>, k: int)
    requires
        work.len() <= usize::MAX,
        0 <= k < work.len(),
    ensures
        ({
            let order = sorted::<FamilyKey>(family_keys(work, parents));
            &&& 0 <= order[k].index < work.len()
            &&& order[k] == family_key(work, parents, order[k].index as int)
        }),
{
    broadcast use {vstd::multiset::group_multiset_axioms, vstd::seq_lib::group_to_multiset_ensures};

    let keys = family_keys(work, parents);
    let order = sorted::<FamilyKey>(keys);
    sorting_orders_and_keeps::<FamilyKey>(keys);
    assert(order.contains(order[k]));
    assert(keys.to_multiset().count(order[k]) > 0);
    assert(keys.contains(order[k]));
    let j = choose|j: int| 0 <= j < keys.len() && keys[j] == order[k];
    assert(order[k] == family_key(work, parents, j));
}

/// A patch loads after its parent once families stand together. Where chains of parents
/// run in a circle, there is no first one.
pub proof fn patches_load_after_parents(work: Mods, parents: Seq<Option<usize>>, i: int, p: int)
    requires
        work.len() <= usize::MAX,
        parents.len() == work.len(),
        singly_named(work),
        0 <= i < work.len(),
        0 <= p < work.len(),
        parents[i] == Some(p as usize),
        lineage(parents, i as usize, 0).0 <= parents.len(),
    ensures
        mod_from(by_family(work, parents), work[p].name, 0) is Some,
        mod_from(by_family(work, parents), work[i].name, 0) is Some,
        mod_from(by_family(work, parents), work[p].name, 0)->0 < mod_from(
            by_family(work, parents),
            work[i].name,
            0,
        )->0,
{
    broadcast use {vstd::multiset::group_multiset_axioms, vstd::seq_lib::group_to_multiset_ensures};

    let keys = family_keys(work, parents);
    let order = sorted::<FamilyKey>(keys);
    let u = by_family(work, parents);
    sorting_orders_and_keeps::<FamilyKey>(keys);
    families_keep(work, parents);
    lemma_lineage_shift(parents, p as usize, 0);
    assert(lineage(parents, i as usize, 0) == lineage(parents, p as usize, 1));
    assert(family_key(work, parents, i).root == family_key(work, parents, p).root);
    assert(family_key(work, parents, i).depth == family_key(work, parents, p).depth + 1);
    lemma_named(work, u, p);
    lemma_named(work, u, i);
    lemma_mod_from(u, work[p].name, 0);
    lemma_mod_from(u, work[i].name, 0);
    let a = mod_from(u, work[p].name, 0)->0;
    let b = mod_from(u, work[i].name, 0)->0;
    lemma_key_placed(work, parents, a);
    lemma_key_placed(work, parents, b);
    lemma_same_place(work, order[a].index as int, p);
    lemma_same_place(work, order[b].index as int, i);
    assert(order[a] == family_key(work, parents, p));
    assert(order[b] == family_key(work, parents, i));
    if b < a {
        assert(FamilyKey::precedes(order[b], order[a]));
    }
}

proof fn lemma_same_place(work: Mods, i: int, j: int)
    requires
        singly_named(work),
        0 <= i < work.len(),
        0 <= j < work.len(),
        work[i].name == work[j].name,
    ensures
        i == j,
{
    if i < j {
        assert(work[i].name != work[j].name);
    } else if j < i {
        assert(work[j].name != work[i].name);
    }
}

/// A mod is still there when the same mods stand in another order.
proof fn lemma_named(work: Mods, u: Mods, i: int)
    requires
        u.to_multiset() == work.to_multiset(),
        0 <= i < work.len(),
    ensures
        mod_from(u, work[i].name, 0) is Some,
{
    broadcast use {vstd::multiset::group_multiset_axioms, vstd::seq_lib::group_to_multiset_ensures};

    let x = work[i];
    assert(work.contains(x));
    assert(u.to_multiset().count(x) > 0);
    assert(u.contains(x));
    let j = choose|j: int| 0 <= j < u.len() && u[j] == x;
    lemma_mod_from(u, x.name, 0);
    if mod_from(u, x.name, 0) is None {
        assert(u[j].name != x.name);
    }
}

// ---- promote rules ----

/// A promote rule puts its winner after its loser.
pub proof fn winner_loads_after_loser(w: Work, rule: (Seq<char>, Seq<char>), label: Seq<char>)
    requires
        singly_named(w.u),
        rule.0 != rule.1,
        mod_from(w.u, rule.0, 0) is Some,
        mod_from(w.u, rule.1, 0) is Some,
    ensures
        ({
            let u = promote_one(w, rule, label).u;
            &&& mod_from(u, rule.0, 0) is Some
            &&& mod_from(u, rule.1, 0) is Some
            &&& mod_from(u, rule.1, 0)->0 < mod_from(u, rule.0, 0)->0
        }),
{
    let (win, lose) = rule;
    lemma_mod_from(w.u, win, 0);
    lemma_mod_from(w.u, lose, 0);
    let wi = mod_from(w.u, win, 0)->0;
    let li = mod_from(w.u, lose, 0)->0;
    if wi < li {
        let rest = w.u.remove(wi);
        lemma_mod_from(rest, lose, 0);
        assert(rest[li - 1] == w.u[li]);
        let at = mod_from(rest, lose, 0)->0;
        let u = rest.insert(at + 1, w.u[wi]);
        lemma_mod_from(u, win, 0);
        lemma_mod_from(u, lose, 0);
        assert(u[at + 1].name == win);
        assert(u[at].name == lose);
        let a = mod_from(u, win, 0)->0;
        if a <= at {
            assert(u[a] == rest[a]);
            if a < wi {
                assert(rest[a] == w.u[a]);
                assert(w.u[a].name != w.u[wi].name);
            } else {
                assert(rest[a] == w.u[a + 1]);
                assert(w.u[wi].name != w.u[a + 1].name);
            }
        }
    }
}

// ---- plugin masters ----

/// The mod at a rank stands before one of its plugin masters.
pub open spec fn before_master(u: Mods, b: Bench, content: Edges, loot: Edges, ci: int) -> bool {
    match later(
        latest_parent(found(content, u[ci].name), b, u),
        latest_parent(found(loot, u[ci].name), b, u),
    ) {
        Some(latest) => slot_at(b.free, ci) < latest,
        None => false,
    }
}

/// How many sweeps move a mod, out of `fuel`.
pub open spec fn sweeps_used(w: Work, b: Bench, content: Edges, loot: Edges, fuel: nat) -> nat
    decreases fuel,
{
    if fuel == 0 {
        0
    } else {
        let (v, moved) = parents_first(w, b, content, loot, w.u.len() as int);
        if moved {
            1 + sweeps_used(v, b, content, loot, (fuel - 1) as nat)
        } else {
            0
        }
    }
}

pub proof fn lemma_sweep_at_rest(w: Work, b: Bench, content: Edges, loot: Edges, n: int)
    requires
        !parents_first(w, b, content, loot, n).1,
    ensures
        parents_first(w, b, content, loot, n).0 == w,
        forall|ci: int| 0 <= ci < n ==> !#[trigger] before_master(w.u, b, content, loot, ci),
    decreases n,
{
    if n > 0 {
        let (v, moved) = parents_first(w, b, content, loot, n - 1);
        if moved {
            assert(parents_one(v, moved, n - 1, b, content, loot).1);
        }
        lemma_sweep_at_rest(w, b, content, loot, n - 1);
    }
}

/// Unless the sweeps run out, they end with no mod before any of its plugin masters.
pub proof fn sweeps_end_behind_masters(
    w: Work,
    b: Bench,
    content: Edges,
    loot: Edges,
    fuel: nat,
    ci: int,
)
    requires
        sweeps_used(w, b, content, loot, fuel) < fuel,
        0 <= ci < parents_sweeps(w, b, content, loot, fuel).u.len(),
    ensures
        !before_master(parents_sweeps(w, b, content, loot, fuel).u, b, content, loot, ci),
    decreases fuel,
{
    let (v, moved) = parents_first(w, b, content, loot, w.u.len() as int);
    if moved {
        sweeps_end_behind_masters(v, b, content, loot, (fuel - 1) as nat, ci);
    } else {
        lemma_sweep_at_rest(w, b, content, loot, w.u.len() as int);
    }
}

// ---- master files ----

/// How many steps move a mod behind the last master file, out of `fuel`.
pub open spec fn steps_used(w: Work, b: Bench, census: CensusView, fuel: nat) -> nat
    decreases fuel,
{
    if fuel == 0 {
        0
    } else {
        match last_esm_first(b, w.u, census, b.owner.len() as int) {
            Some(latest) => match early_from(b, w.u, census, latest, 0) {
                Some(ci) => 1 + steps_used(
                    Work { u: moved_past(b.free, w.u, ci, latest), ..w },
                    b,
                    census,
                    (fuel - 1) as nat,
                ),
                None => 0,
            },
            None => 0,
        }
    }
}

/// The steps go by the order alone, not by what was noted before.
proof fn lemma_steps_by_order(v: Work, w: Work, b: Bench, census: CensusView, fuel: nat)
    requires
        v.u == w.u,
    ensures
        esm_steps(v, b, census, fuel).u == esm_steps(w, b, census, fuel).u,
        steps_used(v, b, census, fuel) == steps_used(w, b, census, fuel),
    decreases fuel,
{
    if fuel > 0 {
        if let Some(latest) = last_esm_first(b, w.u, census, b.owner.len() as int) {
            if let Some(ci) = early_from(b, w.u, census, latest, 0) {
                let u = moved_past(b.free, w.u, ci, latest);
                let next = |x: Work| Work {
                    u,
                    plan: crate::plan::traced(
                        x.plan,
                        "  ["@ + b.label + "] "@ + x.u[ci].name
                            + " | ESM DAG: non-ESM loads after ESM"@ + crate::place::slot_text(
                            slot_at(b.free, ci),
                            latest,
                        ),
                    ),
                };
                lemma_steps_by_order(next(v), next(w), b, census, (fuel - 1) as nat);
                lemma_steps_by_order(
                    Work { u, ..v },
                    Work { u, ..w },
                    b,
                    census,
                    (fuel - 1) as nat,
                );
            }
        }
    }
}

/// Unless the steps run out, they end with no other mod before the last master file.
pub proof fn steps_end_behind_master_files(w: Work, b: Bench, census: CensusView, fuel: nat)
    requires
        steps_used(w, b, census, fuel) < fuel,
    ensures
        ({
            let u = esm_steps(w, b, census, fuel).u;
            match last_esm_first(b, u, census, b.owner.len() as int) {
                Some(latest) => early_from(b, u, census, latest, 0) is None,
                None => true,
            }
        }),
    decreases fuel,
{
    if let Some(latest) = last_esm_first(b, w.u, census, b.owner.len() as int) {
        if let Some(ci) = early_from(b, w.u, census, latest, 0) {
            let u = moved_past(b.free, w.u, ci, latest);
            let next = Work {
                u,
                plan: crate::plan::traced(
                    w.plan,
                    "  ["@ + b.label + "] "@ + w.u[ci].name + " | ESM DAG: non-ESM loads after ESM"@
                        + crate::place::slot_text(slot_at(b.free, ci), latest),
                ),
            };
            lemma_steps_by_order(next, Work { u, ..w }, b, census, (fuel - 1) as nat);
            steps_end_behind_master_files(next, b, census, (fuel - 1) as nat);
        }
    }
}

// ---- conflicts ----

/// A patch stands before the mod that it must win over.
pub open spec fn loses(u: Mods, b: Bench, d: DuelView) -> bool {
    match (slot_of(b, u, d.patch), slot_of(b, u, d.base), mod_from(u, d.patch, 0)) {
        (Some(ps), Some(bs), Some(_)) => ps < bs,
        _ => false,
    }
}

pub open spec fn rematches(w: Work, duels: Seq<DuelView>, b: Bench, fuel: nat) -> nat
    decreases fuel,
{
    if fuel == 0 {
        0
    } else {
        let (v, moved) = duels_first(w, duels, b, duels.len() as int);
        if moved {
            1 + rematches(v, duels, b, (fuel - 1) as nat)
        } else {
            0
        }
    }
}

pub proof fn lemma_duels_at_rest(w: Work, duels: Seq<DuelView>, b: Bench, n: int)
    requires
        0 <= n <= duels.len(),
        !duels_first(w, duels, b, n).1,
    ensures
        duels_first(w, duels, b, n).0 == w,
        forall|k: int| 0 <= k < n ==> !loses(w.u, b, #[trigger] duels[k]),
    decreases n,
{
    if n > 0 {
        let (v, moved) = duels_first(w, duels, b, n - 1);
        if moved {
            assert(duel_one(v, moved, duels[n - 1], b).1);
        }
        lemma_duels_at_rest(w, duels, b, n - 1);
    }
}

/// Unless the sweeps run out, they end with every patch behind the mod that it must win
/// over.
pub proof fn patches_win_their_conflicts(
    w: Work,
    duels: Seq<DuelView>,
    b: Bench,
    fuel: nat,
    k: int,
)
    requires
        rematches(w, duels, b, fuel) < fuel,
        0 <= k < duels.len(),
    ensures
        !loses(duel_sweeps(w, duels, b, fuel).u, b, duels[k]),
    decreases fuel,
{
    let (v, moved) = duels_first(w, duels, b, duels.len() as int);
    if moved {
        patches_win_their_conflicts(v, duels, b, (fuel - 1) as nat, k);
    } else {
        lemma_duels_at_rest(w, duels, b, duels.len() as int);
    }
}

} // verus!
