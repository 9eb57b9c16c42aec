//! The ends of a section: where the mods that sink and float rules name come to stand.
//!
//! A rule puts its mod at an end of the loose mods; what is proven of plugins and shared
//! files then moves mods on, each only towards later loading and only where something
//! in the section binds it.
use vstd::prelude::*;
#[allow(unused_imports)]
use crate::conflicts::ConflictView;
#[allow(unused_imports)]
use crate::conservation::audits_only_report;
#[allow(unused_imports)]
use crate::feasible::rules_in_force;
#[allow(unused_imports)]
use crate::keeping::{families_keep, grouped_mods, kept, lemma_floats, lemma_pins_differ, lemma_promotes, lemma_sinks, lemma_sinks_any, lemma_slots, pins_differ, round_keeps, same_mods};
#[allow(unused_imports)]
use crate::keywords::KeywordsView;
#[allow(unused_imports)]
use crate::loot::Edges;
#[allow(unused_imports)]
use crate::map::{found, insert_then_get, lemma_key_from};
#[allow(unused_imports)]
use crate::masters::is_esm_entry_of;
#[allow(unused_imports)]
use crate::modlist::{names, EntryView, ModlistView, SectionView};
#[allow(unused_imports)]
use crate::place::{arranged, bench, by_rules, duel, duel_line, duel_sweeps, duels_first, duels_from, early_from, esm_at, esm_steps, filled, float_first, free_first, last_esm_first, later, latest_first, latest_parent, lemma_mod_from, mod_from, moved_past, name_at, name_places, names_patch, parents_first, parents_of, parents_sweeps, pin_slot, pinned_first, promote_first, rank_from, rank_past, round, rounds, sink_any_first, sink_first, slot_at, slot_of, slots_first, Bench, DuelView, Facts, Known, Mods, Work};
#[allow(unused_imports)]
use crate::plan::{traced, PlanView};
#[allow(unused_imports)]
use crate::plugins::CensusView;
#[allow(unused_imports)]
use crate::sorter::{all_arranged, arranged_first, decided, first_plan, fixed_of, known_of, moved, opened, pins_of, proven, run_plan, unparked, with_mods, Sources};
#[allow(unused_imports)]
use crate::audit::with_sections;

verus! {

// ---- what binds a mod ----

pub open spec fn holds_name(mods: Mods, name: Seq<char>) -> bool {
    exists|i: int| 0 <= i < mods.len() && (#[trigger] mods[i]).name == name
}

/// A mod that must load before this one stands in the section.
pub open spec fn follows_here(edges: Edges, name: Seq<char>, mods: Mods) -> bool {
    match found(edges, name) {
        Some(ps) => exists|k: int| 0 <= k < ps.len() && holds_name(mods, #[trigger] ps[k]),
        None => false,
    }
}

/// The mod is no master file, and the section has one.
pub open spec fn behind_esm(census: Option<CensusView>, name: Seq<char>, mods: Mods) -> bool {
    census is Some && !is_esm_entry_of(name, census) && exists|i: int|
        0 <= i < mods.len() && is_esm_entry_of((#[trigger] mods[i]).name, census)
}

/// The mod is a patch that must win over another one of the section.
pub open spec fn must_win(conflicts: Option<ConflictView>, name: Seq<char>, mods: Mods) -> bool {
    match conflicts {
        Some(c) => exists|i: int, j: int|
            #![trigger mods[i], mods[j]]
            0 <= i < mods.len() && 0 <= j < mods.len() && (duel(mods[i], mods[j], c) matches Some(d)
                && d.patch == name),
        None => false,
    }
}

/// Something in the section can make the mod load later.
pub open spec fn bound(name: Seq<char>, mods: Mods, f: Facts) -> bool {
    follows_here(f.content, name, mods) || follows_here(f.loot, name, mods) || behind_esm(
        f.census,
        name,
        mods,
    ) || must_win(f.conflicts, name, mods)
}

// ---- steps towards later loading ----

pub open spec fn shifted(u: Mods, i: int, j: int) -> Mods {
    u.remove(i).insert(j, u[i])
}

/// The table of a section: its fixed mods at their slots, and the free slots in order.
pub open spec fn laid(b: Bench, mods: Mods, fixed: Seq<Seq<char>>) -> bool {
    &&& forall|s: int|
        0 <= s < b.owner.len() ==> ((#[trigger] b.owner[s]) matches Some(m) ==> mods.contains(m))
    &&& forall|name: Seq<char>| #[trigger]
        found(b.pinned, name) is Some ==> holds_name(mods, name) && fixed.contains(name)
    &&& forall|i: int, j: int|
        0 <= i < j < b.free.len() ==> (#[trigger] b.free[i]) < (#[trigger] b.free[j])
}

/// The loose mods are of the section, none is fixed, and each has a slot.
pub open spec fn lined(u: Mods, b: Bench, mods: Mods, fixed: Seq<Seq<char>>) -> bool {
    &&& u.len() <= b.free.len()
    &&& forall|i: int|
        0 <= i < u.len() ==> mods.contains(#[trigger] u[i]) && !fixed.contains(u[i].name)
}

/// What a move of a bound mod towards later loading keeps.
pub open spec fn steady(inv: spec_fn(Mods) -> bool, mods: Mods, f: Facts) -> bool {
    forall|u: Mods, i: int, j: int|
        inv(u) && 0 <= i <= j < u.len() && bound(u[i].name, mods, f) ==> inv(
            #[trigger] shifted(u, i, j),
        )
}

proof fn lemma_contains(mods: Mods, m: EntryView)
    requires
        mods.contains(m),
    ensures
        holds_name(mods, m.name),
{
    let i = choose|i: int| 0 <= i < mods.len() && mods[i] == m;
    assert(mods[i].name == m.name);
}

proof fn lemma_rank(free: Seq<usize>, slot: usize, i: int, from: int)
    requires
        0 <= i <= from + 1,
        from < free.len(),
        forall|k: int| 0 <= k <= from ==> #[trigger] free[k] <= slot,
    ensures
        rank_past(free, slot, i) > from,
    decreases from + 1 - i,
{
    if i <= from {
        assert(free[i] <= slot);
        lemma_rank(free, slot, i + 1, from);
    } else {
        lemma_rank_grows(free, slot, i);
    }
}

proof fn lemma_rank_grows(free: Seq<usize>, slot: usize, i: int)
    ensures
        rank_past(free, slot, i) >= i,
    decreases free.len() - i,
{
    if 0 <= i < free.len() && free[i] <= slot {
        lemma_rank_grows(free, slot, i + 1);
    }
}

/// A move past a slot that lies behind is a step towards later loading.
proof fn lemma_forward(
    b: Bench,
    mods: Mods,
    fixed: Seq<Seq<char>>,
    u: Mods,
    from: int,
    slot: usize,
) -> (j: int)
    requires
        laid(b, mods, fixed),
        lined(u, b, mods, fixed),
        0 <= from < u.len(),
        slot_at(b.free, from) < slot,
    ensures
        from <= j < u.len(),
        moved_past(b.free, u, from, slot) == shifted(u, from, j),
{
    assert forall|k: int| 0 <= k <= from implies #[trigger] b.free[k] <= slot by {
        if k < from {
            assert(b.free[k] < b.free[from]);
        }
    }
    lemma_rank(b.free, slot, 0, from);
    let r = rank_past(b.free, slot, 0);
    if r < u.len() - 1 {
        r
    } else {
        u.len() - 1
    }
}

proof fn lemma_lined_shifted(
    u: Mods,
    i: int,
    j: int,
    b: Bench,
    mods: Mods,
    fixed: Seq<Seq<char>>,
)
    requires
        lined(u, b, mods, fixed),
        0 <= i <= j < u.len(),
    ensures
        lined(shifted(u, i, j), b, mods, fixed),
{
    let v = shifted(u, i, j);
    let rest = u.remove(i);
    assert forall|k: int| 0 <= k < v.len() implies mods.contains(#[trigger] v[k])
        && !fixed.contains(v[k].name) by {
        let at = if k == j {
            i
        } else {
            let q = if k < j {
                k
            } else {
                k - 1
            };
            if q < i {
                q
            } else {
                q + 1
            }
        };
        assert(v[k] == u[at]);
    }
}

proof fn lemma_slot_here(b: Bench, mods: Mods, fixed: Seq<Seq<char>>, u: Mods, name: Seq<char>)
    requires
        laid(b, mods, fixed),
        lined(u, b, mods, fixed),
        slot_of(b, u, name) is Some,
    ensures
        holds_name(mods, name),
{
    if found(b.pinned, name) is None {
        lemma_mod_from(u, name, 0);
        let r = mod_from(u, name, 0)->0;
        lemma_contains(mods, u[r]);
    }
}

proof fn lemma_latest(
    ps: Seq<Seq<char>>,
    b: Bench,
    mods: Mods,
    fixed: Seq<Seq<char>>,
    u: Mods,
    n: int,
)
    requires
        laid(b, mods, fixed),
        lined(u, b, mods, fixed),
        n <= ps.len(),
        latest_first(ps, b, u, n) is Some,
    ensures
        exists|k: int| 0 <= k < ps.len() && holds_name(mods, #[trigger] ps[k]),
    decreases n,
{
    if n > 0 {
        if slot_of(b, u, ps[n - 1]) is Some {
            lemma_slot_here(b, mods, fixed, u, ps[n - 1]);
        } else {
            lemma_latest(ps, b, mods, fixed, u, n - 1);
        }
    }
}

proof fn lemma_parents_steady(
    w: Work,
    b: Bench,
    f: Facts,
    mods: Mods,
    fixed: Seq<Seq<char>>,
    inv: spec_fn(Mods) -> bool,
    n: int,
)
    requires
        laid(b, mods, fixed),
        lined(w.u, b, mods, fixed),
        steady(inv, mods, f),
        inv(w.u),
        n <= w.u.len(),
    ensures
        ({
            let v = parents_first(w, b, f.content, f.loot, n).0;
            inv(v.u) && lined(v.u, b, mods, fixed) && v.u.len() == w.u.len()
        }),
    decreases n,
{
    if n > 0 {
        lemma_parents_steady(w, b, f, mods, fixed, inv, n - 1);
        let (v, moved) = parents_first(w, b, f.content, f.loot, n - 1);
        let ci = n - 1;
        let name = v.u[ci].name;
        let cps = found(f.content, name);
        let lps = found(f.loot, name);
        match later(latest_parent(cps, b, v.u), latest_parent(lps, b, v.u)) {
            Some(latest) => {
                if slot_at(b.free, ci) < latest {
                    if let Some(ps) = cps {
                        if latest_parent(cps, b, v.u) is Some {
                            lemma_latest(ps, b, mods, fixed, v.u, ps.len() as int);
                        }
                    }
                    if let Some(ps) = lps {
                        if latest_parent(lps, b, v.u) is Some {
                            lemma_latest(ps, b, mods, fixed, v.u, ps.len() as int);
                        }
                    }
                    assert(bound(v.u[ci].name, mods, f));
                    let j = lemma_forward(b, mods, fixed, v.u, ci, latest);
                    lemma_lined_shifted(v.u, ci, j, b, mods, fixed);
                    assert(inv(shifted(v.u, ci, j)));
                }
            },
            None => {},
        }
    }
}

proof fn lemma_sweeps_steady(
    w: Work,
    b: Bench,
    f: Facts,
    mods: Mods,
    fixed: Seq<Seq<char>>,
    inv: spec_fn(Mods) -> bool,
    fuel: nat,
)
    requires
        laid(b, mods, fixed),
        lined(w.u, b, mods, fixed),
        steady(inv, mods, f),
        inv(w.u),
    ensures
        ({
            let v = parents_sweeps(w, b, f.content, f.loot, fuel);
            inv(v.u) && lined(v.u, b, mods, fixed)
        }),
    decreases fuel,
{
    if fuel > 0 {
        lemma_parents_steady(w, b, f, mods, fixed, inv, w.u.len() as int);
        let (v, moved) = parents_first(w, b, f.content, f.loot, w.u.len() as int);
        if moved {
            lemma_sweeps_steady(v, b, f, mods, fixed, inv, (fuel - 1) as nat);
        }
    }
}

proof fn lemma_rank_from(free: Seq<usize>, slot: usize, i: int)
    requires
        0 <= i,
    ensures
        rank_from(free, slot, i) matches Some(r) ==> i <= r < free.len(),
    decreases free.len() - i,
{
    if i < free.len() {
        lemma_rank_from(free, slot, i + 1);
    }
}

/// A master file that holds a slot is a mod of the section.
proof fn lemma_esm_here(
    b: Bench,
    u: Mods,
    census: CensusView,
    mods: Mods,
    fixed: Seq<Seq<char>>,
    n: int,
)
    requires
        laid(b, mods, fixed),
        lined(u, b, mods, fixed),
        n <= b.owner.len(),
        last_esm_first(b, u, census, n) is Some,
    ensures
        exists|i: int|
            0 <= i < mods.len() && is_esm_entry_of((#[trigger] mods[i]).name, Some(census)),
    decreases n,
{
    if n > 0 {
        if esm_at(b, u, census, n - 1) {
            let name = name_at(b, u, n - 1)->0;
            match b.owner[n - 1] {
                Some(m) => {
                    lemma_contains(mods, m);
                },
                None => {
                    lemma_rank_from(b.free, (n - 1) as usize, 0);
                    let r = rank_from(b.free, (n - 1) as usize, 0)->0;
                    lemma_contains(mods, u[r]);
                },
            }
            assert(holds_name(mods, name));
            let i = choose|i: int| 0 <= i < mods.len() && (#[trigger] mods[i]).name == name;
            assert(is_esm_entry_of(mods[i].name, Some(census)));
        } else {
            lemma_esm_here(b, u, census, mods, fixed, n - 1);
        }
    }
}

proof fn lemma_early_one(b: Bench, u: Mods, census: CensusView, slot: usize, i: int)
    requires
        0 <= i,
    ensures
        early_from(b, u, census, slot, i) matches Some(k) ==> i <= k < u.len() && !is_esm_entry_of(
            u[k].name,
            Some(census),
        ) && slot_at(b.free, k) < slot,
    decreases u.len() - i,
{
    if i < u.len() {
        lemma_early_one(b, u, census, slot, i + 1);
    }
}

proof fn lemma_steps_steady(
    w: Work,
    b: Bench,
    census: CensusView,
    f: Facts,
    mods: Mods,
    fixed: Seq<Seq<char>>,
    inv: spec_fn(Mods) -> bool,
    fuel: nat,
)
    requires
        f.census == Some(census),
        laid(b, mods, fixed),
        lined(w.u, b, mods, fixed),
        steady(inv, mods, f),
        inv(w.u),
    ensures
        ({
            let v = esm_steps(w, b, census, fuel);
            inv(v.u) && lined(v.u, b, mods, fixed)
        }),
    decreases fuel,
{
    if fuel > 0 {
        if let Some(latest) = last_esm_first(b, w.u, census, b.owner.len() as int) {
            lemma_early_one(b, w.u, census, latest, 0);
            if let Some(ci) = early_from(b, w.u, census, latest, 0) {
                lemma_esm_here(b, w.u, census, mods, fixed, b.owner.len() as int);
                assert(bound(w.u[ci].name, mods, f));
                let j = lemma_forward(b, mods, fixed, w.u, ci, latest);
                lemma_lined_shifted(w.u, ci, j, b, mods, fixed);
                assert(inv(shifted(w.u, ci, j)));
                let next = Work {
                    u: moved_past(b.free, w.u, ci, latest),
                    plan: traced(
                        w.plan,
                        "  ["@ + b.label + "] "@ + w.u[ci].name
                            + " | ESM DAG: non-ESM loads after ESM"@ + crate::place::slot_text(
                            slot_at(b.free, ci),
                            latest,
                        ),
                    ),
                };
                lemma_steps_steady(
                    next,
                    b,
                    census,
                    f,
                    mods,
                    fixed,
                    inv,
                    (fuel - 1) as nat,
                );
            }
        }
    }
}

/// Every duel is between two mods of the section.
pub open spec fn fought_here(duels: Seq<DuelView>, c: ConflictView, mods: Mods) -> bool {
    forall|k: int| 0 <= k < duels.len() ==> must_win(Some(c), (#[trigger] duels[k]).patch, mods)
}

proof fn lemma_duels_here(
    u: Mods,
    c: ConflictView,
    label: Seq<char>,
    i: int,
    j: int,
    duels: Seq<DuelView>,
    plan: PlanView,
    mods: Mods,
)
    requires
        forall|k: int| 0 <= k < u.len() ==> mods.contains(#[trigger] u[k]),
        0 <= i < j,
        fought_here(duels, c, mods),
    ensures
        fought_here(duels_from(u, c, label, i, j, duels, plan).0, c, mods),
    decreases u.len() - i, u.len() - j,
{
    if i < u.len() {
        if j >= u.len() {
            lemma_duels_here(u, c, label, i + 1, i + 2, duels, plan, mods);
        } else {
            match duel(u[i], u[j], c) {
                Some(d) => {
                    if names_patch(duels, d.patch) {
                        lemma_duels_here(u, c, label, i, j + 1, duels, plan, mods);
                    } else {
                        assert(mods.contains(u[i]) && mods.contains(u[j]));
                        let a = choose|a: int| 0 <= a < mods.len() && mods[a] == u[i];
                        let e = choose|e: int| 0 <= e < mods.len() && mods[e] == u[j];
                        assert(duel(mods[a], mods[e], c) == Some(d));
                        assert(must_win(Some(c), d.patch, mods));
                        let more = duels.push(d);
                        assert forall|k: int| 0 <= k < more.len() implies must_win(
                            Some(c),
                            (#[trigger] more[k]).patch,
                            mods,
                        ) by {
                            if k < duels.len() {
                                assert(more[k] == duels[k]);
                            }
                        }
                        lemma_duels_here(
                            u,
                            c,
                            label,
                            i,
                            j + 1,
                            more,
                            traced(plan, duel_line(label, d)),
                            mods,
                        );
                    }
                },
                None => {
                    lemma_duels_here(u, c, label, i, j + 1, duels, plan, mods);
                },
            }
        }
    }
}

proof fn lemma_duels_steady(
    w: Work,
    duels: Seq<DuelView>,
    b: Bench,
    c: ConflictView,
    f: Facts,
    mods: Mods,
    fixed: Seq<Seq<char>>,
    inv: spec_fn(Mods) -> bool,
    n: int,
)
    requires
        f.conflicts == Some(c),
        fought_here(duels, c, mods),
        laid(b, mods, fixed),
        lined(w.u, b, mods, fixed),
        steady(inv, mods, f),
        inv(w.u),
        n <= duels.len(),
    ensures
        ({
            let v = duels_first(w, duels, b, n).0;
            inv(v.u) && lined(v.u, b, mods, fixed)
        }),
    decreases n,
{
    if n > 0 {
        lemma_duels_steady(w, duels, b, c, f, mods, fixed, inv, n - 1);
        let (v, moved) = duels_first(w, duels, b, n - 1);
        let d = duels[n - 1];
        assert(must_win(Some(c), d.patch, mods));
        lemma_mod_from(v.u, d.patch, 0);
        if let Some(pi) = mod_from(v.u, d.patch, 0) {
            if let Some(bs) = slot_of(b, v.u, d.base) {
                assert(found(b.pinned, d.patch) is None) by {
                    if found(b.pinned, d.patch) is Some {
                        assert(fixed.contains(v.u[pi].name));
                    }
                }
                if slot_of(b, v.u, d.patch)->0 < bs {
                    assert(bound(v.u[pi].name, mods, f));
                    let j = lemma_forward(b, mods, fixed, v.u, pi, bs);
                    lemma_lined_shifted(v.u, pi, j, b, mods, fixed);
                    assert(inv(shifted(v.u, pi, j)));
                }
            }
        }
    }
}

proof fn lemma_rematches_steady(
    w: Work,
    duels: Seq<DuelView>,
    b: Bench,
    c: ConflictView,
    f: Facts,
    mods: Mods,
    fixed: Seq<Seq<char>>,
    inv: spec_fn(Mods) -> bool,
    fuel: nat,
)
    requires
        f.conflicts == Some(c),
        fought_here(duels, c, mods),
        laid(b, mods, fixed),
        lined(w.u, b, mods, fixed),
        steady(inv, mods, f),
        inv(w.u),
    ensures
        inv(duel_sweeps(w, duels, b, fuel).u),
    decreases fuel,
{
    if fuel > 0 {
        lemma_duels_steady(w, duels, b, c, f, mods, fixed, inv, duels.len() as int);
        let (v, moved) = duels_first(w, duels, b, duels.len() as int);
        if moved {
            lemma_rematches_steady(v, duels, b, c, f, mods, fixed, inv, (fuel - 1) as nat);
        }
    }
}

/// What the rules bring about and every step keeps holds at the end of a round.
proof fn lemma_round_steady(
    w: Work,
    f: Facts,
    b: Bench,
    mods: Mods,
    fixed: Seq<Seq<char>>,
    inv: spec_fn(Mods) -> bool,
)
    requires
        laid(b, mods, fixed),
        lined(by_rules(w, f, b).u, b, mods, fixed),
        steady(inv, mods, f),
        inv(by_rules(w, f, b).u),
    ensures
        inv(round(w, f, b).u),
{
    let a = by_rules(w, f, b);
    let c = if f.content.len() > 0 || f.loot.len() > 0 {
        lemma_sweeps_steady(a, b, f, mods, fixed, inv, 6);
        parents_sweeps(a, b, f.content, f.loot, 6)
    } else {
        a
    };
    let d = match f.census {
        Some(census) => {
            lemma_steps_steady(c, b, census, f, mods, fixed, inv, 6);
            esm_steps(c, b, census, 6)
        },
        None => c,
    };
    if let Some(conflicts) = f.conflicts {
        let none = Seq::<DuelView>::empty();
        let (duels, plan) = duels_from(d.u, conflicts, b.label, 0, 1, none, d.plan);
        lemma_duels_here(d.u, conflicts, b.label, 0, 1, none, d.plan, mods);
        lemma_rematches_steady(
            Work { plan, ..d },
            duels,
            b,
            conflicts,
            f,
            mods,
            fixed,
            inv,
            6,
        );
    }
}

proof fn lemma_lined_same(u: Mods, v: Mods, b: Bench, mods: Mods, fixed: Seq<Seq<char>>)
    requires
        lined(u, b, mods, fixed),
        same_mods(v, u),
    ensures
        lined(v, b, mods, fixed),
{
    broadcast use {vstd::multiset::group_multiset_axioms, vstd::seq_lib::group_to_multiset_ensures};

    assert forall|i: int| 0 <= i < v.len() implies mods.contains(#[trigger] v[i])
        && !fixed.contains(v[i].name) by {
        assert(v.contains(v[i]));
        assert(u.to_multiset().count(v[i]) > 0);
        assert(u.contains(v[i]));
        let k = choose|k: int| 0 <= k < u.len() && u[k] == v[i];
        assert(mods.contains(u[k]));
    }
}

proof fn lemma_rules_keep(w: Work, f: Facts, b: Bench)
    ensures
        kept(by_rules(w, f, b), w),
{
    let r = f.rules;
    lemma_promotes(w, r.promote, b.label, r.promote.len() as int);
    let a = promote_first(w, r.promote, b.label, r.promote.len() as int);
    lemma_sinks(a, r.sink, b.label, r.sink.len() as int);
    let c = sink_first(a, r.sink, b.label, r.sink.len() as int);
    lemma_sinks_any(c, r.sink_any, b.label, r.sink_any.len() as int);
    let d = sink_any_first(c, r.sink_any, b.label, r.sink_any.len() as int);
    lemma_floats(d, r.float, b.label, r.float.len() as int);
}

/// What the rules bring about, whatever order they find, and every step keeps holds at
/// the end of the rounds.
proof fn lemma_rounds_steady(
    w: Work,
    f: Facts,
    b: Bench,
    mods: Mods,
    fixed: Seq<Seq<char>>,
    inv: spec_fn(Mods) -> bool,
    fuel: nat,
)
    requires
        fuel > 0,
        laid(b, mods, fixed),
        lined(w.u, b, mods, fixed),
        steady(inv, mods, f),
        forall|v: Work| same_mods(v.u, w.u) ==> inv((#[trigger] by_rules(v, f, b)).u),
    ensures
        inv(rounds(w, f, b, fuel).u),
    decreases fuel,
{
    lemma_rules_keep(w, f, b);
    lemma_lined_same(w.u, by_rules(w, f, b).u, b, mods, fixed);
    lemma_round_steady(w, f, b, mods, fixed, inv);
    round_keeps(w, f, b);
    let v = round(w, f, b);
    assert(rounds(v, f, b, 0) == v);
    if names(v.u) != names(w.u) && fuel > 1 {
        lemma_lined_same(w.u, v.u, b, mods, fixed);
        lemma_rounds_steady(v, f, b, mods, fixed, inv, (fuel - 1) as nat);
    }
}

// ---- what the rules bring about ----

/// The rule would move another mod of these to an end.
pub open spec fn interferes(
    rule: (Seq<char>, Seq<char>),
    name: Seq<char>,
    label: Seq<char>,
    u: Mods,
) -> bool {
    rule.1 == label && rule.0 != name && holds_name(u, rule.0)
}

/// No sink rule after the `r`th moves another mod of the section.
pub open spec fn last_sink(f: Facts, r: int, name: Seq<char>, label: Seq<char>, u: Mods) -> bool {
    forall|q: int|
        r < q < f.rules.sink.len() ==> !interferes(#[trigger] f.rules.sink[q], name, label, u)
}

/// No sectionless sink from the `r`th on moves another mod.
pub open spec fn last_sink_any(f: Facts, r: int, name: Seq<char>, u: Mods) -> bool {
    forall|q: int|
        r <= q < f.rules.sink_any.len() ==> (#[trigger] f.rules.sink_any[q]) == name || !holds_name(
            u,
            f.rules.sink_any[q],
        )
}

/// No float rule of the section names the mod.
pub open spec fn not_floated(f: Facts, name: Seq<char>, label: Seq<char>) -> bool {
    forall|q: int|
        0 <= q < f.rules.float.len() ==> (#[trigger] f.rules.float[q]) != (name, label)
}

/// No float rule after the `r`th moves another mod of the section.
pub open spec fn last_float(f: Facts, r: int, name: Seq<char>, label: Seq<char>, u: Mods) -> bool {
    forall|q: int|
        r < q < f.rules.float.len() ==> !interferes(#[trigger] f.rules.float[q], name, label, u)
}

pub open spec fn leads(u: Mods, name: Seq<char>) -> bool {
    u.len() > 0 && u[0].name == name
}

proof fn lemma_has_same(u: Mods, v: Mods, name: Seq<char>)
    requires
        same_mods(u, v),
        holds_name(u, name),
    ensures
        holds_name(v, name),
{
    broadcast use {vstd::multiset::group_multiset_axioms, vstd::seq_lib::group_to_multiset_ensures};

    let i = choose|i: int| 0 <= i < u.len() && (#[trigger] u[i]).name == name;
    assert(u.contains(u[i]));
    assert(v.to_multiset().count(u[i]) > 0);
    assert(v.contains(u[i]));
    lemma_contains(v, u[i]);
}

proof fn lemma_has_mod(u: Mods, name: Seq<char>)
    ensures
        holds_name(u, name) <==> mod_from(u, name, 0) is Some,
{
    lemma_mod_from(u, name, 0);
    if holds_name(u, name) {
        let i = choose|i: int| 0 <= i < u.len() && (#[trigger] u[i]).name == name;
        assert(u[i].name == name);
    }
}

/// The mods of `w` are those of `u0`, so that a rule finds a mod in both or in neither.
proof fn lemma_found_same(w: Mods, u0: Mods, name: Seq<char>)
    requires
        same_mods(w, u0),
    ensures
        holds_name(u0, name) <==> mod_from(w, name, 0) is Some,
{
    lemma_has_mod(w, name);
    if holds_name(u0, name) {
        lemma_has_same(u0, w, name);
    }
    if holds_name(w, name) {
        lemma_has_same(w, u0, name);
    }
}

proof fn lemma_first_name(u: Mods, name: Seq<char>)
    requires
        leads(u, name),
    ensures
        mod_from(u, name, 0) == Some(0int),
{
}

proof fn lemma_sunk(w: Work, f: Facts, label: Seq<char>, u0: Mods, r: int, n: int)
    requires
        same_mods(w.u, u0),
        0 <= r < n <= f.rules.sink.len(),
        f.rules.sink[r].1 == label,
        holds_name(u0, f.rules.sink[r].0),
        last_sink(f, r, f.rules.sink[r].0, label, u0),
    ensures
        leads(sink_first(w, f.rules.sink, label, n).u, f.rules.sink[r].0),
    decreases n,
{
    let name = f.rules.sink[r].0;
    let v = sink_first(w, f.rules.sink, label, n - 1);
    lemma_sinks(w, f.rules.sink, label, n - 1);
    let rule = f.rules.sink[n - 1];
    lemma_found_same(v.u, u0, rule.0);
    lemma_mod_from(v.u, rule.0, 0);
    if n - 1 > r {
        lemma_sunk(w, f, label, u0, r, n - 1);
        lemma_first_name(v.u, name);
        assert(!interferes(f.rules.sink[n - 1], name, label, u0));
    }
}

proof fn lemma_sunk_any(
    w: Work,
    f: Facts,
    label: Seq<char>,
    u0: Mods,
    name: Seq<char>,
    r: int,
    n: int,
)
    requires
        same_mods(w.u, u0),
        0 <= r <= n <= f.rules.sink_any.len(),
        r == n ==> leads(sink_any_first(w, f.rules.sink_any, label, n).u, name),
        last_sink_any(f, r, name, u0),
        r < n ==> leads(sink_any_first(w, f.rules.sink_any, label, r).u, name) || (
        f.rules.sink_any[r] == name && holds_name(u0, name)),
    ensures
        leads(sink_any_first(w, f.rules.sink_any, label, n).u, name),
    decreases n,
{
    if r < n {
        let v = sink_any_first(w, f.rules.sink_any, label, n - 1);
        lemma_sinks_any(w, f.rules.sink_any, label, n - 1);
        let y = f.rules.sink_any[n - 1];
        lemma_found_same(v.u, u0, y);
        lemma_mod_from(v.u, y, 0);
        if n - 1 > r {
            lemma_sunk_any(w, f, label, u0, name, r, n - 1);
        }
        if leads(v.u, name) {
            lemma_first_name(v.u, name);
        }
        assert(y == name || !holds_name(u0, y));
    }
}

proof fn lemma_not_floated(w: Work, f: Facts, label: Seq<char>, name: Seq<char>, n: int)
    requires
        leads(w.u, name),
        n <= f.rules.float.len(),
        not_floated(f, name, label),
    ensures
        leads(float_first(w, f.rules.float, label, n).u, name),
    decreases n,
{
    if n > 0 {
        lemma_not_floated(w, f, label, name, n - 1);
        let v = float_first(w, f.rules.float, label, n - 1);
        let rule = f.rules.float[n - 1];
        lemma_mod_from(v.u, rule.0, 0);
        assert(rule != (name, label));
    }
}

/// A sink rule that no later one overrides puts its mod in front.
proof fn lemma_sink_leads(w: Work, f: Facts, b: Bench, u0: Mods, r: int)
    requires
        same_mods(w.u, u0),
        0 <= r < f.rules.sink.len(),
        f.rules.sink[r].1 == b.label,
        holds_name(u0, f.rules.sink[r].0),
        last_sink(f, r, f.rules.sink[r].0, b.label, u0),
        last_sink_any(f, 0, f.rules.sink[r].0, u0),
        not_floated(f, f.rules.sink[r].0, b.label),
    ensures
        leads(by_rules(w, f, b).u, f.rules.sink[r].0),
{
    let k = f.rules;
    let name = k.sink[r].0;
    lemma_promotes(w, k.promote, b.label, k.promote.len() as int);
    let a = promote_first(w, k.promote, b.label, k.promote.len() as int);
    lemma_sinks(a, k.sink, b.label, k.sink.len() as int);
    let c = sink_first(a, k.sink, b.label, k.sink.len() as int);
    lemma_sunk(a, f, b.label, u0, r, k.sink.len() as int);
    assert(sink_any_first(c, k.sink_any, b.label, 0) == c);
    lemma_sunk_any(c, f, b.label, u0, name, 0, k.sink_any.len() as int);
    let d = sink_any_first(c, k.sink_any, b.label, k.sink_any.len() as int);
    lemma_not_floated(d, f, b.label, name, k.float.len() as int);
}

/// A sectionless sink that no later one overrides puts its mod in front.
proof fn lemma_sink_any_leads(w: Work, f: Facts, b: Bench, u0: Mods, r: int)
    requires
        same_mods(w.u, u0),
        0 <= r < f.rules.sink_any.len(),
        holds_name(u0, f.rules.sink_any[r]),
        last_sink_any(f, r, f.rules.sink_any[r], u0),
        not_floated(f, f.rules.sink_any[r], b.label),
    ensures
        leads(by_rules(w, f, b).u, f.rules.sink_any[r]),
{
    let k = f.rules;
    let name = k.sink_any[r];
    lemma_promotes(w, k.promote, b.label, k.promote.len() as int);
    let a = promote_first(w, k.promote, b.label, k.promote.len() as int);
    lemma_sinks(a, k.sink, b.label, k.sink.len() as int);
    let c = sink_first(a, k.sink, b.label, k.sink.len() as int);
    lemma_sunk_any(c, f, b.label, u0, name, r, k.sink_any.len() as int);
    let d = sink_any_first(c, k.sink_any, b.label, k.sink_any.len() as int);
    lemma_not_floated(d, f, b.label, name, k.float.len() as int);
}

proof fn lemma_floated(w: Work, f: Facts, label: Seq<char>, u0: Mods, r: int, n: int)
    requires
        same_mods(w.u, u0),
        0 <= r < n <= f.rules.float.len(),
        f.rules.float[r].1 == label,
        holds_name(u0, f.rules.float[r].0),
        last_float(f, r, f.rules.float[r].0, label, u0),
    ensures
        ({
            let u = float_first(w, f.rules.float, label, n).u;
            u.len() > 0 && u.last().name == f.rules.float[r].0
        }),
    decreases n,
{
    let name = f.rules.float[r].0;
    let v = float_first(w, f.rules.float, label, n - 1);
    lemma_floats(w, f.rules.float, label, n - 1);
    let rule = f.rules.float[n - 1];
    lemma_found_same(v.u, u0, rule.0);
    lemma_mod_from(v.u, rule.0, 0);
    if n - 1 > r {
        lemma_floated(w, f, label, u0, r, n - 1);
        assert(!interferes(f.rules.float[n - 1], name, label, u0));
    }
}

/// The mod stands at rank `k`, and only bound mods behind it.
pub open spec fn trails(u: Mods, k: int, name: Seq<char>, mods: Mods, f: Facts) -> bool {
    &&& 0 <= k < u.len()
    &&& u[k].name == name
    &&& forall|j: int| k < j < u.len() ==> bound((#[trigger] u[j]).name, mods, f)
}

proof fn lemma_float_trails(w: Work, f: Facts, b: Bench, u0: Mods, r: int, mods: Mods)
    requires
        same_mods(w.u, u0),
        0 <= r < f.rules.float.len(),
        f.rules.float[r].1 == b.label,
        holds_name(u0, f.rules.float[r].0),
        last_float(f, r, f.rules.float[r].0, b.label, u0),
    ensures
        ({
            let u = by_rules(w, f, b).u;
            trails(u, u.len() - 1, f.rules.float[r].0, mods, f)
        }),
{
    let k = f.rules;
    lemma_promotes(w, k.promote, b.label, k.promote.len() as int);
    let a = promote_first(w, k.promote, b.label, k.promote.len() as int);
    lemma_sinks(a, k.sink, b.label, k.sink.len() as int);
    let c = sink_first(a, k.sink, b.label, k.sink.len() as int);
    lemma_sinks_any(c, k.sink_any, b.label, k.sink_any.len() as int);
    let d = sink_any_first(c, k.sink_any, b.label, k.sink_any.len() as int);
    lemma_floated(d, f, b.label, u0, r, k.float.len() as int);
}

// ---- what the steps keep ----

proof fn lemma_leads_steady(name: Seq<char>, mods: Mods, f: Facts)
    requires
        !bound(name, mods, f),
    ensures
        steady(|u: Mods| leads(u, name), mods, f),
{
    let inv = |u: Mods| leads(u, name);
    assert forall|u: Mods, i: int, j: int|
        inv(u) && 0 <= i <= j < u.len() && bound(u[i].name, mods, f) implies inv(
        #[trigger] shifted(u, i, j),
    ) by {
        assert(i > 0);
        assert(shifted(u, i, j)[0] == u[0]);
    }
}

proof fn lemma_trails_steady(name: Seq<char>, mods: Mods, f: Facts)
    ensures
        steady(|u: Mods| exists|k: int| trails(u, k, name, mods, f), mods, f),
{
    let inv = |u: Mods| exists|k: int| trails(u, k, name, mods, f);
    assert forall|u: Mods, i: int, j: int|
        inv(u) && 0 <= i <= j < u.len() && bound(u[i].name, mods, f) implies inv(
        #[trigger] shifted(u, i, j),
    ) by {
        let k = choose|k: int| trails(u, k, name, mods, f);
        let v = shifted(u, i, j);
        let to = if i == k {
            j
        } else if i < k && j >= k {
            k - 1
        } else {
            k
        };
        assert(v[to] == u[k]);
        assert forall|q: int| to < q < v.len() implies bound((#[trigger] v[q]).name, mods, f) by {
            if q == j {
                assert(v[q] == u[i]);
            } else if q < i || q > j {
                assert(v[q] == u[q]);
            } else {
                assert(v[q] == u[q + 1]);
            }
        }
        assert(trails(v, to, name, mods, f));
    }
}

// ---- slots ----

proof fn lemma_slots_laid(
    grouped: Mods,
    load: Seq<(Seq<char>, usize)>,
    fixed: Seq<Seq<char>>,
    n: int,
)
    requires
        0 <= n <= grouped.len(),
    ensures
        ({
            let s = slots_first(grouped, load, fixed, n);
            &&& s.owner.len() == grouped.len()
            &&& s.loose.len() <= n
            &&& forall|q: int|
                0 <= q < s.owner.len() ==> ((#[trigger] s.owner[q]) matches Some(m)
                    ==> grouped.contains(m) && fixed.contains(m.name))
            &&& forall|q: int|
                0 <= q < s.loose.len() ==> grouped.contains(#[trigger] s.loose[q])
            &&& forall|q: int|
                0 <= q < n && !fixed.contains((#[trigger] grouped[q]).name) ==> s.loose.contains(
                    grouped[q],
                )
            &&& free_first(s.owner, grouped.len() as int).len() + n >= grouped.len() + s.loose.len()
        }),
    decreases n,
{
    if n > 0 {
        lemma_slots_laid(grouped, load, fixed, n - 1);
        let before = slots_first(grouped, load, fixed, n - 1);
        let s = slots_first(grouped, load, fixed, n);
        let m = grouped[n - 1];
        assert(grouped.contains(m));
        let p = pin_slot(load, grouped.len() as int, m);
        if fixed.contains(m.name) && before.owner[p] is None {
            lemma_free_update(before.owner, p, m, grouped.len() as int);
        } else {
            assert(s.loose.last() == m);
            assert forall|q: int|
                0 <= q < n && !fixed.contains((#[trigger] grouped[q]).name) implies s.loose.contains(
                grouped[q],
            ) by {
                if q < n - 1 {
                    let k = choose|k: int|
                        0 <= k < before.loose.len() && before.loose[k] == grouped[q];
                    assert(s.loose[k] == grouped[q]);
                }
            }
        }
    } else {
        lemma_all_free(slots_first(grouped, load, fixed, 0).owner, grouped.len() as int);
    }
}

proof fn lemma_all_free(owner: Seq<Option<EntryView>>, n: int)
    requires
        0 <= n <= owner.len(),
        forall|i: int| 0 <= i < owner.len() ==> (#[trigger] owner[i]) is None,
    ensures
        free_first(owner, n).len() == n,
    decreases n,
{
    if n > 0 {
        lemma_all_free(owner, n - 1);
    }
}

proof fn lemma_free_update(owner: Seq<Option<EntryView>>, p: int, m: EntryView, n: int)
    requires
        0 <= n <= owner.len(),
        0 <= p < owner.len(),
    ensures
        free_first(owner.update(p, Some(m)), n).len() + 1 >= free_first(owner, n).len(),
        n <= p ==> free_first(owner.update(p, Some(m)), n).len() == free_first(owner, n).len(),
    decreases n,
{
    if n > 0 {
        lemma_free_update(owner, p, m, n - 1);
    }
}

pub open spec fn ascends(s: Seq<usize>, n: int) -> bool {
    &&& forall|i: int| 0 <= i < s.len() ==> (#[trigger] s[i]) < n
    &&& forall|i: int, j: int| 0 <= i < j < s.len() ==> (#[trigger] s[i]) < (#[trigger] s[j])
}

proof fn lemma_free_ascends(owner: Seq<Option<EntryView>>, n: int)
    requires
        0 <= n <= owner.len() <= usize::MAX,
    ensures
        ascends(free_first(owner, n), n),
    decreases n,
{
    if n > 0 {
        lemma_free_ascends(owner, n - 1);
    }
}

proof fn lemma_pinned_here(owner: Seq<Option<EntryView>>, n: int, name: Seq<char>)
    requires
        0 <= n <= owner.len(),
        found(pinned_first(owner, n), name) is Some,
    ensures
        exists|q: int| 0 <= q < owner.len() && ((#[trigger] owner[q]) matches Some(m) && m.name == name),
    decreases n,
{
    if n > 0 {
        match owner[n - 1] {
            Some(m) => {
                insert_then_get(pinned_first(owner, n - 1), m.name, (n - 1) as usize, name);
                if m.name == name {
                    assert(owner[n - 1] matches Some(x) && x.name == name);
                } else {
                    lemma_pinned_here(owner, n - 1, name);
                }
            },
            None => {
                lemma_pinned_here(owner, n - 1, name);
            },
        }
    } else {
        lemma_key_from(pinned_first(owner, n), name, 0);
    }
}

/// The table of a section, and its loose mods.
proof fn lemma_table(label: Seq<char>, mods: Mods, grouped: Mods, fixed: Seq<Seq<char>>)
    requires
        mods.len() <= usize::MAX,
        same_mods(grouped, mods),
        pins_differ(mods, fixed),
    ensures
        ({
            let s = slots_first(
                grouped,
                name_places(mods.reverse()),
                fixed,
                grouped.len() as int,
            );
            let b = bench(label, s.owner);
            &&& laid(b, mods, fixed)
            &&& lined(s.loose, b, mods, fixed)
            &&& forall|name: Seq<char>|
                holds_name(mods, name) && !fixed.contains(name) ==> #[trigger] holds_name(s.loose, name)
            &&& forall|name: Seq<char>| #[trigger] holds_name(s.loose, name) ==> holds_name(mods, name)
            &&& forall|q: int|
                0 <= q < s.owner.len() ==> ((#[trigger] s.owner[q]) matches Some(m)
                    ==> fixed.contains(m.name))
        }),
{
    broadcast use {vstd::multiset::group_multiset_axioms, vstd::seq_lib::group_to_multiset_ensures};

    let n = grouped.len() as int;
    let s = slots_first(grouped, name_places(mods.reverse()), fixed, n);
    let b = bench(label, s.owner);
    lemma_slots_laid(grouped, name_places(mods.reverse()), fixed, n);
    mods.lemma_reverse_to_multiset();
    lemma_pins_differ(mods, grouped, fixed);
    lemma_slots(mods.reverse(), grouped, fixed, n);
    lemma_free_ascends(s.owner, n);
    assert forall|m: EntryView| grouped.contains(m) implies mods.contains(m) by {
        assert(grouped.to_multiset().count(m) > 0);
        assert(mods.to_multiset().count(m) > 0);
    }
    assert forall|name: Seq<char>| #[trigger] found(b.pinned, name) is Some implies holds_name(mods, name)
        && fixed.contains(name) by {
        lemma_pinned_here(s.owner, n, name);
        let q = choose|q: int|
            0 <= q < s.owner.len() && ((#[trigger] s.owner[q]) matches Some(m) && m.name == name);
        lemma_contains(mods, s.owner[q]->0);
    }
    assert forall|name: Seq<char>| holds_name(mods, name) && !fixed.contains(name) implies #[trigger] holds_name(
        s.loose,
        name,
    ) by {
        lemma_has_same(mods, grouped, name);
        let q = choose|q: int| 0 <= q < grouped.len() && (#[trigger] grouped[q]).name == name;
        assert(s.loose.contains(grouped[q]));
        lemma_contains(s.loose, grouped[q]);
    }
    assert forall|name: Seq<char>| #[trigger] holds_name(s.loose, name) implies holds_name(mods, name) by {
        let q = choose|q: int| 0 <= q < s.loose.len() && (#[trigger] s.loose[q]).name == name;
        lemma_contains(mods, s.loose[q]);
    }
}

/// Where a loose mod comes out: in front of it stand fixed mods and those that are in
/// front of it among the loose ones, behind it fixed mods and the rest.
pub open spec fn comes_out(
    out: Mods,
    u: Mods,
    fixed: Seq<Seq<char>>,
    from: int,
    t: int,
    p: int,
) -> bool {
    &&& from <= p < out.len()
    &&& out[p] == u[t]
    &&& forall|q: int|
        from <= q < p ==> fixed.contains((#[trigger] out[q]).name) || exists|j: int|
            0 <= j < t && u[j] == out[q]
    &&& forall|q: int|
        p < q < out.len() ==> fixed.contains((#[trigger] out[q]).name) || exists|j: int|
            t < j < u.len() && u[j] == out[q]
}

/// From `from` on stand fixed mods and loose ones from rank `k` on.
pub open spec fn rest_of(out: Mods, u: Mods, fixed: Seq<Seq<char>>, from: int, k: int) -> bool {
    forall|q: int|
        from <= q < out.len() ==> fixed.contains((#[trigger] out[q]).name) || exists|j: int|
            k <= j < u.len() && u[j] == out[q]
}

proof fn lemma_rest(
    owner: Seq<Option<EntryView>>,
    u: Mods,
    fixed: Seq<Seq<char>>,
    slot: int,
    k: int,
    done: Mods,
)
    requires
        0 <= slot,
        0 <= k <= u.len(),
        forall|q: int|
            0 <= q < owner.len() ==> ((#[trigger] owner[q]) matches Some(m) ==> fixed.contains(
                m.name,
            )),
    ensures
        rest_of(filled(owner, u, slot, k, done), u, fixed, done.len() as int, k),
        filled(owner, u, slot, k, done).len() >= done.len(),
        filled(owner, u, slot, k, done).take(done.len() as int) == done,
    decreases owner.len() - slot,
{
    let out = filled(owner, u, slot, k, done);
    let n = done.len() as int;
    if slot >= owner.len() {
        assert(out == done + u.skip(k));
        assert(out.take(n) =~= done);
        assert forall|q: int| n <= q < out.len() implies fixed.contains((#[trigger] out[q]).name)
            || exists|j: int| k <= j < u.len() && u[j] == out[q] by {
            assert(out[q] == u[k + q - n]);
        }
    } else {
        let (next, more) = match owner[slot] {
            Some(m) => (k, done.push(m)),
            None => if k < u.len() {
                (k + 1, done.push(u[k]))
            } else {
                (k, done)
            },
        };
        lemma_rest(owner, u, fixed, slot + 1, next, more);
        assert(out == filled(owner, u, slot + 1, next, more));
        assert(out.take(n) =~= done) by {
            assert forall|q: int| 0 <= q < n implies out[q] == done[q] by {
                assert(out.take(more.len() as int)[q] == more[q]);
            }
        }
        assert forall|q: int| n <= q < out.len() implies fixed.contains((#[trigger] out[q]).name)
            || exists|j: int| k <= j < u.len() && u[j] == out[q] by {
            if q < more.len() {
                assert(out.take(more.len() as int)[q] == more[q]);
                if owner[slot] is None {
                    assert(out[q] == u[k]);
                }
            } else if !fixed.contains(out[q].name) {
                let j = choose|j: int| next <= j < u.len() && u[j] == out[q];
                assert(k <= j < u.len() && u[j] == out[q]);
            }
        }
    }
}

proof fn lemma_comes_out(
    owner: Seq<Option<EntryView>>,
    u: Mods,
    fixed: Seq<Seq<char>>,
    slot: int,
    k: int,
    done: Mods,
    t: int,
) -> (p: int)
    requires
        0 <= slot,
        0 <= k <= t < u.len(),
        forall|q: int|
            0 <= q < owner.len() ==> ((#[trigger] owner[q]) matches Some(m) ==> fixed.contains(
                m.name,
            )),
    ensures
        comes_out(filled(owner, u, slot, k, done), u, fixed, done.len() as int, t, p),
    decreases owner.len() - slot,
{
    let out = filled(owner, u, slot, k, done);
    let n = done.len() as int;
    if slot >= owner.len() {
        assert(out == done + u.skip(k));
        assert forall|q: int| n <= q < n + t - k implies fixed.contains((#[trigger] out[q]).name)
            || exists|j: int| 0 <= j < t && u[j] == out[q] by {
            assert(out[q] == u[k + q - n]);
        }
        assert forall|q: int| n + t - k < q < out.len() implies fixed.contains(
            (#[trigger] out[q]).name,
        ) || exists|j: int| t < j < u.len() && u[j] == out[q] by {
            assert(out[q] == u[k + q - n]);
        }
        n + t - k
    } else {
        match owner[slot] {
            Some(m) => {
                lemma_rest(owner, u, fixed, slot + 1, k, done.push(m));
                assert(out.take(n + 1)[n] == m);
                let p = lemma_comes_out(owner, u, fixed, slot + 1, k, done.push(m), t);
                p
            },
            None => {
                lemma_rest(owner, u, fixed, slot + 1, k + 1, done.push(u[k]));
                assert(out.take(n + 1)[n] == u[k]);
                if k == t {
                    assert forall|q: int| n < q < out.len() implies fixed.contains(
                        (#[trigger] out[q]).name,
                    ) || exists|j: int| t < j < u.len() && u[j] == out[q] by {
                        if !fixed.contains(out[q].name) {
                            let j = choose|j: int| k + 1 <= j < u.len() && u[j] == out[q];
                            assert(t < j < u.len() && u[j] == out[q]);
                        }
                    }
                    n
                } else {
                    let p = lemma_comes_out(owner, u, fixed, slot + 1, k + 1, done.push(u[k]), t);
                    p
                }
            },
        }
    }
}

// ---- one section ----

/// The loose mods of a section are these, in whatever order: its mods without an exact
/// rule.
pub open spec fn loose_here(mods: Mods, fixed: Seq<Seq<char>>, name: Seq<char>) -> bool {
    holds_name(mods, name) && !fixed.contains(name)
}

/// No sink rule after the `r`th speaks of another loose mod of the section.
pub open spec fn sinks_last(f: Facts, r: int, label: Seq<char>, mods: Mods) -> bool {
    forall|q: int|
        r < q < f.rules.sink.len() ==> (#[trigger] f.rules.sink[q]).1 != label || f.rules.sink[q].0
            == f.rules.sink[r].0 || !loose_here(mods, fixed_of(f.rules), f.rules.sink[q].0)
}

/// No sectionless sink from the `r`th on speaks of another loose mod of the section.
pub open spec fn sinks_any_last(f: Facts, r: int, name: Seq<char>, mods: Mods) -> bool {
    forall|q: int|
        r <= q < f.rules.sink_any.len() ==> (#[trigger] f.rules.sink_any[q]) == name
            || !loose_here(mods, fixed_of(f.rules), f.rules.sink_any[q])
}

/// No float rule after the `r`th speaks of another loose mod of the section.
pub open spec fn floats_last(f: Facts, r: int, label: Seq<char>, mods: Mods) -> bool {
    forall|q: int|
        r < q < f.rules.float.len() ==> (#[trigger] f.rules.float[q]).1 != label
            || f.rules.float[q].0 == f.rules.float[r].0 || !loose_here(
            mods,
            fixed_of(f.rules),
            f.rules.float[q].0,
        )
}

/// The mod is the last row of the file among those without an exact rule.
pub open spec fn last_row(file: Mods, fixed: Seq<Seq<char>>, name: Seq<char>) -> bool {
    exists|i: int|
        0 <= i < file.len() && (#[trigger] file[i]).name == name && forall|j: int|
            i < j < file.len() ==> fixed.contains((#[trigger] file[j]).name)
}

/// The mod is the first row of the file among those without an exact rule, but for mods
/// that something in the section binds.
pub open spec fn first_row(
    file: Mods,
    fixed: Seq<Seq<char>>,
    name: Seq<char>,
    mods: Mods,
    f: Facts,
) -> bool {
    exists|i: int|
        0 <= i < file.len() && (#[trigger] file[i]).name == name && forall|j: int|
            0 <= j < i ==> fixed.contains((#[trigger] file[j]).name) || bound(
                file[j].name,
                mods,
                f,
            )
}

proof fn lemma_leading_row(
    label: Seq<char>,
    mods: Mods,
    f: Facts,
    known: Known,
    kw: KeywordsView,
    solo: bool,
    plan: PlanView,
    name: Seq<char>,
)
    requires
        0 < mods.len() <= usize::MAX,
        pins_differ(mods, fixed_of(f.rules)),
        !bound(name, mods, f),
        ({
            let s = slots_first(
                grouped_mods(mods, f, known, kw, solo),
                name_places(mods.reverse()),
                fixed_of(f.rules),
                mods.len() as int,
            );
            forall|v: Work|
                same_mods(v.u, s.loose) ==> leads(
                    (#[trigger] by_rules(v, f, bench(label, s.owner))).u,
                    name,
                )
        }),
    ensures
        last_row(
            arranged(label, mods, f, known, kw, fixed_of(f.rules), solo, plan).0,
            fixed_of(f.rules),
            name,
        ),
{
    let fixed = fixed_of(f.rules);
    let work = mods.reverse();
    let grouped = grouped_mods(mods, f, known, kw, solo);
    lemma_grouped(mods, f, known, kw, solo);
    lemma_table(label, mods, grouped, fixed);
    let s = slots_first(grouped, name_places(work), fixed, grouped.len() as int);
    let b = bench(label, s.owner);
    let inv = |u: Mods| leads(u, name);
    lemma_leads_steady(name, mods, f);
    let w0 = Work { u: s.loose, plan };
    assert forall|v: Work| same_mods(v.u, w0.u) implies inv((#[trigger] by_rules(v, f, b)).u) by {}
    lemma_rounds_steady(w0, f, b, mods, fixed, inv, 6);
    let w = rounds(w0, f, b, 6);
    assert(leads(w.u, name));
    let none = Seq::<EntryView>::empty();
    let out = filled(s.owner, w.u, 0, 0, none);
    let p = lemma_comes_out(s.owner, w.u, fixed, 0, 0, none, 0);
    let file = out.reverse();
    let i = out.len() - 1 - p;
    assert(file[i] == out[p]);
    assert forall|j: int| i < j < file.len() implies fixed.contains((#[trigger] file[j]).name) by {
        assert(file[j] == out[out.len() - 1 - j]);
    }
}

proof fn lemma_grouped(mods: Mods, f: Facts, known: Known, kw: KeywordsView, solo: bool)
    requires
        mods.len() <= usize::MAX,
    ensures
        same_mods(grouped_mods(mods, f, known, kw, solo), mods),
{
    let work = mods.reverse();
    mods.lemma_reverse_to_multiset();
    families_keep(work, parents_of(work, f.content, known, kw));
}

/// A sunk mod that stands in its section is the last row of it among the mods without an
/// exact rule: it has the lowest priority there. A later sink rule for another mod of
/// the section, a float rule for the same mod, and what binds the mod come before that.
pub proof fn sunk_mod_is_the_last_row(
    label: Seq<char>,
    mods: Mods,
    f: Facts,
    known: Known,
    kw: KeywordsView,
    solo: bool,
    plan: PlanView,
    r: int,
)
    requires
        mods.len() <= usize::MAX,
        pins_differ(mods, fixed_of(f.rules)),
        0 <= r < f.rules.sink.len(),
        f.rules.sink[r].1 == label,
        loose_here(mods, fixed_of(f.rules), f.rules.sink[r].0),
        sinks_last(f, r, label, mods),
        sinks_any_last(f, 0, f.rules.sink[r].0, mods),
        not_floated(f, f.rules.sink[r].0, label),
        !bound(f.rules.sink[r].0, mods, f),
    ensures
        last_row(
            arranged(label, mods, f, known, kw, fixed_of(f.rules), solo, plan).0,
            fixed_of(f.rules),
            f.rules.sink[r].0,
        ),
{
    let fixed = fixed_of(f.rules);
    let name = f.rules.sink[r].0;
    let grouped = grouped_mods(mods, f, known, kw, solo);
    lemma_grouped(mods, f, known, kw, solo);
    lemma_table(label, mods, grouped, fixed);
    let s = slots_first(grouped, name_places(mods.reverse()), fixed, grouped.len() as int);
    let b = bench(label, s.owner);
    lemma_loose_names(s.loose, b, mods, fixed);
    assert(holds_name(s.loose, name));
    assert(last_sink(f, r, name, label, s.loose));
    assert(last_sink_any(f, 0, name, s.loose));
    assert forall|v: Work| same_mods(v.u, s.loose) implies leads(
        (#[trigger] by_rules(v, f, b)).u,
        name,
    ) by {
        lemma_sink_leads(v, f, b, s.loose, r);
    }
    lemma_leading_row(label, mods, f, known, kw, solo, plan, name);
}

proof fn lemma_loose_names(u: Mods, b: Bench, mods: Mods, fixed: Seq<Seq<char>>)
    requires
        lined(u, b, mods, fixed),
    ensures
        forall|name: Seq<char>| #[trigger] holds_name(u, name) ==> loose_here(mods, fixed, name),
{
    assert forall|name: Seq<char>| #[trigger] holds_name(u, name) implies loose_here(
        mods,
        fixed,
        name,
    ) by {
        let q = choose|q: int| 0 <= q < u.len() && (#[trigger] u[q]).name == name;
        lemma_contains(mods, u[q]);
    }
}

/// A mod that a sectionless sink names is the last row of whatever section holds it,
/// among the mods without an exact rule. A later sectionless sink for another mod of the
/// section, a float rule for the same mod, and what binds the mod come before that.
pub proof fn framework_is_the_last_row(
    label: Seq<char>,
    mods: Mods,
    f: Facts,
    known: Known,
    kw: KeywordsView,
    solo: bool,
    plan: PlanView,
    r: int,
)
    requires
        mods.len() <= usize::MAX,
        pins_differ(mods, fixed_of(f.rules)),
        0 <= r < f.rules.sink_any.len(),
        loose_here(mods, fixed_of(f.rules), f.rules.sink_any[r]),
        sinks_any_last(f, r, f.rules.sink_any[r], mods),
        not_floated(f, f.rules.sink_any[r], label),
        !bound(f.rules.sink_any[r], mods, f),
    ensures
        last_row(
            arranged(label, mods, f, known, kw, fixed_of(f.rules), solo, plan).0,
            fixed_of(f.rules),
            f.rules.sink_any[r],
        ),
{
    let fixed = fixed_of(f.rules);
    let name = f.rules.sink_any[r];
    let grouped = grouped_mods(mods, f, known, kw, solo);
    lemma_grouped(mods, f, known, kw, solo);
    lemma_table(label, mods, grouped, fixed);
    let s = slots_first(grouped, name_places(mods.reverse()), fixed, grouped.len() as int);
    let b = bench(label, s.owner);
    lemma_loose_names(s.loose, b, mods, fixed);
    assert(holds_name(s.loose, name));
    assert(last_sink_any(f, r, name, s.loose));
    assert forall|v: Work| same_mods(v.u, s.loose) implies leads(
        (#[trigger] by_rules(v, f, b)).u,
        name,
    ) by {
        lemma_sink_any_leads(v, f, b, s.loose, r);
    }
    lemma_leading_row(label, mods, f, known, kw, solo, plan, name);
}

/// A floated mod that stands in its section is the first row of it among the mods without
/// an exact rule, and so has the highest priority there: only a mod that something in
/// the section binds can stand in front of it. A later float rule for another mod of the
/// section comes before that.
pub proof fn floated_mod_is_the_first_row(
    label: Seq<char>,
    mods: Mods,
    f: Facts,
    known: Known,
    kw: KeywordsView,
    solo: bool,
    plan: PlanView,
    r: int,
)
    requires
        mods.len() <= usize::MAX,
        pins_differ(mods, fixed_of(f.rules)),
        0 <= r < f.rules.float.len(),
        f.rules.float[r].1 == label,
        loose_here(mods, fixed_of(f.rules), f.rules.float[r].0),
        floats_last(f, r, label, mods),
    ensures
        first_row(
            arranged(label, mods, f, known, kw, fixed_of(f.rules), solo, plan).0,
            fixed_of(f.rules),
            f.rules.float[r].0,
            mods,
            f,
        ),
{
    let fixed = fixed_of(f.rules);
    let name = f.rules.float[r].0;
    let grouped = grouped_mods(mods, f, known, kw, solo);
    lemma_grouped(mods, f, known, kw, solo);
    lemma_table(label, mods, grouped, fixed);
    let s = slots_first(grouped, name_places(mods.reverse()), fixed, grouped.len() as int);
    let b = bench(label, s.owner);
    lemma_loose_names(s.loose, b, mods, fixed);
    assert(holds_name(s.loose, name));
    assert(last_float(f, r, name, label, s.loose));
    let inv = |u: Mods| exists|k: int| trails(u, k, name, mods, f);
    lemma_trails_steady(name, mods, f);
    let w0 = Work { u: s.loose, plan };
    assert forall|v: Work| same_mods(v.u, w0.u) implies inv((#[trigger] by_rules(v, f, b)).u) by {
        lemma_float_trails(v, f, b, s.loose, r, mods);
    }
    lemma_rounds_steady(w0, f, b, mods, fixed, inv, 6);
    let w = rounds(w0, f, b, 6);
    assert(inv(w.u));
    let k = choose|k: int| trails(w.u, k, name, mods, f);
    let none = Seq::<EntryView>::empty();
    let out = filled(s.owner, w.u, 0, 0, none);
    let p = lemma_comes_out(s.owner, w.u, fixed, 0, 0, none, k);
    let file = out.reverse();
    let i = out.len() - 1 - p;
    assert(file[i] == out[p]);
    assert forall|j: int| 0 <= j < i implies fixed.contains((#[trigger] file[j]).name) || bound(
        file[j].name,
        mods,
        f,
    ) by {
        let q = out.len() - 1 - j;
        assert(file[j] == out[q]);
        if !fixed.contains(out[q].name) {
            let x = choose|x: int| k < x < w.u.len() && w.u[x] == out[q];
            assert(bound(w.u[x].name, mods, f));
        }
    }
}

// ---- a whole run ----

/// The sections of a run once every mod is filed, before they are put into order.
pub open spec fn filed_plan(ml: ModlistView, i: Sources) -> PlanView {
    let rules = rules_in_force(ml, i);
    let known = known_of(ml.sections, i.kw);
    let (b, decisions) = decided(opened(first_plan(ml), i), rules, known, i);
    let c = proven(b, decisions, pins_of(rules), rules.dump, i);
    unparked(moved(c.plan, c.decisions, rules.dump)->0, rules, i)
}

/// What the order inside the sections of a run goes by.
pub open spec fn facts_of_run(ml: ModlistView, i: Sources) -> Facts {
    let rules = rules_in_force(ml, i);
    let known = known_of(ml.sections, i.kw);
    let (b, decisions) = decided(opened(first_plan(ml), i), rules, known, i);
    let c = proven(b, decisions, pins_of(rules), rules.dump, i);
    Facts { rules, content: c.content, loot: c.loot, census: i.census, conflicts: i.conflicts }
}

proof fn lemma_arranged_at(
    p: PlanView,
    sections: Seq<SectionView>,
    f: Facts,
    known: Known,
    kw: KeywordsView,
    fixed: Seq<Seq<char>>,
    solo: bool,
    n: int,
    s: int,
)
    requires
        0 <= s < n <= sections.len(),
    ensures
        arranged_first(p, sections, f, known, kw, fixed, solo, n).0.len() == n,
        arranged_first(p, sections, f, known, kw, fixed, solo, n).0[s] == with_mods(
            sections[s],
            arranged(
                sections[s].label,
                sections[s].mods,
                f,
                known,
                kw,
                fixed,
                solo,
                arranged_first(p, sections, f, known, kw, fixed, solo, s).1,
            ).0,
        ),
    decreases n,
{
    lemma_arranged_len(p, sections, f, known, kw, fixed, solo, n);
    lemma_arranged_len(p, sections, f, known, kw, fixed, solo, n - 1);
    if s < n - 1 {
        lemma_arranged_at(p, sections, f, known, kw, fixed, solo, n - 1, s);
    }
}

proof fn lemma_arranged_len(
    p: PlanView,
    sections: Seq<SectionView>,
    f: Facts,
    known: Known,
    kw: KeywordsView,
    fixed: Seq<Seq<char>>,
    solo: bool,
    n: int,
)
    requires
        0 <= n <= sections.len(),
    ensures
        arranged_first(p, sections, f, known, kw, fixed, solo, n).0.len() == n,
    decreases n,
{
    if n > 0 {
        lemma_arranged_len(p, sections, f, known, kw, fixed, solo, n - 1);
    }
}

/// The plan of a run when the section's turn comes.
pub open spec fn plan_at(ml: ModlistView, i: Sources, s: int) -> PlanView {
    arranged_first(
        with_sections(filed_plan(ml, i), Seq::empty()),
        filed_plan(ml, i).sections,
        facts_of_run(ml, i),
        known_of(ml.sections, i.kw),
        i.kw,
        fixed_of(rules_in_force(ml, i)),
        i.solo,
        s,
    ).1
}

/// A section comes out of a run as the mods that are filed in it, in order.
pub proof fn lemma_section_of_run(ml: ModlistView, i: Sources, s: int)
    requires
        run_plan(ml, i) is Some,
        0 <= s < filed_plan(ml, i).sections.len(),
    ensures
        run_plan(ml, i)->0.sections.len() == filed_plan(ml, i).sections.len(),
        run_plan(ml, i)->0.sections[s] == with_mods(
            filed_plan(ml, i).sections[s],
            arranged(
                filed_plan(ml, i).sections[s].label,
                filed_plan(ml, i).sections[s].mods,
                facts_of_run(ml, i),
                known_of(ml.sections, i.kw),
                i.kw,
                fixed_of(rules_in_force(ml, i)),
                i.solo,
                plan_at(ml, i, s),
            ).0,
        ),
{
    let e = filed_plan(ml, i);
    let f = facts_of_run(ml, i);
    let rules = rules_in_force(ml, i);
    let fixed = fixed_of(rules);
    let known = known_of(ml.sections, i.kw);
    let start = with_sections(e, Seq::empty());
    let n = e.sections.len() as int;
    lemma_arranged_at(start, e.sections, f, known, i.kw, fixed, i.solo, n, s);
    let g = all_arranged(e, f, known, i.kw, fixed, i.solo);
    audits_only_report(g, known, pins_of(rules), i);
}

/// After a run a sunk mod that is filed in its section has the lowest priority there: it
/// is the last row among the mods without an exact rule.
pub proof fn sunk_mods_end_last(ml: ModlistView, i: Sources, s: int, r: int)
    requires
        run_plan(ml, i) is Some,
        0 <= s < filed_plan(ml, i).sections.len(),
        filed_plan(ml, i).sections[s].mods.len() <= usize::MAX,
        pins_differ(filed_plan(ml, i).sections[s].mods, fixed_of(rules_in_force(ml, i))),
        0 <= r < rules_in_force(ml, i).sink.len(),
        ({
            let f = facts_of_run(ml, i);
            let section = filed_plan(ml, i).sections[s];
            let name = f.rules.sink[r].0;
            &&& f.rules.sink[r].1 == section.label
            &&& loose_here(section.mods, fixed_of(f.rules), name)
            &&& sinks_last(f, r, section.label, section.mods)
            &&& sinks_any_last(f, 0, name, section.mods)
            &&& not_floated(f, name, section.label)
            &&& !bound(name, section.mods, f)
        }),
    ensures
        last_row(
            run_plan(ml, i)->0.sections[s].mods,
            fixed_of(rules_in_force(ml, i)),
            rules_in_force(ml, i).sink[r].0,
        ),
{
    lemma_section_of_run(ml, i, s);
    let section = filed_plan(ml, i).sections[s];
    sunk_mod_is_the_last_row(
        section.label,
        section.mods,
        facts_of_run(ml, i),
        known_of(ml.sections, i.kw),
        i.kw,
        i.solo,
        plan_at(ml, i, s),
        r,
    );
}

/// After a run a mod that a sectionless sink names is the last row of whatever section
/// holds it, among the mods without an exact rule.
pub proof fn frameworks_end_last(ml: ModlistView, i: Sources, s: int, r: int)
    requires
        run_plan(ml, i) is Some,
        0 <= s < filed_plan(ml, i).sections.len(),
        filed_plan(ml, i).sections[s].mods.len() <= usize::MAX,
        pins_differ(filed_plan(ml, i).sections[s].mods, fixed_of(rules_in_force(ml, i))),
        0 <= r < rules_in_force(ml, i).sink_any.len(),
        ({
            let f = facts_of_run(ml, i);
            let section = filed_plan(ml, i).sections[s];
            let name = f.rules.sink_any[r];
            &&& loose_here(section.mods, fixed_of(f.rules), name)
            &&& sinks_any_last(f, r, name, section.mods)
            &&& not_floated(f, name, section.label)
            &&& !bound(name, section.mods, f)
        }),
    ensures
        last_row(
            run_plan(ml, i)->0.sections[s].mods,
            fixed_of(rules_in_force(ml, i)),
            rules_in_force(ml, i).sink_any[r],
        ),
{
    lemma_section_of_run(ml, i, s);
    let section = filed_plan(ml, i).sections[s];
    framework_is_the_last_row(
        section.label,
        section.mods,
        facts_of_run(ml, i),
        known_of(ml.sections, i.kw),
        i.kw,
        i.solo,
        plan_at(ml, i, s),
        r,
    );
}

/// After a run a floated mod that is filed in its section has the highest priority there:
/// it is the first row among the mods without an exact rule, but for those that
/// something in the section binds.
pub proof fn floated_mods_end_first(ml: ModlistView, i: Sources, s: int, r: int)
    requires
        run_plan(ml, i) is Some,
        0 <= s < filed_plan(ml, i).sections.len(),
        filed_plan(ml, i).sections[s].mods.len() <= usize::MAX,
        pins_differ(filed_plan(ml, i).sections[s].mods, fixed_of(rules_in_force(ml, i))),
        0 <= r < rules_in_force(ml, i).float.len(),
        ({
            let f = facts_of_run(ml, i);
            let section = filed_plan(ml, i).sections[s];
            &&& f.rules.float[r].1 == section.label
            &&& loose_here(section.mods, fixed_of(f.rules), f.rules.float[r].0)
            &&& floats_last(f, r, section.label, section.mods)
        }),
    ensures
        first_row(
            run_plan(ml, i)->0.sections[s].mods,
            fixed_of(rules_in_force(ml, i)),
            rules_in_force(ml, i).float[r].0,
            filed_plan(ml, i).sections[s].mods,
            facts_of_run(ml, i),
        ),
{
    lemma_section_of_run(ml, i, s);
    let section = filed_plan(ml, i).sections[s];
    floated_mod_is_the_first_row(
        section.label,
        section.mods,
        facts_of_run(ml, i),
        known_of(ml.sections, i.kw),
        i.kw,
        i.solo,
        plan_at(ml, i, s),
        r,
    );
}

} // verus!
