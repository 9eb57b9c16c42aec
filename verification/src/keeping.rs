//! What a sort keeps: every mod stays in the list, with its flag, and mods that an exact
//! rule pins stay where they are.
use vstd::prelude::*;
use vstd::multiset::Multiset;
#[allow(unused_imports)]
use crate::conflicts::ConflictView;
#[allow(unused_imports)]
use crate::loot::{places_first, Edges};
#[allow(unused_imports)]
use crate::map::{found, insert_then_get, lemma_key_from};
#[allow(unused_imports)]
use crate::modlist::{names, EntryView};
#[allow(unused_imports)]
use crate::place::{arranged, bench, duel, duel_line, latest_parent, later, report_first, slot_at, slot_of, slot_text, by_family, by_rules, duel_one, duel_sweeps, duels_first, duels_from, early_from, esm_steps, family_keys, filled, float_first, float_one, last_esm_first, lemma_mod_from, mod_from, moved_past, name_places, parents_first, parents_of, parents_sweeps, pin_slot, promote_first, promote_one, rank_past, round, rounds, sink_any_first, sink_any_one, sink_first, sink_one, slots_first, Bench, DuelView, Facts, FamilyKey, Known, Mods, Work};
#[allow(unused_imports)]
use crate::keywords::KeywordsView;
#[allow(unused_imports)]
use crate::plan::{traced, PlanView};
#[allow(unused_imports)]
use crate::plugins::CensusView;
#[allow(unused_imports)]
use crate::sort::{sorted, sorting_orders_and_keeps};

verus! {

// ---- sequences with the same items ----

/// Moving one item within a sequence keeps every item.
pub proof fn moving_keeps<A>(s: Seq<A>, from: int, to: int)
    requires
        0 <= from < s.len(),
        0 <= to < s.len(),
    ensures
        s.remove(from).insert(to, s[from]).to_multiset() == s.to_multiset(),
        s.remove(from).insert(to, s[from]).len() == s.len(),
{
    broadcast use vstd::multiset::group_multiset_axioms;

    vstd::seq_lib::to_multiset_remove(s, from);
    vstd::seq_lib::to_multiset_insert(s.remove(from), to, s[from]);
    vstd::seq_lib::to_multiset_contains(s, s[from]);
    assert(s.contains(s[from]));
    assert(s.to_multiset().remove(s[from]).insert(s[from]) =~= s.to_multiset());
}

/// The images of two sequences with the same items have the same items.
pub proof fn images_agree<A, B>(a: Seq<A>, b: Seq<A>, f: spec_fn(A) -> B)
    requires
        a.to_multiset() == b.to_multiset(),
    ensures
        a.map_values(f).to_multiset() == b.map_values(f).to_multiset(),
    decreases a.len(),
{
    broadcast use {vstd::multiset::group_multiset_axioms, vstd::seq_lib::group_to_multiset_ensures};

    assert(a.len() == a.to_multiset().len() == b.to_multiset().len() == b.len());
    if a.len() == 0 {
        assert(a.map_values(f) =~= b.map_values(f));
    } else {
        let x = a.last();
        let rest = a.drop_last();
        assert(a =~= rest.push(x));
        assert(a.contains(x));
        assert(b.to_multiset().count(x) > 0);
        let j = choose|j: int| 0 <= j < b.len() && b[j] == x;
        vstd::seq_lib::to_multiset_remove(b, j);
        assert(a.remove(a.len() - 1) =~= rest);
        vstd::seq_lib::to_multiset_remove(a, a.len() - 1);
        images_agree(rest, b.remove(j), f);
        assert(a.map_values(f) =~= rest.map_values(f).push(f(x)));
        let fb = b.map_values(f);
        assert(b.remove(j).map_values(f) =~= fb.remove(j));
        vstd::seq_lib::to_multiset_remove(fb, j);
        assert(fb.contains(fb[j]));
        assert(fb.to_multiset().remove(f(x)).insert(f(x)) =~= fb.to_multiset());
        vstd::seq_lib::to_multiset_build(rest.map_values(f), f(x));
    }
}

// ---- families ----

/// Putting families together keeps every mod.
pub proof fn families_keep(work: Mods, parents: Seq<Option<usize>>)
    requires
        work.len() <= usize::MAX,
    ensures
        by_family(work, parents).to_multiset() == work.to_multiset(),
        by_family(work, parents).len() == work.len(),
{
    let keys = family_keys(work, parents);
    let order = sorted::<FamilyKey>(keys);
    sorting_orders_and_keeps::<FamilyKey>(keys);
    let f = |k: FamilyKey| work[k.index as int];
    images_agree(order, keys, f);
    assert(order.map_values(f) =~= by_family(work, parents));
    assert(keys.map_values(f) =~= work);
}

// ---- constraints ----

proof fn lemma_rank_past(free: Seq<usize>, slot: usize, i: int)
    requires
        0 <= i,
    ensures
        rank_past(free, slot, i) >= i,
    decreases free.len() - i,
{
    if i < free.len() && free[i] <= slot {
        lemma_rank_past(free, slot, i + 1);
    }
}

/// The items of the two are the same, each as often.
pub open spec fn same_mods(a: Mods, b: Mods) -> bool {
    a.to_multiset() == b.to_multiset() && a.len() == b.len()
}

/// The two plans have the same sections and parked lines.
pub open spec fn same_list(a: PlanView, b: PlanView) -> bool {
    a.sections == b.sections && a.parking == b.parking
}

/// The loose mods are the same, each as often, and the lists are untouched.
pub open spec fn kept(a: Work, b: Work) -> bool {
    same_mods(a.u, b.u) && same_list(a.plan, b.plan)
}

proof fn lemma_moved_past(free: Seq<usize>, u: Mods, from: int, slot: usize)
    requires
        0 <= from < u.len(),
    ensures
        same_mods(moved_past(free, u, from, slot), u),
{
    lemma_rank_past(free, slot, 0);
    let r = rank_past(free, slot, 0);
    moving_keeps(
        u,
        from,
        if r < u.len() - 1 {
            r
        } else {
            u.len() - 1
        },
    );
}

proof fn lemma_promote(w: Work, rule: (Seq<char>, Seq<char>), label: Seq<char>)
    ensures
        kept(promote_one(w, rule, label), w),
{
    let (win, lose) = rule;
    lemma_mod_from(w.u, win, 0);
    lemma_mod_from(w.u, lose, 0);
    if mod_from(w.u, win, 0) is Some && mod_from(w.u, lose, 0) is Some {
        let wi = mod_from(w.u, win, 0)->0;
        let li = mod_from(w.u, lose, 0)->0;
        if wi < li {
            let rest = w.u.remove(wi);
            lemma_mod_from(rest, lose, 0);
            assert(rest[li - 1] == w.u[li]);
            moving_keeps(w.u, wi, mod_from(rest, lose, 0)->0 + 1);
        }
    }
}

proof fn lemma_sink(w: Work, rule: (Seq<char>, Seq<char>), label: Seq<char>)
    ensures
        kept(sink_one(w, rule, label), w),
{
    lemma_mod_from(w.u, rule.0, 0);
    if mod_from(w.u, rule.0, 0) is Some {
        moving_keeps(w.u, mod_from(w.u, rule.0, 0)->0, 0);
    }
}

proof fn lemma_sink_any(w: Work, name: Seq<char>, label: Seq<char>)
    ensures
        kept(sink_any_one(w, name, label), w),
{
    lemma_mod_from(w.u, name, 0);
    if mod_from(w.u, name, 0) is Some {
        moving_keeps(w.u, mod_from(w.u, name, 0)->0, 0);
    }
}

proof fn lemma_float(w: Work, rule: (Seq<char>, Seq<char>), label: Seq<char>)
    ensures
        kept(float_one(w, rule, label), w),
{
    lemma_mod_from(w.u, rule.0, 0);
    if mod_from(w.u, rule.0, 0) is Some {
        let i = mod_from(w.u, rule.0, 0)->0;
        moving_keeps(w.u, i, w.u.len() - 1);
        let rest = w.u.remove(i);
        assert(rest.push(w.u[i]) =~= rest.insert(w.u.len() - 1, w.u[i]));
    }
}

pub proof fn lemma_promotes(w: Work, rules: Seq<(Seq<char>, Seq<char>)>, label: Seq<char>, n: int)
    ensures
        kept(promote_first(w, rules, label, n), w),
    decreases n,
{
    if n > 0 {
        lemma_promotes(w, rules, label, n - 1);
        lemma_promote(promote_first(w, rules, label, n - 1), rules[n - 1], label);
    }
}

pub proof fn lemma_sinks(w: Work, rules: Seq<(Seq<char>, Seq<char>)>, label: Seq<char>, n: int)
    ensures
        kept(sink_first(w, rules, label, n), w),
    decreases n,
{
    if n > 0 {
        lemma_sinks(w, rules, label, n - 1);
        lemma_sink(sink_first(w, rules, label, n - 1), rules[n - 1], label);
    }
}

pub proof fn lemma_sinks_any(w: Work, names: Seq<Seq<char>>, label: Seq<char>, n: int)
    ensures
        kept(sink_any_first(w, names, label, n), w),
    decreases n,
{
    if n > 0 {
        lemma_sinks_any(w, names, label, n - 1);
        lemma_sink_any(sink_any_first(w, names, label, n - 1), names[n - 1], label);
    }
}

pub proof fn lemma_floats(w: Work, rules: Seq<(Seq<char>, Seq<char>)>, label: Seq<char>, n: int)
    ensures
        kept(float_first(w, rules, label, n), w),
    decreases n,
{
    if n > 0 {
        lemma_floats(w, rules, label, n - 1);
        lemma_float(float_first(w, rules, label, n - 1), rules[n - 1], label);
    }
}

proof fn lemma_parents_pass(w: Work, b: Bench, content: Edges, loot: Edges, n: int)
    requires
        n <= w.u.len(),
    ensures
        kept(parents_first(w, b, content, loot, n).0, w),
    decreases n,
{
    if n > 0 {
        lemma_parents_pass(w, b, content, loot, n - 1);
        let (v, moved) = parents_first(w, b, content, loot, n - 1);
        match later(
            latest_parent(found(content, v.u[n - 1].name), b, v.u),
            latest_parent(found(loot, v.u[n - 1].name), b, v.u),
        ) {
            Some(latest) => {
                lemma_moved_past(b.free, v.u, n - 1, latest);
            },
            None => {},
        }
    }
}

proof fn lemma_parents_sweeps(w: Work, b: Bench, content: Edges, loot: Edges, fuel: nat)
    ensures
        kept(parents_sweeps(w, b, content, loot, fuel), w),
    decreases fuel,
{
    if fuel > 0 {
        lemma_parents_pass(w, b, content, loot, w.u.len() as int);
        let (v, moved) = parents_first(w, b, content, loot, w.u.len() as int);
        if moved {
            lemma_parents_sweeps(v, b, content, loot, (fuel - 1) as nat);
        }
    }
}

proof fn lemma_early(b: Bench, u: Mods, census: CensusView, slot: usize, i: int)
    requires
        0 <= i,
    ensures
        match early_from(b, u, census, slot, i) {
            Some(j) => i <= j < u.len(),
            None => true,
        },
    decreases u.len() - i,
{
    if i < u.len() {
        lemma_early(b, u, census, slot, i + 1);
    }
}

proof fn lemma_esm_steps(w: Work, b: Bench, census: CensusView, fuel: nat)
    ensures
        kept(esm_steps(w, b, census, fuel), w),
    decreases fuel,
{
    if fuel > 0 {
        match last_esm_first(b, w.u, census, b.owner.len() as int) {
            Some(latest) => {
                lemma_early(b, w.u, census, latest, 0);
                match early_from(b, w.u, census, latest, 0) {
                    Some(ci) => {
                        lemma_moved_past(b.free, w.u, ci, latest);
                        let plan = traced(
                            w.plan,
                            "  ["@ + b.label + "] "@ + w.u[ci].name
                                + " | ESM DAG: non-ESM loads after ESM"@ + slot_text(
                                slot_at(b.free, ci),
                                latest,
                            ),
                        );
                        lemma_esm_steps(
                            Work { u: moved_past(b.free, w.u, ci, latest), plan },
                            b,
                            census,
                            (fuel - 1) as nat,
                        );
                    },
                    None => {},
                }
            },
            None => {},
        }
    }
}

proof fn lemma_duel(w: Work, moved: bool, d: DuelView, b: Bench)
    ensures
        kept(duel_one(w, moved, d, b).0, w),
{
    lemma_mod_from(w.u, d.patch, 0);
    if mod_from(w.u, d.patch, 0) is Some && slot_of(b, w.u, d.base) is Some {
        lemma_moved_past(
            b.free,
            w.u,
            mod_from(w.u, d.patch, 0)->0,
            slot_of(b, w.u, d.base)->0,
        );
    }
}

proof fn lemma_duels(w: Work, duels: Seq<DuelView>, b: Bench, n: int)
    ensures
        kept(duels_first(w, duels, b, n).0, w),
    decreases n,
{
    if n > 0 {
        lemma_duels(w, duels, b, n - 1);
        let (v, moved) = duels_first(w, duels, b, n - 1);
        lemma_duel(v, moved, duels[n - 1], b);
    }
}

proof fn lemma_duel_sweeps(w: Work, duels: Seq<DuelView>, b: Bench, fuel: nat)
    ensures
        kept(duel_sweeps(w, duels, b, fuel), w),
    decreases fuel,
{
    if fuel > 0 {
        lemma_duels(w, duels, b, duels.len() as int);
        let (v, moved) = duels_first(w, duels, b, duels.len() as int);
        if moved {
            lemma_duel_sweeps(v, duels, b, (fuel - 1) as nat);
        }
    }
}

proof fn lemma_duel_lines(
    u: Mods,
    c: ConflictView,
    label: Seq<char>,
    i: int,
    j: int,
    duels: Seq<DuelView>,
    plan: PlanView,
)
    ensures
        same_list(duels_from(u, c, label, i, j, duels, plan).1, plan),
    decreases u.len() - i, u.len() - j,
{
    if 0 <= i < u.len() {
        if j >= u.len() {
            lemma_duel_lines(u, c, label, i + 1, i + 2, duels, plan);
        } else {
            match duel(u[i], u[j], c) {
                Some(d) => {
                    lemma_duel_lines(u, c, label, i, j + 1, duels, plan);
                    lemma_duel_lines(
                        u,
                        c,
                        label,
                        i,
                        j + 1,
                        duels.push(d),
                        traced(plan, duel_line(label, d)),
                    );
                },
                None => {
                    lemma_duel_lines(u, c, label, i, j + 1, duels, plan);
                },
            }
        }
    }
}

/// One round of constraints keeps every loose mod.
pub proof fn round_keeps(w: Work, f: Facts, b: Bench)
    ensures
        kept(round(w, f, b), w),
{
    let r = f.rules;
    let a = promote_first(w, r.promote, b.label, r.promote.len() as int);
    lemma_promotes(w, r.promote, b.label, r.promote.len() as int);
    let c = sink_first(a, r.sink, b.label, r.sink.len() as int);
    lemma_sinks(a, r.sink, b.label, r.sink.len() as int);
    let d = sink_any_first(c, r.sink_any, b.label, r.sink_any.len() as int);
    lemma_sinks_any(c, r.sink_any, b.label, r.sink_any.len() as int);
    lemma_floats(d, r.float, b.label, r.float.len() as int);
    let e = by_rules(w, f, b);
    lemma_parents_sweeps(e, b, f.content, f.loot, 6);
    let g = if f.content.len() > 0 || f.loot.len() > 0 {
        parents_sweeps(e, b, f.content, f.loot, 6)
    } else {
        e
    };
    let h = match f.census {
        Some(census) => {
            lemma_esm_steps(g, b, census, 6);
            esm_steps(g, b, census, 6)
        },
        None => g,
    };
    match f.conflicts {
        Some(c) => {
            let (duels, plan) = duels_from(h.u, c, b.label, 0, 1, Seq::empty(), h.plan);
            lemma_duel_lines(h.u, c, b.label, 0, 1, Seq::empty(), h.plan);
            lemma_duel_sweeps(Work { plan, ..h }, duels, b, 6);
        },
        None => {},
    }
}

/// The constraints keep every loose mod.
pub proof fn rounds_keep(w: Work, f: Facts, b: Bench, fuel: nat)
    ensures
        kept(rounds(w, f, b, fuel), w),
    decreases fuel,
{
    if fuel > 0 {
        round_keeps(w, f, b);
        let v = round(w, f, b);
        if names(v.u) != names(w.u) {
            rounds_keep(v, f, b, (fuel - 1) as nat);
        }
    }
}

// ---- slots ----

/// No two mods of one name are pinned.
pub open spec fn pins_differ(mods: Mods, pins: Seq<Seq<char>>) -> bool {
    forall|i: int, j: int|
        #![trigger mods[i], mods[j]]
        0 <= i < j < mods.len() && pins.contains(mods[i].name) ==> mods[i].name != mods[j].name
}

/// No other mod has the name of the `i`th.
pub open spec fn named_once(mods: Mods, i: int) -> bool {
    forall|j: int| 0 <= j < mods.len() && j != i ==> (#[trigger] mods[j]).name != mods[i].name
}

/// The pinned mods from slot `i` on.
pub open spec fn held(owner: Seq<Option<EntryView>>, i: int) -> Multiset<EntryView>
    decreases owner.len() - i,
{
    if i < 0 || i >= owner.len() {
        Multiset::empty()
    } else {
        match owner[i] {
            Some(m) => held(owner, i + 1).insert(m),
            None => held(owner, i + 1),
        }
    }
}

/// How many slots from `i` on no pinned mod holds.
pub open spec fn gaps(owner: Seq<Option<EntryView>>, i: int) -> nat
    decreases owner.len() - i,
{
    if i < 0 || i >= owner.len() {
        0
    } else {
        gaps(owner, i + 1) + (if owner[i] is None {
            1nat
        } else {
            0
        })
    }
}

pub proof fn lemma_gaps(owner: Seq<Option<EntryView>>, i: int)
    requires
        0 <= i <= owner.len(),
    ensures
        held(owner, i).len() + gaps(owner, i) == owner.len() - i,
    decreases owner.len() - i,
{
    broadcast use vstd::multiset::group_multiset_axioms;

    if i < owner.len() {
        lemma_gaps(owner, i + 1);
    }
}

proof fn lemma_held_update(owner: Seq<Option<EntryView>>, p: int, m: EntryView, i: int)
    requires
        0 <= p < owner.len(),
        0 <= i,
        owner[p] is None,
    ensures
        held(owner.update(p, Some(m)), i) == (if i <= p {
            held(owner, i).insert(m)
        } else {
            held(owner, i)
        }),
    decreases owner.len() - i,
{
    broadcast use vstd::multiset::group_multiset_axioms;

    let t = owner.update(p, Some(m));
    if i < owner.len() {
        lemma_held_update(owner, p, m, i + 1);
        if i != p {
            assert(t[i] == owner[i]);
            if i < p {
                match owner[i] {
                    Some(x) => {
                        assert(held(owner, i + 1).insert(m).insert(x) =~= held(
                            owner,
                            i + 1,
                        ).insert(x).insert(m));
                    },
                    None => {},
                }
            }
        }
    }
}

proof fn lemma_held_none(owner: Seq<Option<EntryView>>, i: int)
    requires
        0 <= i,
        forall|j: int| 0 <= j < owner.len() ==> owner[j] is None,
    ensures
        held(owner, i) == Multiset::<EntryView>::empty(),
    decreases owner.len() - i,
{
    if i < owner.len() {
        lemma_held_none(owner, i + 1);
    }
}

proof fn lemma_places(all: Seq<Seq<char>>, n: int, k: Seq<char>)
    requires
        0 <= n <= all.len(),
        all.len() <= usize::MAX,
    ensures
        match found(places_first(all, n), k) {
            Some(p) => p < n && all[p as int] == k && forall|j: int|
                p < j < n ==> #[trigger] all[j] != k,
            None => forall|j: int| 0 <= j < n ==> #[trigger] all[j] != k,
        },
    decreases n,
{
    if n > 0 {
        lemma_places(all, n - 1, k);
        insert_then_get(places_first(all, n - 1), all[n - 1], (n - 1) as usize, k);
    } else {
        lemma_key_from(places_first(all, 0), k, 0);
    }
}

/// The slot of a name that is there is the place of the last mod of that name in the load
/// order.
pub proof fn lemma_pin_slot(work: Mods, m: EntryView, i: int)
    requires
        0 <= i < work.len(),
        work.len() <= usize::MAX,
        work[i].name == m.name,
    ensures
        0 <= pin_slot(name_places(work), work.len() as int, m) < work.len(),
        work[pin_slot(name_places(work), work.len() as int, m)].name == m.name,
{
    let all = names(work);
    lemma_places(all, work.len() as int, m.name);
    assert(all[i] == work[i].name);
    let p = found(name_places(work), m.name)->0;
    assert(all[p as int] == work[p as int].name);
}

/// The mods of `grouped` are those of `work`, each as often.
proof fn lemma_index_in(work: Mods, grouped: Mods, i: int) -> (j: int)
    requires
        grouped.to_multiset() == work.to_multiset(),
        0 <= i < grouped.len(),
    ensures
        0 <= j < work.len(),
        work[j] == grouped[i],
{
    broadcast use vstd::seq_lib::group_to_multiset_ensures;

    assert(grouped.contains(grouped[i]));
    assert(work.to_multiset().count(grouped[i]) > 0);
    assert(work.contains(grouped[i]));
    choose|j: int| 0 <= j < work.len() && work[j] == grouped[i]
}

/// Pinned mods of a rearranged list differ in name as they do in the list.
pub proof fn lemma_pins_differ(work: Mods, grouped: Mods, pins: Seq<Seq<char>>)
    requires
        grouped.to_multiset() == work.to_multiset(),
        pins_differ(work, pins),
    ensures
        pins_differ(grouped, pins),
{
    broadcast use {vstd::multiset::group_multiset_axioms, vstd::seq_lib::group_to_multiset_ensures};

    assert forall|i: int, j: int|
        #![trigger grouped[i], grouped[j]]
        0 <= i < j < grouped.len() && pins.contains(grouped[i].name) implies grouped[i].name
        != grouped[j].name by {
        if grouped[i].name == grouped[j].name {
            let a = lemma_index_in(work, grouped, i);
            let b = lemma_index_in(work, grouped, j);
            if a < b {
                assert(work[a].name != work[b].name);
            } else if b < a {
                assert(work[b].name != work[a].name);
            } else {
                // Both are the same entry, which then occurs twice.
                let x = grouped[i];
                let rest = grouped.remove(i);
                vstd::seq_lib::to_multiset_remove(grouped, i);
                assert(rest[j - 1] == x);
                assert(rest.contains(x));
                assert(rest.to_multiset().count(x) > 0);
                assert(grouped.contains(x));
                assert(grouped.to_multiset().count(x) >= 2);
                let other = work.remove(a);
                vstd::seq_lib::to_multiset_remove(work, a);
                assert(other.to_multiset().count(x) > 0);
                assert(other.contains(x));
                let c = choose|c: int| 0 <= c < other.len() && other[c] == x;
                let d = if c < a {
                    c
                } else {
                    c + 1
                };
                assert(work[d] == x);
                if d < a {
                    assert(work[d].name != work[a].name);
                } else {
                    assert(work[a].name != work[d].name);
                }
            }
        }
    }
}

/// What holds of the slots once the first `n` mods of `grouped` have theirs.
pub open spec fn slotted(work: Mods, grouped: Mods, pins: Seq<Seq<char>>, n: int) -> bool {
    let load = name_places(work);
    let s = slots_first(grouped, load, pins, n);
    &&& s.owner.len() == grouped.len()
    &&& held(s.owner, 0).add(s.loose.to_multiset()) == grouped.take(n).to_multiset()
    &&& forall|q: int|
        0 <= q < s.owner.len() && (#[trigger] s.owner[q]) is Some ==> pins.contains(
            s.owner[q]->0.name,
        ) && pin_slot(load, grouped.len() as int, s.owner[q]->0) == q && grouped.take(n).contains(
            s.owner[q]->0,
        )
    &&& forall|i: int|
        0 <= i < n && pins.contains((#[trigger] grouped[i]).name) ==> (s.owner[pin_slot(
            load,
            grouped.len() as int,
            grouped[i],
        )] matches Some(x) && x.name == grouped[i].name)
    &&& pins_differ(grouped, pins) ==> forall|q: int|
        0 <= q < s.loose.len() ==> !pins.contains((#[trigger] s.loose[q]).name)
}

pub proof fn lemma_slots(work: Mods, grouped: Mods, pins: Seq<Seq<char>>, n: int)
    requires
        0 <= n <= grouped.len(),
        same_mods(grouped, work),
        work.len() <= usize::MAX,
    ensures
        slotted(work, grouped, pins, n),
    decreases n,
{
    broadcast use {vstd::multiset::group_multiset_axioms, vstd::seq_lib::group_to_multiset_ensures};

    let load = name_places(work);
    let s = slots_first(grouped, load, pins, n);
    if n <= 0 {
        lemma_held_none(s.owner, 0);
        assert(grouped.take(0) =~= Seq::<EntryView>::empty());
        assert(held(s.owner, 0).add(s.loose.to_multiset()) =~= grouped.take(0).to_multiset());
    } else {
        lemma_slots(work, grouped, pins, n - 1);
        let before = slots_first(grouped, load, pins, n - 1);
        let m = grouped[n - 1];
        let len = grouped.len() as int;
        let prior = grouped.take(n - 1);
        assert(grouped.take(n) =~= grouped.take(n - 1).push(m));
        assert(grouped.take(n - 1).push(m)[n - 1] == m);
        assert forall|x: EntryView| grouped.take(n - 1).contains(x) implies grouped.take(
            n,
        ).contains(x) by {
            let i = choose|i: int| 0 <= i < prior.len() && prior[i] == x;
            assert(grouped.take(n)[i] == x);
        }
        let at = lemma_index_in(work, grouped, n - 1);
        lemma_pin_slot(work, m, at);
        let p = pin_slot(load, len, m);
        if pins.contains(m.name) && before.owner[p] is None {
            lemma_held_update(before.owner, p, m, 0);
            assert(held(s.owner, 0).add(s.loose.to_multiset()) =~= held(before.owner, 0).add(
                before.loose.to_multiset(),
            ).insert(m));
        } else {
            assert(held(s.owner, 0).add(s.loose.to_multiset()) =~= held(before.owner, 0).add(
                before.loose.to_multiset(),
            ).insert(m));
            if pins.contains(m.name) {
                // The slot is taken, by a mod of the same name.
                let x = before.owner[p]->0;
                let i = choose|i: int| 0 <= i < prior.len() && prior[i] == x;
                assert(grouped[i] == x);
                let b = lemma_index_in(work, grouped, i);
                lemma_pin_slot(work, x, b);
                assert(x.name == m.name);
                assert(!pins_differ(grouped, pins)) by {
                    assert(grouped[i].name == grouped[n - 1].name);
                }
            }
        }
        assert forall|i: int|
            0 <= i < n && pins.contains((#[trigger] grouped[i]).name) implies (s.owner[pin_slot(
            load,
            len,
            grouped[i],
        )] matches Some(x) && x.name == grouped[i].name) by {
            if i < n - 1 {
                assert(before.owner[pin_slot(load, len, grouped[i])] is Some);
            }
        }
    }
}

// ---- putting a section together ----

proof fn lemma_filled(owner: Seq<Option<EntryView>>, u: Mods, slot: int, k: int, done: Mods)
    requires
        0 <= slot,
        0 <= k <= u.len(),
    ensures
        filled(owner, u, slot, k, done).to_multiset() == done.to_multiset().add(
            held(owner, slot),
        ).add(u.skip(k).to_multiset()),
    decreases owner.len() - slot,
{
    broadcast use {vstd::multiset::group_multiset_axioms, vstd::seq_lib::group_to_multiset_ensures};

    if slot >= owner.len() {
        vstd::seq_lib::lemma_multiset_commutative(done, u.skip(k));
        assert(done.to_multiset().add(held(owner, slot)) =~= done.to_multiset());
    } else {
        match owner[slot] {
            Some(m) => {
                lemma_filled(owner, u, slot + 1, k, done.push(m));
                assert(done.push(m).to_multiset().add(held(owner, slot + 1)) =~= done.to_multiset().add(
                    held(owner, slot),
                ));
            },
            None => {
                if k < u.len() {
                    lemma_filled(owner, u, slot + 1, k + 1, done.push(u[k]));
                    let tail = u.skip(k);
                    vstd::seq_lib::to_multiset_remove(tail, 0);
                    assert(tail.remove(0) =~= u.skip(k + 1));
                    assert(tail[0] == u[k]);
                    assert(tail.contains(u[k]));
                    assert(done.push(u[k]).to_multiset().add(held(owner, slot + 1)).add(
                        u.skip(k + 1).to_multiset(),
                    ) =~= done.to_multiset().add(held(owner, slot)).add(tail.to_multiset()));
                } else {
                    lemma_filled(owner, u, slot + 1, k, done);
                }
            },
        }
    }
}

/// With a loose mod for every gap, a pinned mod comes out at its slot.
proof fn lemma_filled_at(
    owner: Seq<Option<EntryView>>,
    u: Mods,
    slot: int,
    k: int,
    done: Mods,
    at: int,
)
    requires
        0 <= slot <= owner.len(),
        0 <= k <= u.len(),
        done.len() == slot,
        gaps(owner, slot) <= u.len() - k,
        0 <= at < owner.len(),
        at < slot || owner[at] is Some,
    ensures
        filled(owner, u, slot, k, done).len() >= owner.len(),
        filled(owner, u, slot, k, done)[at] == (if at < slot {
            done[at]
        } else {
            owner[at]->0
        }),
    decreases owner.len() - slot,
{
    if slot < owner.len() {
        match owner[slot] {
            Some(m) => {
                lemma_filled_at(owner, u, slot + 1, k, done.push(m), at);
            },
            None => {
                lemma_filled_at(owner, u, slot + 1, k + 1, done.push(u[k]), at);
            },
        }
    }
}

/// The mods of a section in load order, grouped by family unless only the rules act.
pub open spec fn grouped_mods(mods: Mods, f: Facts, known: Known, kw: KeywordsView, solo: bool) -> Mods {
    let work = mods.reverse();
    if solo {
        work
    } else {
        by_family(work, parents_of(work, f.content, known, kw))
    }
}

proof fn lemma_report(
    plan: PlanView,
    label: Seq<char>,
    snapshot: Mods,
    file: Mods,
    parents: Seq<Option<usize>>,
    n: int,
)
    ensures
        same_list(report_first(plan, label, snapshot, file, parents, n).plan, plan),
    decreases n,
{
    if n > 0 {
        lemma_report(plan, label, snapshot, file, parents, n - 1);
    }
}

pub proof fn lemma_arranged(
    label: Seq<char>,
    mods: Mods,
    f: Facts,
    known: Known,
    kw: KeywordsView,
    pins: Seq<Seq<char>>,
    solo: bool,
    plan: PlanView,
)
    requires
        mods.len() <= usize::MAX,
    ensures
        arranged(label, mods, f, known, kw, pins, solo, plan).0.to_multiset()
            == mods.to_multiset(),
        arranged(label, mods, f, known, kw, pins, solo, plan).0.len() == mods.len(),
        same_list(arranged(label, mods, f, known, kw, pins, solo, plan).1, plan),
        forall|i: int|
            0 <= i < mods.len() && pins.contains((#[trigger] mods[i]).name) && named_once(
                mods,
                i,
            ) ==> arranged(
                label,
                mods,
                f,
                known,
                kw,
                pins,
                solo,
                plan,
            ).0[i] == mods[i],
{
    broadcast use {vstd::multiset::group_multiset_axioms, vstd::seq_lib::group_to_multiset_ensures};

    if mods.len() > 0 {
        let work = mods.reverse();
        mods.lemma_reverse_to_multiset();
        let parents = parents_of(work, f.content, known, kw);
        families_keep(work, parents);
        let grouped = grouped_mods(mods, f, known, kw, solo);
        lemma_slots(work, grouped, pins, grouped.len() as int);
        let s = slots_first(grouped, name_places(work), pins, grouped.len() as int);
        assert(grouped.take(grouped.len() as int) =~= grouped);
        let w = rounds(Work { u: s.loose, plan }, f, bench(label, s.owner), 6);
        rounds_keep(Work { u: s.loose, plan }, f, bench(label, s.owner), 6);
        let out = filled(s.owner, w.u, 0, 0, Seq::empty());
        lemma_filled(s.owner, w.u, 0, 0, Seq::empty());
        assert(w.u.skip(0) =~= w.u);
        assert(Seq::<EntryView>::empty().to_multiset().add(held(s.owner, 0)) =~= held(s.owner, 0));
        assert(out.to_multiset() == mods.to_multiset());
        out.lemma_reverse_to_multiset();
        lemma_report(w.plan, label, mods, out.reverse(), parents, out.reverse().len() as int);
        vstd::seq_lib::to_multiset_len(out);
        vstd::seq_lib::to_multiset_len(mods);
        vstd::seq_lib::to_multiset_len(grouped);
        vstd::seq_lib::to_multiset_len(s.loose);
        lemma_gaps(s.owner, 0);
        assert(held(s.owner, 0).len() + s.loose.len() == grouped.len());
        assert forall|i: int|
            0 <= i < mods.len() && pins.contains((#[trigger] mods[i]).name) && named_once(
                mods,
                i,
            ) implies out.reverse()[i] == mods[i] by {
            let at = mods.len() - 1 - i;
            assert(work[at] == mods[i]);
            lemma_pin_slot(work, mods[i], at);
            let p = pin_slot(name_places(work), work.len() as int, mods[i]);
            assert(work[p] == mods[mods.len() - 1 - p]);
            assert(p == at);
            assert(grouped.contains(mods[i])) by {
                assert(work.contains(work[at]));
                assert(grouped.to_multiset().count(work[at]) > 0);
            }
            let g = choose|g: int| 0 <= g < grouped.len() && grouped[g] == mods[i];
            assert(pins.contains(grouped[g].name));
            let x = s.owner[at]->0;
            assert(s.owner[at] is Some && x.name == mods[i].name);
            let h = choose|h: int| 0 <= h < grouped.len() && grouped[h] == x;
            let w2 = lemma_index_in(work, grouped, h);
            assert(work[w2] == mods[mods.len() - 1 - w2]);
            assert(x == mods[i]);
            lemma_filled_at(s.owner, w.u, 0, 0, Seq::empty(), at);
            assert(out.len() == mods.len());
        }
    }
}

/// Arranging a section keeps every mod of it, with its flag, and no other gets in.
pub proof fn arranging_keeps_mods(
    label: Seq<char>,
    mods: Mods,
    f: Facts,
    known: Known,
    kw: KeywordsView,
    pins: Seq<Seq<char>>,
    solo: bool,
    plan: PlanView,
)
    requires
        mods.len() <= usize::MAX,
    ensures
        arranged(label, mods, f, known, kw, pins, solo, plan).0.to_multiset()
            == mods.to_multiset(),
{
    lemma_arranged(label, mods, f, known, kw, pins, solo, plan);
}

/// A pinned mod keeps its place in its section, whatever the constraints say. In a sort
/// the pins are the names of the exact rules; a sunk or floated mod moves. Of two mods of
/// one name only one has the slot.
pub proof fn pinned_mods_keep_their_place(
    label: Seq<char>,
    mods: Mods,
    f: Facts,
    known: Known,
    kw: KeywordsView,
    pins: Seq<Seq<char>>,
    solo: bool,
    plan: PlanView,
    i: int,
)
    requires
        mods.len() <= usize::MAX,
        0 <= i < mods.len(),
        pins.contains(mods[i].name),
        named_once(mods, i),
    ensures
        arranged(label, mods, f, known, kw, pins, solo, plan).0[i] == mods[i],
{
    lemma_arranged(label, mods, f, known, kw, pins, solo, plan);
}

} // verus!
