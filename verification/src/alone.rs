//! A run in which only the user's rules act: it changes nothing that no rule speaks of.
use vstd::prelude::*;
#[allow(unused_imports)]
use crate::audit::with_sections;
#[allow(unused_imports)]
use crate::categories::Categories;
#[allow(unused_imports)]
use crate::conflicts::ConflictIndex;
#[allow(unused_imports)]
use crate::decide::{decision, decisions_first, placed, Decisions, Placed};
#[allow(unused_imports)]
use crate::keeping::{lemma_pin_slot, pins_differ, same_list};
#[allow(unused_imports)]
use crate::keywords::{Keywords, KeywordsView};
#[allow(unused_imports)]
use crate::loot::LootData;
#[allow(unused_imports)]
use crate::map::{found, insert_then_get, lemma_key_from};
#[allow(unused_imports)]
use crate::masters::Census;
#[allow(unused_imports)]
use crate::modlist::{names, EntryView, ModlistView, SectionView};
#[allow(unused_imports)]
use crate::place::{arranged, bench, by_rules, filled, float_first, lemma_mod_from, mod_from, name_places, parents_of, pin_slot, promote_first, report_first, round, rounds, sink_any_first, sink_first, slots_first, Bench, Facts, Known, Mods, Work};
#[allow(unused_imports)]
use crate::plan::PlanView;
#[allow(unused_imports)]
use crate::rules::{Rules, RulesView};
#[allow(unused_imports)]
use crate::sorter::{all_arranged, arranged_first, decided, dumps_first, first_plan, known_of, leaves_for, left_parked, moved, moved_first, opened, parked_moves, fixed_of, parked_target, pins_of, proven, run_plan, sources, survey_first, unparked, with_mods, with_trace, Sources};
#[allow(unused_imports)]
use crate::suggest::resolved_rules;

verus! {

/// The list, the changes and their number are the same; only the diagnostic may differ.
pub open spec fn undisturbed(a: PlanView, b: PlanView) -> bool {
    same_list(a, b) && a.changes == b.changes && a.out == b.out
}

// ---- rules that are met ----

/// The winner of a promote rule loads behind the loser, if both are there.
pub open spec fn met(u: Mods, rule: (Seq<char>, Seq<char>)) -> bool {
    match (mod_from(u, rule.0, 0), mod_from(u, rule.1, 0)) {
        (Some(win), Some(lose)) => win >= lose,
        _ => true,
    }
}

/// The mod of a sink rule loads first, if it is there.
pub open spec fn sunk(u: Mods, name: Seq<char>) -> bool {
    mod_from(u, name, 0) matches Some(i) ==> i == 0
}

/// The mod of a float rule loads last, if it is there.
pub open spec fn floated(u: Mods, name: Seq<char>) -> bool {
    mod_from(u, name, 0) matches Some(i) ==> i == u.len() - 1
}

/// The loose mods of a section stand as all rules on their order say.
pub open spec fn in_place(u: Mods, r: RulesView, label: Seq<char>) -> bool {
    &&& forall|k: int| 0 <= k < r.promote.len() ==> met(u, #[trigger] r.promote[k])
    &&& forall|k: int|
        0 <= k < r.sink.len() ==> (#[trigger] r.sink[k]).1 == label ==> sunk(u, r.sink[k].0)
    &&& forall|k: int| 0 <= k < r.sink_any.len() ==> sunk(u, #[trigger] r.sink_any[k])
    &&& forall|k: int|
        0 <= k < r.float.len() ==> (#[trigger] r.float[k]).1 == label ==> floated(u, r.float[k].0)
}

/// Nothing is known but the rules.
pub open spec fn rules_only(f: Facts) -> bool {
    &&& f.content.len() == 0
    &&& f.loot.len() == 0
    &&& f.census is None
    &&& f.conflicts is None
}

proof fn lemma_promotes_rest(w: Work, rules: Seq<(Seq<char>, Seq<char>)>, label: Seq<char>, n: int)
    requires
        n <= rules.len(),
        forall|r: int| 0 <= r < rules.len() ==> met(w.u, #[trigger] rules[r]),
    ensures
        promote_first(w, rules, label, n).u == w.u,
        undisturbed(promote_first(w, rules, label, n).plan, w.plan),
    decreases n,
{
    if n > 0 {
        lemma_promotes_rest(w, rules, label, n - 1);
        assert(met(w.u, rules[n - 1]));
    }
}

proof fn lemma_sinks_rest(w: Work, rules: Seq<(Seq<char>, Seq<char>)>, label: Seq<char>, n: int)
    requires
        n <= rules.len(),
        forall|k: int|
            0 <= k < rules.len() ==> (#[trigger] rules[k]).1 == label ==> sunk(w.u, rules[k].0),
    ensures
        sink_first(w, rules, label, n).u == w.u,
        undisturbed(sink_first(w, rules, label, n).plan, w.plan),
    decreases n,
{
    if n > 0 {
        lemma_sinks_rest(w, rules, label, n - 1);
        assert(rules[n - 1].1 == label ==> sunk(w.u, rules[n - 1].0));
    }
}

proof fn lemma_sinks_any_rest(w: Work, all: Seq<Seq<char>>, label: Seq<char>, n: int)
    requires
        n <= all.len(),
        forall|k: int| 0 <= k < all.len() ==> sunk(w.u, #[trigger] all[k]),
    ensures
        sink_any_first(w, all, label, n).u == w.u,
        undisturbed(sink_any_first(w, all, label, n).plan, w.plan),
    decreases n,
{
    if n > 0 {
        lemma_sinks_any_rest(w, all, label, n - 1);
        assert(sunk(w.u, all[n - 1]));
    }
}

proof fn lemma_floats_rest(w: Work, rules: Seq<(Seq<char>, Seq<char>)>, label: Seq<char>, n: int)
    requires
        n <= rules.len(),
        forall|k: int|
            0 <= k < rules.len() ==> (#[trigger] rules[k]).1 == label ==> floated(w.u, rules[k].0),
    ensures
        float_first(w, rules, label, n).u == w.u,
        undisturbed(float_first(w, rules, label, n).plan, w.plan),
    decreases n,
{
    if n > 0 {
        lemma_floats_rest(w, rules, label, n - 1);
        assert(rules[n - 1].1 == label ==> floated(w.u, rules[n - 1].0));
    }
}

proof fn lemma_rounds_rest(w: Work, f: Facts, b: Bench)
    requires
        rules_only(f),
        in_place(w.u, f.rules, b.label),
    ensures
        rounds(w, f, b, 6).u == w.u,
        undisturbed(rounds(w, f, b, 6).plan, w.plan),
{
    let r = f.rules;
    lemma_promotes_rest(w, r.promote, b.label, r.promote.len() as int);
    let a = promote_first(w, r.promote, b.label, r.promote.len() as int);
    lemma_sinks_rest(a, r.sink, b.label, r.sink.len() as int);
    let c = sink_first(a, r.sink, b.label, r.sink.len() as int);
    lemma_sinks_any_rest(c, r.sink_any, b.label, r.sink_any.len() as int);
    let d = sink_any_first(c, r.sink_any, b.label, r.sink_any.len() as int);
    lemma_floats_rest(d, r.float, b.label, r.float.len() as int);
    let e = by_rules(w, f, b);
    assert(e.u == w.u);
    assert(round(w, f, b) == e);
    assert(names(e.u) == names(w.u));
}

// ---- slots ----

/// The loose mods among the first `n`.
pub open spec fn loose_first(work: Mods, pins: Seq<Seq<char>>, n: int) -> Mods
    decreases n,
{
    if n <= 0 {
        Seq::empty()
    } else if pins.contains(work[n - 1].name) {
        loose_first(work, pins, n - 1)
    } else {
        loose_first(work, pins, n - 1).push(work[n - 1])
    }
}

proof fn lemma_loose(work: Mods, pins: Seq<Seq<char>>, n: int)
    requires
        0 <= n <= work.len(),
    ensures
        forall|i: int|
            0 <= i < n && !pins.contains((#[trigger] work[i]).name) ==> {
                let k = loose_first(work, pins, i).len() as int;
                &&& k < loose_first(work, pins, n).len()
                &&& loose_first(work, pins, n)[k] == work[i]
            },
    decreases n,
{
    if n > 0 {
        lemma_loose(work, pins, n - 1);
    }
}

/// In a list that is not regrouped the pinned mods own the slots at which they stand.
proof fn lemma_slots_stand(work: Mods, pins: Seq<Seq<char>>, n: int)
    requires
        0 <= n <= work.len() <= usize::MAX,
        pins_differ(work, pins),
    ensures
        ({
            let s = slots_first(work, name_places(work), pins, n);
            &&& s.loose == loose_first(work, pins, n)
            &&& s.owner.len() == work.len()
            &&& forall|i: int|
                0 <= i < work.len() ==> #[trigger] s.owner[i] == (if i < n && pins.contains(
                    work[i].name,
                ) {
                    Some(work[i])
                } else {
                    None
                })
        }),
    decreases n,
{
    if n > 0 {
        lemma_slots_stand(work, pins, n - 1);
        if pins.contains(work[n - 1].name) {
            lemma_pin_slot(work, work[n - 1], n - 1);
            let p = pin_slot(name_places(work), work.len() as int, work[n - 1]);
            if p < n - 1 {
                assert(work[p].name != work[n - 1].name);
            } else if p > n - 1 {
                assert(work[n - 1].name != work[p].name);
            }
        }
    }
}

proof fn lemma_filled_rest(
    work: Mods,
    pins: Seq<Seq<char>>,
    owner: Seq<Option<EntryView>>,
    slot: int,
)
    requires
        0 <= slot <= work.len(),
        owner.len() == work.len(),
        forall|i: int|
            0 <= i < work.len() ==> #[trigger] owner[i] == (if pins.contains(work[i].name) {
                Some(work[i])
            } else {
                None
            }),
    ensures
        filled(
            owner,
            loose_first(work, pins, work.len() as int),
            slot,
            loose_first(work, pins, slot).len() as int,
            work.take(slot),
        ) == work,
    decreases work.len() - slot,
{
    let u = loose_first(work, pins, work.len() as int);
    let k = loose_first(work, pins, slot).len() as int;
    lemma_loose(work, pins, work.len() as int);
    if slot < work.len() {
        lemma_filled_rest(work, pins, owner, slot + 1);
        assert(work.take(slot).push(work[slot]) =~= work.take(slot + 1));
        if !pins.contains(work[slot].name) {
            assert(u[k] == work[slot]);
        }
    } else {
        assert(u.skip(k) =~= Seq::<EntryView>::empty());
        assert(work.take(slot) + u.skip(k) =~= work);
    }
}

// ---- sections ----

/// The loose mods of a section, in load order.
pub open spec fn loose_mods(mods: Mods, pins: Seq<Seq<char>>) -> Mods {
    loose_first(mods.reverse(), pins, mods.len() as int)
}

/// The mods of a section differ in name.
pub open spec fn named_apart(mods: Mods) -> bool {
    forall|i: int, j: int|
        0 <= i < j < mods.len() ==> (#[trigger] mods[i]).name != (#[trigger] mods[j]).name
}

proof fn lemma_nothing_reported(
    plan: PlanView,
    label: Seq<char>,
    mods: Mods,
    parents: Seq<Option<usize>>,
    n: int,
)
    requires
        0 <= n <= mods.len(),
        named_apart(mods),
    ensures
        report_first(plan, label, mods, mods, parents, n).plan == plan,
    decreases n,
{
    if n > 0 {
        lemma_nothing_reported(plan, label, mods, parents, n - 1);
        lemma_mod_from(mods, mods[n - 1].name, 0);
        let k = mod_from(mods, mods[n - 1].name, 0);
        if k is Some && k->0 != n - 1 {
            assert(mods[k->0].name != mods[n - 1].name);
        }
    }
}

proof fn lemma_report_keeps(
    plan: PlanView,
    label: Seq<char>,
    snapshot: Mods,
    file: Mods,
    parents: Seq<Option<usize>>,
    n: int,
)
    ensures
        same_list(report_first(plan, label, snapshot, file, parents, n).plan, plan),
    decreases n,
{
    if n > 0 {
        lemma_report_keeps(plan, label, snapshot, file, parents, n - 1);
    }
}

/// Where only the rules act, a section in which they all are met keeps its order, and
/// nothing is reported of it.
pub proof fn met_rules_leave_the_section(
    label: Seq<char>,
    mods: Mods,
    f: Facts,
    known: Known,
    kw: KeywordsView,
    plan: PlanView,
)
    requires
        rules_only(f),
        mods.len() <= usize::MAX,
        pins_differ(mods, fixed_of(f.rules)),
        in_place(loose_mods(mods, fixed_of(f.rules)), f.rules, label),
    ensures
        arranged(label, mods, f, known, kw, fixed_of(f.rules), true, plan).0 == mods,
        same_list(arranged(label, mods, f, known, kw, fixed_of(f.rules), true, plan).1, plan),
        named_apart(mods) ==> undisturbed(
            arranged(label, mods, f, known, kw, fixed_of(f.rules), true, plan).1,
            plan,
        ),
{
    if mods.len() > 0 {
        let pins = fixed_of(f.rules);
        let work = mods.reverse();
        let n = work.len() as int;
        assert(pins_differ(work, pins)) by {
            assert forall|i: int, j: int|
                #![trigger work[i], work[j]]
                0 <= i < j < work.len() && pins.contains(work[i].name) implies work[i].name
                != work[j].name by {
                assert(work[i] == mods[n - 1 - i] && work[j] == mods[n - 1 - j]);
                if work[i].name == work[j].name {
                    assert(pins.contains(mods[n - 1 - j].name));
                }
            }
        }
        lemma_slots_stand(work, pins, n);
        let s = slots_first(work, name_places(work), pins, n);
        lemma_loose(work, pins, n);
        assert(s.loose == loose_mods(mods, pins));
        lemma_rounds_rest(Work { u: s.loose, plan }, f, bench(label, s.owner));
        let w = rounds(Work { u: s.loose, plan }, f, bench(label, s.owner), 6);
        lemma_filled_rest(work, pins, s.owner, 0);
        assert(work.take(0) =~= Seq::<EntryView>::empty());
        assert(work.reverse() =~= mods);
        let parents = parents_of(work, f.content, known, kw);
        lemma_report_keeps(w.plan, label, mods, mods, parents, n);
        if named_apart(mods) {
            lemma_nothing_reported(w.plan, label, mods, parents, n);
        }
    }
}

// ---- the whole run ----

/// The decision on a mod leaves it in its section.
pub open spec fn at_rest(
    label: Seq<char>,
    m: EntryView,
    rules: RulesView,
    sections: Seq<SectionView>,
    i: Sources,
) -> bool {
    let d = decision(label, m, rules, i.cats, sections, i.solo);
    d.want is None || d.want == Some(label)
}

/// The list meets the rules already: separators are not to be renamed, no rule sends a
/// listed mod elsewhere, none claims a parked one, and inside the sections the mods that
/// are promoted, sunk and floated stand where they are to stand.
pub open spec fn meets_its_rules(ml: ModlistView, i: Sources) -> bool {
    let rules = resolved_rules(i.rules, ml.sections);
    let mods = placed(ml.sections);
    &&& !i.rules.rename_separators
    &&& forall|k: int|
        0 <= k < mods.len() ==> at_rest((#[trigger] mods[k]).0, mods[k].1, rules, ml.sections, i)
    &&& forall|k: int|
        0 <= k < ml.parking.len() ==> parked_target(
            #[trigger] ml.parking[k],
            rules,
            i,
            ml.sections,
        ) is None
    &&& forall|s: int|
        0 <= s < ml.sections.len() ==> in_place(
            loose_mods((#[trigger] ml.sections[s]).mods, fixed_of(rules)),
            rules,
            ml.sections[s].label,
        )
}

/// Only the rules act, and nothing else is known.
pub open spec fn rules_act_alone(i: Sources) -> bool {
    i.solo && i.census is None && i.conflicts is None
}

/// No section is longer than a machine counts, or has two mods of one name with an exact
/// rule.
pub open spec fn pins_single_out(ml: ModlistView, i: Sources) -> bool {
    forall|s: int|
        0 <= s < ml.sections.len() ==> (#[trigger] ml.sections[s]).mods.len() <= usize::MAX
            && pins_differ(ml.sections[s].mods, fixed_of(resolved_rules(i.rules, ml.sections)))
}

proof fn lemma_all_rest(
    mods: Placed,
    rules: RulesView,
    sections: Seq<SectionView>,
    i: Sources,
    n: int,
    name: Seq<char>,
)
    requires
        n <= mods.len(),
        forall|k: int|
            0 <= k < mods.len() ==> at_rest((#[trigger] mods[k]).0, mods[k].1, rules, sections, i),
    ensures
        found(decisions_first(mods, rules, i.cats, sections, i.solo, n), name) matches Some(d)
            ==> leaves_for(d) is None,
    decreases n,
{
    if n > 0 {
        lemma_all_rest(mods, rules, sections, i, n - 1, name);
        let (label, m) = mods[n - 1];
        assert(at_rest(mods[n - 1].0, mods[n - 1].1, rules, sections, i));
        insert_then_get(
            decisions_first(mods, rules, i.cats, sections, i.solo, n - 1),
            m.name,
            decision(label, m, rules, i.cats, sections, i.solo),
            name,
        );
    } else {
        lemma_key_from(decisions_first(mods, rules, i.cats, sections, i.solo, n), name, 0);
    }
}

proof fn lemma_no_moves(mods: Placed, ds: Decisions, dump: Seq<Seq<char>>, n: int)
    requires
        n <= mods.len(),
        forall|name: Seq<char>| #[trigger] found(ds, name) matches Some(d) ==> leaves_for(d) is None,
    ensures
        survey_first(mods, ds, dump, n).moves.len() == 0,
        survey_first(mods, ds, dump, n).blocked == 0,
    decreases n,
{
    if n > 0 {
        lemma_no_moves(mods, ds, dump, n - 1);
    }
}

proof fn lemma_dumps_rest(p: PlanView, dump: Seq<Seq<char>>, ds: Decisions, n: int)
    ensures
        undisturbed(dumps_first(p, dump, ds, n), p),
    decreases n,
{
    if n > 0 {
        lemma_dumps_rest(p, dump, ds, n - 1);
    }
}

proof fn lemma_parked_rest(
    parking: Seq<Seq<char>>,
    rules: RulesView,
    i: Sources,
    sections: Seq<SectionView>,
    n: int,
)
    requires
        0 <= n <= parking.len(),
        forall|k: int|
            0 <= k < parking.len() ==> parked_target(#[trigger] parking[k], rules, i, sections) is None,
    ensures
        parked_moves(parking, rules, i, sections, n).len() == 0,
        left_parked(parking, Seq::empty(), n) == parking.take(n),
    decreases n,
{
    if n > 0 {
        lemma_parked_rest(parking, rules, i, sections, n - 1);
        assert(parked_target(parking[n - 1], rules, i, sections) is None);
        lemma_key_from(Seq::<(Seq<char>, Seq<char>)>::empty(), parking[n - 1], 0);
        assert(parking.take(n) =~= parking.take(n - 1).push(parking[n - 1]));
    } else {
        assert(parking.take(n) =~= Seq::<Seq<char>>::empty());
    }
}

proof fn lemma_sections_rest(
    p: PlanView,
    sections: Seq<SectionView>,
    f: Facts,
    known: Known,
    kw: KeywordsView,
    n: int,
)
    requires
        0 <= n <= sections.len(),
        rules_only(f),
        forall|s: int|
            0 <= s < sections.len() ==> (#[trigger] sections[s]).mods.len() <= usize::MAX
                && pins_differ(sections[s].mods, fixed_of(f.rules)),
        forall|s: int|
            0 <= s < sections.len() ==> in_place(
                loose_mods((#[trigger] sections[s]).mods, fixed_of(f.rules)),
                f.rules,
                sections[s].label,
            ),
    ensures
        ({
            let (done, q) = arranged_first(
                p,
                sections,
                f,
                known,
                kw,
                fixed_of(f.rules),
                true,
                n,
            );
            &&& done == sections.take(n)
            &&& same_list(q, p)
            &&& (forall|s: int| 0 <= s < n ==> named_apart((#[trigger] sections[s]).mods))
                ==> undisturbed(q, p)
        }),
    decreases n,
{
    if n > 0 {
        lemma_sections_rest(p, sections, f, known, kw, n - 1);
        let (done, q) = arranged_first(p, sections, f, known, kw, fixed_of(f.rules), true, n - 1);
        let s = sections[n - 1];
        met_rules_leave_the_section(s.label, s.mods, f, known, kw, q);
        assert(with_mods(s, s.mods) == s);
        assert(sections.take(n) =~= sections.take(n - 1).push(s));
    } else {
        assert(sections.take(n) =~= Seq::<SectionView>::empty());
    }
}

/// Where only the user's rules act and the list meets them already, a run leaves every
/// section and every parked line as they are. It counts no change, unless a section
/// holds two mods of one name.
pub proof fn met_rules_change_nothing(ml: ModlistView, i: Sources)
    requires
        rules_act_alone(i),
        meets_its_rules(ml, i),
        pins_single_out(ml, i),
    ensures
        run_plan(ml, i) is Some,
        run_plan(ml, i)->0.sections == ml.sections,
        run_plan(ml, i)->0.parking == ml.parking,
        (forall|s: int| 0 <= s < ml.sections.len() ==> named_apart((#[trigger] ml.sections[s]).mods))
            ==> run_plan(ml, i)->0.changes == 0 && run_plan(ml, i)->0.out.len() == 0,
{
    let known = known_of(ml.sections, i.kw);
    let first = first_plan(ml);
    let a = opened(first, i);
    assert(undisturbed(a, first));
    let rules = resolved_rules(i.rules, a.sections);
    let (b, ds) = decided(a, rules, known, i);
    assert(undisturbed(b, first));
    let c = proven(b, ds, pins_of(rules), rules.dump, i);
    assert(undisturbed(c.plan, first) && c.decisions == ds);
    let mods = placed(ml.sections);
    let n = mods.len() as int;
    assert forall|name: Seq<char>| #[trigger] found(ds, name) matches Some(d) implies leaves_for(
        found(ds, name)->0,
    ) is None by {
        lemma_all_rest(mods, rules, ml.sections, i, n, name);
    }
    lemma_no_moves(mods, ds, rules.dump, n);
    let s = survey_first(mods, ds, rules.dump, n);
    let start = with_trace(c.plan, s.lines);
    lemma_dumps_rest(start, rules.dump, ds, rules.dump.len() as int);
    let d = dumps_first(start, rules.dump, ds, rules.dump.len() as int);
    assert(moved_first(d, s.moves, 0) == Some(d));
    assert(moved(c.plan, ds, rules.dump) == Some(d));
    lemma_parked_rest(d.parking, rules, i, d.sections, d.parking.len() as int);
    let e = unparked(d, rules, i);
    let parked = parked_moves(d.parking, rules, i, d.sections, d.parking.len() as int);
    assert(parked =~= Seq::<(Seq<char>, Seq<char>)>::empty());
    assert(d.parking.take(d.parking.len() as int) =~= d.parking);
    assert(undisturbed(e, first));
    let f = Facts {
        rules,
        content: c.content,
        loot: c.loot,
        census: i.census,
        conflicts: i.conflicts,
    };
    lemma_sections_rest(
        with_sections(e, Seq::empty()),
        e.sections,
        f,
        known,
        i.kw,
        e.sections.len() as int,
    );
    assert(e.sections.take(e.sections.len() as int) =~= e.sections);
    let g = all_arranged(e, f, known, i.kw, fixed_of(rules), i.solo);
    assert(same_list(g, first));
    assert(run_plan(ml, i) == Some(g));
}

/// Whatever a run is handed, with `solo` the rules act alone.
pub proof fn solo_runs_draw_on_rules_alone(
    rules: &Rules,
    cats: Option<&Categories>,
    conflicts: Option<&ConflictIndex>,
    census: Option<&Census>,
    kw: &Keywords,
    loot: Option<&LootData>,
)
    ensures
        rules_act_alone(sources(rules, cats, conflicts, census, kw, loot, true)),
{
}

} // verus!
