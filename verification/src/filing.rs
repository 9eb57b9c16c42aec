//! Where a sort files the mods: each stands in the section that the last decision on it
//! names, and an exact rule is that decision.
use vstd::prelude::*;
#[allow(unused_imports)]
use crate::audit::with_sections;
#[allow(unused_imports)]
use crate::categories::CategoriesView;
#[allow(unused_imports)]
use crate::conservation::{audits_only_report, everything, lemma_arranged_first, lemma_dumps, lemma_labelled, lemma_labelled_same, lemma_opened, lemma_unparked, lemma_moved_first, parked_total, same_labels, total};
#[allow(unused_imports)]
use crate::decide::{decision, decisions_first, family_decisions, masters_first, DecisionView, Decisions, Placed};
#[allow(unused_imports)]
use crate::feasible::{distinct, distinct_names_have_a_plan, holds_mod, last_decisions, lemma_has_name, lemma_last_decisions, lemma_move, lemma_moves, lemma_placed, lemma_survey, lemma_unique_label, movable, mods_of_run, names_differ, rules_in_force};
#[allow(unused_imports)]
use crate::map::{found, insert_then_get, key_from, lemma_key_at, lemma_key_from};
#[allow(unused_imports)]
use crate::masters::{pull_first, Bonds};
#[allow(unused_imports)]
use crate::matching::labelled;
#[allow(unused_imports)]
use crate::modlist::{EntryView, ModlistView, SectionView};
#[allow(unused_imports)]
use crate::place::{lemma_mod_from, mod_from, Facts};
#[allow(unused_imports)]
use crate::plan::{anchored, traced, PlanView, WhyView};
#[allow(unused_imports)]
use crate::rules::RulesView;
#[allow(unused_imports)]
use crate::sorter::{all_arranged, base_of, decided, dumps_first, filed_first, first_plan, fixed_of, known_of, leaves_for, moved_first, moved_one, opened, parked_moves, pins_of, proven, run_plan, survey_first, unparked, with_mods, with_trace, Move, Sources};
#[allow(unused_imports)]
use crate::suggest::{is_dump, resolved_targets_are_destinations};
#[allow(unused_imports)]
use crate::text::begins;

verus! {

// ---- moves ----

/// A mod that was moved is in the section that it was moved to.
proof fn lemma_lands(p: PlanView, mv: Move)
    requires
        holds_mod(p.sections, mv.1, mv.0),
        labelled(p.sections, mv.2, 0) is Some,
    ensures
        moved_one(p, mv) is Some,
        holds_mod(moved_one(p, mv)->0.sections, mv.2, mv.0),
{
    let (name, from, to) = mv;
    lemma_labelled(p.sections, from, 0);
    let si = labelled(p.sections, from, 0)->0;
    let s = p.sections[si];
    lemma_mod_from(s.mods, name, 0);
    let mi = mod_from(s.mods, name, 0)->0;
    let taken = p.sections.update(si, with_mods(s, s.mods.remove(mi)));
    lemma_labelled_same(taken, p.sections, to, 0);
    lemma_labelled(taken, to, 0);
    let di = labelled(taken, to, 0)->0;
    let more = taken[di].mods.push(s.mods[mi]);
    let q = taken.update(di, with_mods(taken[di], more));
    assert(moved_one(p, mv)->0.sections == q);
    assert(same_labels(q, taken));
    lemma_labelled_same(q, taken, to, 0);
    lemma_has_name(more, more.len() - 1);
}

/// Once the first `n` moves are made, their mods are where they were moved to, and a mod
/// that none of them moves is where it was.
proof fn lemma_moves_land(p: PlanView, moves: Seq<Move>, n: int, label: Seq<char>, name: Seq<char>)
    requires
        0 <= n <= moves.len(),
        movable(p.sections, moves, 0),
        forall|i: int, j: int|
            #![trigger moves[i], moves[j]]
            0 <= i < j < moves.len() ==> moves[i].0 != moves[j].0,
    ensures
        moved_first(p, moves, n) is Some,
        forall|x: int|
            0 <= x < n ==> holds_mod(
                moved_first(p, moves, n)->0.sections,
                (#[trigger] moves[x]).2,
                moves[x].0,
            ),
        holds_mod(p.sections, label, name) && (forall|x: int|
            0 <= x < n ==> (#[trigger] moves[x]).0 != name) ==> holds_mod(
            moved_first(p, moves, n)->0.sections,
            label,
            name,
        ),
    decreases n,
{
    if n > 0 {
        lemma_moves_land(p, moves, n - 1, label, name);
        lemma_moves(p, moves, n - 1);
        let q = moved_first(p, moves, n - 1)->0;
        let mv = moves[n - 1];
        assert(holds_mod(q.sections, moves[n - 1].1, moves[n - 1].0));
        lemma_lands(q, mv);
        lemma_move(q, mv, label, name);
        assert forall|x: int| 0 <= x < n implies holds_mod(
            moved_first(p, moves, n)->0.sections,
            (#[trigger] moves[x]).2,
            moves[x].0,
        ) by {
            if x < n - 1 {
                assert(moves[x].0 != moves[n - 1].0);
                lemma_move(q, mv, moves[x].2, moves[x].0);
            }
        }
    }
}

/// A survey finds a move for every mod that is to leave for a section that is no waiting
/// room, and for no other.
proof fn lemma_surveyed(mods: Placed, decisions: Decisions, dump: Seq<Seq<char>>, n: int)
    requires
        0 <= n <= mods.len(),
    ensures
        ({
            let moves = survey_first(mods, decisions, dump, n).moves;
            &&& forall|k: int|
                0 <= k < n ==> (match found(decisions, (#[trigger] mods[k]).1.name) {
                    Some(d) => match leaves_for(d) {
                        Some(w) => is_dump(dump, w) || moves.contains((mods[k].1.name, d.from, w)),
                        None => true,
                    },
                    None => true,
                })
            &&& forall|x: int|
                0 <= x < moves.len() ==> (match found(decisions, (#[trigger] moves[x]).0) {
                    Some(d) => leaves_for(d) == Some(moves[x].2) && !is_dump(dump, moves[x].2),
                    None => false,
                })
        }),
    decreases n,
{
    if n > 0 {
        lemma_surveyed(mods, decisions, dump, n - 1);
        let before = survey_first(mods, decisions, dump, n - 1).moves;
        let moves = survey_first(mods, decisions, dump, n).moves;
        assert forall|x: int| 0 <= x < moves.len() implies (match found(
            decisions,
            (#[trigger] moves[x]).0,
        ) {
            Some(d) => leaves_for(d) == Some(moves[x].2) && !is_dump(dump, moves[x].2),
            None => false,
        }) by {
            if x < before.len() {
                assert(moves[x] == before[x]);
            }
        }
        assert forall|k: int| 0 <= k < n implies (match found(
            decisions,
            (#[trigger] mods[k]).1.name,
        ) {
            Some(d) => match leaves_for(d) {
                Some(w) => is_dump(dump, w) || moves.contains((mods[k].1.name, d.from, w)),
                None => true,
            },
            None => true,
        }) by {
            if let Some(d) = found(decisions, mods[k].1.name) {
                if let Some(w) = leaves_for(d) {
                    if !is_dump(dump, w) {
                        let mv = (mods[k].1.name, d.from, w);
                        if k < n - 1 {
                            assert(before.contains(mv));
                            let x = choose|x: int| 0 <= x < before.len() && before[x] == mv;
                            assert(moves[x] == mv);
                        } else {
                            assert(moves[moves.len() - 1] == mv);
                        }
                    }
                }
            }
        }
    }
}

// ---- parking and arranging ----

/// Filing parked lines leaves every mod where it is.
proof fn lemma_filing_keeps(
    p: PlanView,
    moves: Seq<(Seq<char>, Seq<char>)>,
    n: int,
    label: Seq<char>,
    name: Seq<char>,
)
    requires
        holds_mod(p.sections, label, name),
    ensures
        holds_mod(filed_first(p, moves, n).sections, label, name),
    decreases n,
{
    if n > 0 {
        lemma_filing_keeps(p, moves, n - 1, label, name);
        let b = filed_first(p, moves, n - 1);
        let q = filed_first(p, moves, n);
        lemma_labelled(b.sections, moves[n - 1].1, 0);
        assert(same_labels(q.sections, b.sections));
        lemma_labelled_same(q.sections, b.sections, label, 0);
        lemma_labelled(b.sections, label, 0);
        let li = labelled(b.sections, label, 0)->0;
        lemma_mod_from(b.sections[li].mods, name, 0);
        let k = mod_from(b.sections[li].mods, name, 0)->0;
        assert(q.sections[li].mods[k] == b.sections[li].mods[k]);
        lemma_has_name(q.sections[li].mods, k);
    }
}

/// A section that holds the same entries in another order holds the same names.
proof fn lemma_same_names(a: Seq<EntryView>, b: Seq<EntryView>, name: Seq<char>)
    requires
        a.to_multiset() == b.to_multiset(),
        mod_from(a, name, 0) is Some,
    ensures
        mod_from(b, name, 0) is Some,
{
    broadcast use {vstd::multiset::group_multiset_axioms, vstd::seq_lib::group_to_multiset_ensures};

    lemma_mod_from(a, name, 0);
    let x = a[mod_from(a, name, 0)->0];
    assert(a.contains(x));
    assert(a.to_multiset().count(x) > 0);
    assert(b.to_multiset().count(x) > 0);
    assert(b.contains(x));
    let j = choose|j: int| 0 <= j < b.len() && b[j] == x;
    lemma_has_name(b, j);
}

// ---- the whole sort ----

/// The section that a decision leaves a mod in: another one than its own only where that
/// is no waiting room.
pub open spec fn seat(d: DecisionView, dump: Seq<Seq<char>>) -> Seq<char> {
    match leaves_for(d) {
        Some(w) => if is_dump(dump, w) {
            d.from
        } else {
            w
        },
        None => d.from,
    }
}

/// What a sort of a list needs so that nothing is mistaken for another: labels and names
/// that differ.
pub open spec fn told_apart(ml: ModlistView, i: Sources) -> bool {
    &&& distinct(ml, i)
    &&& ml.sections.len() <= usize::MAX
    &&& everything(ml.sections, ml.parking).len() <= usize::MAX
}

/// After a sort every mod stands in the section that the last decision on it names.
pub proof fn mods_stand_where_decided(ml: ModlistView, i: Sources, k: int)
    requires
        told_apart(ml, i),
        0 <= k < mods_of_run(ml, i).len(),
    ensures
        run_plan(ml, i) is Some,
        found(last_decisions(ml, i), mods_of_run(ml, i)[k].1.name) is Some,
        holds_mod(
            run_plan(ml, i)->0.sections,
            seat(
                found(last_decisions(ml, i), mods_of_run(ml, i)[k].1.name)->0,
                rules_in_force(ml, i).dump,
            ),
            mods_of_run(ml, i)[k].1.name,
        ),
{
    broadcast use vstd::multiset::group_multiset_axioms;

    distinct_names_have_a_plan(ml, i);
    lemma_last_decisions(ml, i);
    lemma_opened(ml, i);
    let all = everything(ml.sections, ml.parking);
    let known = known_of(ml.sections, i.kw);
    let a = opened(first_plan(ml), i);
    let rules = rules_in_force(ml, i);
    let pins = pins_of(rules);
    let (b, decisions) = decided(a, rules, known, i);
    let c = proven(b, decisions, pins, rules.dump, i);
    let mods = mods_of_run(ml, i);
    let n = mods.len() as int;
    let name = mods[k].1.name;
    let d = found(c.decisions, name)->0;
    assert(found(c.decisions, mods[k].1.name) is Some && d.from == mods[k].0);

    // The moves.
    let s = survey_first(mods, c.decisions, rules.dump, n);
    lemma_survey(a.sections, mods, c.decisions, rules.dump, n);
    lemma_surveyed(mods, c.decisions, rules.dump, n);
    let start = with_trace(c.plan, s.lines);
    lemma_dumps(start, rules.dump, c.decisions, rules.dump.len() as int);
    let t = dumps_first(start, rules.dump, c.decisions, rules.dump.len() as int);
    let u = if s.blocked > 0 {
        traced(
            t,
            "dump sections blocked "@ + crate::text::decimal(s.blocked) + " inbound move(s)"@,
        )
    } else {
        t
    };
    lemma_placed(a.sections, a.sections.len() as int, k);
    let (si, sj) = choose|si: int, sj: int|
        0 <= si < a.sections.len() && 0 <= sj < a.sections[si].mods.len()
            && crate::decide::placed_first(a.sections, a.sections.len() as int)[k] == (
            a.sections[si].label,
            #[trigger] a.sections[si].mods[sj],
        );
    lemma_unique_label(a.sections, si);
    lemma_has_name(a.sections[si].mods, sj);
    assert(holds_mod(u.sections, d.from, name));
    lemma_moves_land(u, s.moves, s.moves.len() as int, d.from, name);
    let label = seat(d, rules.dump);
    let e = moved_first(u, s.moves, s.moves.len() as int)->0;
    if label != d.from {
        let mv = (name, d.from, label);
        assert(s.moves.contains(mv));
        let x = choose|x: int| 0 <= x < s.moves.len() && s.moves[x] == mv;
        assert(holds_mod(e.sections, s.moves[x].2, s.moves[x].0));
    } else {
        assert forall|x: int| 0 <= x < s.moves.len() implies (#[trigger] s.moves[x]).0 != name by {
            if s.moves[x].0 == name {
                assert(leaves_for(d) == Some(s.moves[x].2) && !is_dump(rules.dump, s.moves[x].2));
            }
        }
    }
    assert(holds_mod(e.sections, label, name));

    // Parked lines.
    let g = unparked(e, rules, i);
    let parked = parked_moves(e.parking, rules, i, e.sections, e.parking.len() as int);
    let lines = crate::sorter::parked_lines(
        e.parking,
        rules,
        i,
        e.sections,
        e.parking.len() as int,
    );
    let before = with_trace(
        if e.parking.len() > 0 {
            traced(
                e,
                "\n--- pass 1b: parking lot ("@ + crate::text::decimal(e.parking.len())
                    + " mod(s)) ---"@,
            )
        } else {
            e
        },
        lines,
    );
    lemma_filing_keeps(before, parked, parked.len() as int, label, name);
    assert(g.sections == filed_first(before, parked, parked.len() as int).sections);
    lemma_moved_first(u, s.moves, s.moves.len() as int);
    lemma_unparked(e, rules, i);
    assert(everything(g.sections, g.parking) == all);

    // The order inside the sections.
    let f = Facts {
        rules,
        content: c.content,
        loot: c.loot,
        census: i.census,
        conflicts: i.conflicts,
    };
    let m = g.sections.len() as int;
    assert(all =~= total(g.sections, m).add(parked_total(g.parking, g.parking.len() as int)));
    lemma_arranged_first(
        with_sections(g, Seq::empty()),
        g.sections,
        f,
        known,
        i.kw,
        fixed_of(rules),
        i.solo,
        m,
    );
    let h = all_arranged(g, f, known, i.kw, fixed_of(rules), i.solo);
    assert(same_labels(h.sections, g.sections));
    lemma_labelled_same(h.sections, g.sections, label, 0);
    lemma_labelled(g.sections, label, 0);
    let li = labelled(g.sections, label, 0)->0;
    assert(h.sections[li].label == g.sections[li].label);
    lemma_same_names(g.sections[li].mods, h.sections[li].mods, name);
    audits_only_report(h, known, pins, i);
}

// ---- exact rules ----

/// The decision on a mod whose name no other has is the one that the rules come to.
pub proof fn lemma_own_decision(
    mods: Placed,
    rules: RulesView,
    cats: Option<CategoriesView>,
    sections: Seq<SectionView>,
    solo: bool,
    n: int,
    k: int,
)
    requires
        0 <= k < n <= mods.len(),
        names_differ(mods),
    ensures
        found(decisions_first(mods, rules, cats, sections, solo, n), mods[k].1.name) == Some(
            decision(mods[k].0, mods[k].1, rules, cats, sections, solo),
        ),
    decreases n,
{
    let before = decisions_first(mods, rules, cats, sections, solo, n - 1);
    let (label, m) = mods[n - 1];
    insert_then_get(before, m.name, decision(label, m, rules, cats, sections, solo), mods[k].1.name);
    if k < n - 1 {
        assert(mods[k].1.name != mods[n - 1].1.name);
        lemma_own_decision(mods, rules, cats, sections, solo, n - 1, k);
    }
}

/// Decisions with the same names, entry for entry, are found at the same place.
proof fn lemma_found_alike(a: Decisions, b: Decisions, name: Seq<char>)
    requires
        a.len() == b.len(),
        forall|j: int| 0 <= j < a.len() ==> (#[trigger] a[j]).0 == b[j].0,
        found(b, name) is Some,
        forall|j: int|
            0 <= j < b.len() && (#[trigger] b[j]).1 == found(b, name)->0 ==> a[j] == b[j],
    ensures
        found(a, name) == found(b, name),
{
    lemma_key_from(b, name, 0);
    let j = key_from(b, name, 0)->0;
    assert(b[j].0 == name && b[j].1 == found(b, name)->0);
    assert(a[j] == b[j]);
    assert forall|h: int| 0 <= h < j implies #[trigger] a[h].0 != name by {
        assert(b[h].0 != name);
    }
    lemma_key_at(a, name, 0, j);
}

/// Plugin masters pull no mod that a rule anchors.
proof fn lemma_anchors_hold(
    decisions: Decisions,
    b: Bonds,
    sections: Seq<SectionView>,
    pins: Seq<Seq<char>>,
    dump: Seq<Seq<char>>,
    n: int,
)
    requires
        0 <= n <= decisions.len(),
    ensures
        ({
            let after = pull_first(decisions, b, sections, pins, dump, n).decisions;
            &&& after.len() == decisions.len()
            &&& forall|j: int| 0 <= j < decisions.len() ==> (#[trigger] after[j]).0 == decisions[j].0
            &&& forall|j: int|
                0 <= j < decisions.len() && anchored((#[trigger] decisions[j]).1.why) ==> after[j]
                    == decisions[j]
        }),
    decreases n,
{
    if n > 0 {
        lemma_anchors_hold(decisions, b, sections, pins, dump, n - 1);
        let p = pull_first(decisions, b, sections, pins, dump, n - 1);
        let after = pull_first(decisions, b, sections, pins, dump, n).decisions;
        assert forall|j: int| 0 <= j < decisions.len() implies (#[trigger] after[j]).0
            == decisions[j].0 by {
            assert(p.decisions[j].0 == decisions[j].0);
        }
        assert forall|j: int|
            0 <= j < decisions.len() && anchored((#[trigger] decisions[j]).1.why) implies after[j]
            == decisions[j] by {
            assert(p.decisions[j] == decisions[j]);
        }
    }
}

/// Rules win: a mod that an exact rule names stands after the sort in the section of that
/// rule, whatever categories, keywords, families or plugin masters say of it. The first
/// rule of a name counts, and generated output is left alone.
pub proof fn exact_rule_files_the_mod(ml: ModlistView, i: Sources, k: int, e: int)
    requires
        told_apart(ml, i),
        0 <= k < mods_of_run(ml, i).len(),
        !begins(mods_of_run(ml, i)[k].1.lower, "output"@),
        0 <= e < rules_in_force(ml, i).exact.len(),
        rules_in_force(ml, i).exact[e].0 == mods_of_run(ml, i)[k].1.name,
        forall|j: int|
            0 <= j < e ==> (#[trigger] rules_in_force(ml, i).exact[j]).0 != mods_of_run(
                ml,
                i,
            )[k].1.name,
    ensures
        run_plan(ml, i) is Some,
        holds_mod(
            run_plan(ml, i)->0.sections,
            rules_in_force(ml, i).exact[e].1,
            mods_of_run(ml, i)[k].1.name,
        ),
{
    let known = known_of(ml.sections, i.kw);
    let a = opened(first_plan(ml), i);
    let rules = rules_in_force(ml, i);
    let mods = mods_of_run(ml, i);
    let n = mods.len() as int;
    let (label, m) = mods[k];
    let sec = rules.exact[e].1;
    resolved_targets_are_destinations(i.rules, a.sections);
    assert(crate::suggest::is_destination(rules.exact[e].1, a.sections, i.rules.dump));
    lemma_key_at(rules.exact, m.name, 0, e);
    let ds = decisions_first(mods, rules, i.cats, a.sections, i.solo, n);
    lemma_own_decision(mods, rules, i.cats, a.sections, i.solo, n, k);
    let d = found(ds, m.name)->0;
    assert(d.want == Some(sec) && d.why == WhyView::ExactRule && d.from == label);
    let (b, decisions) = decided(a, rules, known, i);
    if !i.solo {
        let masters = masters_first(mods, known, i.kw, n);
        let fam = family_decisions(masters, ds);
        lemma_found_alike(fam, ds, m.name);
    }
    let c = proven(b, decisions, pins_of(rules), rules.dump, i);
    match i.census {
        Some(census) => {
            let bonds = crate::masters::bonds(census, base_of(i.census), decisions, a.sections);
            lemma_anchors_hold(
                decisions,
                bonds,
                a.sections,
                pins_of(rules),
                rules.dump,
                decisions.len() as int,
            );
            lemma_found_alike(c.decisions, decisions, m.name);
        },
        None => {},
    }
    mods_stand_where_decided(ml, i, k);
}

} // verus!
