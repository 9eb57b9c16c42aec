//! When a sort has a plan: every mod that is to move can be found where it is to leave,
//! and its destination is there.
use vstd::prelude::*;
#[allow(unused_imports)]
use crate::conservation::{lemma_dumps, lemma_labelled, lemma_labelled_same, same_labels};
#[allow(unused_imports)]
use crate::decide::{decision, decisions_first, destination, family_decisions, masters_first, placed, placed_first, DecisionView, Decisions, Placed};
#[allow(unused_imports)]
use crate::map::{found, insert_then_get, inserted, key_from, lemma_key_at, lemma_key_from};
#[allow(unused_imports)]
use crate::masters::{bonds, decided_place, label_places, latest_esm_first, places_below, pull_first, pulled, settled, settled_parents, Bonds, Places};
#[allow(unused_imports)]
use crate::matching::labelled;
#[allow(unused_imports)]
use crate::modlist::{EntryView, ModlistView, SectionView};
#[allow(unused_imports)]
use crate::place::{lemma_mod_from, mod_from};
#[allow(unused_imports)]
use crate::plan::{traced, PlanView};
#[allow(unused_imports)]
use crate::plugins::CensusView;
#[allow(unused_imports)]
use crate::rules::RulesView;
#[allow(unused_imports)]
use crate::sorter::{base_of, decided, dumps_first, first_plan, known_of, moved_first, moved_one, opened, pins_of, proven, run_plan, survey_first, with_mods, with_trace, Move, Sources};
#[allow(unused_imports)]
use crate::suggest::{is_dump, resolved_rules};
#[allow(unused_imports)]
use crate::categories::CategoriesView;

verus! {

/// No two sections have one label.
pub open spec fn labels_differ(sections: Seq<SectionView>) -> bool {
    forall|i: int, j: int|
        #![trigger sections[i], sections[j]]
        0 <= i < j < sections.len() ==> sections[i].label != sections[j].label
}

/// No two mods have one name.
pub open spec fn names_differ(mods: Placed) -> bool {
    forall|i: int, j: int|
        #![trigger mods[i], mods[j]]
        0 <= i < j < mods.len() ==> mods[i].1.name != mods[j].1.name
}

/// Every decision goes from a section of the list to a section of the list.
pub open spec fn seated(decisions: Decisions, sections: Seq<SectionView>) -> bool {
    forall|i: int|
        0 <= i < decisions.len() ==> labelled(sections, (#[trigger] decisions[i]).1.from, 0) is Some
            && (decisions[i].1.want is Some ==> labelled(
            sections,
            decisions[i].1.want->0,
            0,
        ) is Some)
}

/// The decision on each mod names the section that the mod is in.
pub open spec fn located(decisions: Decisions, mods: Placed, n: int) -> bool {
    forall|i: int|
        0 <= i < n ==> found(decisions, (#[trigger] mods[i]).1.name) is Some && found(
            decisions,
            mods[i].1.name,
        )->0.from == mods[i].0
}

proof fn lemma_found_seated(decisions: Decisions, sections: Seq<SectionView>, k: Seq<char>)
    requires
        seated(decisions, sections),
    ensures
        found(decisions, k) is Some ==> labelled(sections, found(decisions, k)->0.from, 0) is Some
            && (found(decisions, k)->0.want is Some ==> labelled(
            sections,
            found(decisions, k)->0.want->0,
            0,
        ) is Some),
{
    lemma_key_from(decisions, k, 0);
    if key_from(decisions, k, 0) is Some {
        let i = key_from(decisions, k, 0)->0;
        assert(labelled(sections, decisions[i].1.from, 0) is Some);
    }
}

// ---- decisions of the rules ----

pub proof fn lemma_placed(sections: Seq<SectionView>, n: int, k: int)
    requires
        0 <= n <= sections.len(),
        0 <= k < placed_first(sections, n).len(),
    ensures
        exists|i: int, j: int|
            0 <= i < n && 0 <= j < sections[i].mods.len() && placed_first(sections, n)[k] == (
                sections[i].label,
                #[trigger] sections[i].mods[j],
            ),
    decreases n,
{
    if n > 0 {
        let before = placed_first(sections, n - 1);
        if k < before.len() {
            lemma_placed(sections, n - 1, k);
            let (i, j) = choose|i: int, j: int|
                0 <= i < n - 1 && 0 <= j < sections[i].mods.len() && placed_first(sections, n - 1)[k]
                    == (sections[i].label, #[trigger] sections[i].mods[j]);
            assert(placed_first(sections, n)[k] == (sections[i].label, sections[i].mods[j]));
        } else {
            let j = k - before.len();
            assert(placed_first(sections, n)[k] == (
                sections[n - 1].label,
                sections[n - 1].mods[j],
            ));
        }
    }
}

pub proof fn lemma_first_labelled(sections: Seq<SectionView>, i: int)
    requires
        0 <= i < sections.len(),
    ensures
        labelled(sections, sections[i].label, 0) is Some,
{
    lemma_labelled(sections, sections[i].label, 0);
    if labelled(sections, sections[i].label, 0) is None {
        assert(sections[i].label != sections[i].label);
    }
}

proof fn lemma_decisions(
    mods: Placed,
    rules: RulesView,
    cats: Option<CategoriesView>,
    sections: Seq<SectionView>,
    solo: bool,
    n: int,
)
    requires
        0 <= n <= mods.len(),
        mods == placed(sections),
        names_differ(mods),
    ensures
        seated(decisions_first(mods, rules, cats, sections, solo, n), sections),
        located(decisions_first(mods, rules, cats, sections, solo, n), mods, n),
    decreases n,
{
    if n > 0 {
        lemma_decisions(mods, rules, cats, sections, solo, n - 1);
        let before = decisions_first(mods, rules, cats, sections, solo, n - 1);
        let ds = decisions_first(mods, rules, cats, sections, solo, n);
        let (label, m) = mods[n - 1];
        let d = decision(label, m, rules, cats, sections, solo);
        lemma_placed(sections, sections.len() as int, n - 1);
        let (i, j) = choose|i: int, j: int|
            0 <= i < sections.len() && 0 <= j < sections[i].mods.len() && placed_first(
                sections,
                sections.len() as int,
            )[n - 1] == (sections[i].label, #[trigger] sections[i].mods[j]);
        lemma_first_labelled(sections, i);
        lemma_key_from(before, m.name, 0);
        assert(seated(ds, sections)) by {
            assert forall|x: int| 0 <= x < ds.len() implies labelled(
                sections,
                (#[trigger] ds[x]).1.from,
                0,
            ) is Some && (ds[x].1.want is Some ==> labelled(sections, ds[x].1.want->0, 0) is Some) by {
                if x < before.len() && ds[x] == before[x] {
                    assert(labelled(sections, before[x].1.from, 0) is Some);
                } else {
                    assert(ds[x].1 == d);
                }
            }
        }
        assert forall|k: int| 0 <= k < n implies found(ds, (#[trigger] mods[k]).1.name) is Some
            && found(ds, mods[k].1.name)->0.from == mods[k].0 by {
            insert_then_get(before, m.name, d, mods[k].1.name);
            if k < n - 1 {
                assert(mods[k].1.name != mods[n - 1].1.name);
            }
        }
    }
}

// ---- families ----

proof fn lemma_destination(
    name: Seq<char>,
    masters: Seq<(Seq<char>, Seq<char>)>,
    decisions: Decisions,
    sections: Seq<SectionView>,
    fuel: nat,
)
    requires
        seated(decisions, sections),
        crate::decide::masters_decided(masters, decisions),
        found(decisions, name) is Some,
    ensures
        labelled(sections, destination(name, masters, decisions, fuel), 0) is Some,
    decreases fuel,
{
    lemma_found_seated(decisions, sections, name);
    let d = found(decisions, name)->0;
    if !(crate::plan::explicit(d.why) || found(masters, name) is None || fuel == 0) {
        lemma_destination(found(masters, name)->0, masters, decisions, sections, (fuel - 1) as nat);
    }
}

/// Entry for entry, the two have the same names and origins.
pub open spec fn same_origins(a: Decisions, b: Decisions) -> bool {
    a.len() == b.len() && forall|i: int|
        0 <= i < a.len() ==> (#[trigger] a[i]).0 == b[i].0 && a[i].1.from == b[i].1.from
}

proof fn lemma_same_found(a: Decisions, b: Decisions, k: Seq<char>)
    requires
        same_origins(a, b),
    ensures
        found(a, k) is Some <==> found(b, k) is Some,
        found(a, k) is Some ==> found(a, k)->0.from == found(b, k)->0.from,
{
    lemma_key_from(a, k, 0);
    lemma_key_from(b, k, 0);
    match key_from(b, k, 0) {
        Some(i) => {
            assert(a[i].0 == b[i].0);
            assert forall|h: int| 0 <= h < i implies #[trigger] a[h].0 != k by {
                assert(b[h].0 != k);
            }
            lemma_key_at(a, k, 0, i);
        },
        None => {
            if key_from(a, k, 0) is Some {
                let i = key_from(a, k, 0)->0;
                assert(a[i].0 == b[i].0);
                assert(b[i].0 != k);
            }
        },
    }
}

proof fn lemma_families(
    masters: Seq<(Seq<char>, Seq<char>)>,
    decisions: Decisions,
    sections: Seq<SectionView>,
)
    requires
        seated(decisions, sections),
        crate::decide::masters_decided(masters, decisions),
    ensures
        seated(family_decisions(masters, decisions), sections),
        same_origins(family_decisions(masters, decisions), decisions),
{
    let ds = family_decisions(masters, decisions);
    assert forall|i: int| 0 <= i < ds.len() implies labelled(
        sections,
        (#[trigger] ds[i]).1.from,
        0,
    ) is Some && (ds[i].1.want is Some ==> labelled(sections, ds[i].1.want->0, 0) is Some) by {
        assert(labelled(sections, decisions[i].1.from, 0) is Some);
        lemma_key_from(decisions, decisions[i].0, 0);
        if key_from(decisions, decisions[i].0, 0) is None {
            assert(decisions[i].0 != decisions[i].0);
        }
        lemma_destination(decisions[i].0, masters, decisions, sections, masters.len());
    }
}

// ---- masters ----

proof fn lemma_label_places(sections: Seq<SectionView>, n: int)
    requires
        0 <= n <= sections.len(),
        sections.len() <= usize::MAX,
    ensures
        places_below(label_places(sections, n), n as nat),
    decreases n,
{
    if n > 0 {
        lemma_label_places(sections, n - 1);
        let before = label_places(sections, n - 1);
        lemma_key_from(before, sections[n - 1].label, 0);
        let t = label_places(sections, n);
        assert forall|i: int| 0 <= i < t.len() implies (#[trigger] t[i]).1 < n by {
            if i < before.len() && t[i] == before[i] {
                assert(before[i].1 < n - 1);
            }
        }
    }
}

proof fn lemma_place_below(m: Places, k: Seq<char>, n: nat)
    requires
        places_below(m, n),
    ensures
        found(m, k) is Some ==> found(m, k)->0 < n,
{
    lemma_key_from(m, k, 0);
    if key_from(m, k, 0) is Some {
        assert(m[key_from(m, k, 0)->0].1 < n);
    }
}

proof fn lemma_decided_place(d: DecisionView, places: Places, n: nat)
    requires
        places_below(places, n),
        n > 0,
    ensures
        decided_place(d, places) < n,
{
    lemma_place_below(places, d.from, n);
    if d.want is Some {
        lemma_place_below(places, d.want->0, n);
    }
}

proof fn lemma_latest_esm(
    esm: Seq<Seq<char>>,
    decisions: Decisions,
    places: Places,
    k: int,
    n: nat,
)
    requires
        places_below(places, n),
        n > 0,
    ensures
        latest_esm_first(esm, decisions, places, k) < n,
    decreases k,
{
    if k > 0 {
        lemma_latest_esm(esm, decisions, places, k - 1, n);
        if found(decisions, esm[k - 1]) is Some {
            lemma_decided_place(found(decisions, esm[k - 1])->0, places, n);
        }
    }
}

/// The places of the bonds and of the memo are those of sections.
pub open spec fn bounded(b: Bonds, memo: Places, n: nat) -> bool {
    places_below(b.places, n) && places_below(memo, n) && b.latest_esm < n
}

proof fn lemma_settled(
    name: Seq<char>,
    b: Bonds,
    decisions: Decisions,
    memo: Places,
    depth: int,
    n: nat,
)
    requires
        bounded(b, memo, n),
    ensures
        settled(name, b, decisions, memo, depth).0 < n,
        places_below(settled(name, b, decisions, memo, depth).1, n),
    decreases 66 - depth, 1int, 0int,
{
    lemma_place_below(memo, name, n);
    if found(memo, name) is None && depth <= 64 {
        let own = decided_place(found(decisions, name)->0, b.places);
        lemma_decided_place(found(decisions, name)->0, b.places, n);
        let (dest, after) = match found(b.parents, name) {
            Some(ps) => {
                lemma_settled_parents(ps, 0, own, b, decisions, memo, depth, n);
                settled_parents(ps, 0, own, b, decisions, memo, depth)
            },
            None => (own, memo),
        };
        let last = if !b.esm.contains(name) && b.latest_esm > dest {
            b.latest_esm
        } else {
            dest
        };
        lemma_key_from(after, name, 0);
        let t = inserted(after, name, last);
        assert forall|i: int| 0 <= i < t.len() implies (#[trigger] t[i]).1 < n by {
            if i < after.len() && t[i] == after[i] {
                assert(after[i].1 < n);
            }
        }
    }
}

proof fn lemma_settled_parents(
    ps: Seq<Seq<char>>,
    i: int,
    dest: usize,
    b: Bonds,
    decisions: Decisions,
    memo: Places,
    depth: int,
    n: nat,
)
    requires
        bounded(b, memo, n),
        dest < n,
    ensures
        settled_parents(ps, i, dest, b, decisions, memo, depth).0 < n,
        places_below(settled_parents(ps, i, dest, b, decisions, memo, depth).1, n),
    decreases 66 - depth, 0int, ps.len() - i,
{
    if 0 <= i < ps.len() && depth <= 64 {
        if found(decisions, ps[i]) is Some {
            lemma_settled(ps[i], b, decisions, memo, depth + 1, n);
            let (at, after) = settled(ps[i], b, decisions, memo, depth + 1);
            lemma_settled_parents(
                ps,
                i + 1,
                if at > dest {
                    at
                } else {
                    dest
                },
                b,
                decisions,
                after,
                depth,
                n,
            );
        } else {
            lemma_settled_parents(ps, i + 1, dest, b, decisions, memo, depth, n);
        }
    }
}

proof fn lemma_pull(
    decisions: Decisions,
    b: Bonds,
    sections: Seq<SectionView>,
    pins: Seq<Seq<char>>,
    dump: Seq<Seq<char>>,
    n: int,
)
    requires
        0 <= n <= decisions.len(),
        seated(decisions, sections),
        bounded(b, Seq::empty(), sections.len()),
    ensures
        ({
            let p = pull_first(decisions, b, sections, pins, dump, n);
            &&& seated(p.decisions, sections)
            &&& same_origins(p.decisions, decisions)
            &&& places_below(p.memo, sections.len())
        }),
    decreases n,
{
    if n > 0 {
        lemma_pull(decisions, b, sections, pins, dump, n - 1);
        let p = pull_first(decisions, b, sections, pins, dump, n - 1);
        let (name, d) = p.decisions[n - 1];
        lemma_settled(name, b, p.decisions, p.memo, 0, sections.len());
        let (at, memo) = settled(name, b, p.decisions, p.memo, 0);
        lemma_first_labelled(sections, at as int);
        let q = pull_first(decisions, b, sections, pins, dump, n);
        assert forall|i: int| 0 <= i < q.decisions.len() implies labelled(
            sections,
            (#[trigger] q.decisions[i]).1.from,
            0,
        ) is Some && (q.decisions[i].1.want is Some ==> labelled(
            sections,
            q.decisions[i].1.want->0,
            0,
        ) is Some) by {
            assert(labelled(sections, p.decisions[i].1.from, 0) is Some);
        }
        assert(q.decisions.len() == decisions.len());
        assert forall|i: int| 0 <= i < decisions.len() implies (#[trigger] q.decisions[i]).0
            == decisions[i].0 && q.decisions[i].1.from == decisions[i].1.from by {
            assert(p.decisions[i].0 == decisions[i].0);
        }
    }
}

proof fn lemma_pulled(
    census: CensusView,
    base: Seq<Seq<char>>,
    decisions: Decisions,
    sections: Seq<SectionView>,
    pins: Seq<Seq<char>>,
    dump: Seq<Seq<char>>,
)
    requires
        seated(decisions, sections),
        sections.len() <= usize::MAX,
    ensures
        seated(pulled(census, base, decisions, sections, pins, dump).0, sections),
        same_origins(pulled(census, base, decisions, sections, pins, dump).0, decisions),
{
    let b = bonds(census, base, decisions, sections);
    if decisions.len() > 0 {
        assert(labelled(sections, decisions[0].1.from, 0) is Some);
        assert(sections.len() > 0);
        lemma_label_places(sections, sections.len() as int);
        lemma_latest_esm(b.esm, decisions, b.places, b.esm.len() as int, sections.len());
        lemma_pull(decisions, b, sections, pins, dump, decisions.len() as int);
    } else {
        assert(pull_first(decisions, b, sections, pins, dump, 0).decisions =~= decisions);
    }
}

// ---- moves ----

/// The first section of that label holds a mod of that name.
pub open spec fn holds_mod(sections: Seq<SectionView>, label: Seq<char>, name: Seq<char>) -> bool {
    labelled(sections, label, 0) is Some && mod_from(
        sections[labelled(sections, label, 0)->0].mods,
        name,
        0,
    ) is Some
}

pub proof fn lemma_has_name(mods: Seq<EntryView>, i: int)
    requires
        0 <= i < mods.len(),
    ensures
        mod_from(mods, mods[i].name, 0) is Some,
{
    lemma_mod_from(mods, mods[i].name, 0);
    if mod_from(mods, mods[i].name, 0) is None {
        assert(mods[i].name != mods[i].name);
    }
}

/// A move that can be made leaves every other mod where it is.
pub proof fn lemma_move(p: PlanView, mv: Move, label: Seq<char>, name: Seq<char>)
    requires
        holds_mod(p.sections, mv.1, mv.0),
        labelled(p.sections, mv.2, 0) is Some,
    ensures
        moved_one(p, mv) is Some,
        same_labels(moved_one(p, mv)->0.sections, p.sections),
        name != mv.0 && holds_mod(p.sections, label, name) ==> holds_mod(
            moved_one(p, mv)->0.sections,
            label,
            name,
        ),
{
    let (moving, from, to) = mv;
    lemma_labelled(p.sections, from, 0);
    let si = labelled(p.sections, from, 0)->0;
    let s = p.sections[si];
    lemma_mod_from(s.mods, moving, 0);
    let mi = mod_from(s.mods, moving, 0)->0;
    let taken = p.sections.update(si, with_mods(s, s.mods.remove(mi)));
    lemma_labelled_same(taken, p.sections, to, 0);
    lemma_labelled(taken, to, 0);
    let di = labelled(taken, to, 0)->0;
    let q = taken.update(di, with_mods(taken[di], taken[di].mods.push(s.mods[mi])));
    assert(moved_one(p, mv)->0.sections == q);
    assert(same_labels(q, p.sections));
    if name != moving && holds_mod(p.sections, label, name) {
        lemma_labelled_same(q, p.sections, label, 0);
        lemma_labelled(p.sections, label, 0);
        let li = labelled(p.sections, label, 0)->0;
        let old_mods = p.sections[li].mods;
        lemma_mod_from(old_mods, name, 0);
        let k = mod_from(old_mods, name, 0)->0;
        let mid = taken[li].mods;
        // The mod is still there once the other one is taken.
        let at = if li == si && mi < k {
            k - 1
        } else {
            k
        };
        assert(mid[at] == old_mods[k]);
        assert(q[li].mods[at] == old_mods[k]);
        lemma_has_name(q[li].mods, at);
    }
}

/// Every move can be made: its mod is where it leaves, and its destination is there.
pub open spec fn movable(sections: Seq<SectionView>, moves: Seq<Move>, from: int) -> bool {
    forall|k: int|
        from <= k < moves.len() ==> holds_mod(sections, (#[trigger] moves[k]).1, moves[k].0)
            && labelled(sections, moves[k].2, 0) is Some
}

pub proof fn lemma_moves(p: PlanView, moves: Seq<Move>, n: int)
    requires
        0 <= n <= moves.len(),
        movable(p.sections, moves, 0),
        forall|i: int, j: int|
            #![trigger moves[i], moves[j]]
            0 <= i < j < moves.len() ==> moves[i].0 != moves[j].0,
    ensures
        moved_first(p, moves, n) is Some,
        same_labels(moved_first(p, moves, n)->0.sections, p.sections),
        movable(moved_first(p, moves, n)->0.sections, moves, n),
    decreases n,
{
    if n > 0 {
        lemma_moves(p, moves, n - 1);
        let q = moved_first(p, moves, n - 1)->0;
        assert(holds_mod(q.sections, moves[n - 1].1, moves[n - 1].0));
        lemma_move(q, moves[n - 1], moves[n - 1].1, moves[n - 1].0);
        let r = moved_one(q, moves[n - 1])->0;
        assert forall|k: int| n <= k < moves.len() implies holds_mod(
            r.sections,
            (#[trigger] moves[k]).1,
            moves[k].0,
        ) && labelled(r.sections, moves[k].2, 0) is Some by {
            assert(moves[n - 1].0 != moves[k].0);
            lemma_move(q, moves[n - 1], moves[k].1, moves[k].0);
            lemma_labelled_same(r.sections, q.sections, moves[k].2, 0);
        }
    }
}

pub proof fn lemma_unique_label(sections: Seq<SectionView>, i: int)
    requires
        labels_differ(sections),
        0 <= i < sections.len(),
    ensures
        labelled(sections, sections[i].label, 0) == Some(i),
{
    lemma_first_labelled(sections, i);
    lemma_labelled(sections, sections[i].label, 0);
    let j = labelled(sections, sections[i].label, 0)->0;
    if j < i {
        assert(sections[j].label != sections[i].label);
    } else if i < j {
        assert(sections[i].label != sections[j].label);
    }
}

/// The moves that a survey finds can be made, and each moves another mod.
pub proof fn lemma_survey(
    sections: Seq<SectionView>,
    mods: Placed,
    decisions: Decisions,
    dump: Seq<Seq<char>>,
    n: int,
)
    requires
        0 <= n <= mods.len(),
        mods == placed(sections),
        labels_differ(sections),
        names_differ(mods),
        seated(decisions, sections),
        located(decisions, mods, mods.len() as int),
    ensures
        ({
            let moves = survey_first(mods, decisions, dump, n).moves;
            &&& movable(sections, moves, 0)
            &&& forall|i: int, j: int|
                #![trigger moves[i], moves[j]]
                0 <= i < j < moves.len() ==> moves[i].0 != moves[j].0
            &&& forall|i: int|
                0 <= i < moves.len() ==> exists|k: int|
                    0 <= k < n && (#[trigger] mods[k]).1.name == (#[trigger] moves[i]).0
            &&& forall|i: int| 0 <= i < moves.len() ==> !is_dump(dump, (#[trigger] moves[i]).2)
        }),
    decreases n,
{
    if n > 0 {
        lemma_survey(sections, mods, decisions, dump, n - 1);
        let before = survey_first(mods, decisions, dump, n - 1).moves;
        let moves = survey_first(mods, decisions, dump, n).moves;
        let (label, m) = mods[n - 1];
        assert(found(decisions, mods[n - 1].1.name) is Some);
        let d = found(decisions, m.name)->0;
        lemma_found_seated(decisions, sections, m.name);
        lemma_placed(sections, sections.len() as int, n - 1);
        let (i, j) = choose|i: int, j: int|
            0 <= i < sections.len() && 0 <= j < sections[i].mods.len() && placed_first(
                sections,
                sections.len() as int,
            )[n - 1] == (sections[i].label, #[trigger] sections[i].mods[j]);
        lemma_unique_label(sections, i);
        lemma_has_name(sections[i].mods, j);
        assert(holds_mod(sections, d.from, m.name));
        assert forall|k: int| 0 <= k < moves.len() implies holds_mod(
            sections,
            (#[trigger] moves[k]).1,
            moves[k].0,
        ) && labelled(sections, moves[k].2, 0) is Some && !is_dump(dump, moves[k].2) by {
            if k < before.len() {
                assert(moves[k] == before[k]);
            }
        }
        assert forall|x: int| 0 <= x < moves.len() implies exists|k: int|
            0 <= k < n && (#[trigger] mods[k]).1.name == (#[trigger] moves[x]).0 by {
            if x < before.len() {
                assert(moves[x] == before[x]);
                let k = choose|k: int|
                    0 <= k < n - 1 && (#[trigger] mods[k]).1.name == (#[trigger] before[x]).0;
                assert(mods[k].1.name == moves[x].0);
            } else {
                assert(mods[n - 1].1.name == moves[x].0);
            }
        }
        assert forall|x: int, y: int|
            #![trigger moves[x], moves[y]]
            0 <= x < y < moves.len() implies moves[x].0 != moves[y].0 by {
            assert(moves[x] == before[x]);
            if y < before.len() {
                assert(moves[y] == before[y]);
            } else {
                let k = choose|k: int|
                    0 <= k < n - 1 && (#[trigger] mods[k]).1.name == (#[trigger] before[x]).0;
                assert(mods[k].1.name != mods[n - 1].1.name);
            }
        }
    }
}

/// Nothing moves into a waiting room: no move that a survey finds has one as its
/// destination.
pub proof fn nothing_moves_into_a_dump(
    mods: Placed,
    decisions: Decisions,
    dump: Seq<Seq<char>>,
    n: int,
    i: int,
)
    requires
        0 <= n <= mods.len(),
        0 <= i < survey_first(mods, decisions, dump, n).moves.len(),
    ensures
        !is_dump(dump, survey_first(mods, decisions, dump, n).moves[i].2),
    decreases n,
{
    if n > 0 {
        let before = survey_first(mods, decisions, dump, n - 1).moves;
        if i < before.len() {
            nothing_moves_into_a_dump(mods, decisions, dump, n - 1, i);
        }
    }
}

/// The rules of a sort once their targets are resolved.
pub open spec fn rules_in_force(ml: ModlistView, i: Sources) -> RulesView {
    resolved_rules(i.rules, opened(first_plan(ml), i).sections)
}

/// The mods of a sort with their sections.
pub open spec fn mods_of_run(ml: ModlistView, i: Sources) -> Placed {
    placed(opened(first_plan(ml), i).sections)
}

/// The decisions that a sort carries out: those of the rules, of families and of plugin
/// masters.
pub open spec fn last_decisions(ml: ModlistView, i: Sources) -> Decisions {
    let a = opened(first_plan(ml), i);
    let rules = rules_in_force(ml, i);
    let (b, decisions) = decided(a, rules, known_of(ml.sections, i.kw), i);
    proven(b, decisions, pins_of(rules), rules.dump, i).decisions
}

/// The labels and the names of a sort's list are told apart.
pub open spec fn distinct(ml: ModlistView, i: Sources) -> bool {
    labels_differ(opened(first_plan(ml), i).sections) && names_differ(mods_of_run(ml, i))
}

pub proof fn lemma_last_decisions(ml: ModlistView, i: Sources)
    requires
        distinct(ml, i),
        ml.sections.len() <= usize::MAX,
    ensures
        seated(last_decisions(ml, i), opened(first_plan(ml), i).sections),
        located(last_decisions(ml, i), mods_of_run(ml, i), mods_of_run(ml, i).len() as int),
{
    let known = known_of(ml.sections, i.kw);
    let a = opened(first_plan(ml), i);
    crate::conservation::lemma_opened(ml, i);
    let rules = resolved_rules(i.rules, a.sections);
    let pins = pins_of(rules);
    let mods = placed(a.sections);
    let n = mods.len() as int;
    let ds = decisions_first(mods, rules, i.cats, a.sections, i.solo, n);
    lemma_decisions(mods, rules, i.cats, a.sections, i.solo, n);
    let masters = masters_first(mods, known, i.kw, n);
    let (b, decisions) = decided(a, rules, known, i);
    if !i.solo {
        assert forall|k: Seq<char>|
            #![trigger found(masters, k)]
            found(masters, k) is Some implies found(ds, found(masters, k)->0) is Some by {
            crate::sorter::lemma_masters_are_mods(mods, known, i.kw, n, k);
            let m = choose|m: int|
                0 <= m < mods.len() && (#[trigger] mods[m]).1.name == found(masters, k)->0;
            assert(found(ds, mods[m].1.name) is Some);
        }
        lemma_families(masters, ds, a.sections);
    } else {
        assert(same_origins(decisions, ds));
    }
    assert(seated(decisions, a.sections) && same_origins(decisions, ds));
    let c = proven(b, decisions, pins, rules.dump, i);
    match i.census {
        Some(census) => {
            lemma_pulled(census, base_of(i.census), decisions, a.sections, pins, rules.dump);
        },
        None => {},
    }
    assert forall|k: int| 0 <= k < n implies found(c.decisions, (#[trigger] mods[k]).1.name) is Some
        && found(c.decisions, mods[k].1.name)->0.from == mods[k].0 by {
        assert(found(ds, mods[k].1.name) is Some);
        lemma_same_found(decisions, ds, mods[k].1.name);
        lemma_same_found(c.decisions, decisions, mods[k].1.name);
    }
}

/// A list whose sections differ in label and whose mods differ in name always has a plan.
pub proof fn distinct_names_have_a_plan(ml: ModlistView, i: Sources)
    requires
        distinct(ml, i),
        ml.sections.len() <= usize::MAX,
    ensures
        run_plan(ml, i) is Some,
{
    let a = opened(first_plan(ml), i);
    let rules = rules_in_force(ml, i);
    let (b, decisions) = decided(a, rules, known_of(ml.sections, i.kw), i);
    let c = proven(b, decisions, pins_of(rules), rules.dump, i);
    let mods = mods_of_run(ml, i);
    let n = mods.len() as int;
    lemma_last_decisions(ml, i);
    let s = survey_first(mods, c.decisions, rules.dump, n);
    lemma_survey(a.sections, mods, c.decisions, rules.dump, n);
    let start = with_trace(c.plan, s.lines);
    lemma_dumps(start, rules.dump, c.decisions, rules.dump.len() as int);
    let t = dumps_first(start, rules.dump, c.decisions, rules.dump.len() as int);
    let u = if s.blocked > 0 {
        traced(
            t,
            "dump sections blocked "@ + crate::text::decimal(s.blocked) + " inbound move(s)"@,
        )
    } else {
        t
    };
    lemma_moves(u, s.moves, s.moves.len() as int);
}

} // verus!
