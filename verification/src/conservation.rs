//! A whole sort keeps every mod: sections and parking together hold the same entries
//! before and after it.
use vstd::prelude::*;
use vstd::multiset::Multiset;
#[allow(unused_imports)]
use crate::audit::{breach, esms_audited, masters_audited, pairs_audited, sections_audited, winners_audited, with_sections, Audit, Positions};
#[allow(unused_imports)]
use crate::conflicts::ConflictView;
#[allow(unused_imports)]
use crate::decide::Decisions;
#[allow(unused_imports)]
use crate::keeping::{lemma_arranged, same_list};
#[allow(unused_imports)]
use crate::keywords::KeywordsView;
#[allow(unused_imports)]
use crate::map::{found, key_from, lemma_key_from};
#[allow(unused_imports)]
use crate::masters::Providers;
#[allow(unused_imports)]
use crate::matching::labelled;
#[allow(unused_imports)]
use crate::modlist::{entry_of, EntryView, ModlistView, SectionView};
#[allow(unused_imports)]
use crate::place::{arranged, lemma_mod_from, mod_from, Facts, Known};
#[allow(unused_imports)]
use crate::plan::{traced, PlanView};
#[allow(unused_imports)]
use crate::plugins::CensusView;
#[allow(unused_imports)]
use crate::rules::RulesView;
#[allow(unused_imports)]
use crate::sorter::{all_arranged, arranged_first, audited, base_of, decided, dumps_first, filed_first, first_plan, fixed_of, known_of, left_parked, moved, moved_first, moved_one, opened, parked_lines, parked_moves, parked_target, pins_of, proven, renamed_first, run_plan, survey_first, unparked, with_mods, with_trace, Move, Sources};
#[allow(unused_imports)]
use crate::categories::CategoriesView;
#[allow(unused_imports)]
use crate::suggest::{concept_for, rename_notes, renames_first, resolved_rules};

verus! {

/// The entries of the first `n` sections, each as often as it occurs.
pub open spec fn total(sections: Seq<SectionView>, n: int) -> Multiset<EntryView>
    decreases n,
{
    if n <= 0 {
        Multiset::empty()
    } else {
        total(sections, n - 1).add(sections[n - 1].mods.to_multiset())
    }
}

/// The entries of the first `n` parked lines.
pub open spec fn parked_total(parking: Seq<Seq<char>>, n: int) -> Multiset<EntryView>
    decreases n,
{
    if n <= 0 {
        Multiset::empty()
    } else {
        parked_total(parking, n - 1).insert(entry_of(parking[n - 1]))
    }
}

/// Every entry of a list, in a section or parked.
pub open spec fn everything(sections: Seq<SectionView>, parking: Seq<Seq<char>>) -> Multiset<
    EntryView,
> {
    total(sections, sections.len() as int).add(parked_total(parking, parking.len() as int))
}

// ---- sections ----

proof fn lemma_total_same(a: Seq<SectionView>, b: Seq<SectionView>, n: int)
    requires
        0 <= n <= a.len(),
        n <= b.len(),
        forall|i: int| 0 <= i < n ==> (#[trigger] a[i]).mods == b[i].mods,
    ensures
        total(a, n) == total(b, n),
    decreases n,
{
    if n > 0 {
        lemma_total_same(a, b, n - 1);
        assert(a[n - 1].mods == b[n - 1].mods);
    }
}

/// Another section in place of one exchanges the entries of the two.
proof fn lemma_total_update(sections: Seq<SectionView>, i: int, s: SectionView, n: int)
    requires
        0 <= i < sections.len(),
        0 <= n <= sections.len(),
    ensures
        i < n ==> total(sections.update(i, s), n).add(sections[i].mods.to_multiset()) == total(
            sections,
            n,
        ).add(s.mods.to_multiset()),
        i >= n ==> total(sections.update(i, s), n) == total(sections, n),
    decreases n,
{
    broadcast use vstd::multiset::group_multiset_axioms;

    if n > 0 {
        lemma_total_update(sections, i, s, n - 1);
        let t = sections.update(i, s);
        if i < n - 1 {
            let last = sections[n - 1].mods.to_multiset();
            assert(t[n - 1] == sections[n - 1]);
            assert(total(t, n).add(sections[i].mods.to_multiset()) =~= total(t, n - 1).add(
                sections[i].mods.to_multiset(),
            ).add(last));
            assert(total(sections, n).add(s.mods.to_multiset()) =~= total(sections, n - 1).add(
                s.mods.to_multiset(),
            ).add(last));
        } else if i == n - 1 {
            assert(total(t, n).add(sections[i].mods.to_multiset()) =~= total(sections, n).add(
                s.mods.to_multiset(),
            ));
        }
    }
}

/// A section's entries are among all.
proof fn lemma_section_in(sections: Seq<SectionView>, i: int, n: int)
    requires
        0 <= i < n <= sections.len(),
    ensures
        forall|x: EntryView| #[trigger]
            sections[i].mods.to_multiset().count(x) <= total(sections, n).count(x),
        sections[i].mods.len() <= total(sections, n).len(),
    decreases n,
{
    broadcast use {vstd::multiset::group_multiset_axioms, vstd::seq_lib::group_to_multiset_ensures};

    vstd::seq_lib::to_multiset_len(sections[i].mods);
    if i < n - 1 {
        lemma_section_in(sections, i, n - 1);
        assert forall|x: EntryView| #[trigger]
            sections[i].mods.to_multiset().count(x) <= total(sections, n).count(x) by {
            assert(sections[i].mods.to_multiset().count(x) <= total(sections, n - 1).count(x));
        }
    }
}

pub proof fn lemma_labelled(sections: Seq<SectionView>, label: Seq<char>, i: int)
    requires
        0 <= i,
    ensures
        match labelled(sections, label, i) {
            Some(j) => i <= j < sections.len() && sections[j].label == label,
            None => forall|j: int| i <= j < sections.len() ==> (#[trigger] sections[j]).label != label,
        },
    decreases sections.len() - i,
{
    if i < sections.len() && sections[i].label != label {
        lemma_labelled(sections, label, i + 1);
    }
}

/// The labels of the two are the same.
pub open spec fn same_labels(a: Seq<SectionView>, b: Seq<SectionView>) -> bool {
    a.len() == b.len() && forall|i: int|
        0 <= i < a.len() ==> (#[trigger] a[i]).label == b[i].label
}

pub proof fn lemma_labelled_same(a: Seq<SectionView>, b: Seq<SectionView>, label: Seq<char>, i: int)
    requires
        same_labels(a, b),
        0 <= i,
    ensures
        labelled(a, label, i) == labelled(b, label, i),
    decreases a.len() - i,
{
    if i < a.len() {
        assert(a[i].label == b[i].label);
        lemma_labelled_same(a, b, label, i + 1);
    }
}

// ---- renaming ----

proof fn lemma_renamed(p: PlanView, renames: Seq<(usize, Seq<char>)>, n: int)
    ensures
        renamed_first(p, renames, n).parking == p.parking,
        renamed_first(p, renames, n).sections.len() == p.sections.len(),
        forall|i: int|
            0 <= i < p.sections.len() ==> (#[trigger] renamed_first(p, renames, n).sections[i]).mods
                == p.sections[i].mods,
    decreases n,
{
    if n > 0 {
        lemma_renamed(p, renames, n - 1);
    }
}

/// Naming separators anew keeps every entry.
pub proof fn lemma_opened(ml: ModlistView, i: Sources)
    ensures
        ({
            let p = opened(first_plan(ml), i);
            &&& everything(p.sections, p.parking) == everything(ml.sections, ml.parking)
            &&& p.sections.len() == ml.sections.len()
        }),
{
    let p = opened(first_plan(ml), i);
    let head = with_trace(first_plan(ml), crate::sorter::head_lines(i));
    if i.rules.rename_separators {
        let n = head.sections.len() as int;
        let renames = renames_first(head.sections, i.cats, n);
        let a = with_trace(head, rename_notes(head.sections, i.cats, n));
        let b = if renames.len() > 0 {
            traced(
                a,
                "\n--- pass 0: separator auto-rename ("@ + crate::text::decimal(renames.len())
                    + " separator(s)) ---"@,
            )
        } else {
            a
        };
        lemma_renamed(b, renames, renames.len() as int);
        lemma_total_same(p.sections, ml.sections, ml.sections.len() as int);
    }
}

/// The label stands where it stood, or with a concept behind it.
pub open spec fn appended(before: Seq<char>, after: Seq<char>) -> bool {
    after == before || exists|c: Seq<char>| after == #[trigger] (before + " - "@ + c)
}

/// Every new label is an old one, or one with a concept behind it.
pub open spec fn only_appends(sections: Seq<SectionView>, renames: Seq<(usize, Seq<char>)>) -> bool {
    forall|j: int|
        0 <= j < renames.len() ==> (#[trigger] renames[j]).0 < sections.len() && appended(
            sections[renames[j].0 as int].label,
            renames[j].1,
        )
}

proof fn lemma_new_labels(sections: Seq<SectionView>, cats: Option<CategoriesView>, n: int)
    requires
        n <= sections.len() <= usize::MAX,
    ensures
        only_appends(sections, renames_first(sections, cats, n)),
    decreases n,
{
    if n > 0 {
        lemma_new_labels(sections, cats, n - 1);
        if let Some((c, note)) = concept_for(sections[n - 1], cats) {
            let label = sections[n - 1].label + " - "@ + c;
            assert(appended(sections[n - 1].label, label));
        }
    }
}

proof fn lemma_relabelled(p: PlanView, renames: Seq<(usize, Seq<char>)>, n: int)
    requires
        n <= renames.len(),
        only_appends(p.sections, renames),
    ensures
        forall|i: int|
            0 <= i < p.sections.len() ==> appended(
                p.sections[i].label,
                (#[trigger] renamed_first(p, renames, n).sections[i]).label,
            ),
    decreases n,
{
    lemma_renamed(p, renames, n);
    if n > 0 {
        lemma_relabelled(p, renames, n - 1);
        lemma_renamed(p, renames, n - 1);
        let (k, label) = renames[n - 1];
        assert(appended(p.sections[k as int].label, label));
    }
}

/// A separator is renamed only by putting a concept behind its name; its mods stay.
pub proof fn renaming_only_appends(ml: ModlistView, i: Sources, k: int)
    requires
        0 <= k < ml.sections.len() <= usize::MAX,
    ensures
        appended(ml.sections[k].label, opened(first_plan(ml), i).sections[k].label),
        opened(first_plan(ml), i).sections[k].mods == ml.sections[k].mods,
{
    let head = with_trace(first_plan(ml), crate::sorter::head_lines(i));
    if i.rules.rename_separators {
        let n = head.sections.len() as int;
        let renames = renames_first(head.sections, i.cats, n);
        let a = with_trace(head, rename_notes(head.sections, i.cats, n));
        let b = if renames.len() > 0 {
            traced(
                a,
                "\n--- pass 0: separator auto-rename ("@ + crate::text::decimal(renames.len())
                    + " separator(s)) ---"@,
            )
        } else {
            a
        };
        lemma_new_labels(head.sections, i.cats, n);
        lemma_renamed(b, renames, renames.len() as int);
        lemma_relabelled(b, renames, renames.len() as int);
    }
}

// ---- moves ----

proof fn lemma_moved_one(p: PlanView, mv: Move)
    requires
        moved_one(p, mv) is Some,
    ensures
        ({
            let q = moved_one(p, mv)->0;
            &&& total(q.sections, q.sections.len() as int) == total(
                p.sections,
                p.sections.len() as int,
            )
            &&& q.parking == p.parking
            &&& same_labels(q.sections, p.sections)
        }),
{
    broadcast use {vstd::multiset::group_multiset_axioms, vstd::seq_lib::group_to_multiset_ensures};

    let (name, from, to) = mv;
    let n = p.sections.len() as int;
    lemma_labelled(p.sections, from, 0);
    let si = labelled(p.sections, from, 0)->0;
    let s = p.sections[si];
    lemma_mod_from(s.mods, name, 0);
    let mi = mod_from(s.mods, name, 0)->0;
    let x = s.mods[mi];
    let less = with_mods(s, s.mods.remove(mi));
    let taken = p.sections.update(si, less);
    lemma_labelled(taken, to, 0);
    let di = labelled(taken, to, 0)->0;
    let more = with_mods(taken[di], taken[di].mods.push(x));
    let q = taken.update(di, more);
    lemma_total_update(p.sections, si, less, n);
    lemma_total_update(taken, di, more, n);
    vstd::seq_lib::to_multiset_remove(s.mods, mi);
    assert(s.mods.contains(x));
    assert(s.mods.to_multiset().count(x) > 0);
    let whole = total(p.sections, n);
    let rest = s.mods.to_multiset().remove(x);
    assert(s.mods.to_multiset() =~= rest.insert(x));
    assert(total(taken, n).add(rest.insert(x)) == whole.add(rest));
    assert forall|y: EntryView| total(q, n).count(y) == whole.count(y) by {
        assert(total(taken, n).add(rest.insert(x)).count(y) == whole.add(rest).count(y));
        let d = taken[di].mods.to_multiset();
        assert(total(q, n).add(d).count(y) == total(taken, n).add(
            taken[di].mods.push(x).to_multiset(),
        ).count(y));
        assert(taken[di].mods.push(x).to_multiset() == d.insert(x));
    }
    assert(total(q, n) =~= whole);
    assert(moved_one(p, mv)->0.sections == q);
}

/// Moving mods between sections keeps every entry.
pub proof fn lemma_moved_first(p: PlanView, moves: Seq<Move>, n: int)
    requires
        moved_first(p, moves, n) is Some,
    ensures
        ({
            let q = moved_first(p, moves, n)->0;
            &&& total(q.sections, q.sections.len() as int) == total(
                p.sections,
                p.sections.len() as int,
            )
            &&& q.parking == p.parking
            &&& same_labels(q.sections, p.sections)
        }),
    decreases n,
{
    if n > 0 {
        lemma_moved_first(p, moves, n - 1);
        lemma_moved_one(moved_first(p, moves, n - 1)->0, moves[n - 1]);
    }
}

pub proof fn lemma_dumps(p: PlanView, dump: Seq<Seq<char>>, decisions: Decisions, n: int)
    ensures
        same_list(dumps_first(p, dump, decisions, n), p),
    decreases n,
{
    if n > 0 {
        lemma_dumps(p, dump, decisions, n - 1);
    }
}

// ---- parking ----

proof fn lemma_moves_found(
    parking: Seq<Seq<char>>,
    rules: RulesView,
    i: Sources,
    sections: Seq<SectionView>,
    n: int,
    line: Seq<char>,
)
    requires
        0 <= n <= parking.len(),
    ensures
        found(parked_moves(parking, rules, i, sections, n), line) is Some ==> parked_target(
            line,
            rules,
            i,
            sections,
        ) is Some,
        parked_target(line, rules, i, sections) is Some && (exists|j: int|
            0 <= j < n && parking[j] == line) ==> found(
            parked_moves(parking, rules, i, sections, n),
            line,
        ) is Some,
        forall|k: int|
            0 <= k < parked_moves(parking, rules, i, sections, n).len() ==> labelled(
                sections,
                (#[trigger] parked_moves(parking, rules, i, sections, n)[k]).1,
                0,
            ) is Some,
    decreases n,
{
    let moves = parked_moves(parking, rules, i, sections, n);
    lemma_key_from(moves, line, 0);
    if n > 0 {
        lemma_moves_found(parking, rules, i, sections, n - 1, line);
        let before = parked_moves(parking, rules, i, sections, n - 1);
        lemma_key_from(before, line, 0);
        match parked_target(parking[n - 1], rules, i, sections) {
            Some(to) => {
                assert(moves[before.len() as int] == (parking[n - 1], to));
                assert forall|k: int| 0 <= k < moves.len() implies labelled(
                    sections,
                    (#[trigger] moves[k]).1,
                    0,
                ) is Some by {
                    if k < before.len() {
                        assert(moves[k] == before[k]);
                    }
                }
                if found(moves, line) is Some {
                    let k = key_from(moves, line, 0)->0;
                    if k < before.len() {
                        assert(before[k] == moves[k]);
                        assert(found(before, line) is Some);
                    }
                }
                if parked_target(line, rules, i, sections) is Some && (exists|j: int|
                    0 <= j < n && parking[j] == line) {
                    let j = choose|j: int| 0 <= j < n && parking[j] == line;
                    if j < n - 1 {
                        assert(found(before, line) is Some);
                        let k = key_from(before, line, 0)->0;
                        assert(moves[k].0 == line);
                    } else {
                        assert(moves[before.len() as int].0 == line);
                    }
                }
            },
            None => {
                if parked_target(line, rules, i, sections) is Some && (exists|j: int|
                    0 <= j < n && parking[j] == line) {
                    let j = choose|j: int| 0 <= j < n && parking[j] == line;
                    assert(j < n - 1);
                }
            },
        }
    }
}

/// The entries of the lines of the first `n` moves.
pub open spec fn filed_total(moves: Seq<(Seq<char>, Seq<char>)>, n: int) -> Multiset<EntryView>
    decreases n,
{
    if n <= 0 {
        Multiset::empty()
    } else {
        filed_total(moves, n - 1).insert(entry_of(moves[n - 1].0))
    }
}

proof fn lemma_filed(p: PlanView, moves: Seq<(Seq<char>, Seq<char>)>, n: int)
    requires
        0 <= n <= moves.len(),
        forall|k: int|
            0 <= k < moves.len() ==> labelled(p.sections, (#[trigger] moves[k]).1, 0) is Some,
    ensures
        ({
            let q = filed_first(p, moves, n);
            &&& total(q.sections, q.sections.len() as int) == total(
                p.sections,
                p.sections.len() as int,
            ).add(filed_total(moves, n))
            &&& same_labels(q.sections, p.sections)
        }),
    decreases n,
{
    broadcast use {vstd::multiset::group_multiset_axioms, vstd::seq_lib::group_to_multiset_ensures};

    let size = p.sections.len() as int;
    if n > 0 {
        lemma_filed(p, moves, n - 1);
        let b = filed_first(p, moves, n - 1);
        let (line, to) = moves[n - 1];
        let m = entry_of(line);
        lemma_labelled_same(b.sections, p.sections, to, 0);
        assert(labelled(p.sections, moves[n - 1].1, 0) is Some);
        lemma_labelled(b.sections, to, 0);
        let di = labelled(b.sections, to, 0)->0;
        let more = with_mods(b.sections[di], b.sections[di].mods.push(m));
        let q = b.sections.update(di, more);
        lemma_total_update(b.sections, di, more, size);
        assert forall|y: EntryView| total(q, size).count(y) == total(p.sections, size).add(
            filed_total(moves, n),
        ).count(y) by {
            let d = b.sections[di].mods.to_multiset();
            assert(total(q, size).add(d).count(y) == total(b.sections, size).add(
                b.sections[di].mods.push(m).to_multiset(),
            ).count(y));
            assert(b.sections[di].mods.push(m).to_multiset() == d.insert(m));
        }
        assert(total(q, size) =~= total(p.sections, size).add(filed_total(moves, n)));
        assert(filed_first(p, moves, n).sections == q);
    } else {
        assert(total(p.sections, size) =~= total(p.sections, size).add(filed_total(moves, 0)));
    }
}

proof fn lemma_parked_push(parking: Seq<Seq<char>>, line: Seq<char>, n: int)
    requires
        0 <= n <= parking.len(),
    ensures
        parked_total(parking.push(line), n) == parked_total(parking, n),
    decreases n,
{
    if n > 0 {
        lemma_parked_push(parking, line, n - 1);
    }
}

proof fn lemma_filed_push(moves: Seq<(Seq<char>, Seq<char>)>, m: (Seq<char>, Seq<char>), n: int)
    requires
        0 <= n <= moves.len(),
    ensures
        filed_total(moves.push(m), n) == filed_total(moves, n),
    decreases n,
{
    if n > 0 {
        lemma_filed_push(moves, m, n - 1);
    }
}

/// What is filed and what stays parked are together what was parked.
proof fn lemma_parted(
    parking: Seq<Seq<char>>,
    rules: RulesView,
    i: Sources,
    sections: Seq<SectionView>,
    n: int,
)
    requires
        0 <= n <= parking.len(),
    ensures
        ({
            let all = parked_moves(parking, rules, i, sections, parking.len() as int);
            let left = left_parked(parking, all, n);
            let filed = parked_moves(parking, rules, i, sections, n);
            parked_total(left, left.len() as int).add(filed_total(filed, filed.len() as int))
                == parked_total(parking, n)
        }),
    decreases n,
{
    broadcast use vstd::multiset::group_multiset_axioms;

    let all = parked_moves(parking, rules, i, sections, parking.len() as int);
    if n > 0 {
        lemma_parted(parking, rules, i, sections, n - 1);
        let line = parking[n - 1];
        let left = left_parked(parking, all, n - 1);
        let filed = parked_moves(parking, rules, i, sections, n - 1);
        lemma_moves_found(parking, rules, i, sections, parking.len() as int, line);
        assert(parking[n - 1] == line);
        let a = parked_total(left, left.len() as int);
        let b = filed_total(filed, filed.len() as int);
        match parked_target(line, rules, i, sections) {
            Some(to) => {
                lemma_filed_push(filed, (line, to), filed.len() as int);
                assert(a.add(b.insert(entry_of(line))) =~= a.add(b).insert(entry_of(line)));
            },
            None => {
                lemma_parked_push(left, line, left.len() as int);
                assert(a.insert(entry_of(line)).add(b) =~= a.add(b).insert(entry_of(line)));
            },
        }
    } else {
        assert(Multiset::<EntryView>::empty().add(Multiset::empty()) =~= Multiset::<
            EntryView,
        >::empty());
    }
}

pub proof fn lemma_unparked(p: PlanView, rules: RulesView, i: Sources)
    ensures
        ({
            let q = unparked(p, rules, i);
            everything(q.sections, q.parking) == everything(p.sections, p.parking)
        }),
{
    broadcast use vstd::multiset::group_multiset_axioms;

    let n = p.parking.len() as int;
    let a = if n > 0 {
        traced(
            p,
            "\n--- pass 1b: parking lot ("@ + crate::text::decimal(n as nat) + " mod(s)) ---"@,
        )
    } else {
        p
    };
    let b = with_trace(a, parked_lines(p.parking, rules, i, p.sections, n));
    let moves = parked_moves(p.parking, rules, i, p.sections, n);
    lemma_moves_found(p.parking, rules, i, p.sections, n, Seq::empty());
    lemma_filed(b, moves, moves.len() as int);
    lemma_parted(p.parking, rules, i, p.sections, n);
    let q = unparked(p, rules, i);
    let left = parked_total(q.parking, q.parking.len() as int);
    let filed = filed_total(moves, moves.len() as int);
    let before = total(p.sections, p.sections.len() as int);
    assert(before.add(filed).add(left) =~= before.add(left.add(filed)));
}

// ---- arranging ----

pub proof fn lemma_arranged_first(
    p: PlanView,
    sections: Seq<SectionView>,
    f: Facts,
    known: Known,
    kw: KeywordsView,
    pins: Seq<Seq<char>>,
    solo: bool,
    n: int,
)
    requires
        0 <= n <= sections.len(),
        total(sections, sections.len() as int).len() <= usize::MAX,
    ensures
        ({
            let (done, q) = arranged_first(p, sections, f, known, kw, pins, solo, n);
            &&& done.len() == n
            &&& total(done, n) == total(sections, n)
            &&& same_list(q, p)
            &&& forall|i: int|
                0 <= i < n ==> (#[trigger] done[i]).label == sections[i].label
                    && done[i].mods.to_multiset() == sections[i].mods.to_multiset()
        }),
    decreases n,
{
    if n > 0 {
        lemma_arranged_first(p, sections, f, known, kw, pins, solo, n - 1);
        let (done, q) = arranged_first(p, sections, f, known, kw, pins, solo, n - 1);
        let s = sections[n - 1];
        lemma_section_in(sections, n - 1, sections.len() as int);
        lemma_arranged(s.label, s.mods, f, known, kw, pins, solo, q);
        let (mods, r) = arranged(s.label, s.mods, f, known, kw, pins, solo, q);
        let next = done.push(with_mods(s, mods));
        lemma_total_same(next, done, n - 1);
    }
}

// ---- audits ----

proof fn lemma_pairs_audited(
    s: SectionView,
    c: ConflictView,
    known: Known,
    kw: KeywordsView,
    i: int,
    j: int,
    plan: PlanView,
)
    ensures
        same_list(pairs_audited(s, c, known, kw, i, j, plan), plan),
    decreases s.mods.len() - i, s.mods.len() - j,
{
    if 0 <= i < s.mods.len() {
        if j >= s.mods.len() {
            lemma_pairs_audited(s, c, known, kw, i + 1, i + 2, plan);
        } else {
            match breach(s.mods[i], s.mods[j], c, known, kw) {
                Some((child, parent, shared)) => {
                    lemma_pairs_audited(
                        s,
                        c,
                        known,
                        kw,
                        i,
                        j + 1,
                        crate::audit::breach_noted(plan, s.label, child.name, parent.name, shared),
                    );
                },
                None => {
                    lemma_pairs_audited(s, c, known, kw, i, j + 1, plan);
                },
            }
        }
    }
}

proof fn lemma_sections_audited(
    sections: Seq<SectionView>,
    c: ConflictView,
    known: Known,
    kw: KeywordsView,
    plan: PlanView,
    n: int,
)
    ensures
        same_list(sections_audited(sections, c, known, kw, plan, n), plan),
    decreases n,
{
    if n > 0 {
        lemma_sections_audited(sections, c, known, kw, plan, n - 1);
        lemma_pairs_audited(
            sections[n - 1],
            c,
            known,
            kw,
            0,
            1,
            sections_audited(sections, c, known, kw, plan, n - 1),
        );
    }
}

proof fn lemma_masters_audited(
    a: Audit,
    census: CensusView,
    base: Seq<Seq<char>>,
    prov: Providers,
    pos: Positions,
    pins: Seq<Seq<char>>,
    n: int,
)
    ensures
        same_list(masters_audited(a, census, base, prov, pos, pins, n).plan, a.plan),
    decreases n,
{
    if n > 0 {
        lemma_masters_audited(a, census, base, prov, pos, pins, n - 1);
    }
}

proof fn lemma_esms_audited(
    a: Audit,
    census: CensusView,
    pos: Positions,
    pins: Seq<Seq<char>>,
    n: int,
)
    ensures
        same_list(esms_audited(a, census, pos, pins, n).plan, a.plan),
    decreases n,
{
    if n > 0 {
        lemma_esms_audited(a, census, pos, pins, n - 1);
    }
}

/// The audits only report: the list stays as it is.
pub proof fn audits_only_report(p: PlanView, known: Known, pins: Seq<Seq<char>>, i: Sources)
    ensures
        same_list(audited(p, known, pins, i), p),
{
    let a = match i.conflicts {
        Some(c) => {
            let t = traced(p, "\n--- audit gate: conflict winners ---"@);
            lemma_sections_audited(t.sections, c, known, i.kw, t, t.sections.len() as int);
            winners_audited(p, c, known, i.kw)
        },
        None => p,
    };
    match i.census {
        Some(c) => {
            let base = base_of(i.census);
            let prov = crate::masters::providers(c);
            let pos = crate::audit::positions(a.sections);
            let start = traced(a, "\n--- audit gate: master order ---"@);
            let first = Audit { plan: start, reported: Seq::empty(), forced: 0 };
            lemma_masters_audited(first, c, base, prov, pos, pins, c.len() as int);
            lemma_esms_audited(
                masters_audited(first, c, base, prov, pos, pins, c.len() as int),
                c,
                pos,
                pins,
                c.len() as int,
            );
        },
        None => {},
    }
}

// ---- the whole sort ----

/// A sort keeps every mod, with its line and so its flag, and no other gets in: sections
/// and parking hold the same entries before and after.
pub proof fn sorting_keeps_every_mod(ml: ModlistView, i: Sources)
    requires
        run_plan(ml, i) is Some,
        everything(ml.sections, ml.parking).len() <= usize::MAX,
    ensures
        everything(run_plan(ml, i)->0.sections, run_plan(ml, i)->0.parking) == everything(
            ml.sections,
            ml.parking,
        ),
{
    broadcast use vstd::multiset::group_multiset_axioms;

    let all = everything(ml.sections, ml.parking);
    let known = known_of(ml.sections, i.kw);
    let a = opened(first_plan(ml), i);
    lemma_opened(ml, i);
    let rules = resolved_rules(i.rules, a.sections);
    let pins = pins_of(rules);
    let (b, decisions) = decided(a, rules, known, i);
    let c = proven(b, decisions, pins, rules.dump, i);
    assert(same_list(c.plan, a));
    let mods = crate::decide::placed(c.plan.sections);
    let s = survey_first(mods, c.decisions, rules.dump, mods.len() as int);
    let t = dumps_first(
        with_trace(c.plan, s.lines),
        rules.dump,
        c.decisions,
        rules.dump.len() as int,
    );
    lemma_dumps(
        with_trace(c.plan, s.lines),
        rules.dump,
        c.decisions,
        rules.dump.len() as int,
    );
    let u = if s.blocked > 0 {
        traced(
            t,
            "dump sections blocked "@ + crate::text::decimal(s.blocked) + " inbound move(s)"@,
        )
    } else {
        t
    };
    lemma_moved_first(u, s.moves, s.moves.len() as int);
    let d = moved(c.plan, c.decisions, rules.dump)->0;
    assert(everything(d.sections, d.parking) == all);
    let e = unparked(d, rules, i);
    lemma_unparked(d, rules, i);
    let f = Facts {
        rules,
        content: c.content,
        loot: c.loot,
        census: i.census,
        conflicts: i.conflicts,
    };
    let n = e.sections.len() as int;
    assert(all =~= total(e.sections, n).add(parked_total(e.parking, e.parking.len() as int)));
    lemma_arranged_first(
        with_sections(e, Seq::empty()),
        e.sections,
        f,
        known,
        i.kw,
        fixed_of(rules),
        i.solo,
        n,
    );
    let g = all_arranged(e, f, known, i.kw, fixed_of(rules), i.solo);
    audits_only_report(g, known, pins, i);
}

} // verus!
