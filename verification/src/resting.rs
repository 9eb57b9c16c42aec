//! Where the constraints come to rest: the order of a section then meets all of them.
use vstd::prelude::*;
#[allow(unused_imports)]
use crate::alone::{loose_first, loose_mods};
#[allow(unused_imports)]
use crate::conflicts::ConflictView;
#[allow(unused_imports)]
use crate::ends::{facts_of_run, filed_plan, lemma_section_of_run, plan_at};
#[allow(unused_imports)]
use crate::keeping::{families_keep, gaps, grouped_mods, held, lemma_arranged, lemma_gaps, lemma_pins_differ, lemma_slots, rounds_keep};
#[allow(unused_imports)]
use crate::keywords::KeywordsView;
#[allow(unused_imports)]
use crate::map::{found, insert_then_get, lemma_key_from};
#[allow(unused_imports)]
use crate::masters::is_esm_entry_of;
#[allow(unused_imports)]
use crate::modlist::{names, EntryView, ModlistView};
#[allow(unused_imports)]
use crate::ordering::{before_master, lemma_duels_at_rest, lemma_sweep_at_rest, loses, singly_named};
#[allow(unused_imports)]
use crate::place::{arranged, bench, by_conflicts, by_rules, duel, duels_first, duels_from, early_from, esm_at, esm_steps, filled, free_first, last_esm_first, latest_first, latest_parent, lemma_mod_from, mod_from, name_at, name_places, names_patch, parents_first, parents_sweeps, pinned_first, rank_from, round, rounds, slot_at, slot_of, slots_first, Bench, DuelView, Facts, Known, Mods, Work};
#[allow(unused_imports)]
use crate::plan::{traced, PlanView};
#[allow(unused_imports)]
use crate::plugins::CensusView;
#[allow(unused_imports)]
use crate::sorter::{fixed_of, known_of, run_plan, Sources};

verus! {

// ---- the last round ----

/// What the last of the rounds starts from.
pub open spec fn last_round(w: Work, f: Facts, b: Bench, fuel: nat) -> Work
    decreases fuel,
{
    let v = round(w, f, b);
    if fuel <= 1 || names(v.u) == names(w.u) {
        w
    } else {
        last_round(v, f, b, (fuel - 1) as nat)
    }
}

proof fn lemma_last_round(w: Work, f: Facts, b: Bench, fuel: nat)
    requires
        fuel > 0,
    ensures
        rounds(w, f, b, fuel) == round(last_round(w, f, b, fuel), f, b),
    decreases fuel,
{
    let v = round(w, f, b);
    if names(v.u) != names(w.u) {
        if fuel > 1 {
            lemma_last_round(v, f, b, (fuel - 1) as nat);
        } else {
            assert(rounds(v, f, b, 0) == v);
        }
    }
}

/// No pass of a round moves a mod.
pub open spec fn quiet(w: Work, f: Facts, b: Bench) -> bool {
    let a = by_rules(w, f, b);
    &&& a.u == w.u
    &&& f.content.len() > 0 || f.loot.len() > 0 ==> !parents_first(
        a,
        b,
        f.content,
        f.loot,
        a.u.len() as int,
    ).1
    &&& f.census matches Some(census) ==> (last_esm_first(b, w.u, census, b.owner.len() as int)
        matches Some(latest) ==> early_from(b, w.u, census, latest, 0) is None)
    &&& f.conflicts matches Some(c) ==> {
        let duels = duels_from(w.u, c, b.label, 0, 1, Seq::empty(), a.plan).0;
        !duels_first(a, duels, b, duels.len() as int).1
    }
}

/// The duels go by the order alone, not by what was noted before.
proof fn lemma_duels_by_order(
    u: Mods,
    c: ConflictView,
    k: Seq<char>,
    l: Seq<char>,
    i: int,
    j: int,
    duels: Seq<DuelView>,
    p: PlanView,
    q: PlanView,
)
    ensures
        duels_from(u, c, k, i, j, duels, p).0 == duels_from(u, c, l, i, j, duels, q).0,
    decreases u.len() - i, u.len() - j,
{
    if 0 <= i < u.len() {
        if j >= u.len() {
            lemma_duels_by_order(u, c, k, l, i + 1, i + 2, duels, p, q);
        } else {
            match duel(u[i], u[j], c) {
                Some(d) => {
                    if names_patch(duels, d.patch) {
                        lemma_duels_by_order(u, c, k, l, i, j + 1, duels, p, q);
                    } else {
                        lemma_duels_by_order(
                            u,
                            c,
                            k,
                            l,
                            i,
                            j + 1,
                            duels.push(d),
                            traced(p, crate::place::duel_line(k, d)),
                            traced(q, crate::place::duel_line(l, d)),
                        );
                    }
                },
                None => {
                    lemma_duels_by_order(u, c, k, l, i, j + 1, duels, p, q);
                },
            }
        }
    }
}

proof fn lemma_duel_flag(v: Work, w: Work, duels: Seq<DuelView>, b: Bench, n: int)
    requires
        0 <= n <= duels.len(),
        v.u == w.u,
    ensures
        duels_first(v, duels, b, n).0.u == duels_first(w, duels, b, n).0.u,
        duels_first(v, duels, b, n).1 == duels_first(w, duels, b, n).1,
    decreases n,
{
    if n > 0 {
        lemma_duel_flag(v, w, duels, b, n - 1);
    }
}

/// A quiet round leaves the order, and every constraint is met in it.
proof fn lemma_quiet(w: Work, f: Facts, b: Bench)
    requires
        quiet(w, f, b),
    ensures
        round(w, f, b).u == w.u,
        f.content.len() > 0 || f.loot.len() > 0 ==> forall|ci: int|
            0 <= ci < w.u.len() ==> !#[trigger] before_master(w.u, b, f.content, f.loot, ci),
        f.conflicts matches Some(c) ==> forall|k: int|
            0 <= k < duels_from(w.u, c, b.label, 0, 1, Seq::empty(), w.plan).0.len() ==> !loses(
                w.u,
                b,
                #[trigger] duels_from(w.u, c, b.label, 0, 1, Seq::empty(), w.plan).0[k],
            ),
{
    let a = by_rules(w, f, b);
    let c = if f.content.len() > 0 || f.loot.len() > 0 {
        parents_sweeps(a, b, f.content, f.loot, 6)
    } else {
        a
    };
    if f.content.len() > 0 || f.loot.len() > 0 {
        lemma_sweep_at_rest(a, b, f.content, f.loot, a.u.len() as int);
        assert(c == a);
    }
    let d = match f.census {
        Some(census) => esm_steps(c, b, census, 6),
        None => c,
    };
    assert(d == a);
    match f.conflicts {
        Some(x) => {
            let (duels, plan) = duels_from(d.u, x, b.label, 0, 1, Seq::empty(), d.plan);
            let e = Work { plan, ..d };
            lemma_duel_flag(e, a, duels, b, duels.len() as int);
            lemma_duels_at_rest(e, duels, b, duels.len() as int);
            lemma_duels_by_order(
                w.u,
                x,
                b.label,
                b.label,
                0,
                1,
                Seq::empty(),
                a.plan,
                w.plan,
            );
            assert(by_conflicts(d, f, b) == e);
        },
        None => {},
    }
}

// ---- slots and rows ----

proof fn lemma_free_gaps(owner: Seq<Option<EntryView>>, n: int)
    requires
        0 <= n <= owner.len(),
    ensures
        free_first(owner, n).len() + gaps(owner, n) == gaps(owner, 0),
    decreases n,
{
    if n > 0 {
        lemma_free_gaps(owner, n - 1);
    }
}

/// A free slot is one that nobody holds, at its rank among the free ones.
proof fn lemma_free(owner: Seq<Option<EntryView>>, n: int, r: int)
    requires
        0 <= n <= owner.len() <= usize::MAX,
        0 <= r < free_first(owner, n).len(),
    ensures
        free_first(owner, n)[r] < n,
        owner[free_first(owner, n)[r] as int] is None,
        free_first(owner, free_first(owner, n)[r] as int).len() == r,
    decreases n,
{
    if n > 0 {
        if r < free_first(owner, n - 1).len() {
            lemma_free(owner, n - 1, r);
        }
    }
}

/// A slot that nobody holds is free, at that rank.
proof fn lemma_free_slot(owner: Seq<Option<EntryView>>, n: int, t: int)
    requires
        0 <= t < n <= owner.len() <= usize::MAX,
        owner[t] is None,
    ensures
        free_first(owner, t).len() < free_first(owner, n).len(),
        free_first(owner, n)[free_first(owner, t).len() as int] == t,
    decreases n,
{
    if t < n - 1 {
        lemma_free_slot(owner, n - 1, t);
    }
}

proof fn lemma_rank(free: Seq<usize>, r: int, i: int)
    requires
        0 <= i <= r < free.len(),
        forall|k: int| i <= k < r ==> #[trigger] free[k] != free[r],
    ensures
        rank_from(free, free[r], i) == Some(r),
    decreases r - i,
{
    if i < r {
        lemma_rank(free, r, i + 1);
    }
}

/// With a loose mod for every free slot each slot comes out filled.
proof fn lemma_filled_slots(owner: Seq<Option<EntryView>>, u: Mods, slot: int, done: Mods)
    requires
        0 <= slot <= owner.len() <= usize::MAX,
        done.len() == slot,
        free_first(owner, owner.len() as int).len() == u.len(),
    ensures
        ({
            let out = filled(owner, u, slot, free_first(owner, slot).len() as int, done);
            &&& out.len() == owner.len()
            &&& forall|t: int| 0 <= t < slot ==> out[t] == done[t]
            &&& forall|t: int|
                slot <= t < owner.len() ==> #[trigger] out[t] == (match owner[t] {
                    Some(m) => m,
                    None => u[free_first(owner, t).len() as int],
                })
        }),
    decreases owner.len() - slot,
{
    let k = free_first(owner, slot).len() as int;
    if slot < owner.len() {
        match owner[slot] {
            Some(m) => {
                lemma_filled_slots(owner, u, slot + 1, done.push(m));
            },
            None => {
                lemma_free_slot(owner, owner.len() as int, slot);
                lemma_filled_slots(owner, u, slot + 1, done.push(u[k]));
            },
        }
    } else {
        assert(u.skip(k) =~= Seq::<EntryView>::empty());
        assert(done + u.skip(k) =~= done);
    }
}

/// A section with its loose mods put into the free slots: `out` is its load order.
pub open spec fn laid_out(out: Mods, b: Bench, u: Mods, fixed: Seq<Seq<char>>) -> bool {
    let n = b.owner.len() as int;
    &&& n <= usize::MAX
    &&& b == bench(b.label, b.owner)
    &&& b.free.len() == u.len()
    &&& out.len() == n
    &&& singly_named(out)
    &&& forall|t: int|
        0 <= t < n ==> #[trigger] out[t] == (match b.owner[t] {
            Some(m) => m,
            None => u[free_first(b.owner, t).len() as int],
        })
    &&& forall|t: int|
        0 <= t < n ==> ((#[trigger] b.owner[t]) is Some <==> fixed.contains(out[t].name))
}

proof fn lemma_pinned(b: Bench, out: Mods, u: Mods, fixed: Seq<Seq<char>>, n: int, t: int)
    requires
        laid_out(out, b, u, fixed),
        0 <= n <= b.owner.len(),
        0 <= t < out.len(),
    ensures
        found(pinned_first(b.owner, n), out[t].name) == (if t < n && b.owner[t] is Some {
            Some(t as usize)
        } else {
            None
        }),
    decreases n,
{
    if n > 0 {
        lemma_pinned(b, out, u, fixed, n - 1, t);
        match b.owner[n - 1] {
            Some(m) => {
                assert(out[n - 1] == m);
                insert_then_get(pinned_first(b.owner, n - 1), m.name, (n - 1) as usize, out[t].name);
                if n - 1 < t {
                    assert(out[n - 1].name != out[t].name);
                } else if t < n - 1 {
                    assert(out[t].name != out[n - 1].name);
                }
            },
            None => {},
        }
    } else {
        lemma_key_from(pinned_first(b.owner, n), out[t].name, 0);
    }
}

/// A loose mod stands at the slot of its rank.
proof fn lemma_loose_at(out: Mods, b: Bench, u: Mods, fixed: Seq<Seq<char>>, r: int)
    requires
        laid_out(out, b, u, fixed),
        0 <= r < u.len(),
    ensures
        slot_at(b.free, r) == b.free[r],
        b.free[r] < out.len(),
        b.owner[b.free[r] as int] is None,
        out[b.free[r] as int] == u[r],
        !fixed.contains(u[r].name),
{
    let n = b.owner.len() as int;
    lemma_free(b.owner, n, r);
    let t = b.free[r] as int;
    assert(out[t] == u[r]);
    assert(b.owner[t] is Some <==> fixed.contains(out[t].name));
}

/// The slot of a mod is the row at which it comes out.
proof fn lemma_slot_of(out: Mods, b: Bench, u: Mods, fixed: Seq<Seq<char>>, t: int)
    requires
        laid_out(out, b, u, fixed),
        0 <= t < out.len(),
    ensures
        slot_of(b, u, out[t].name) == Some(t as usize),
        name_at(b, u, t) == Some(out[t].name),
        b.owner[t] is None ==> ({
            let r = free_first(b.owner, t).len() as int;
            0 <= r < u.len() && u[r] == out[t] && b.free[r] == t && mod_from(u, out[t].name, 0)
                == Some(r)
        }),
{
    let n = b.owner.len() as int;
    lemma_pinned(b, out, u, fixed, n, t);
    if b.owner[t] is None {
        let r = free_first(b.owner, t).len() as int;
        lemma_free_slot(b.owner, n, t);
        assert(out[t] == u[r]);
        lemma_mod_from(u, out[t].name, 0);
        if mod_from(u, out[t].name, 0) is None {
            assert(u[r].name != out[t].name);
        }
        let x = mod_from(u, out[t].name, 0)->0;
        lemma_loose_at(out, b, u, fixed, x);
        lemma_loose_at(out, b, u, fixed, r);
        let y = b.free[x] as int;
        assert(out[y].name == out[t].name);
        if y < t {
            assert(out[y].name != out[t].name);
        } else if t < y {
            assert(out[t].name != out[y].name);
        }
        lemma_free(b.owner, n, x);
        assert(x == r);
        assert forall|k: int| 0 <= k < r implies #[trigger] b.free[k] != b.free[r] by {
            lemma_free(b.owner, n, k);
            lemma_free(b.owner, n, r);
        }
        lemma_rank(b.free, r, 0);
    }
}

// ---- what rest means for the rows ----

/// The mod must load after the other: the other provides one of its plugin masters, or
/// LOOT says so.
pub open spec fn must_follow(f: Facts, child: Seq<char>, parent: Seq<char>) -> bool {
    (found(f.content, child) matches Some(ps) && ps.contains(parent)) || (found(f.loot, child)
        matches Some(ps) && ps.contains(parent))
}

proof fn lemma_latest(ps: Seq<Seq<char>>, b: Bench, u: Mods, n: int, k: int)
    requires
        0 <= k < n <= ps.len(),
        slot_of(b, u, ps[k]) is Some,
    ensures
        latest_first(ps, b, u, n) matches Some(x) && x >= slot_of(b, u, ps[k])->0,
    decreases n,
{
    if k < n - 1 {
        lemma_latest(ps, b, u, n - 1, k);
    }
}

proof fn lemma_latest_parent(
    ps: Option<Seq<Seq<char>>>,
    b: Bench,
    u: Mods,
    parent: Seq<char>,
)
    requires
        ps matches Some(list) && list.contains(parent),
        slot_of(b, u, parent) is Some,
    ensures
        latest_parent(ps, b, u) matches Some(x) && x >= slot_of(b, u, parent)->0,
{
    let list = ps->0;
    let k = choose|k: int| 0 <= k < list.len() && list[k] == parent;
    lemma_latest(list, b, u, list.len() as int, k);
}

proof fn lemma_behind_masters(
    out: Mods,
    b: Bench,
    u: Mods,
    fixed: Seq<Seq<char>>,
    f: Facts,
    t: int,
    y: int,
)
    requires
        laid_out(out, b, u, fixed),
        0 <= t < out.len(),
        0 <= y < out.len(),
        t != y,
        !fixed.contains(out[t].name),
        must_follow(f, out[t].name, out[y].name),
        forall|ci: int|
            0 <= ci < u.len() ==> !#[trigger] before_master(u, b, f.content, f.loot, ci),
    ensures
        y < t,
{
    assert(b.owner[t] is Some <==> fixed.contains(out[t].name));
    lemma_slot_of(out, b, u, fixed, t);
    lemma_slot_of(out, b, u, fixed, y);
    let r = free_first(b.owner, t).len() as int;
    lemma_loose_at(out, b, u, fixed, r);
    let name = out[t].name;
    if found(f.content, name) matches Some(ps) && ps.contains(out[y].name) {
        lemma_latest_parent(found(f.content, name), b, u, out[y].name);
    } else {
        lemma_latest_parent(found(f.loot, name), b, u, out[y].name);
    }
    assert(!before_master(u, b, f.content, f.loot, r));
}

proof fn lemma_last_esm(b: Bench, u: Mods, census: CensusView, n: int, y: int)
    requires
        0 <= y < n <= b.owner.len() <= usize::MAX,
        esm_at(b, u, census, y),
    ensures
        last_esm_first(b, u, census, n) matches Some(x) && x >= y,
    decreases n,
{
    if !esm_at(b, u, census, n - 1) {
        lemma_last_esm(b, u, census, n - 1, y);
    }
}

proof fn lemma_not_early(b: Bench, u: Mods, census: CensusView, slot: usize, i: int, r: int)
    requires
        0 <= i <= r < u.len(),
        early_from(b, u, census, slot, i) is None,
    ensures
        is_esm_entry_of(u[r].name, Some(census)) || slot_at(b.free, r) >= slot,
    decreases r - i,
{
    if i < r {
        lemma_not_early(b, u, census, slot, i + 1, r);
    }
}

proof fn lemma_behind_master_files(
    out: Mods,
    b: Bench,
    u: Mods,
    fixed: Seq<Seq<char>>,
    census: CensusView,
    t: int,
    y: int,
)
    requires
        laid_out(out, b, u, fixed),
        0 <= t < out.len(),
        0 <= y < out.len(),
        !fixed.contains(out[t].name),
        !is_esm_entry_of(out[t].name, Some(census)),
        is_esm_entry_of(out[y].name, Some(census)),
        last_esm_first(b, u, census, b.owner.len() as int) matches Some(latest) ==> early_from(
            b,
            u,
            census,
            latest,
            0,
        ) is None,
    ensures
        y < t,
{
    assert(b.owner[t] is Some <==> fixed.contains(out[t].name));
    lemma_slot_of(out, b, u, fixed, t);
    lemma_slot_of(out, b, u, fixed, y);
    let r = free_first(b.owner, t).len() as int;
    lemma_loose_at(out, b, u, fixed, r);
    lemma_last_esm(b, u, census, b.owner.len() as int, y);
    let latest = last_esm_first(b, u, census, b.owner.len() as int)->0;
    lemma_not_early(b, u, census, latest, 0, r);
}

proof fn lemma_patch_wins(
    out: Mods,
    b: Bench,
    u: Mods,
    fixed: Seq<Seq<char>>,
    d: DuelView,
    t: int,
    y: int,
)
    requires
        laid_out(out, b, u, fixed),
        0 <= t < out.len(),
        0 <= y < out.len(),
        t != y,
        !fixed.contains(out[t].name),
        out[t].name == d.patch,
        out[y].name == d.base,
        !loses(u, b, d),
    ensures
        y < t,
{
    assert(b.owner[t] is Some <==> fixed.contains(out[t].name));
    lemma_slot_of(out, b, u, fixed, t);
    lemma_slot_of(out, b, u, fixed, y);
}

/// The loose mods of what comes out are those that went in.
proof fn lemma_loose_out(out: Mods, b: Bench, u: Mods, fixed: Seq<Seq<char>>, n: int)
    requires
        laid_out(out, b, u, fixed),
        0 <= n <= out.len(),
    ensures
        free_first(b.owner, n).len() <= u.len(),
        loose_first(out, fixed, n) == u.take(free_first(b.owner, n).len() as int),
    decreases n,
{
    if n > 0 {
        lemma_loose_out(out, b, u, fixed, n - 1);
        let k = free_first(b.owner, n - 1).len() as int;
        assert(b.owner[n - 1] is Some <==> fixed.contains(out[n - 1].name));
        if b.owner[n - 1] is None {
            lemma_free_slot(b.owner, b.owner.len() as int, n - 1);
            assert(out[n - 1] == u[k]);
            assert(u.take(k + 1) =~= u.take(k).push(u[k]));
        }
    } else {
        assert(u.take(0) =~= Seq::<EntryView>::empty());
    }
}

// ---- a section ----

/// The rounds of a section end with one in which no pass moves a mod.
pub open spec fn comes_to_rest(
    label: Seq<char>,
    mods: Mods,
    f: Facts,
    known: Known,
    kw: KeywordsView,
    solo: bool,
    plan: PlanView,
) -> bool {
    let grouped = grouped_mods(mods, f, known, kw, solo);
    let s = slots_first(
        grouped,
        name_places(mods.reverse()),
        fixed_of(f.rules),
        grouped.len() as int,
    );
    let b = bench(label, s.owner);
    quiet(last_round(Work { u: s.loose, plan }, f, b, 6), f, b)
}

/// The rows of a section meet every constraint on its order. A row that stands before
/// another in the file loads after it. Mods that an exact rule fixes are exempt, and a
/// patch has to win the first of its duels.
pub open spec fn all_met(file: Mods, f: Facts) -> bool {
    let fixed = fixed_of(f.rules);
    &&& forall|i: int, j: int|
        #![trigger file[i], file[j]]
        0 <= i < file.len() && 0 <= j < file.len() && i != j && !fixed.contains(file[i].name)
            && must_follow(f, file[i].name, file[j].name) ==> i < j
    &&& f.census matches Some(census) ==> forall|i: int, j: int|
        #![trigger file[i], file[j]]
        0 <= i < file.len() && 0 <= j < file.len() && !fixed.contains(file[i].name)
            && !is_esm_entry_of(file[i].name, f.census) && is_esm_entry_of(file[j].name, f.census)
            ==> i < j
    &&& f.conflicts matches Some(c) ==> forall|i: int, j: int, k: int|
        #![trigger file[i], file[j], duels_of(loose_mods(file, fixed), c)[k]]
        0 <= i < file.len() && 0 <= j < file.len() && i != j && !fixed.contains(file[i].name)
            && 0 <= k < duels_of(loose_mods(file, fixed), c).len() && duels_of(
            loose_mods(file, fixed),
            c,
        )[k].patch == file[i].name && duels_of(loose_mods(file, fixed), c)[k].base == file[j].name
            ==> i < j
}

/// The duels between loose mods, one for each patch.
pub open spec fn duels_of(u: Mods, c: ConflictView) -> Seq<DuelView> {
    duels_from(u, c, Seq::empty(), 0, 1, Seq::empty(), blank_plan()).0
}

pub open spec fn blank_plan() -> PlanView {
    PlanView {
        sections: Seq::empty(),
        parking: Seq::empty(),
        log: Seq::empty(),
        trace: Seq::empty(),
        out: Seq::empty(),
        seen: Seq::empty(),
        changes: 0,
    }
}

/// How a section comes out: what stands at which slot.
proof fn lemma_laid_out(
    label: Seq<char>,
    mods: Mods,
    f: Facts,
    known: Known,
    kw: KeywordsView,
    solo: bool,
    plan: PlanView,
)
    requires
        0 < mods.len() <= usize::MAX,
        singly_named(mods),
    ensures
        ({
            let fixed = fixed_of(f.rules);
            let grouped = grouped_mods(mods, f, known, kw, solo);
            let s = slots_first(grouped, name_places(mods.reverse()), fixed, grouped.len() as int);
            let b = bench(label, s.owner);
            let u = rounds(Work { u: s.loose, plan }, f, b, 6).u;
            let out = arranged(label, mods, f, known, kw, fixed, solo, plan).0.reverse();
            laid_out(out, b, u, fixed)
        }),
{
    broadcast use {vstd::multiset::group_multiset_axioms, vstd::seq_lib::group_to_multiset_ensures};

    let fixed = fixed_of(f.rules);
    let work = mods.reverse();
    let grouped = grouped_mods(mods, f, known, kw, solo);
    let n = grouped.len() as int;
    let s = slots_first(grouped, name_places(work), fixed, n);
    let b = bench(label, s.owner);
    let w = rounds(Work { u: s.loose, plan }, f, b, 6);
    let file = arranged(label, mods, f, known, kw, fixed, solo, plan).0;
    let out = filled(s.owner, w.u, 0, 0, Seq::empty());
    assert(out.reverse().reverse() =~= out);
    mods.lemma_reverse_to_multiset();
    families_keep(work, crate::place::parents_of(work, f.content, known, kw));
    lemma_slots(work, grouped, fixed, n);
    rounds_keep(Work { u: s.loose, plan }, f, b, 6);
    assert(grouped.take(n) =~= grouped);
    vstd::seq_lib::to_multiset_len(grouped);
    vstd::seq_lib::to_multiset_len(s.loose);
    vstd::seq_lib::to_multiset_len(w.u);
    lemma_gaps(s.owner, 0);
    assert(held(s.owner, 0).len() + s.loose.len() == grouped.len());
    lemma_free_gaps(s.owner, n);
    assert(b.free.len() == w.u.len());
    lemma_filled_slots(s.owner, w.u, 0, Seq::empty());

    // The names differ.
    lemma_arranged(label, mods, f, known, kw, fixed, solo, plan);
    file.lemma_reverse_to_multiset();
    let all = names(mods);
    assert forall|i: int, j: int|
        #![trigger mods[i], mods[j]]
        0 <= i < j < mods.len() && all.contains(mods[i].name) implies mods[i].name
        != mods[j].name by {}
    lemma_pins_differ(mods, out, all);
    assert(singly_named(out)) by {
        assert forall|i: int, j: int|
            #![trigger out[i], out[j]]
            0 <= i < j < out.len() implies out[i].name != out[j].name by {
            assert(out.contains(out[i]));
            assert(mods.to_multiset().count(out[i]) > 0);
            assert(mods.contains(out[i]));
            let k = choose|k: int| 0 <= k < mods.len() && mods[k] == out[i];
            assert(all[k] == out[i].name);
            assert(all.contains(out[i].name));
        }
    }
    lemma_pins_differ(mods, grouped, fixed);

    // Only fixed mods hold slots, and no loose mod is fixed.
    assert forall|t: int| 0 <= t < n implies ((#[trigger] b.owner[t]) is Some <==> fixed.contains(
        out[t].name,
    )) by {
        if b.owner[t] is Some {
            assert(out[t] == s.owner[t]->0);
        } else {
            lemma_free_slot(s.owner, n, t);
            let r = free_first(s.owner, t).len() as int;
            let x = w.u[r];
            assert(out[t] == x);
            assert(w.u.contains(x));
            assert(s.loose.to_multiset().count(x) > 0);
            assert(s.loose.contains(x));
            let q = choose|q: int| 0 <= q < s.loose.len() && s.loose[q] == x;
            assert(!fixed.contains(s.loose[q].name));
        }
    }
}

/// Where the last round moves no mod, the order of the section meets every constraint:
/// each mod loads after its masters, after the master files, and each patch after the
/// mod that it must win over.
pub proof fn constraints_hold_at_rest(
    label: Seq<char>,
    mods: Mods,
    f: Facts,
    known: Known,
    kw: KeywordsView,
    solo: bool,
    plan: PlanView,
)
    requires
        mods.len() <= usize::MAX,
        singly_named(mods),
        comes_to_rest(label, mods, f, known, kw, solo, plan),
    ensures
        all_met(arranged(label, mods, f, known, kw, fixed_of(f.rules), solo, plan).0, f),
{
    let fixed = fixed_of(f.rules);
    let file = arranged(label, mods, f, known, kw, fixed, solo, plan).0;
    if mods.len() > 0 {
        let grouped = grouped_mods(mods, f, known, kw, solo);
        let s = slots_first(grouped, name_places(mods.reverse()), fixed, grouped.len() as int);
        let b = bench(label, s.owner);
        let start = Work { u: s.loose, plan };
        let v = last_round(start, f, b, 6);
        let u = v.u;
        lemma_last_round(start, f, b, 6);
        lemma_quiet(v, f, b);
        lemma_laid_out(label, mods, f, known, kw, solo, plan);
        let out = file.reverse();
        let n = file.len() as int;
        assert(laid_out(out, b, u, fixed));
        lemma_loose_out(out, b, u, fixed, out.len() as int);
        assert(u.take(u.len() as int) =~= u);
        assert(loose_mods(file, fixed) == u);
        assert forall|i: int, j: int|
            #![trigger file[i], file[j]]
            0 <= i < file.len() && 0 <= j < file.len() && i != j && !fixed.contains(file[i].name)
                && must_follow(f, file[i].name, file[j].name) implies i < j by {
            assert(out[n - 1 - i] == file[i] && out[n - 1 - j] == file[j]);
            if f.content.len() == 0 && f.loot.len() == 0 {
                lemma_key_from(f.content, file[i].name, 0);
                lemma_key_from(f.loot, file[i].name, 0);
            } else {
                lemma_behind_masters(out, b, u, fixed, f, n - 1 - i, n - 1 - j);
            }
        }
        if f.census is Some {
            let census = f.census->0;
            assert forall|i: int, j: int|
                #![trigger file[i], file[j]]
                0 <= i < file.len() && 0 <= j < file.len() && !fixed.contains(file[i].name)
                    && !is_esm_entry_of(file[i].name, f.census) && is_esm_entry_of(
                    file[j].name,
                    f.census,
                ) implies i < j by {
                assert(out[n - 1 - i] == file[i] && out[n - 1 - j] == file[j]);
                lemma_behind_master_files(out, b, u, fixed, census, n - 1 - i, n - 1 - j);
            }
        }
        if f.conflicts is Some {
            let c = f.conflicts->0;
            lemma_duels_by_order(
                u,
                c,
                label,
                Seq::empty(),
                0,
                1,
                Seq::empty(),
                v.plan,
                blank_plan(),
            );
            let duels = duels_of(u, c);
            assert forall|i: int, j: int, k: int|
                #![trigger file[i], file[j], duels_of(loose_mods(file, fixed), c)[k]]
                0 <= i < file.len() && 0 <= j < file.len() && i != j && !fixed.contains(
                    file[i].name,
                ) && 0 <= k < duels_of(loose_mods(file, fixed), c).len() && duels_of(
                    loose_mods(file, fixed),
                    c,
                )[k].patch == file[i].name && duels_of(loose_mods(file, fixed), c)[k].base
                    == file[j].name implies i < j by {
                assert(out[n - 1 - i] == file[i] && out[n - 1 - j] == file[j]);
                assert(!loses(u, b, duels[k]));
                lemma_patch_wins(out, b, u, fixed, duels[k], n - 1 - i, n - 1 - j);
            }
        }
    }
}

/// After a run every section whose rounds come to rest meets every constraint on its
/// order.
pub proof fn rested_sections_meet_their_constraints(ml: ModlistView, i: Sources, s: int)
    requires
        run_plan(ml, i) is Some,
        0 <= s < filed_plan(ml, i).sections.len(),
        filed_plan(ml, i).sections[s].mods.len() <= usize::MAX,
        singly_named(filed_plan(ml, i).sections[s].mods),
        comes_to_rest(
            filed_plan(ml, i).sections[s].label,
            filed_plan(ml, i).sections[s].mods,
            facts_of_run(ml, i),
            known_of(ml.sections, i.kw),
            i.kw,
            i.solo,
            plan_at(ml, i, s),
        ),
    ensures
        all_met(run_plan(ml, i)->0.sections[s].mods, facts_of_run(ml, i)),
{
    let section = filed_plan(ml, i).sections[s];
    lemma_section_of_run(ml, i, s);
    constraints_hold_at_rest(
        section.label,
        section.mods,
        facts_of_run(ml, i),
        known_of(ml.sections, i.kw),
        i.kw,
        i.solo,
        plan_at(ml, i, s),
    );
}

} // verus!
