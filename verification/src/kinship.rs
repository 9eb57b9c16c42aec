//! Who stands behind whom inside a section: parents by plugin and by name, master files,
//! and patches that must win the files they share.
use vstd::prelude::*;
#[allow(unused_imports)]
use crate::audit::{breach, breach_noted, pairs_audited, sections_audited, winners_audited};
#[allow(unused_imports)]
use crate::conflicts::{wins, ConflictView};
#[allow(unused_imports)]
use crate::decide::canon;
#[allow(unused_imports)]
use crate::keywords::{never_match, KeywordsView};
#[allow(unused_imports)]
use crate::loot::Edges;
#[allow(unused_imports)]
use crate::map::found;
#[allow(unused_imports)]
use crate::masters::{is_esm_entry_of, listed_or_none};
#[allow(unused_imports)]
use crate::matching::patchy;
#[allow(unused_imports)]
use crate::modlist::{EntryView, SectionView};
#[allow(unused_imports)]
use crate::ordering::before_master;
#[allow(unused_imports)]
use crate::place::{duel, duel_line, duels_from, early_from, esm_at, last_esm_first, later, latest_first, latest_parent, named_parent_first, names_patch, parent_here, parent_of, slot_at, slot_of, Bench, DuelView, Known, Mods};
#[allow(unused_imports)]
use crate::plan::{anchored, explicit, guessed, name_guessed, traced, PlanView, WhyView};
#[allow(unused_imports)]
use crate::plugins::CensusView;
#[allow(unused_imports)]
use crate::text::{begins, byte_len, contains_text, trimmed_start};

verus! {

// ---- parents by name ----

/// The mod at `j` can be the parent of the one at `i` by its name: a long canonical name
/// that the other's contains, and no rule that the two never match.
pub open spec fn can_parent(work: Mods, i: int, j: int, known: Known, kw: KeywordsView) -> bool {
    &&& 0 <= j < work.len()
    &&& j != i
    &&& canon(known, work[i]) != canon(known, work[j])
    &&& byte_len(canon(known, work[j])) >= 10
    &&& contains_text(canon(known, work[i]), canon(known, work[j]))
    &&& !never_match(kw, work[i].name, work[j].name)
}

proof fn lemma_named_parent(work: Mods, i: int, known: Known, kw: KeywordsView, n: int)
    requires
        0 <= n <= work.len() <= usize::MAX,
    ensures
        match named_parent_first(work, i, known, kw, n) {
            Some(p) => p < n && can_parent(work, i, p as int, known, kw) && forall|j: int|
                0 <= j < n && #[trigger] can_parent(work, i, j, known, kw) ==> byte_len(
                    canon(known, work[j]),
                ) < byte_len(canon(known, work[p as int])) || (byte_len(canon(known, work[j]))
                    == byte_len(canon(known, work[p as int])) && p <= j),
            None => forall|j: int| 0 <= j < n ==> !#[trigger] can_parent(work, i, j, known, kw),
        },
    decreases n,
{
    if n > 0 {
        lemma_named_parent(work, i, known, kw, n - 1);
        assert(can_parent(work, i, n - 1, known, kw) == (n - 1 != i && canon(known, work[i])
            != canon(known, work[n - 1]) && byte_len(canon(known, work[n - 1])) >= 10
            && contains_text(canon(known, work[i]), canon(known, work[n - 1])) && !never_match(
            kw,
            work[i].name,
            work[n - 1].name,
        )));
    }
}

/// Inside a section a mod's parent by name is, of all mods whose long name its own
/// contains, the one with the longest, and the first of equals.
pub proof fn longest_name_inside_is_the_parent(
    work: Mods,
    i: int,
    known: Known,
    kw: KeywordsView,
)
    requires
        work.len() <= usize::MAX,
    ensures
        match named_parent_first(work, i, known, kw, work.len() as int) {
            Some(p) => can_parent(work, i, p as int, known, kw) && forall|j: int|
                #[trigger] can_parent(work, i, j, known, kw) ==> byte_len(canon(known, work[j]))
                    < byte_len(canon(known, work[p as int])) || (byte_len(canon(known, work[j]))
                    == byte_len(canon(known, work[p as int])) && p <= j),
            None => forall|j: int| !#[trigger] can_parent(work, i, j, known, kw),
        },
{
    lemma_named_parent(work, i, known, kw, work.len() as int);
}

proof fn lemma_parent_here(ps: Seq<Seq<char>>, here: Seq<(Seq<char>, usize)>, i: int)
    requires
        0 <= i <= ps.len(),
        forall|j: int| 0 <= j < i ==> found(here, #[trigger] ps[j]) is None,
    ensures
        match parent_here(ps, here, i) {
            Some(p) => exists|k: int|
                0 <= k < ps.len() && found(here, #[trigger] ps[k]) == Some(p) && forall|j: int|
                    0 <= j < k ==> found(here, #[trigger] ps[j]) is None,
            None => forall|j: int| 0 <= j < ps.len() ==> found(here, #[trigger] ps[j]) is None,
        },
    decreases ps.len() - i,
{
    if i < ps.len() && found(here, ps[i]) is None {
        lemma_parent_here(ps, here, i + 1);
    }
}

/// A plugin master in the same section is the parent, the first that is there; only without
/// one does the name decide.
pub proof fn plugin_masters_are_parents_first(
    work: Mods,
    i: int,
    content: Edges,
    here: Seq<(Seq<char>, usize)>,
    known: Known,
    kw: KeywordsView,
)
    ensures
        ({
            let ps = listed_or_none(content, work[i].name);
            let r = parent_of(work, i, content, here, known, kw);
            if exists|k: int| 0 <= k < ps.len() && found(here, #[trigger] ps[k]) is Some {
                exists|k: int|
                    0 <= k < ps.len() && found(here, #[trigger] ps[k]) is Some && r == found(
                        here,
                        ps[k],
                    ) && forall|j: int| 0 <= j < k ==> found(here, #[trigger] ps[j]) is None
            } else {
                r == named_parent_first(work, i, known, kw, work.len() as int)
            }
        }),
{
    let ps = listed_or_none(content, work[i].name);
    lemma_parent_here(ps, here, 0);
    match found(content, work[i].name) {
        Some(l) => {
            if parent_here(ps, here, 0) is Some {
                let p = parent_here(ps, here, 0)->0;
                let k = choose|k: int|
                    0 <= k < ps.len() && found(here, #[trigger] ps[k]) == Some(p) && forall|j: int|
                        0 <= j < k ==> found(here, #[trigger] ps[j]) is None;
                assert(found(here, ps[k]) is Some);
            }
        },
        None => {},
    }
}

// ---- at rest ----

/// A parent of the mod, by either source, stands at a slot of the section.
pub open spec fn any_parent_at(
    content: Edges,
    loot: Edges,
    b: Bench,
    u: Mods,
    name: Seq<char>,
    slot: usize,
) -> bool {
    parent_at(content, b, u, name, slot) || parent_at(loot, b, u, name, slot)
}

/// A parent of the mod stands at a slot of the section.
pub open spec fn parent_at(
    edges: Edges,
    b: Bench,
    u: Mods,
    name: Seq<char>,
    slot: usize,
) -> bool {
    found(edges, name) matches Some(ps) && exists|k: int|
        0 <= k < ps.len() && slot_of(b, u, #[trigger] ps[k]) == Some(slot)
}

proof fn lemma_latest(ps: Seq<Seq<char>>, b: Bench, u: Mods, n: int)
    requires
        0 <= n <= ps.len(),
    ensures
        match latest_first(ps, b, u, n) {
            Some(s) => (exists|k: int| 0 <= k < n && slot_of(b, u, #[trigger] ps[k]) == Some(s)) && (
            forall|k: int|
                0 <= k < n ==> (slot_of(b, u, #[trigger] ps[k]) matches Some(t) ==> t <= s)),
            None => forall|k: int| 0 <= k < n ==> slot_of(b, u, #[trigger] ps[k]) is None,
        },
    decreases n,
{
    if n > 0 {
        lemma_latest(ps, b, u, n - 1);
        let before = latest_first(ps, b, u, n - 1);
        if before is Some {
            let s = before->0;
            let k = choose|k: int| 0 <= k < n - 1 && slot_of(b, u, #[trigger] ps[k]) == Some(s);
            assert(slot_of(b, u, ps[k]) == Some(s));
        }
        assert(slot_of(b, u, ps[n - 1]) == slot_of(b, u, ps[n - 1]));
    }
}

proof fn lemma_latest_parent(edges: Edges, b: Bench, u: Mods, name: Seq<char>)
    ensures
        match latest_parent(found(edges, name), b, u) {
            Some(s) => parent_at(edges, b, u, name, s) && forall|t: usize|
                #[trigger] parent_at(edges, b, u, name, t) ==> t <= s,
            None => forall|t: usize| !#[trigger] parent_at(edges, b, u, name, t),
        },
{
    match found(edges, name) {
        Some(ps) => {
            lemma_latest(ps, b, u, ps.len() as int);
        },
        None => {},
    }
}

/// A mod stands before a master exactly where one of its parents, by the plugin headers or
/// by the masterlist, has a later slot.
pub proof fn early_mods_have_a_later_parent(
    u: Mods,
    b: Bench,
    content: Edges,
    loot: Edges,
    ci: int,
)
    ensures
        before_master(u, b, content, loot, ci) == exists|s: usize|
            slot_at(b.free, ci) < s && #[trigger] any_parent_at(
                content,
                loot,
                b,
                u,
                u[ci].name,
                s,
            ),
{
    let name = u[ci].name;
    lemma_latest_parent(content, b, u, name);
    lemma_latest_parent(loot, b, u, name);
    let x = latest_parent(found(content, name), b, u);
    let y = latest_parent(found(loot, name), b, u);
    let at = slot_at(b.free, ci);
    if exists|s: usize| at < s && #[trigger] any_parent_at(content, loot, b, u, name, s) {
        let s = choose|s: usize| at < s && #[trigger] any_parent_at(content, loot, b, u, name, s);
        if parent_at(content, b, u, name, s) {
            assert(x is Some && s <= x->0);
        } else {
            assert(parent_at(loot, b, u, name, s));
            assert(y is Some && s <= y->0);
        }
        assert(before_master(u, b, content, loot, ci));
    }
    if before_master(u, b, content, loot, ci) {
        let s = later(x, y)->0;
        assert(any_parent_at(content, loot, b, u, name, s));
    }
}

proof fn lemma_last_esm(b: Bench, u: Mods, census: CensusView, n: int)
    requires
        0 <= n <= usize::MAX,
    ensures
        match last_esm_first(b, u, census, n) {
            Some(s) => s < n && esm_at(b, u, census, s as int) && forall|t: int|
                s < t < n ==> !#[trigger] esm_at(b, u, census, t),
            None => forall|t: int| 0 <= t < n ==> !#[trigger] esm_at(b, u, census, t),
        },
    decreases n,
{
    if n > 0 {
        lemma_last_esm(b, u, census, n - 1);
    }
}

proof fn lemma_early(b: Bench, u: Mods, census: CensusView, slot: usize, i: int)
    requires
        0 <= i <= u.len(),
    ensures
        early_from(b, u, census, slot, i) is None ==> forall|r: int|
            i <= r < u.len() && !is_esm_entry_of((#[trigger] u[r]).name, Some(census))
                ==> slot_at(b.free, r) >= slot,
        early_from(b, u, census, slot, i) matches Some(r) ==> i <= r < u.len() && !is_esm_entry_of(
            u[r].name,
            Some(census),
        ) && slot_at(b.free, r) < slot,
    decreases u.len() - i,
{
    if i < u.len() {
        lemma_early(b, u, census, slot, i + 1);
    }
}

/// Nothing is left to move for the sake of master files exactly where every mod that is
/// none stands at or behind each slot with one.
pub proof fn master_files_come_before_the_rest(b: Bench, u: Mods, census: CensusView)
    requires
        b.owner.len() <= usize::MAX,
    ensures
        (match last_esm_first(b, u, census, b.owner.len() as int) {
            Some(latest) => early_from(b, u, census, latest, 0) is None,
            None => true,
        }) == forall|r: int, s: int|
            0 <= r < u.len() && 0 <= s < b.owner.len() && !is_esm_entry_of(
                (#[trigger] u[r]).name,
                Some(census),
            ) && #[trigger] esm_at(b, u, census, s) ==> slot_at(b.free, r) >= s,
{
    let n = b.owner.len() as int;
    lemma_last_esm(b, u, census, n);
    match last_esm_first(b, u, census, n) {
        Some(latest) => {
            lemma_early(b, u, census, latest, 0);
            if early_from(b, u, census, latest, 0) is Some {
                let r = early_from(b, u, census, latest, 0)->0;
                assert(esm_at(b, u, census, latest as int));
                assert(u[r] == u[r]);
            }
        },
        None => {},
    }
}

// ---- patches ----

/// How many files two mods share, whichever of them wins.
pub open spec fn shares(c: ConflictView, a: Seq<char>, b: Seq<char>) -> Option<u32> {
    if wins(c.pairs, a, b) is Some {
        wins(c.pairs, a, b)
    } else {
        wins(c.pairs, b, a)
    }
}

/// Of two ticked mods that share three files or more, the first is a patch and the second
/// is none.
pub open spec fn must_win(p: EntryView, o: EntryView, c: ConflictView, shared: u32) -> bool {
    &&& begins(trimmed_start(p.raw), "+"@)
    &&& begins(trimmed_start(o.raw), "+"@)
    &&& shared >= 3
    &&& patchy(p.lower)
    &&& !patchy(o.lower)
    &&& shares(c, p.name, o.name) == Some(shared) || shares(c, o.name, p.name) == Some(shared)
}

proof fn lemma_duel(a: EntryView, b: EntryView, c: ConflictView)
    ensures
        match duel(a, b, c) {
            Some(d) => (d.patch == a.name && d.base == b.name && must_win(a, b, c, d.shared)) || (
            d.patch == b.name && d.base == a.name && must_win(b, a, c, d.shared)),
            None => shares(c, a.name, b.name) matches Some(s) ==> !must_win(a, b, c, s)
                && !must_win(b, a, c, s),
        },
        duel(a, b, c) matches Some(d) ==> Some(d.shared) == shares(c, a.name, b.name),
{
}

/// The pair of places, and who of the two is the patch.
pub open spec fn duel_of(u: Mods, c: ConflictView, i: int, j: int, d: DuelView) -> bool {
    shares(c, u[i].name, u[j].name) == Some(d.shared) && {
        ||| d.patch == u[i].name && d.base == u[j].name && must_win(u[i], u[j], c, d.shared)
        ||| d.patch == u[j].name && d.base == u[i].name && must_win(u[j], u[i], c, d.shared)
    }
}

/// A pair in which one must win.
pub open spec fn is_duel(u: Mods, c: ConflictView, i: int, j: int) -> bool {
    exists|d: DuelView| duel_of(u, c, i, j, d)
}

proof fn lemma_is_duel(u: Mods, c: ConflictView, i: int, j: int)
    ensures
        match duel(u[i], u[j], c) {
            Some(d) => duel_of(u, c, i, j, d) && forall|e: DuelView|
                duel_of(u, c, i, j, e) ==> e.patch == d.patch,
            None => !is_duel(u, c, i, j),
        },
{
    lemma_duel(u[i], u[j], c);
    if duel(u[i], u[j], c) is None && is_duel(u, c, i, j) {
        let d = choose|d: DuelView| duel_of(u, c, i, j, d);
    }
}

/// All duels found are duels of pairs, and no patch has two.
spec fn duels_true(u: Mods, c: ConflictView, duels: Seq<DuelView>) -> bool {
    forall|k: int| 0 <= k < duels.len() ==> comes_of_a_pair(u, c, #[trigger] duels[k])
}

/// The duel is that of two of the mods.
pub open spec fn comes_of_a_pair(u: Mods, c: ConflictView, d: DuelView) -> bool {
    exists|i: int, j: int| 0 <= i < j < u.len() && #[trigger] duel_of(u, c, i, j, d)
}

/// The patch of a pair has a duel.
pub open spec fn is_settled(u: Mods, c: ConflictView, i: int, j: int, duels: Seq<DuelView>) -> bool {
    is_duel(u, c, i, j) ==> exists|k: int, d: DuelView|
        #![trigger duels[k], duel_of(u, c, i, j, d)]
        0 <= k < duels.len() && duel_of(u, c, i, j, d) && duels[k].patch == d.patch
}

proof fn lemma_grow(u: Mods, c: ConflictView, i: int, j: int, duels: Seq<DuelView>, d: DuelView)
    requires
        is_settled(u, c, i, j, duels),
    ensures
        is_settled(u, c, i, j, duels.push(d)),
{
    let more = duels.push(d);
    if is_duel(u, c, i, j) {
        let (k, e) = choose|k: int, e: DuelView|
            #![trigger duels[k], duel_of(u, c, i, j, e)]
            0 <= k < duels.len() && duel_of(u, c, i, j, e) && duels[k].patch == e.patch;
        assert(more[k] == duels[k]);
        assert(duel_of(u, c, i, j, e));
    }
}

spec fn passed(i: int, j: int, x: int, y: int, n: int) -> bool {
    0 <= x < y < n && (x < i || (x == i && y < j))
}

proof fn lemma_duels(
    u: Mods,
    c: ConflictView,
    label: Seq<char>,
    i: int,
    j: int,
    duels: Seq<DuelView>,
    plan: PlanView,
)
    requires
        0 <= i < j,
        duels_true(u, c, duels),
        forall|x: int, y: int| #[trigger]
            passed(i, j, x, y, u.len() as int) ==> is_settled(u, c, x, y, duels),
    ensures
        ({
            let r = duels_from(u, c, label, i, j, duels, plan).0;
            &&& duels_true(u, c, r)
            &&& forall|x: int, y: int|
                0 <= x < y < u.len() ==> #[trigger] is_settled(u, c, x, y, r)
        }),
    decreases u.len() - i, u.len() - j,
{
    let n = u.len() as int;
    if i >= n {
        assert forall|x: int, y: int| 0 <= x < y < u.len() implies #[trigger] is_settled(
            u,
            c,
            x,
            y,
            duels,
        ) by {
            assert(passed(i, j, x, y, n));
        }
    } else if j >= n {
        assert forall|x: int, y: int| #[trigger]
            passed(i + 1, i + 2, x, y, n) implies is_settled(u, c, x, y, duels) by {
            assert(passed(i, j, x, y, n));
        }
        lemma_duels(u, c, label, i + 1, i + 2, duels, plan);
    } else {
        lemma_is_duel(u, c, i, j);
        match duel(u[i], u[j], c) {
            Some(d) => {
                if names_patch(duels, d.patch) {
                    let k = choose|k: int|
                        0 <= k < duels.len() && (#[trigger] duels[k]).patch == d.patch;
                    assert(duel_of(u, c, i, j, d) && duels[k].patch == d.patch);
                    assert(is_settled(u, c, i, j, duels));
                    assert forall|x: int, y: int| #[trigger]
                        passed(i, j + 1, x, y, n) implies is_settled(u, c, x, y, duels) by {
                        if !(x == i && y == j) {
                            assert(passed(i, j, x, y, n));
                        }
                    }
                    lemma_duels(u, c, label, i, j + 1, duels, plan);
                } else {
                    let more = duels.push(d);
                    assert(more[duels.len() as int] == d);
                    assert(is_settled(u, c, i, j, more)) by {
                        assert(duel_of(u, c, i, j, d) && more[duels.len() as int].patch
                            == d.patch);
                    }
                    assert(duels_true(u, c, more)) by {
                        assert forall|k: int| 0 <= k < more.len() implies comes_of_a_pair(
                            u,
                            c,
                            #[trigger] more[k],
                        ) by {
                            if k < duels.len() {
                                assert(more[k] == duels[k]);
                            } else {
                                assert(duel_of(u, c, i, j, more[k]));
                            }
                        }
                    }
                    assert forall|x: int, y: int| #[trigger]
                        passed(i, j + 1, x, y, n) implies is_settled(u, c, x, y, more) by {
                        if !(x == i && y == j) {
                            assert(passed(i, j, x, y, n));
                            lemma_grow(u, c, x, y, duels, d);
                        }
                    }
                    lemma_duels(u, c, label, i, j + 1, more, traced(plan, duel_line(label, d)));
                }
            },
            None => {
                assert forall|x: int, y: int| #[trigger]
                    passed(i, j + 1, x, y, n) implies is_settled(u, c, x, y, duels) by {
                    if !(x == i && y == j) {
                        assert(passed(i, j, x, y, n));
                    }
                }
                lemma_duels(u, c, label, i, j + 1, duels, plan);
            },
        }
    }
}

/// Every patch that shares three files or more with a mod that is none, both ticked, is
/// told which mod it must load behind; and nobody else is told so.
pub proof fn patches_are_told_whom_to_beat(
    u: Mods,
    c: ConflictView,
    label: Seq<char>,
    plan: PlanView,
)
    ensures
        ({
            let r = duels_from(u, c, label, 0, 1, Seq::empty(), plan).0;
            &&& forall|k: int| 0 <= k < r.len() ==> comes_of_a_pair(u, c, #[trigger] r[k])
            &&& forall|x: int, y: int|
                0 <= x < y < u.len() ==> #[trigger] is_settled(u, c, x, y, r)
        }),
{
    lemma_duels(u, c, label, 0, 1, Seq::empty(), plan);
}

// ---- the audit of winners ----

/// Of two ticked mods, `a` before `b` in the file, `b` is a patch of `a` by its name, shares
/// three files or more with it, and yet loads before it.
pub open spec fn is_breach(
    a: EntryView,
    b: EntryView,
    c: ConflictView,
    known: Known,
    kw: KeywordsView,
) -> bool {
    &&& begins(trimmed_start(a.raw), "+"@)
    &&& begins(trimmed_start(b.raw), "+"@)
    &&& !never_match(kw, a.name, b.name)
    &&& canon(known, a) != canon(known, b)
    &&& byte_len(canon(known, a)) >= 10
    &&& contains_text(canon(known, b), canon(known, a))
    &&& patchy(b.lower)
    &&& b.name != a.name
    &&& shares(c, b.name, a.name) matches Some(n) && n >= 3
}

/// How many pairs of a section, from (`i`, `j`) on, are breaches.
pub open spec fn breaches_from(
    s: SectionView,
    c: ConflictView,
    known: Known,
    kw: KeywordsView,
    i: int,
    j: int,
) -> nat
    decreases s.mods.len() - i, s.mods.len() - j,
{
    if i < 0 || i >= s.mods.len() {
        0
    } else if j >= s.mods.len() {
        breaches_from(s, c, known, kw, i + 1, i + 2)
    } else {
        breaches_from(s, c, known, kw, i, j + 1) + (if is_breach(
            s.mods[i],
            s.mods[j],
            c,
            known,
            kw,
        ) {
            1nat
        } else {
            0
        })
    }
}

pub open spec fn all_breaches(
    sections: Seq<SectionView>,
    c: ConflictView,
    known: Known,
    kw: KeywordsView,
    n: int,
) -> nat
    decreases n,
{
    if n <= 0 {
        0
    } else {
        all_breaches(sections, c, known, kw, n - 1) + breaches_from(
            sections[n - 1],
            c,
            known,
            kw,
            0,
            1,
        )
    }
}

proof fn lemma_breach(
    a: EntryView,
    b: EntryView,
    c: ConflictView,
    known: Known,
    kw: KeywordsView,
)
    ensures
        is_breach(a, b, c, known, kw) ==> breach(a, b, c, known, kw) is Some,
        breach(a, b, c, known, kw) matches Some((child, parent, shared)) ==> child == b && parent
            == a && Some(shared) == shares(c, b.name, a.name) && is_breach(a, b, c, known, kw),
{
}

proof fn lemma_pairs_audited(
    s: SectionView,
    c: ConflictView,
    known: Known,
    kw: KeywordsView,
    i: int,
    j: int,
    plan: PlanView,
)
    ensures
        pairs_audited(s, c, known, kw, i, j, plan).log.len() == plan.log.len() + breaches_from(
            s,
            c,
            known,
            kw,
            i,
            j,
        ),
    decreases s.mods.len() - i, s.mods.len() - j,
{
    if i < 0 || i >= s.mods.len() {
    } else if j >= s.mods.len() {
        lemma_pairs_audited(s, c, known, kw, i + 1, i + 2, plan);
    } else {
        lemma_breach(s.mods[i], s.mods[j], c, known, kw);
        match breach(s.mods[i], s.mods[j], c, known, kw) {
            Some((child, parent, shared)) => {
                let next = breach_noted(plan, s.label, child.name, parent.name, shared);
                lemma_pairs_audited(s, c, known, kw, i, j + 1, next);
            },
            None => {
                lemma_pairs_audited(s, c, known, kw, i, j + 1, plan);
            },
        }
    }
}

proof fn lemma_sections_audited(
    sections: Seq<SectionView>,
    c: ConflictView,
    known: Known,
    kw: KeywordsView,
    plan: PlanView,
    n: int,
)
    requires
        0 <= n <= sections.len(),
    ensures
        sections_audited(sections, c, known, kw, plan, n).log.len() == plan.log.len()
            + all_breaches(sections, c, known, kw, n),
    decreases n,
{
    if n > 0 {
        lemma_sections_audited(sections, c, known, kw, plan, n - 1);
        lemma_pairs_audited(
            sections[n - 1],
            c,
            known,
            kw,
            0,
            1,
            sections_audited(sections, c, known, kw, plan, n - 1),
        );
    }
}

/// The audit of conflict winners warns of every patch that loads before the mod it patches,
/// once for each such pair, and of nothing else.
pub proof fn lost_patches_are_warned_of(
    plan: PlanView,
    c: ConflictView,
    known: Known,
    kw: KeywordsView,
)
    ensures
        winners_audited(plan, c, known, kw).log.len() == plan.log.len() + all_breaches(
            plan.sections,
            c,
            known,
            kw,
            plan.sections.len() as int,
        ),
{
    let a = traced(plan, "\n--- audit gate: conflict winners ---"@);
    lemma_sections_audited(a.sections, c, known, kw, a, a.sections.len() as int);
}

// ---- tiers ----

/// A guess is what goes by a category's name or by a keyword; a guess by name is the former;
/// a rule that names the mod or its category is explicit; and a mod is anchored by a rule
/// that names it, or as generated output.
pub proof fn tiers_are_told_apart(w: WhyView)
    ensures
        guessed(w) == (match w {
            WhyView::CategoryExactMatch(_) => true,
            WhyView::CategoryFuzzy(_, _) => true,
            WhyView::Keyword(_) => true,
            WhyView::OutputGuard => false,
            WhyView::ExactRule => false,
            WhyView::CategoryRule(_) => false,
            WhyView::NoMatch => false,
            WhyView::FollowParent(_) => false,
        }),
        name_guessed(w) == (guessed(w) && !(w is Keyword)),
        explicit(w) == (w is ExactRule || w is CategoryRule),
        anchored(w) == (w is ExactRule || w is OutputGuard),
{
}

} // verus!
