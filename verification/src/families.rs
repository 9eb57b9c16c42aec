//! Families: which mod a patch belongs to, and that it goes where that mod goes.
use vstd::prelude::*;
#[allow(unused_imports)]
use crate::decide::{canon, decision, decisions_first, destination, family_decisions, master_first, masters_first, with_family, DecisionView, Decisions, Placed};
#[allow(unused_imports)]
use crate::feasible::{holds_mod, last_decisions, mods_of_run, names_differ, rules_in_force};
#[allow(unused_imports)]
use crate::filing::{lemma_own_decision, mods_stand_where_decided, seat, told_apart};
#[allow(unused_imports)]
use crate::keywords::{never_match, KeywordsView};
#[allow(unused_imports)]
use crate::map::{found, insert_then_get, key_from, lemma_key_at, lemma_key_from};
#[allow(unused_imports)]
use crate::matching::patchy;
#[allow(unused_imports)]
use crate::modlist::{EntryView, ModlistView, SectionView};
#[allow(unused_imports)]
use crate::categories::CategoriesView;
#[allow(unused_imports)]
use crate::rules::RulesView;
#[allow(unused_imports)]
use crate::sorter::{first_plan, known_of, opened, run_plan, Sources};
#[allow(unused_imports)]
use crate::suggest::is_dump;
#[allow(unused_imports)]
use crate::text::{byte_len, contains_text, finishes, occurs_at};

verus! {

pub type Known = Seq<(Seq<char>, Seq<char>)>;

// ---- what is a patch ----

/// A name makes a mod a patch by one of these words, wherever it stands, or by the mark of
/// the VR edition as a word of its own. Patchers that act while the game runs are none.
pub proof fn patches_are_known_by_their_words(lower: Seq<char>)
    ensures
        ({
            let runtime = contains_text(lower, "skypatcher"@);
            let words = seq!["patch"@, "add-on"@, "addon"@, "fix"@, "compendium"@, " vr "@];
            &&& !runtime && (exists|i: int| 0 <= i < words.len() && contains_text(lower, words[i]))
                ==> patchy(lower)
            &&& !runtime && finishes(lower, " vr"@) ==> patchy(lower)
            &&& runtime ==> !patchy(lower)
            &&& (forall|i: int| 0 <= i < words.len() ==> !contains_text(lower, words[i]))
                && !finishes(lower, " vr"@) ==> !patchy(lower)
        }),
{
    let words = seq!["patch"@, "add-on"@, "addon"@, "fix"@, "compendium"@, " vr "@];
    assert(words[0] == "patch"@ && words[1] == "add-on"@ && words[2] == "addon"@ && words[3]
        == "fix"@ && words[4] == "compendium"@ && words[5] == " vr "@);
}

// ---- the master of a patch ----

/// The name of `o` stands in that of `m`: its canonical letters are others, ten bytes of
/// them at least, and part of those of `m`, and no rule keeps the two apart.
pub open spec fn named_in(o: EntryView, m: EntryView, known: Known, kw: KeywordsView) -> bool {
    &&& canon(known, o) != canon(known, m)
    &&& byte_len(canon(known, o)) >= 10
    &&& contains_text(canon(known, m), canon(known, o))
    &&& !never_match(kw, o.name, m.name)
}

/// The mod at `j` is the one that `m` belongs to: no mod whose name stands in that of `m`
/// has a longer one, and none behind it has one as long.
pub open spec fn longest_named_in(
    m: EntryView,
    mods: Placed,
    known: Known,
    kw: KeywordsView,
    j: int,
) -> bool {
    &&& 0 <= j < mods.len()
    &&& named_in(mods[j].1, m, known, kw)
    &&& forall|x: int|
        0 <= x < mods.len() && named_in((#[trigger] mods[x]).1, m, known, kw) ==> byte_len(
            canon(known, mods[x].1),
        ) < byte_len(canon(known, mods[j].1)) || (byte_len(canon(known, mods[x].1)) == byte_len(
            canon(known, mods[j].1),
        ) && x <= j)
}

pub open spec fn none_named_in(m: EntryView, mods: Placed, known: Known, kw: KeywordsView) -> bool {
    forall|x: int| 0 <= x < mods.len() ==> !named_in((#[trigger] mods[x]).1, m, known, kw)
}

proof fn lemma_master(m: EntryView, mods: Placed, known: Known, kw: KeywordsView, n: int)
    requires
        0 <= n <= mods.len(),
    ensures
        match master_first(m, mods, known, kw, n) {
            Some(j) => longest_named_in(m, mods.take(n), known, kw, j),
            None => none_named_in(m, mods.take(n), known, kw),
        },
    decreases n,
{
    if n > 0 {
        lemma_master(m, mods, known, kw, n - 1);
        let (a, b) = (mods.take(n - 1), mods.take(n));
        assert forall|x: int| 0 <= x < n - 1 implies a[x] == #[trigger] b[x] by {}
        assert(b[n - 1] == mods[n - 1]);
        if master_first(m, mods, known, kw, n - 1) is Some {
            let j = master_first(m, mods, known, kw, n - 1)->0;
            assert(a[j] == b[j] && b[j] == mods[j]);
        }
        assert forall|x: int| 0 <= x < n && named_in((#[trigger] b[x]).1, m, known, kw) implies x
            == n - 1 || named_in(a[x].1, m, known, kw) by {}
    }
}

/// The mod that a patch belongs to is, of those whose name stands in its own, the one with
/// the longest name, and the last of several as long. Where no name stands in its own it
/// belongs to none.
pub proof fn longest_contained_name_is_the_master(
    m: EntryView,
    mods: Placed,
    known: Known,
    kw: KeywordsView,
)
    ensures
        match master_first(m, mods, known, kw, mods.len() as int) {
            Some(j) => longest_named_in(m, mods, known, kw, j),
            None => none_named_in(m, mods, known, kw),
        },
{
    lemma_master(m, mods, known, kw, mods.len() as int);
    assert(mods.take(mods.len() as int) =~= mods);
}

/// The mod is a patch, and its name holds that of another.
pub open spec fn has_master(mods: Placed, known: Known, kw: KeywordsView, k: int) -> bool {
    patchy(mods[k].1.lower) && !none_named_in(mods[k].1, mods, known, kw)
}

proof fn lemma_masters_at(mods: Placed, known: Known, kw: KeywordsView, n: int, k: int)
    requires
        0 <= n <= mods.len(),
        0 <= k < mods.len(),
        names_differ(mods),
    ensures
        match found(masters_first(mods, known, kw, n), mods[k].1.name) {
            Some(p) => k < n && has_master(mods, known, kw, k) && exists|j: int|
                longest_named_in(mods[k].1, mods, known, kw, j) && p == (#[trigger] mods[j]).1.name,
            None => k < n ==> !has_master(mods, known, kw, k),
        },
    decreases n,
{
    if n > 0 {
        lemma_masters_at(mods, known, kw, n - 1, k);
        let before = masters_first(mods, known, kw, n - 1);
        let m = mods[n - 1].1;
        longest_contained_name_is_the_master(m, mods, known, kw);
        if k < n - 1 {
            assert(mods[k].1.name != mods[n - 1].1.name);
        } else if n - 1 < k {
            assert(mods[n - 1].1.name != mods[k].1.name);
        }
        if patchy(m.lower) {
            if let Some(j) = master_first(m, mods, known, kw, mods.len() as int) {
                insert_then_get(before, m.name, mods[j].1.name, mods[k].1.name);
                assert(named_in(mods[j].1, m, known, kw));
            }
        }
    } else {
        lemma_key_from(masters_first(mods, known, kw, 0), mods[k].1.name, 0);
    }
}

/// Every patch whose name holds another mod's has a master, the one with the longest such
/// name, and no other mod has one.
pub proof fn every_patch_has_its_master(mods: Placed, known: Known, kw: KeywordsView, k: int)
    requires
        names_differ(mods),
        0 <= k < mods.len(),
    ensures
        match found(masters_first(mods, known, kw, mods.len() as int), mods[k].1.name) {
            Some(p) => has_master(mods, known, kw, k) && exists|j: int|
                longest_named_in(mods[k].1, mods, known, kw, j) && p == (#[trigger] mods[j]).1.name,
            None => !has_master(mods, known, kw, k),
        },
{
    lemma_masters_at(mods, known, kw, mods.len() as int, k);
}

// ---- chains of masters ----

/// How many of the first `n` mods have a master and a canonical name of that length at
/// most.
spec fn followers(mods: Placed, known: Known, kw: KeywordsView, most: nat, n: int) -> nat
    decreases n,
{
    if n <= 0 {
        0
    } else {
        followers(mods, known, kw, most, n - 1) + (if has_master(mods, known, kw, n - 1) && canon(
            known,
            mods[n - 1].1,
        ).len() <= most {
            1nat
        } else {
            0
        })
    }
}

proof fn lemma_followers(
    mods: Placed,
    known: Known,
    kw: KeywordsView,
    a: nat,
    b: nat,
    n: int,
    k: int,
)
    requires
        0 <= n <= mods.len(),
        a <= b,
    ensures
        followers(mods, known, kw, a, n) <= followers(mods, known, kw, b, n),
        0 <= k < n && has_master(mods, known, kw, k) && a < canon(known, mods[k].1).len() <= b
            ==> followers(mods, known, kw, a, n) < followers(mods, known, kw, b, n),
    decreases n,
{
    if n > 0 {
        lemma_followers(mods, known, kw, a, b, n - 1, k);
    }
}

proof fn lemma_follower_count(mods: Placed, known: Known, kw: KeywordsView, most: nat, n: int)
    requires
        0 <= n <= mods.len(),
        names_differ(mods),
    ensures
        followers(mods, known, kw, most, n) <= masters_first(mods, known, kw, n).len(),
    decreases n,
{
    if n > 0 {
        lemma_follower_count(mods, known, kw, most, n - 1);
        lemma_masters_at(mods, known, kw, n - 1, n - 1);
        longest_contained_name_is_the_master(mods[n - 1].1, mods, known, kw);
        if has_master(mods, known, kw, n - 1) {
            let before = masters_first(mods, known, kw, n - 1);
            let name = mods[n - 1].1.name;
            lemma_key_from(before, name, 0);
            assert(masters_first(mods, known, kw, n).len() == before.len() + 1);
        }
    }
}

proof fn lemma_shorter(o: EntryView, m: EntryView, known: Known, kw: KeywordsView)
    requires
        named_in(o, m, known, kw),
    ensures
        canon(known, o).len() < canon(known, m).len(),
{
    let (a, b) = (canon(known, o), canon(known, m));
    let i = choose|i: int| #[trigger] occurs_at(b, a, i);
    if a.len() == b.len() {
        assert(b.subrange(0, b.len() as int) =~= b);
    }
}

/// The place that a decision sends a mod to: its destination, or else its own section.
pub open spec fn goes_to(d: DecisionView) -> Seq<char> {
    if d.want is Some {
        d.want->0
    } else {
        d.from
    }
}

/// With enough fuel the destination of a mod does not depend on it.
proof fn lemma_enough(
    mods: Placed,
    known: Known,
    kw: KeywordsView,
    ds: Decisions,
    k: int,
    a: nat,
    b: nat,
)
    requires
        names_differ(mods),
        0 <= k < mods.len(),
        followers(mods, known, kw, canon(known, mods[k].1).len(), mods.len() as int) <= a,
        followers(mods, known, kw, canon(known, mods[k].1).len(), mods.len() as int) <= b,
    ensures
        ({
            let masters = masters_first(mods, known, kw, mods.len() as int);
            destination(mods[k].1.name, masters, ds, a) == destination(
                mods[k].1.name,
                masters,
                ds,
                b,
            )
        }),
    decreases a,
{
    let n = mods.len() as int;
    let masters = masters_first(mods, known, kw, n);
    let name = mods[k].1.name;
    let own = canon(known, mods[k].1).len();
    every_patch_has_its_master(mods, known, kw, k);
    if found(masters, name) is Some && !crate::plan::explicit(found(ds, name)->0.why) {
        let j = choose|j: int|
            longest_named_in(mods[k].1, mods, known, kw, j) && found(masters, name)->0 == (
            #[trigger] mods[j]).1.name;
        lemma_shorter(mods[j].1, mods[k].1, known, kw);
        lemma_followers(mods, known, kw, canon(known, mods[j].1).len(), own, n, k);
        lemma_enough(mods, known, kw, ds, j, (a - 1) as nat, (b - 1) as nat);
    }
}

// ---- following ----

proof fn lemma_family_found(masters: Known, ds: Decisions, name: Seq<char>)
    requires
        found(ds, name) is Some,
    ensures
        found(family_decisions(masters, ds), name) == Some(
            with_family(
                found(ds, name)->0,
                found(masters, name),
                destination(name, masters, ds, masters.len()),
            ),
        ),
{
    let fam = family_decisions(masters, ds);
    lemma_key_from(ds, name, 0);
    let i = key_from(ds, name, 0)->0;
    assert forall|h: int| 0 <= h < i implies #[trigger] fam[h].0 != name by {
        assert(ds[h].0 != name);
    }
    lemma_key_at(fam, name, 0, i);
}

/// The rule on a mod itself that no family can overrule: one that names the mod, or one on
/// its category.
pub open spec fn ruled(d: DecisionView) -> bool {
    d.why is ExactRule || d.why is CategoryRule
}

/// Where families act, a patch without a rule of its own goes where the mod goes whose
/// name is the longest in its own. A mod with such a rule, and one that has no master,
/// goes where its own decision says.
pub proof fn patches_go_where_their_masters_go(
    mods: Placed,
    known: Known,
    kw: KeywordsView,
    ds: Decisions,
    k: int,
)
    requires
        names_differ(mods),
        0 <= k < mods.len(),
        forall|x: int| 0 <= x < mods.len() ==> found(ds, (#[trigger] mods[x]).1.name) is Some,
    ensures
        ({
            let fam = family_decisions(masters_first(mods, known, kw, mods.len() as int), ds);
            let own = found(ds, mods[k].1.name)->0;
            match found(fam, mods[k].1.name) {
                Some(d) => if has_master(mods, known, kw, k) && !ruled(own) {
                    exists|j: int|
                        longest_named_in(mods[k].1, mods, known, kw, j) && found(
                            fam,
                            (#[trigger] mods[j]).1.name,
                        ) is Some && goes_to(d) == goes_to(found(fam, mods[j].1.name)->0)
                } else {
                    d == own
                },
                None => false,
            }
        }),
{
    let n = mods.len() as int;
    let masters = masters_first(mods, known, kw, n);
    let fam = family_decisions(masters, ds);
    let name = mods[k].1.name;
    assert(found(ds, mods[k].1.name) is Some);
    every_patch_has_its_master(mods, known, kw, k);
    lemma_family_found(masters, ds, name);
    if has_master(mods, known, kw, k) && !ruled(found(ds, name)->0) {
        let j = choose|j: int|
            longest_named_in(mods[k].1, mods, known, kw, j) && found(masters, name)->0 == (
            #[trigger] mods[j]).1.name;
        let other = mods[j].1.name;
        let len = canon(known, mods[j].1).len();
        assert(found(ds, mods[j].1.name) is Some);
        lemma_family_found(masters, ds, other);
        lemma_shorter(mods[j].1, mods[k].1, known, kw);
        lemma_followers(mods, known, kw, len, canon(known, mods[k].1).len(), n, k);
        lemma_follower_count(mods, known, kw, canon(known, mods[k].1).len(), n);
        lemma_follower_count(mods, known, kw, len, n);
        lemma_enough(mods, known, kw, ds, j, (masters.len() - 1) as nat, masters.len());
        every_patch_has_its_master(mods, known, kw, j);
        assert(goes_to(found(fam, name)->0) == destination(other, masters, ds, masters.len()));
        assert(goes_to(found(fam, other)->0) == destination(other, masters, ds, masters.len()));
        assert(longest_named_in(mods[k].1, mods, known, kw, j));
    }
}

/// Both mods stand in one section.
pub open spec fn stand_together(sections: Seq<SectionView>, a: Seq<char>, b: Seq<char>) -> bool {
    exists|label: Seq<char>| #[trigger]
        holds_mod(sections, label, a) && holds_mod(sections, label, b)
}

/// Without a census a run carries out what the rules and families decide.
proof fn lemma_family_run(ml: ModlistView, i: Sources)
    requires
        !i.solo,
        i.census is None,
    ensures
        last_decisions(ml, i) == family_decisions(
            masters_first(
                mods_of_run(ml, i),
                known_of(ml.sections, i.kw),
                i.kw,
                mods_of_run(ml, i).len() as int,
            ),
            decisions_first(
                mods_of_run(ml, i),
                rules_in_force(ml, i),
                i.cats,
                opened(first_plan(ml), i).sections,
                false,
                mods_of_run(ml, i).len() as int,
            ),
        ),
{
}

/// After a run without a census a patch that has no rule of its own stands in one section
/// with the mod whose name is the longest in its own, unless that mod goes to a waiting
/// room.
pub proof fn patches_stand_with_their_masters(ml: ModlistView, i: Sources, k: int)
    requires
        told_apart(ml, i),
        !i.solo,
        i.census is None,
        0 <= k < mods_of_run(ml, i).len(),
        has_master(mods_of_run(ml, i), known_of(ml.sections, i.kw), i.kw, k),
        !ruled(
            decision(
                mods_of_run(ml, i)[k].0,
                mods_of_run(ml, i)[k].1,
                rules_in_force(ml, i),
                i.cats,
                opened(first_plan(ml), i).sections,
                false,
            ),
        ),
    ensures
        run_plan(ml, i) is Some,
        exists|j: int|
            longest_named_in(
                mods_of_run(ml, i)[k].1,
                mods_of_run(ml, i),
                known_of(ml.sections, i.kw),
                i.kw,
                j,
            ) && (is_dump(
                rules_in_force(ml, i).dump,
                goes_to(found(last_decisions(ml, i), (#[trigger] mods_of_run(ml, i)[j]).1.name)->0),
            ) || stand_together(
                run_plan(ml, i)->0.sections,
                mods_of_run(ml, i)[k].1.name,
                mods_of_run(ml, i)[j].1.name,
            )),
{
    lemma_family_run(ml, i);
    let mods = mods_of_run(ml, i);
    let known = known_of(ml.sections, i.kw);
    let secs = opened(first_plan(ml), i).sections;
    let rules = rules_in_force(ml, i);
    let j = lemma_partner(mods, known, i.kw, rules, i.cats, secs, k);
    let last = last_decisions(ml, i);
    mods_stand_where_decided(ml, i, k);
    mods_stand_where_decided(ml, i, j);
    let d = found(last, mods[k].1.name)->0;
    let e = found(last, mods[j].1.name)->0;
    if !is_dump(rules.dump, goes_to(e)) {
        lemma_seat(d, rules.dump);
        lemma_seat(e, rules.dump);
        assert(holds_mod(run_plan(ml, i)->0.sections, goes_to(e), mods[k].1.name));
        assert(stand_together(
            run_plan(ml, i)->0.sections,
            mods[k].1.name,
            mods[j].1.name,
        ));
    }
    assert(longest_named_in(mods[k].1, mods, known, i.kw, j));
}

proof fn lemma_seat(d: DecisionView, dump: Seq<Seq<char>>)
    requires
        !is_dump(dump, goes_to(d)),
    ensures
        seat(d, dump) == goes_to(d),
{
}

proof fn lemma_partner(
    mods: Placed,
    known: Known,
    kw: KeywordsView,
    rules: RulesView,
    cats: Option<CategoriesView>,
    secs: Seq<SectionView>,
    k: int,
) -> (j: int)
    requires
        names_differ(mods),
        0 <= k < mods.len(),
        has_master(mods, known, kw, k),
        !ruled(decision(mods[k].0, mods[k].1, rules, cats, secs, false)),
    ensures
        longest_named_in(mods[k].1, mods, known, kw, j),
        ({
            let n = mods.len() as int;
            let fam = family_decisions(
                masters_first(mods, known, kw, n),
                decisions_first(mods, rules, cats, secs, false, n),
            );
            found(fam, mods[k].1.name) is Some && found(fam, mods[j].1.name) is Some && goes_to(
                found(fam, mods[k].1.name)->0,
            ) == goes_to(found(fam, mods[j].1.name)->0)
        }),
{
    let n = mods.len() as int;
    let ds = decisions_first(mods, rules, cats, secs, false, n);
    assert forall|x: int| 0 <= x < n implies found(ds, (#[trigger] mods[x]).1.name) is Some by {
        lemma_own_decision(mods, rules, cats, secs, false, n, x);
    }
    lemma_own_decision(mods, rules, cats, secs, false, n, k);
    patches_go_where_their_masters_go(mods, known, kw, ds, k);
    let fam = family_decisions(masters_first(mods, known, kw, n), ds);
    choose|j: int|
        longest_named_in(mods[k].1, mods, known, kw, j) && found(
            fam,
            (#[trigger] mods[j]).1.name,
        ) is Some && goes_to(found(fam, mods[k].1.name)->0) == goes_to(
            found(fam, mods[j].1.name)->0,
        )
}

} // verus!
