//! What a section is called after, what the targets of rules come to, and how the mods are
//! counted by category.
use vstd::prelude::*;
#[allow(unused_imports)]
use crate::categories::{category_name, CategoriesView};
#[allow(unused_imports)]
use crate::decide::Placed;
#[allow(unused_imports)]
use crate::map::{distinct_keys, found, insert_then_get, key_from, lemma_key_from};
#[allow(unused_imports)]
use crate::matching::{concept_label, says_concept, share_stem};
#[allow(unused_imports)]
use crate::modlist::{EntryView, SectionView};
#[allow(unused_imports)]
use crate::report::{count_or_zero, counts_first, rows_of, CategoryCount};
#[allow(unused_imports)]
use crate::sort::{sorted, sorting_orders_and_keeps, Ranked};
#[allow(unused_imports)]
use crate::suggest::{concept_for, enabled_first, frameworks_first, is_dump, resolved_pairs, resolved_phrases, runner_up_first, tally_first, target_label, telling_category, telling_first, top_first, Pairs, Phrases, Tally};
#[allow(unused_imports)]
use crate::text::{ascii_lowered, begins, contains_text, lowercase, trimmed_start};

verus! {

// ---- targets ----

/// The target means that separator here, and it is no waiting room.
pub open spec fn means(
    target: Seq<char>,
    label: Seq<char>,
    sections: Seq<SectionView>,
    dump: Seq<Seq<char>>,
) -> bool {
    &&& concept_label(target, sections) matches Some((l, _)) && l == label
    &&& forall|i: int|
        0 <= i < dump.len() ==> ascii_lowered(#[trigger] dump[i]) != ascii_lowered(label)
}

/// The first `n` rules whose target means something here, in their order.
pub open spec fn meant_pairs(
    rules: Pairs,
    sections: Seq<SectionView>,
    dump: Seq<Seq<char>>,
    n: int,
) -> Pairs
    decreases n,
{
    if n <= 0 {
        Seq::empty()
    } else {
        let before = meant_pairs(rules, sections, dump, n - 1);
        let r = rules[n - 1];
        if exists|l: Seq<char>| means(r.1, l, sections, dump) {
            before.push((r.0, choose|l: Seq<char>| means(r.1, l, sections, dump)))
        } else {
            before
        }
    }
}

pub open spec fn meant_phrases(
    rules: Phrases,
    sections: Seq<SectionView>,
    dump: Seq<Seq<char>>,
    n: int,
) -> Phrases
    decreases n,
{
    if n <= 0 {
        Seq::empty()
    } else {
        let before = meant_phrases(rules, sections, dump, n - 1);
        let r = rules[n - 1];
        if exists|l: Seq<char>| means(r.2, l, sections, dump) {
            before.push((r.0, r.1, choose|l: Seq<char>| means(r.2, l, sections, dump)))
        } else {
            before
        }
    }
}

proof fn lemma_means(target: Seq<char>, sections: Seq<SectionView>, dump: Seq<Seq<char>>)
    ensures
        target_label(target, sections, dump) == (if exists|l: Seq<char>|
            means(target, l, sections, dump) {
            Some(choose|l: Seq<char>| means(target, l, sections, dump))
        } else {
            None
        }),
{
    match target_label(target, sections, dump) {
        Some(t) => {
            assert(means(target, t, sections, dump));
        },
        None => {
            if exists|l: Seq<char>| means(target, l, sections, dump) {
                let l = choose|l: Seq<char>| means(target, l, sections, dump);
                assert(is_dump(dump, l));
            }
        },
    }
}

proof fn lemma_pairs(rules: Pairs, sections: Seq<SectionView>, dump: Seq<Seq<char>>, n: int)
    requires
        0 <= n <= rules.len(),
    ensures
        resolved_pairs(rules, sections, dump, n) == meant_pairs(rules, sections, dump, n),
    decreases n,
{
    if n > 0 {
        lemma_pairs(rules, sections, dump, n - 1);
        lemma_means(rules[n - 1].1, sections, dump);
    }
}

proof fn lemma_phrases(rules: Phrases, sections: Seq<SectionView>, dump: Seq<Seq<char>>, n: int)
    requires
        0 <= n <= rules.len(),
    ensures
        resolved_phrases(rules, sections, dump, n) == meant_phrases(rules, sections, dump, n),
    decreases n,
{
    if n > 0 {
        lemma_phrases(rules, sections, dump, n - 1);
        lemma_means(rules[n - 1].2, sections, dump);
    }
}

/// Of rules with targets all stay whose target means a separator here that is no waiting
/// room, in their order and with that separator; the others drop out.
pub proof fn rules_with_a_place_stay(
    pairs: Pairs,
    phrases: Phrases,
    sections: Seq<SectionView>,
    dump: Seq<Seq<char>>,
)
    ensures
        resolved_pairs(pairs, sections, dump, pairs.len() as int) == meant_pairs(
            pairs,
            sections,
            dump,
            pairs.len() as int,
        ),
        resolved_phrases(phrases, sections, dump, phrases.len() as int) == meant_phrases(
            phrases,
            sections,
            dump,
            phrases.len() as int,
        ),
{
    lemma_pairs(pairs, sections, dump, pairs.len() as int);
    lemma_phrases(phrases, sections, dump, phrases.len() as int);
}

// ---- titles ----

/// The mods of a section that are ticked, in their order.
pub open spec fn ticked(mods: Seq<EntryView>) -> Seq<EntryView> {
    mods.filter(|m: EntryView| begins(trimmed_start(m.raw), "+"@))
}

proof fn lemma_ticked(mods: Seq<EntryView>, n: int)
    requires
        0 <= n <= mods.len(),
    ensures
        enabled_first(mods, n) == ticked(mods.take(n)),
    decreases n,
{
    reveal(Seq::filter);
    if n > 0 {
        lemma_ticked(mods, n - 1);
        let t = mods.take(n);
        assert(t.drop_last() =~= mods.take(n - 1));
        assert(t.last() == mods[n - 1]);
    } else {
        assert(mods.take(0) =~= Seq::empty());
    }
}

/// A mod of the adult frameworks, by its name.
pub open spec fn is_framework(m: EntryView) -> bool {
    let l = lowercase(m.name);
    ||| contains_text(l, "sexlab"@)
    ||| contains_text(l, "ostim"@)
    ||| contains_text(l, "aroused"@)
    ||| contains_text(l, "arousal"@)
    ||| contains_text(l, "slal"@)
    ||| contains_text(l, "nsfw"@)
}

proof fn lemma_frameworks(mods: Seq<EntryView>, n: int)
    requires
        0 <= n <= mods.len(),
    ensures
        frameworks_first(mods, n) == mods.take(n).filter(|m: EntryView| is_framework(m)).len(),
    decreases n,
{
    reveal(Seq::filter);
    if n > 0 {
        lemma_frameworks(mods, n - 1);
        let t = mods.take(n);
        assert(t.drop_last() =~= mods.take(n - 1));
        assert(t.last() == mods[n - 1]);
    } else {
        assert(mods.take(0) =~= Seq::empty());
    }
}

/// How many of the first `n` mods carry that category, where a category can name a section.
pub open spec fn carriers(c: CategoriesView, mods: Seq<EntryView>, n: int, cat: Seq<char>) -> nat
    decreases n,
{
    if n <= 0 {
        0
    } else {
        carriers(c, mods, n - 1, cat) + (if telling_category(c, mods[n - 1]) == Some(cat) {
            1nat
        } else {
            0
        })
    }
}

/// How many of the first `n` mods carry any.
pub open spec fn carrying(c: CategoriesView, mods: Seq<EntryView>, n: int) -> nat
    decreases n,
{
    if n <= 0 {
        0
    } else {
        carrying(c, mods, n - 1) + (if telling_category(c, mods[n - 1]) is Some {
            1nat
        } else {
            0
        })
    }
}

proof fn lemma_tally(c: CategoriesView, mods: Seq<EntryView>, n: int, cat: Seq<char>)
    requires
        0 <= n <= mods.len() <= usize::MAX,
    ensures
        ({
            let t = tally_first(c, mods, n);
            &&& distinct_keys(t)
            &&& found(t, cat) == (if carriers(c, mods, n, cat) > 0 {
                Some(carriers(c, mods, n, cat) as usize)
            } else {
                None
            })
            &&& carriers(c, mods, n, cat) <= n
            &&& telling_first(c, mods, n) == carrying(c, mods, n)
            &&& carrying(c, mods, n) <= n
        }),
    decreases n,
{
    if n > 0 {
        lemma_tally(c, mods, n - 1, cat);
        let t = tally_first(c, mods, n - 1);
        match telling_category(c, mods[n - 1]) {
            Some(k) => {
                let put = match found(t, k) {
                    Some(m) => (m + 1) as usize,
                    None => 1,
                };
                insert_then_get(t, k, put, cat);
            },
            None => {},
        }
    } else {
        assert(found(tally_first(c, mods, 0), cat) is None);
    }
}

proof fn lemma_top(t: Tally, n: int)
    requires
        1 <= n <= t.len(),
    ensures
        0 <= top_first(t, n) < n,
        forall|i: int| 0 <= i < n ==> (#[trigger] t[i]).1 <= t[top_first(t, n)].1,
    decreases n,
{
    if n > 1 {
        lemma_top(t, n - 1);
    }
}

proof fn lemma_runner_up(t: Tally, skip: int, n: int)
    requires
        0 <= n <= t.len(),
    ensures
        forall|i: int|
            0 <= i < n && i != skip ==> (#[trigger] t[i]).1 <= runner_up_first(t, skip, n),
        runner_up_first(t, skip, n) == 0 || exists|i: int|
            0 <= i < n && i != skip && (#[trigger] t[i]).1 == runner_up_first(t, skip, n),
    decreases n,
{
    if n > 0 {
        lemma_runner_up(t, skip, n - 1);
    }
}

proof fn lemma_entry(t: Tally, k: int)
    requires
        distinct_keys(t),
        0 <= k < t.len(),
    ensures
        found(t, t[k].0) == Some(t[k].1),
{
    lemma_key_from(t, t[k].0, 0);
    let i = key_from(t, t[k].0, 0);
    match i {
        Some(j) => {
            if j < k {
                assert(t[j].0 != t[k].0);
            } else if k < j {
                assert(t[k].0 != t[j].0);
            }
        },
        None => {
            assert(t[k].0 != t[k].0);
        },
    }
}

/// A section's ticked mods say what it holds: four of them carry the category at least,
/// which are three tenths of those that carry any and twice as many as carry another, and
/// the label does not say it already.
pub open spec fn holds_mostly(
    label: Seq<char>,
    c: CategoriesView,
    mods: Seq<EntryView>,
    cat: Seq<char>,
) -> bool {
    let n = mods.len() as int;
    let own = carriers(c, mods, n, cat);
    let total = carrying(c, mods, n);
    &&& n >= 4
    &&& total >= 4
    &&& own >= 4
    &&& own * 10 >= total * 3
    &&& forall|other: Seq<char>|
        other != cat ==> own >= 2 * #[trigger] carriers(c, mods, n, other)
    &&& !says_concept(label, cat)
    &&& !share_stem(label, cat, 3)
}

proof fn lemma_category(label: Seq<char>, c: CategoriesView, mods: Seq<EntryView>, cat: Seq<char>)
    requires
        mods.len() <= usize::MAX,
    ensures
        ({
            let n = mods.len() as int;
            let t = tally_first(c, mods, n);
            let total = telling_first(c, mods, n);
            let k = top_first(t, t.len() as int);
            let next = runner_up_first(t, k, t.len() as int);
            holds_mostly(label, c, mods, cat) == (n >= 4 && total >= 4 && t[k].0 == cat && t[k].1
                >= 4 && t[k].1 * 10 >= total * 3 && t[k].1 >= next * 2 && !says_concept(
                label,
                t[k].0,
            ) && !share_stem(label, t[k].0, 3))
        }),
{
    let n = mods.len() as int;
    let t = tally_first(c, mods, n);
    let total = telling_first(c, mods, n);
    let k = top_first(t, t.len() as int);
    let next = runner_up_first(t, k, t.len() as int);
    let own = carriers(c, mods, n, cat);
    lemma_tally(c, mods, n, cat);
    if total >= 4 {
        lemma_nonempty(c, mods, n);
        lemma_top(t, t.len() as int);
        lemma_runner_up(t, k, t.len() as int);
        lemma_entry(t, k);
        lemma_tally(c, mods, n, t[k].0);
        if holds_mostly(label, c, mods, cat) {
            if t[k].0 != cat {
                assert(own >= 2 * carriers(c, mods, n, t[k].0));
                lemma_key_from(t, cat, 0);
                let i = key_from(t, cat, 0)->0;
                assert(t[i].1 <= t[k].1);
                assert(false);
            }
            if next > 0 {
                let i = choose|i: int|
                    0 <= i < t.len() && i != k && (#[trigger] t[i]).1 == next;
                if i < k {
                    assert(t[i].0 != t[k].0);
                } else {
                    assert(t[k].0 != t[i].0);
                }
                lemma_entry(t, i);
                lemma_tally(c, mods, n, t[i].0);
                assert(own >= 2 * carriers(c, mods, n, t[i].0));
            }
        }
        if t[k].0 == cat && t[k].1 >= next * 2 {
            assert forall|other: Seq<char>| other != cat implies own >= 2 * #[trigger] carriers(
                c,
                mods,
                n,
                other,
            ) by {
                lemma_tally(c, mods, n, other);
                if carriers(c, mods, n, other) > 0 {
                    lemma_key_from(t, other, 0);
                    let i = key_from(t, other, 0)->0;
                    assert(t[i].1 <= next);
                }
            }
        }
    }
}

proof fn lemma_nonempty(c: CategoriesView, mods: Seq<EntryView>, n: int)
    requires
        0 <= n <= mods.len(),
        telling_first(c, mods, n) > 0,
    ensures
        tally_first(c, mods, n).len() > 0,
    decreases n,
{
    if n > 0 {
        match telling_category(c, mods[n - 1]) {
            Some(k) => {
                lemma_key_from(tally_first(c, mods, n - 1), k, 0);
            },
            None => {
                lemma_nonempty(c, mods, n - 1);
            },
        }
    }
}

/// What is added to a section's label: the word for adult frameworks where two of its
/// ticked mods are such and the label does not say so; or else, where the label names no
/// mere place, the category that its ticked mods mostly carry. Nothing else is ever added.
pub proof fn sections_are_called_after_what_they_hold(
    s: SectionView,
    cats: Option<CategoriesView>,
    cat: Seq<char>,
)
    requires
        s.mods.len() <= usize::MAX,
    ensures
        ({
            let mods = ticked(s.mods);
            let adult = mods.filter(|m: EntryView| is_framework(m)).len() >= 2 && !says_concept(
                s.label,
                "nsfw"@,
            );
            (concept_for(s, cats) matches Some((w, _)) && w == cat) == (if adult {
                cat == "NSFW"@
            } else {
                (cats matches Some(c) && holds_mostly(s.label, c, mods, cat)) && {
                    let l = lowercase(s.label);
                    !contains_text(l, "game folder"@) && !contains_text(l, "parking"@)
                        && !contains_text(l, "end of list"@) && !contains_text(l, "nexus"@)
                }
            })
        }),
{
    let n = s.mods.len() as int;
    lemma_ticked(s.mods, n);
    assert(s.mods.take(n) =~= s.mods);
    let mods = ticked(s.mods);
    assert(mods.len() <= s.mods.len()) by {
        s.mods.lemma_filter_len(|m: EntryView| begins(trimmed_start(m.raw), "+"@));
    }
    lemma_frameworks(mods, mods.len() as int);
    assert(mods.take(mods.len() as int) =~= mods);
    if cats is Some {
        lemma_category(s.label, cats->0, mods, cat);
    }
}

// ---- counts ----

/// How many of the first `n` mods are of that category.
pub open spec fn mods_of(mods: Placed, cats: CategoriesView, n: int, c: Seq<char>) -> nat
    decreases n,
{
    if n <= 0 {
        0
    } else {
        mods_of(mods, cats, n - 1, c) + (if category_name(cats, mods[n - 1].1.name) == Some(c) {
            1nat
        } else {
            0
        })
    }
}

proof fn lemma_counts(mods: Placed, cats: CategoriesView, n: int, c: Seq<char>)
    requires
        0 <= n <= mods.len() <= usize::MAX,
    ensures
        found(counts_first(mods, cats, n), c) == (if mods_of(mods, cats, n, c) > 0 {
            Some(mods_of(mods, cats, n, c) as usize)
        } else {
            None
        }),
        mods_of(mods, cats, n, c) <= n,
    decreases n,
{
    if n > 0 {
        lemma_counts(mods, cats, n - 1, c);
        let before = counts_first(mods, cats, n - 1);
        match category_name(cats, mods[n - 1].1.name) {
            Some(k) => {
                lemma_counts(mods, cats, n - 1, k);
                insert_then_get(
                    before,
                    k,
                    (count_or_zero(found(before, k)) + 1) as usize,
                    c,
                );
            },
            None => {},
        }
    } else {
        assert(found(counts_first(mods, cats, 0), c) is None);
    }
}

/// The report counts the mods of every category, and lists the most used one first.
pub proof fn categories_are_counted(mods: Placed, cats: CategoriesView, c: Seq<char>)
    requires
        mods.len() <= usize::MAX,
    ensures
        ({
            let n = mods.len() as int;
            let counts = counts_first(mods, cats, n);
            let rows = sorted::<CategoryCount>(rows_of(counts));
            &&& found(counts, c) == (if mods_of(mods, cats, n, c) > 0 {
                Some(mods_of(mods, cats, n, c) as usize)
            } else {
                None
            })
            &&& rows.to_multiset() == rows_of(counts).to_multiset()
            &&& forall|i: int, j: int|
                0 <= i < j < rows.len() ==> (#[trigger] rows[i]).mods >= (#[trigger] rows[j]).mods
        }),
{
    let n = mods.len() as int;
    lemma_counts(mods, cats, n, c);
    let rows = sorted::<CategoryCount>(rows_of(counts_first(mods, cats, n)));
    sorting_orders_and_keeps::<CategoryCount>(rows_of(counts_first(mods, cats, n)));
    assert forall|i: int, j: int| 0 <= i < j < rows.len() implies (#[trigger] rows[i]).mods >= (
    #[trigger] rows[j]).mods by {
        assert(<CategoryCount as Ranked>::precedes(rows[i], rows[j]));
    }
}

} // verus!
