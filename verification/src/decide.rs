//! The first pass of a sort: which section every mod belongs in.
//!
//! Each mod gets a decision from the rules. A patch then follows its master, and a mod
//! whose plugin needs another mod's plugin moves to where it loads after it.
use vstd::prelude::*;
use crate::categories::Categories;
#[allow(unused_imports)]
use crate::categories::{category_detail, CategoriesView};
use crate::keywords::Keywords;
#[allow(unused_imports)]
use crate::keywords::{cnorm_of, never_match, KeywordsView};
use crate::list;
use crate::map::TextMap;
#[allow(unused_imports)]
use crate::map::{found, inserted, lemma_key_from};
use crate::matching;
#[allow(unused_imports)]
use crate::matching::{labelled, patchy};
use crate::modlist::{ModEntry, Section};
#[allow(unused_imports)]
use crate::modlist::{EntryView, SectionView};
use crate::plan::Why;
#[allow(unused_imports)]
use crate::plan::{explicit, guessed, name_guessed, WhyView};
use crate::rules::Rules;
#[allow(unused_imports)]
use crate::rules::RulesView;
use crate::suggest;
#[allow(unused_imports)]
use crate::suggest::suggestion;
use crate::text;
#[allow(unused_imports)]
use crate::text::{byte_len, contains_text, decimal};

verus! {

// ---- decisions ----

pub struct Decision {
    pub from: String,
    pub want: Option<String>,
    pub why: Why,
    /// The category, as the diagnostic shows it.
    pub cat_str: String,
}

pub struct DecisionView {
    pub from: Seq<char>,
    pub want: Option<Seq<char>>,
    pub why: WhyView,
    pub cat_str: Seq<char>,
}

impl DeepView for Decision {
    type V = DecisionView;

    open spec fn deep_view(&self) -> DecisionView {
        DecisionView {
            from: self.from@,
            want: self.want.deep_view(),
            why: self.why.deep_view(),
            cat_str: self.cat_str@,
        }
    }
}

pub type Decisions = Seq<(Seq<char>, DecisionView)>;

/// A mod and the label of the section that holds it.
pub type Placed = Seq<(Seq<char>, EntryView)>;

pub open spec fn placed_in(s: SectionView) -> Placed {
    Seq::new(s.mods.len(), |i: int| (s.label, s.mods[i]))
}

/// The mods of the first `n` sections.
pub open spec fn placed_first(sections: Seq<SectionView>, n: int) -> Placed
    decreases n,
{
    if n <= 0 {
        Seq::empty()
    } else {
        placed_first(sections, n - 1) + placed_in(sections[n - 1])
    }
}

pub open spec fn placed(sections: Seq<SectionView>) -> Placed {
    placed_first(sections, sections.len() as int)
}

pub fn all_placed(sections: &Vec<Section>) -> (r: Vec<(String, ModEntry)>)
    ensures
        r.deep_view() == placed(sections.deep_view()),
{
    let ghost secs = sections.deep_view();
    let mut out: Vec<(String, ModEntry)> = list::none();
    let mut i: usize = 0;
    while i < sections.len()
        invariant
            i <= sections.len(),
            secs == sections.deep_view(),
            out.deep_view() == placed_first(secs, i as int),
        decreases sections.len() - i,
    {
        let s = &sections[i];
        assert(secs[i as int] == s.deep_view());
        let ghost before = out.deep_view();
        let ghost here = placed_in(secs[i as int]);
        let mut j: usize = 0;
        assert(before + here.take(0) =~= before);
        while j < s.mods.len()
            invariant
                j <= s.mods.len(),
                here == placed_in(s.deep_view()),
                out.deep_view() == before + here.take(j as int),
            decreases s.mods.len() - j,
        {
            assert(s.deep_view().mods[j as int] == s.mods@[j as int].deep_view());
            list::put(&mut out, (s.label.clone(), s.mods[j].clone()));
            j = j + 1;
            assert(out.deep_view() =~= before + here.take(j as int));
        }
        assert(here.take(j as int) =~= here);
        i = i + 1;
    }
    assert(secs.len() == sections.len());
    out
}

/// A guess that the mode of the run holds back.
pub open spec fn held_back(rules: RulesView, solo: bool, why: WhyView) -> bool {
    (rules.proven_only && guessed(why)) || (solo && name_guessed(why))
}

pub open spec fn detail_of(cats: Option<CategoriesView>, name: Seq<char>) -> Option<
    (u32, Seq<char>),
> {
    match cats {
        Some(c) => category_detail(c, name),
        None => None,
    }
}

pub open spec fn second(d: Option<(u32, Seq<char>)>) -> Option<Seq<char>> {
    match d {
        Some((_, n)) => Some(n),
        None => None,
    }
}

pub open spec fn category_text(d: Option<(u32, Seq<char>)>) -> Seq<char> {
    match d {
        Some((id, n)) => "#"@ + decimal(id as nat) + " \""@ + n + "\""@,
        None => "none"@,
    }
}

/// What the rules say of a mod.
pub open spec fn advice(
    m: EntryView,
    rules: RulesView,
    cats: Option<CategoriesView>,
    sections: Seq<SectionView>,
) -> (Option<Seq<char>>, WhyView) {
    suggestion(m, rules, second(detail_of(cats, m.name)), sections)
}

/// What the rules say of a mod, guesses that are held back left out.
pub open spec fn ruling(
    m: EntryView,
    rules: RulesView,
    cats: Option<CategoriesView>,
    sections: Seq<SectionView>,
    solo: bool,
) -> (Option<Seq<char>>, WhyView) {
    let (want, why) = advice(m, rules, cats, sections);
    if held_back(rules, solo, why) {
        (None, WhyView::NoMatch)
    } else {
        (want, why)
    }
}

/// Guesses are held back where only what is proven may act, and guesses by name where
/// only the rules may: neither decides on a mod then.
pub proof fn guesses_are_held_back(
    m: EntryView,
    rules: RulesView,
    cats: Option<CategoriesView>,
    sections: Seq<SectionView>,
    solo: bool,
)
    ensures
        rules.proven_only ==> !guessed(ruling(m, rules, cats, sections, solo).1),
        solo ==> !name_guessed(ruling(m, rules, cats, sections, solo).1),
{
}

pub open spec fn decision(
    label: Seq<char>,
    m: EntryView,
    rules: RulesView,
    cats: Option<CategoriesView>,
    sections: Seq<SectionView>,
    solo: bool,
) -> DecisionView {
    let (want, why) = ruling(m, rules, cats, sections, solo);
    DecisionView {
        from: label,
        want: match want {
            Some(w) => if labelled(sections, w, 0) is Some {
                Some(w)
            } else {
                None
            },
            None => None,
        },
        why,
        cat_str: category_text(detail_of(cats, m.name)),
    }
}

/// The decisions on the first `n` mods; the last mod of a name decides for it.
pub open spec fn decisions_first(
    mods: Placed,
    rules: RulesView,
    cats: Option<CategoriesView>,
    sections: Seq<SectionView>,
    solo: bool,
    n: int,
) -> Decisions
    decreases n,
{
    if n <= 0 {
        Seq::empty()
    } else {
        let (label, m) = mods[n - 1];
        inserted(
            decisions_first(mods, rules, cats, sections, solo, n - 1),
            m.name,
            decision(label, m, rules, cats, sections, solo),
        )
    }
}

/// How many guesses on the first `n` mods are held back.
pub open spec fn held_first(
    mods: Placed,
    rules: RulesView,
    cats: Option<CategoriesView>,
    sections: Seq<SectionView>,
    solo: bool,
    n: int,
) -> nat
    decreases n,
{
    if n <= 0 {
        0
    } else {
        held_first(mods, rules, cats, sections, solo, n - 1) + (if held_back(
            rules,
            solo,
            advice(mods[n - 1].1, rules, cats, sections).1,
        ) {
            1nat
        } else {
            0
        })
    }
}

pub fn detail(cats: Option<&Categories>, name: &str) -> (r: Option<(u32, String)>)
    ensures
        r.deep_view() == detail_of(cats.deep_view(), name@),
{
    match cats {
        Some(c) => c.category_detail_of(name),
        None => None,
    }
}

pub fn show_category(d: &Option<(u32, String)>) -> (r: String)
    ensures
        r@ == category_text(d.deep_view()),
{
    match d {
        Some((id, n)) => {
            let number = text::dec(*id as u128);
            let mut r = text::cat3("#", number.as_str(), " \"");
            r.append(n.as_str());
            r.append("\"");
            r
        },
        None => "none".to_string(),
    }
}

/// What the rules say of a mod, and whether a guess was held back.
pub(crate) fn rule_on(
    m: &ModEntry,
    rules: &Rules,
    d: &Option<(u32, String)>,
    sections: &[Section],
    solo: bool,
    cats: Ghost<Option<CategoriesView>>,
) -> (r: (Option<String>, Why, bool))
    requires
        d.deep_view() == detail_of(cats@, m.deep_view().name),
    ensures
        (r.0.deep_view(), r.1.deep_view()) == ruling(
            m.deep_view(),
            rules.deep_view(),
            cats@,
            sections.deep_view(),
            solo,
        ),
        r.2 == held_back(
            rules.deep_view(),
            solo,
            advice(m.deep_view(), rules.deep_view(), cats@, sections.deep_view()).1,
        ),
{
    let cat: Option<&str> = match d {
        Some((_, n)) => Some(n.as_str()),
        None => None,
    };
    assert(cat.deep_view() == second(d.deep_view()));
    let (want, why) = suggest::suggest_explained(m, rules, cat, sections);
    if (rules.proven_only && why.is_guess()) || (solo && why.is_name_guess()) {
        (None, Why::NoMatch, true)
    } else {
        (want, why, false)
    }
}

/// The decisions on all mods, and how many guesses were held back.
pub fn decide(
    mods: &Vec<(String, ModEntry)>,
    rules: &Rules,
    cats: Option<&Categories>,
    sections: &Vec<Section>,
    solo: bool,
) -> (r: (TextMap<Decision>, usize))
    ensures
        r.0.deep_view() == decisions_first(
            mods.deep_view(),
            rules.deep_view(),
            cats.deep_view(),
            sections.deep_view(),
            solo,
            mods.len() as int,
        ),
        r.1 == held_first(
            mods.deep_view(),
            rules.deep_view(),
            cats.deep_view(),
            sections.deep_view(),
            solo,
            mods.len() as int,
        ),
{
    let ghost ms = mods.deep_view();
    let ghost rv = rules.deep_view();
    let ghost cv = cats.deep_view();
    let ghost secs = sections.deep_view();
    let mut out: TextMap<Decision> = TextMap::new();
    let mut held: usize = 0;
    let mut i: usize = 0;
    while i < mods.len()
        invariant
            i <= mods.len(),
            ms == mods.deep_view(),
            rv == rules.deep_view(),
            cv == cats.deep_view(),
            secs == sections.deep_view(),
            held <= i,
            out.deep_view() == decisions_first(ms, rv, cv, secs, solo, i as int),
            held == held_first(ms, rv, cv, secs, solo, i as int),
        decreases mods.len() - i,
    {
        let m = &mods[i].1;
        assert(ms[i as int] == mods@[i as int].deep_view());
        let d = detail(cats, m.name.as_str());
        let slice = sections.as_slice();
        assert(slice.deep_view() =~= secs);
        let (want, why, back) = rule_on(m, rules, &d, slice, solo, Ghost(cv));
        if back {
            held = held + 1;
        }
        let want = match want {
            Some(w) => match matching::find_label(slice, w.as_str()) {
                Some(_) => Some(w),
                None => None,
            },
            None => None,
        };
        let choice = Decision {
            from: mods[i].0.clone(),
            want,
            why,
            cat_str: show_category(&d),
        };
        out.insert(m.name.clone(), choice);
        i = i + 1;
    }
    (out, held)
}

// ---- families ----

/// The canonical letters and digits of a mod: from the names known at the start, or
/// else its own.
pub open spec fn canon(known: Seq<(Seq<char>, Seq<char>)>, m: EntryView) -> Seq<char> {
    match found(known, m.name) {
        Some(c) => c,
        None => m.norm,
    }
}

pub open spec fn known_first(mods: Placed, kw: KeywordsView, n: int) -> Seq<(Seq<char>, Seq<char>)>
    decreases n,
{
    if n <= 0 {
        Seq::empty()
    } else {
        inserted(
            known_first(mods, kw, n - 1),
            mods[n - 1].1.name,
            cnorm_of(kw, mods[n - 1].1.name),
        )
    }
}

pub fn known_names(mods: &Vec<(String, ModEntry)>, kw: &Keywords) -> (r: TextMap<String>)
    ensures
        r.deep_view() == known_first(mods.deep_view(), kw.deep_view(), mods.len() as int),
{
    let ghost ms = mods.deep_view();
    let mut out: TextMap<String> = TextMap::new();
    let mut i: usize = 0;
    while i < mods.len()
        invariant
            i <= mods.len(),
            ms == mods.deep_view(),
            out.deep_view() == known_first(ms, kw.deep_view(), i as int),
        decreases mods.len() - i,
    {
        assert(ms[i as int] == mods@[i as int].deep_view());
        let name = &mods[i].1.name;
        out.insert(name.clone(), kw.cnorm(name.as_str()));
        i = i + 1;
    }
    out
}

pub fn canon_of(known: &TextMap<String>, m: &ModEntry) -> (r: String)
    ensures
        r@ == canon(known.deep_view(), m.deep_view()),
{
    match known.get(m.name.as_str()) {
        Some(c) => c.clone(),
        None => m.norm.clone(),
    }
}

/// `o` can be the master of `m`: its canonical name is another, long enough, and
/// contained in that of `m`, and the two may match.
pub open spec fn is_master(
    o: EntryView,
    m: EntryView,
    known: Seq<(Seq<char>, Seq<char>)>,
    kw: KeywordsView,
) -> bool {
    canon(known, o) != canon(known, m) && byte_len(canon(known, o)) >= 10 && contains_text(
        canon(known, m),
        canon(known, o),
    ) && !never_match(kw, o.name, m.name)
}

/// The master among the first `n` mods with the longest canonical name; the last of
/// equals.
pub open spec fn master_first(
    m: EntryView,
    mods: Placed,
    known: Seq<(Seq<char>, Seq<char>)>,
    kw: KeywordsView,
    n: int,
) -> Option<int>
    decreases n,
{
    if n <= 0 {
        None
    } else {
        let before = master_first(m, mods, known, kw, n - 1);
        if is_master(mods[n - 1].1, m, known, kw) {
            match before {
                Some(k) => if byte_len(canon(known, mods[n - 1].1)) >= byte_len(
                    canon(known, mods[k].1),
                ) {
                    Some(n - 1)
                } else {
                    before
                },
                None => Some(n - 1),
            }
        } else {
            before
        }
    }
}

/// The masters that patch-flavored mods among the first `n` follow.
pub open spec fn masters_first(
    mods: Placed,
    known: Seq<(Seq<char>, Seq<char>)>,
    kw: KeywordsView,
    n: int,
) -> Seq<(Seq<char>, Seq<char>)>
    decreases n,
{
    if n <= 0 {
        Seq::empty()
    } else {
        let before = masters_first(mods, known, kw, n - 1);
        let m = mods[n - 1].1;
        if !patchy(m.lower) {
            before
        } else {
            match master_first(m, mods, known, kw, mods.len() as int) {
                Some(k) => inserted(before, m.name, mods[k].1.name),
                None => before,
            }
        }
    }
}

fn find_master(
    m: &ModEntry,
    mods: &Vec<(String, ModEntry)>,
    known: &TextMap<String>,
    kw: &Keywords,
) -> (r: Option<usize>)
    ensures
        match r {
            Some(k) => master_first(
                m.deep_view(),
                mods.deep_view(),
                known.deep_view(),
                kw.deep_view(),
                mods.len() as int,
            ) == Some(k as int) && k < mods.len(),
            None => master_first(
                m.deep_view(),
                mods.deep_view(),
                known.deep_view(),
                kw.deep_view(),
                mods.len() as int,
            ) is None,
        },
{
    let ghost ms = mods.deep_view();
    let ghost mv = m.deep_view();
    let ghost kn = known.deep_view();
    let ghost kv = kw.deep_view();
    let cm = canon_of(known, m);
    let mut best: Option<(usize, usize)> = None;
    let mut i: usize = 0;
    while i < mods.len()
        invariant
            i <= mods.len(),
            ms == mods.deep_view(),
            mv == m.deep_view(),
            kn == known.deep_view(),
            kv == kw.deep_view(),
            cm@ == canon(kn, mv),
            match best {
                Some((k, l)) => master_first(mv, ms, kn, kv, i as int) == Some(k as int) && k < i
                    && l == byte_len(canon(kn, ms[k as int].1)),
                None => master_first(mv, ms, kn, kv, i as int) is None,
            },
        decreases mods.len() - i,
    {
        let o = &mods[i].1;
        assert(ms[i as int] == mods@[i as int].deep_view());
        let co = canon_of(known, o);
        if !(co == cm) && text::bytes_in(co.as_str()) >= 10 && text::contains(
            cm.as_str(),
            co.as_str(),
        ) && !kw.is_never(o.name.as_str(), m.name.as_str()) {
            let l = text::bytes_in(co.as_str());
            let better = match best {
                Some((_, b)) => l >= b,
                None => true,
            };
            if better {
                best = Some((i, l));
            }
        }
        i = i + 1;
    }
    match best {
        Some((k, _)) => Some(k),
        None => None,
    }
}

pub fn find_masters(
    mods: &Vec<(String, ModEntry)>,
    known: &TextMap<String>,
    kw: &Keywords,
) -> (r: TextMap<String>)
    ensures
        r.deep_view() == masters_first(
            mods.deep_view(),
            known.deep_view(),
            kw.deep_view(),
            mods.len() as int,
        ),
{
    let ghost ms = mods.deep_view();
    let mut out: TextMap<String> = TextMap::new();
    let mut i: usize = 0;
    while i < mods.len()
        invariant
            i <= mods.len(),
            ms == mods.deep_view(),
            out.deep_view() == masters_first(
                ms,
                known.deep_view(),
                kw.deep_view(),
                i as int,
            ),
        decreases mods.len() - i,
    {
        let m = &mods[i].1;
        assert(ms[i as int] == mods@[i as int].deep_view());
        assert(ms.len() == mods.len());
        if matching::patch_flavored(m.lower.as_str()) {
            if let Some(k) = find_master(m, mods, known, kw) {
                assert(ms[k as int] == mods@[k as int].deep_view());
                out.insert(m.name.clone(), mods[k].1.name.clone());
            }
        }
        i = i + 1;
    }
    out
}

/// Where a decision sends a mod.
pub open spec fn own_place(d: DecisionView) -> Seq<char> {
    match d.want {
        Some(w) => w,
        None => d.from,
    }
}

/// Where a mod ends up: explicit rules anchor it, a patch goes where its master goes,
/// and any other mod goes where its own decision sends it. Masters have ever shorter
/// names, so no chain is longer than `fuel`, the number of mods that have one.
pub open spec fn destination(
    name: Seq<char>,
    masters: Seq<(Seq<char>, Seq<char>)>,
    decisions: Decisions,
    fuel: nat,
) -> Seq<char>
    decreases fuel,
{
    let d = found(decisions, name)->0;
    if explicit(d.why) || found(masters, name) is None || fuel == 0 {
        own_place(d)
    } else {
        destination(found(masters, name)->0, masters, decisions, (fuel - 1) as nat)
    }
}

/// A decision once family has been heard.
pub open spec fn with_family(d: DecisionView, master: Option<Seq<char>>, dest: Seq<char>) -> DecisionView {
    match master {
        Some(p) => if explicit(d.why) {
            d
        } else if dest != d.from {
            DecisionView { want: Some(dest), why: WhyView::FollowParent(p), ..d }
        } else if d.want is Some {
            DecisionView { want: None, why: WhyView::FollowParent(p), ..d }
        } else {
            d
        },
        None => d,
    }
}

/// The decisions once every patch follows its master.
pub open spec fn family_decisions(
    masters: Seq<(Seq<char>, Seq<char>)>,
    decisions: Decisions,
) -> Decisions {
    Seq::new(
        decisions.len(),
        |i: int|
            (
                decisions[i].0,
                with_family(
                    decisions[i].1,
                    found(masters, decisions[i].0),
                    destination(decisions[i].0, masters, decisions, masters.len()),
                ),
            ),
    )
}

/// Every master has a decision of its own.
pub open spec fn masters_decided(
    masters: Seq<(Seq<char>, Seq<char>)>,
    decisions: Decisions,
) -> bool {
    forall|k: Seq<char>|
        #![trigger found(masters, k)]
        found(masters, k) is Some ==> found(decisions, found(masters, k)->0) is Some
}

fn place_of(d: &Decision) -> (r: String)
    ensures
        r@ == own_place(d.deep_view()),
{
    match &d.want {
        Some(w) => w.clone(),
        None => d.from.clone(),
    }
}

fn dest_of(name: &str, masters: &TextMap<String>, decisions: &TextMap<Decision>) -> (r: String)
    requires
        found(decisions.deep_view(), name@) is Some,
        masters_decided(masters.deep_view(), decisions.deep_view()),
    ensures
        r@ == destination(
            name@,
            masters.deep_view(),
            decisions.deep_view(),
            masters.deep_view().len(),
        ),
{
    let ghost ms = masters.deep_view();
    let ghost ds = decisions.deep_view();
    let mut cur = name.to_string();
    let mut fuel: usize = masters.len();
    loop
        invariant
            ms == masters.deep_view(),
            ds == decisions.deep_view(),
            found(ds, cur@) is Some,
            masters_decided(ms, ds),
            destination(cur@, ms, ds, fuel as nat) == destination(name@, ms, ds, ms.len()),
        decreases fuel,
    {
        let d = decisions.get(cur.as_str()).unwrap();
        if d.why.is_explicit() || fuel == 0 {
            return place_of(d);
        }
        match masters.get(cur.as_str()) {
            Some(p) => {
                assert(found(ms, cur@) == Some(p@));
                cur = p.clone();
                fuel = fuel - 1;
            },
            None => {
                return place_of(d);
            },
        }
    }
}

proof fn lemma_own_entry(ds: Decisions, i: int)
    requires
        0 <= i < ds.len(),
    ensures
        found(ds, ds[i].0) is Some,
{
    lemma_key_from(ds, ds[i].0, 0);
}

/// Lets every patch follow its master.
pub fn follow_family(masters: &TextMap<String>, decisions: &mut TextMap<Decision>)
    requires
        masters_decided(masters.deep_view(), old(decisions).deep_view()),
    ensures
        final(decisions).deep_view() == family_decisions(
            masters.deep_view(),
            old(decisions).deep_view(),
        ),
{
    let ghost ms = masters.deep_view();
    let ghost ds = decisions.deep_view();
    let count: usize = decisions.len();
    let mut dests: Vec<String> = list::none();
    let mut i: usize = 0;
    while i < count
        invariant
            i <= count,
            count == ds.len(),
            ms == masters.deep_view(),
            ds == decisions.deep_view(),
            masters_decided(ms, ds),
            dests.len() == i,
            forall|j: int|
                0 <= j < i ==> (#[trigger] dests@[j])@ == destination(ds[j].0, ms, ds, ms.len()),
        decreases count - i,
    {
        let e = decisions.at(i);
        proof {
            lemma_own_entry(ds, i as int);
        }
        let dest = dest_of(e.0.as_str(), masters, decisions);
        dests.push(dest);
        i = i + 1;
    }
    let ghost goal = family_decisions(ms, ds);
    let mut i: usize = 0;
    while i < count
        invariant
            i <= count,
            count == ds.len(),
            ms == masters.deep_view(),
            goal == family_decisions(ms, ds),
            decisions.deep_view().len() == count,
            dests.len() == count,
            forall|j: int|
                0 <= j < count ==> (#[trigger] dests@[j])@ == destination(
                    ds[j].0,
                    ms,
                    ds,
                    ms.len(),
                ),
            forall|j: int| 0 <= j < i ==> decisions.deep_view()[j] == goal[j],
            forall|j: int| i <= j < count ==> decisions.deep_view()[j] == ds[j],
        decreases count - i,
    {
        let master = match masters.get(decisions.at(i).0.as_str()) {
            Some(p) => Some(p.clone()),
            None => None,
        };
        let mut d = Decision {
            from: String::new(),
            want: None,
            why: Why::NoMatch,
            cat_str: String::new(),
        };
        decisions.swap_at(i, &mut d);
        if let Some(p) = master {
            if !d.why.is_explicit() {
                if !(dests[i] == d.from) {
                    d.want = Some(dests[i].clone());
                    d.why = Why::FollowParent(p);
                } else if d.want.is_some() {
                    d.want = None;
                    d.why = Why::FollowParent(p);
                }
            }
        }
        decisions.swap_at(i, &mut d);
        i = i + 1;
    }
    assert(decisions.deep_view() =~= goal);
}

} // verus!
