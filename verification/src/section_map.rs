//! A profile's roadmap: the bridge from portable concepts to its separators.
use vstd::prelude::*;
use crate::keys;
#[allow(unused_imports)]
use crate::keys::{header_of, is_comment, place_like, plain_words_of, section_after, slug_of, with_item};
use crate::list;
use crate::map::TextMap;
#[allow(unused_imports)]
use crate::map::{found, inserted};
use crate::profile;
#[allow(unused_imports)]
use crate::profile::data_path;
use crate::sort;
#[allow(unused_imports)]
use crate::sort::{sorted, Ranked};
use crate::text;
#[allow(unused_imports)]
use crate::text::{ascii_lowered, contains_text, ended, finishes, joined, lines_of, split_first, trimmed};

verus! {

pub const FILE_PREFIX: &'static str = "modslut_section_map_";

/// The portable concepts.
pub const CONCEPTS: [&'static str; 32] = [
    "nsfw",
    "ai",
    "immersion",
    "dialogue",
    "perk",
    "combat",
    "magic",
    "alternate-start",
    "effects",
    "fire",
    "lighting",
    "enb",
    "community-shaders",
    "interior",
    "compatibility",
    "worldspace",
    "map",
    "patches",
    "animations",
    "body",
    "armor",
    "armor-base",
    "armor-converted",
    "armor-new",
    "open-composite",
    "vr-controller-bindings",
    "weapons",
    "audio",
    "interface",
    "quests",
    "landscape",
    "cities",
];

/// The words that stand for a concept in the label of a separator.
pub const ALIASES: [(&'static str, &'static str); 48] = [
    ("nsfw", "nsfw"),
    ("ai", "ai"),
    ("immersion", "immersion"),
    ("dialogue", "dialogue"),
    ("perk", "perk"),
    ("combat", "combat"),
    ("magic", "magic"),
    ("alternate-start", "alternate start"),
    ("alternate-start", "alternate-start"),
    ("effects", "effects"),
    ("effects", "effect"),
    ("fire", "fire"),
    ("lighting", "lighting"),
    ("enb", "enb"),
    ("community-shaders", "community shaders"),
    ("community-shaders", "community shader"),
    ("interior", "interior"),
    ("compatibility", "compatibility"),
    ("worldspace", "worldspace"),
    ("map", "map"),
    ("patches", "patch collection"),
    ("patches", "patches"),
    ("animations", "animations"),
    ("animations", "animation"),
    ("body", "body"),
    ("armor", "armor"),
    ("armor", "armour"),
    ("armor-base", "armor and weapons retextures and tweaks"),
    ("armor-base", "armour retextures"),
    ("armor-converted", "armor conversions"),
    ("armor-converted", "armour conversions"),
    ("armor-new", "new armors and clothing"),
    ("armor-new", "new armour and clothing"),
    ("open-composite", "open composite"),
    ("open-composite", "opencomposite"),
    ("vr-controller-bindings", "controller bindings"),
    ("weapons", "weapons"),
    ("weapons", "weapon"),
    ("audio", "audio"),
    ("audio", "sound"),
    ("interface", "interface"),
    ("interface", "ui"),
    ("quests", "quests"),
    ("quests", "quest"),
    ("landscape", "landscape"),
    ("cities", "cities"),
    ("cities", "city"),
    ("cities", "town"),
];

/// Parts of the labels that are never automatic destinations.
pub const PROTECTED: [&'static str; 6] = [
    "output",
    "end of list",
    "testing",
    "test",
    "optional",
    "pick one",
];

#[verifier::ext_equal]
pub struct SectionMapView {
    pub path: Seq<char>,
    pub created: bool,
    pub mappings: Seq<(Seq<char>, Seq<char>)>,
    pub protected: Seq<Seq<char>>,
    pub context: Seq<Seq<char>>,
    pub terminal: Seq<Seq<char>>,
    pub ambiguous: Seq<Seq<char>>,
    pub multi_destination: Seq<Seq<char>>,
    pub branch_destinations: Seq<(Seq<char>, Seq<Seq<char>>)>,
}

pub struct SectionMap {
    /// Where the roadmap is kept.
    pub path: String,
    /// Whether it was made just now.
    pub created: bool,
    /// The one separator of a concept.
    pub mappings: TextMap<String>,
    pub protected: Vec<String>,
    /// Rows that are shown but hold no shelf.
    pub context: Vec<String>,
    pub terminal: Vec<String>,
    pub ambiguous: Vec<String>,
    /// Concepts that have no one separator.
    pub multi_destination: Vec<String>,
    /// The separators of a concept that has several.
    pub branch_destinations: TextMap<Vec<String>>,
}

impl DeepView for SectionMap {
    type V = SectionMapView;

    open spec fn deep_view(&self) -> SectionMapView {
        SectionMapView {
            path: self.path@,
            created: self.created,
            mappings: self.mappings.deep_view(),
            protected: self.protected.deep_view(),
            context: self.context.deep_view(),
            terminal: self.terminal.deep_view(),
            ambiguous: self.ambiguous.deep_view(),
            multi_destination: self.multi_destination.deep_view(),
            branch_destinations: self.branch_destinations.deep_view(),
        }
    }
}

// ---- labels ----

/// A label of outputs, tests, options or the end of the list.
pub open spec fn is_protected_label(label: Seq<char>) -> bool {
    exists|i: int|
        0 <= i < 6 && contains_text(ascii_lowered(label), (#[trigger] PROTECTED@[i])@)
}

pub fn protected(label: &str) -> (r: bool)
    ensures
        r == is_protected_label(label@),
{
    let lower = text::ascii_lower(label);
    let mut i: usize = 0;
    while i < 6
        invariant
            i <= 6,
            lower@ == ascii_lowered(label@),
            forall|j: int| 0 <= j < i ==> !contains_text(lower@, (#[trigger] PROTECTED@[j])@),
        decreases 6 - i,
    {
        if text::contains(lower.as_str(), PROTECTED[i]) {
            assert(contains_text(ascii_lowered(label@), (PROTECTED@[i as int])@));
            return true;
        }
        i = i + 1;
    }
    false
}

/// The words of `phrase` stand in a row among those of `label`.
pub open spec fn says_phrase(label: Seq<char>, phrase: Seq<char>) -> bool {
    let w = plain_words_of(label);
    let p = plain_words_of(phrase);
    p.len() > 0 && exists|i: int| row_at(w, p, i)
}

pub open spec fn row_at(w: Seq<Seq<char>>, p: Seq<Seq<char>>, i: int) -> bool {
    0 <= i && i + p.len() <= w.len() && w.subrange(i, i + p.len()) == p
}

pub fn has_phrase(label: &str, phrase: &str) -> (r: bool)
    ensures
        r == says_phrase(label@, phrase@),
{
    let w = keys::plain_words(label);
    let p = keys::plain_words(phrase);
    let ghost wv = w.deep_view();
    let ghost pv = p.deep_view();
    assert(wv.len() == w.len() && pv.len() == p.len());
    if p.len() == 0 || p.len() > w.len() {
        return false;
    }
    let mut i: usize = 0;
    while i <= w.len() - p.len()
        invariant
            0 < p.len() <= w.len(),
            i <= w.len() - p.len() + 1,
            wv == w.deep_view(),
            pv == p.deep_view(),
            wv == plain_words_of(label@),
            pv == plain_words_of(phrase@),
            forall|j: int| 0 <= j < i ==> !row_at(wv, pv, j),
        decreases w.len() - p.len() + 1 - i,
    {
        let mut j: usize = 0;
        while j < p.len() && w[i + j] == p[j]
            invariant
                j <= p.len(),
                i + p.len() <= w.len(),
                wv == w.deep_view(),
                pv == p.deep_view(),
                forall|k: int| 0 <= k < j ==> wv[i + k] == pv[k],
            decreases p.len() - j,
        {
            assert(wv[i + j] == w@[i + j]@ && pv[j as int] == p@[j as int]@);
            j = j + 1;
        }
        if j == p.len() {
            assert(wv.subrange(i as int, i + pv.len()) =~= pv);
            assert(row_at(wv, pv, i as int));
            return true;
        }
        assert(!row_at(wv, pv, i as int)) by {
            assert(wv[i + j] == w@[i + j]@ && pv[j as int] == p@[j as int]@);
            assert(wv.subrange(i as int, i + pv.len())[j as int] == wv[i + j]);
        }
        i = i + 1;
    }
    false
}

/// A word that stands for the concept is in the label.
pub open spec fn names_concept(label: Seq<char>, concept: Seq<char>) -> bool {
    exists|j: int|
        0 <= j < 48 && (#[trigger] ALIASES@[j]).0@ == concept && says_phrase(
            label,
            ALIASES@[j].1@,
        )
}

fn label_names(label: &str, concept: &str) -> (r: bool)
    ensures
        r == names_concept(label@, concept@),
{
    let mut j: usize = 0;
    while j < 48
        invariant
            j <= 48,
            forall|k: int|
                0 <= k < j ==> !((#[trigger] ALIASES@[k]).0@ == concept@ && says_phrase(
                    label@,
                    ALIASES@[k].1@,
                )),
        decreases 48 - j,
    {
        if text::same(ALIASES[j].0, concept) && has_phrase(label, ALIASES[j].1) {
            assert(ALIASES@[j as int].0@ == concept@);
            return true;
        }
        j = j + 1;
    }
    false
}

// ---- reading ----

/// The first `n` mapping destinations of the words, each once.
pub open spec fn homes_first(
    mappings: Seq<(Seq<char>, Seq<char>)>,
    words: Seq<Seq<char>>,
    n: int,
) -> Seq<Seq<char>>
    decreases n,
{
    if n <= 0 {
        Seq::empty()
    } else {
        let before = homes_first(mappings, words, n - 1);
        match found(mappings, words[n - 1]) {
            Some(d) => with_item(before, d),
            None => before,
        }
    }
}

/// The destination of a category: that of the whole name, or the only one that its words
/// lead to.
pub open spec fn category_home(m: SectionMapView, category: Seq<char>) -> Option<Seq<char>> {
    match found(m.mappings, slug_of(category)) {
        Some(d) => Some(d),
        None => {
            let w = plain_words_of(category);
            let homes = homes_first(m.mappings, w, w.len() as int);
            if homes.len() == 1 {
                Some(homes[0])
            } else {
                None
            }
        },
    }
}

pub open spec fn protects(m: SectionMapView, label: Seq<char>) -> bool {
    m.protected.contains(slug_of(label)) || is_protected_label(label)
}

pub open spec fn automatic(m: SectionMapView, label: Seq<char>) -> bool {
    let lower = ascii_lowered(label);
    !protects(m, label) && !contains_text(lower, "waccf"@) && !contains_text(
        lower,
        "weapons, armour, clothing, and clutter fixes"@,
    ) && !contains_text(lower, "weapons armor clothing and clutter fixes"@)
}

/// The ambiguous concepts among the first `n` that await a choice.
pub open spec fn unsettled_first(m: SectionMapView, n: int) -> Seq<Seq<char>>
    decreases n,
{
    if n <= 0 {
        Seq::empty()
    } else {
        let before = unsettled_first(m, n - 1);
        let c = m.ambiguous[n - 1];
        if c != "armor"@ && !m.multi_destination.contains(c) {
            with_item(before, c)
        } else {
            before
        }
    }
}

pub open spec fn unless_mapped(s: Seq<Seq<char>>, m: SectionMapView, c: Seq<char>) -> Seq<Seq<char>> {
    if found(m.mappings, c) is None {
        with_item(s, c)
    } else {
        s
    }
}

pub open spec fn unless_settled(s: Seq<Seq<char>>, m: SectionMapView, c: Seq<char>) -> Seq<
    Seq<char>,
> {
    if found(m.mappings, c) is None && !m.multi_destination.contains(c) {
        with_item(s, c)
    } else {
        s
    }
}

/// The concepts that are put in front of the user.
pub open spec fn open_concepts(m: SectionMapView) -> Seq<Seq<char>> {
    let a = unsettled_first(m, m.ambiguous.len() as int);
    let b = unless_mapped(
        unless_mapped(unless_mapped(a, m, "armor-base"@), m, "armor-converted"@),
        m,
        "armor-new"@,
    );
    let c = unless_settled(
        unless_settled(unless_settled(b, m, "compatibility"@), m, "worldspace"@),
        m,
        "interior"@,
    );
    unless_settled(unless_settled(c, m, "enb"@), m, "community-shaders"@)
}

fn offer(out: &mut Vec<String>, wanted: bool, concept: &str)
    ensures
        final(out).deep_view() == (if wanted {
            with_item(old(out).deep_view(), concept@)
        } else {
            old(out).deep_view()
        }),
{
    if wanted {
        keys::add_item(out, concept.to_string());
    }
}

impl SectionMap {
    /// The destination of a category, where it has exactly one.
    pub fn destination_for_category(&self, category: &str) -> (r: Option<&str>)
        ensures
            r.deep_view() == category_home(self.deep_view(), category@),
    {
        let whole = keys::slug(category);
        if let Some(d) = self.mappings.get(whole.as_str()) {
            return Some(d.as_str());
        }
        let words = keys::plain_words(category);
        let ghost wv = words.deep_view();
        let ghost mv = self.mappings.deep_view();
        assert(wv.len() == words.len());
        let mut homes: Vec<String> = list::none();
        let mut last: Option<&str> = None;
        let mut i: usize = 0;
        while i < words.len()
            invariant
                i <= words.len(),
                wv == words.deep_view(),
                mv == self.mappings.deep_view(),
                homes.deep_view() == homes_first(mv, wv, i as int),
                homes.len() == 1 ==> last is Some && last->0@ == homes.deep_view()[0],
            decreases words.len() - i,
        {
            assert(wv[i as int] == words@[i as int]@);
            if let Some(d) = self.mappings.get(words[i].as_str()) {
                let ghost before = homes.deep_view();
                assert(before.len() == homes.len());
                keys::add_item(&mut homes, d.clone());
                assert(homes.deep_view().len() == homes.len());
                if homes.len() == 1 {
                    assert(homes.deep_view()[0] == d@);
                    last = Some(d.as_str());
                }
            }
            i = i + 1;
        }
        assert(homes.deep_view().len() == homes.len());
        if homes.len() == 1 {
            last
        } else {
            None
        }
    }

    /// The destination of a concept that the roadmap names as it stands.
    pub fn explicit_destination_for(&self, concept: &str) -> (r: Option<&str>)
        ensures
            r.deep_view() == found(self.deep_view().mappings, slug_of(concept@)),
    {
        let k = keys::slug(concept);
        match self.mappings.get(k.as_str()) {
            Some(d) => Some(d.as_str()),
            None => None,
        }
    }

    pub fn is_protected(&self, label: &str) -> (r: bool)
        ensures
            r == protects(self.deep_view(), label@),
    {
        let k = keys::slug(label);
        list::holds(&self.protected, k.as_str()) || protected(label)
    }

    pub fn is_terminal(&self, label: &str) -> (r: bool)
        ensures
            r == self.deep_view().terminal.contains(slug_of(label@)),
    {
        let k = keys::slug(label);
        list::holds(&self.terminal, k.as_str())
    }

    pub fn is_context(&self, label: &str) -> (r: bool)
        ensures
            r == self.deep_view().context.contains(slug_of(label@)),
    {
        let k = keys::slug(label);
        list::holds(&self.context, k.as_str())
    }

    pub fn mapping_count(&self) -> (n: usize)
        ensures
            n == self.deep_view().mappings.len(),
    {
        self.mappings.len()
    }

    pub fn ambiguous_count(&self) -> (n: usize)
        ensures
            n == self.deep_view().ambiguous.len(),
    {
        assert(self.ambiguous.deep_view().len() == self.ambiguous.len());
        self.ambiguous.len()
    }

    /// The concepts that await a choice, in alphabetical order.
    pub fn review_concepts(&self) -> (r: Vec<String>)
        ensures
            r.deep_view() == sorted::<String>(open_concepts(self.deep_view())),
    {
        let ghost m = self.deep_view();
        let mut out: Vec<String> = list::none();
        let mut i: usize = 0;
        while i < self.ambiguous.len()
            invariant
                i <= self.ambiguous.len(),
                m == self.deep_view(),
                out.deep_view() == unsettled_first(m, i as int),
            decreases self.ambiguous.len() - i,
        {
            assert(m.ambiguous[i as int] == self.ambiguous@[i as int]@);
            let c = self.ambiguous[i].as_str();
            if !text::same(c, "armor") && !list::holds(&self.multi_destination, c) {
                keys::add_item(&mut out, c.to_string());
            }
            i = i + 1;
        }
        assert(m.ambiguous.len() == self.ambiguous.len());
        offer(&mut out, !self.mappings.contains_key("armor-base"), "armor-base");
        offer(&mut out, !self.mappings.contains_key("armor-converted"), "armor-converted");
        offer(&mut out, !self.mappings.contains_key("armor-new"), "armor-new");
        offer(&mut out, self.unsettled("compatibility"), "compatibility");
        offer(&mut out, self.unsettled("worldspace"), "worldspace");
        offer(&mut out, self.unsettled("interior"), "interior");
        offer(&mut out, self.unsettled("enb"), "enb");
        offer(&mut out, self.unsettled("community-shaders"), "community-shaders");
        sort::sort(out)
    }

    fn unsettled(&self, concept: &str) -> (r: bool)
        ensures
            r == (found(self.deep_view().mappings, concept@) is None
                && !self.deep_view().multi_destination.contains(concept@)),
    {
        !self.mappings.contains_key(concept) && !list::holds(&self.multi_destination, concept)
    }

    /// The concepts with their separators, in alphabetical order.
    pub fn reviewed_mappings(&self) -> (r: Vec<(String, String)>)
        ensures
            r.deep_view() == sorted::<(String, String)>(self.deep_view().mappings),
    {
        let ghost all = self.mappings.deep_view();
        let mut out: Vec<(String, String)> = list::none();
        let mut i: usize = 0;
        assert(all.take(0) =~= Seq::<(Seq<char>, Seq<char>)>::empty());
        while i < self.mappings.len()
            invariant
                i <= all.len(),
                all == self.mappings.deep_view(),
                out.deep_view() == all.take(i as int),
            decreases all.len() - i,
        {
            let e = self.mappings.at(i);
            list::put(&mut out, (e.0.clone(), e.1.clone()));
            i = i + 1;
            assert(out.deep_view() =~= all.take(i as int));
        }
        assert(all.take(i as int) =~= all);
        sort::sort(out)
    }

    pub fn is_automatic_destination(&self, label: &str) -> (r: bool)
        ensures
            r == automatic(self.deep_view(), label@),
    {
        if self.is_protected(label) {
            return false;
        }
        let lower = text::ascii_lower(label);
        !text::contains(lower.as_str(), "waccf") && !text::contains(
            lower.as_str(),
            "weapons, armour, clothing, and clutter fixes",
        ) && !text::contains(lower.as_str(), "weapons armor clothing and clutter fixes")
    }

    /// The labels that mods may be sent to without being asked, in order.
    pub fn destinations(&self, labels: &[String]) -> (r: Vec<String>)
        ensures
            r.deep_view() == labels.deep_view().filter(|l: Seq<char>| automatic(self.deep_view(), l)),
    {
        let ghost p = |l: Seq<char>| automatic(self.deep_view(), l);
        let ghost all = labels.deep_view();
        let mut out: Vec<String> = list::none();
        let mut i: usize = 0;
        assert(all.take(0).filter(p) =~= Seq::<Seq<char>>::empty()) by {
            reveal(Seq::filter);
        }
        while i < labels.len()
            invariant
                i <= labels.len(),
                all == labels.deep_view(),
                p == |l: Seq<char>| automatic(self.deep_view(), l),
                out.deep_view() == all.take(i as int).filter(p),
            decreases labels.len() - i,
        {
            assert(all[i as int] == labels@[i as int]@);
            proof {
                lemma_filter_next(all, p, i as int);
            }
            if self.is_automatic_destination(labels[i].as_str()) {
                list::put(&mut out, labels[i].clone());
            }
            i = i + 1;
        }
        assert(all.take(i as int) =~= all);
        out
    }

    /// The labels that are only looked at, in order.
    pub fn context_of(&self, labels: &[String]) -> (r: Vec<String>)
        ensures
            r.deep_view() == labels.deep_view().filter(
                |l: Seq<char>| self.deep_view().context.contains(slug_of(l)),
            ),
    {
        let ghost p = |l: Seq<char>| self.deep_view().context.contains(slug_of(l));
        let ghost all = labels.deep_view();
        let mut out: Vec<String> = list::none();
        let mut i: usize = 0;
        assert(all.take(0).filter(p) =~= Seq::<Seq<char>>::empty()) by {
            reveal(Seq::filter);
        }
        while i < labels.len()
            invariant
                i <= labels.len(),
                all == labels.deep_view(),
                p == |l: Seq<char>| self.deep_view().context.contains(slug_of(l)),
                out.deep_view() == all.take(i as int).filter(p),
            decreases labels.len() - i,
        {
            assert(all[i as int] == labels@[i as int]@);
            proof {
                lemma_filter_next(all, p, i as int);
            }
            if self.is_context(labels[i].as_str()) {
                list::put(&mut out, labels[i].clone());
            }
            i = i + 1;
        }
        assert(all.take(i as int) =~= all);
        out
    }

    pub fn multi_destination_concepts(&self) -> (r: Vec<String>)
        ensures
            r.deep_view() == sorted::<String>(self.deep_view().multi_destination),
    {
        sort::sort(list::copy(&self.multi_destination))
    }

    /// The concepts with several separators, in alphabetical order.
    pub fn branch_routes(&self) -> (r: Vec<(String, Vec<String>)>)
        ensures
            r.deep_view() == sorted::<(String, Vec<String>)>(self.deep_view().branch_destinations),
    {
        let ghost all = self.branch_destinations.deep_view();
        let mut out: Vec<(String, Vec<String>)> = list::none();
        let mut i: usize = 0;
        assert(all.take(0) =~= Seq::<(Seq<char>, Seq<Seq<char>>)>::empty());
        while i < self.branch_destinations.len()
            invariant
                i <= all.len(),
                all == self.branch_destinations.deep_view(),
                out.deep_view() == all.take(i as int),
            decreases all.len() - i,
        {
            let e = self.branch_destinations.at(i);
            list::put(&mut out, (e.0.clone(), list::copy(&e.1)));
            i = i + 1;
            assert(out.deep_view() =~= all.take(i as int));
        }
        assert(all.take(i as int) =~= all);
        sort::sort(out)
    }

    /// The separators of a concept that has several.
    pub fn branch_destinations_for(&self, concept: &str) -> (r: Option<&[String]>)
        ensures
            r.deep_view() == found(self.deep_view().branch_destinations, slug_of(concept@)),
    {
        let k = keys::slug(concept);
        match self.branch_destinations.get(k.as_str()) {
            Some(v) => {
                let s = v.as_slice();
                assert(s.deep_view() =~= v.deep_view());
                Some(s)
            },
            None => None,
        }
    }
}

// ---- the text of a roadmap ----

/// What the first rows of a roadmap say.
#[verifier::ext_equal]
pub struct Rows {
    pub candidates: Seq<(Seq<char>, Seq<Seq<char>>)>,
    pub protected: Seq<Seq<char>>,
    pub context: Seq<Seq<char>>,
    pub terminal: Seq<Seq<char>>,
    pub multi: Seq<Seq<char>>,
}

pub open spec fn none_yet(c: Option<Seq<Seq<char>>>) -> Seq<Seq<char>> {
    match c {
        Some(s) => s,
        None => Seq::empty(),
    }
}

/// A row `concept = separator`.
pub open spec fn with_candidate(r: Rows, line: Seq<char>) -> Rows {
    match split_first(line, "="@) {
        Some((a, b)) => {
            let concept = slug_of(a);
            let home = trimmed(b);
            if concept.len() > 0 && home.len() > 0 {
                Rows {
                    candidates: inserted(
                        r.candidates,
                        concept,
                        with_item(none_yet(found(r.candidates, concept)), home),
                    ),
                    ..r
                }
            } else {
                r
            }
        },
        None => r,
    }
}

/// A row of the section of that name.
pub open spec fn with_row(r: Rows, section: Seq<char>, line: Seq<char>) -> Rows {
    let name = ascii_lowered(section);
    if name == "map"@ {
        with_candidate(r, line)
    } else if name == "protected"@ {
        Rows { protected: with_item(r.protected, slug_of(line)), ..r }
    } else if name == "context"@ {
        Rows { context: with_item(r.context, slug_of(line)), ..r }
    } else if name == "terminal"@ {
        Rows { terminal: with_item(r.terminal, slug_of(line)), ..r }
    } else if name == "multi-destination"@ && slug_of(line).len() > 0 {
        Rows { multi: with_item(r.multi, slug_of(line)), ..r }
    } else {
        r
    }
}

pub open spec fn rows_first(lines: Seq<Seq<char>>, n: int) -> Rows
    decreases n,
{
    if n <= 0 {
        Rows {
            candidates: Seq::empty(),
            protected: Seq::empty(),
            context: Seq::empty(),
            terminal: Seq::empty(),
            multi: Seq::empty(),
        }
    } else {
        let before = rows_first(lines, n - 1);
        let line = trimmed(lines[n - 1]);
        if line.len() == 0 || is_comment(line) || header_of(line) is Some {
            before
        } else {
            with_row(before, section_after(lines, n), line)
        }
    }
}

pub struct Routes {
    pub mappings: Seq<(Seq<char>, Seq<char>)>,
    pub multi: Seq<Seq<char>>,
    pub branches: Seq<(Seq<char>, Seq<Seq<char>>)>,
}

/// A concept with one separator is mapped to it; one with several is a branch.
pub open spec fn routes_first(
    candidates: Seq<(Seq<char>, Seq<Seq<char>>)>,
    multi: Seq<Seq<char>>,
    n: int,
) -> Routes
    decreases n,
{
    if n <= 0 {
        Routes { mappings: Seq::empty(), multi, branches: Seq::empty() }
    } else {
        let r = routes_first(candidates, multi, n - 1);
        let (concept, homes) = candidates[n - 1];
        if homes.len() == 1 {
            Routes { mappings: inserted(r.mappings, concept, homes[0]), ..r }
        } else {
            Routes {
                multi: with_item(r.multi, concept),
                branches: inserted(r.branches, concept, sorted::<String>(homes)),
                ..r
            }
        }
    }
}

/// The roadmap that a text holds.
pub open spec fn roadmap_of(s: Seq<char>) -> SectionMapView {
    let lines = lines_of(s);
    let r = rows_first(lines, lines.len() as int);
    let routes = routes_first(r.candidates, r.multi, r.candidates.len() as int);
    SectionMapView {
        path: Seq::empty(),
        created: false,
        mappings: routes.mappings,
        protected: r.protected,
        context: r.context,
        terminal: r.terminal,
        ambiguous: Seq::empty(),
        multi_destination: routes.multi,
        branch_destinations: routes.branches,
    }
}

struct Gathered {
    candidates: TextMap<Vec<String>>,
    protected: Vec<String>,
    context: Vec<String>,
    terminal: Vec<String>,
    multi: Vec<String>,
}

spec fn rows_view(g: &Gathered) -> Rows {
    Rows {
        candidates: g.candidates.deep_view(),
        protected: g.protected.deep_view(),
        context: g.context.deep_view(),
        terminal: g.terminal.deep_view(),
        multi: g.multi.deep_view(),
    }
}

fn add_candidate(g: &mut Gathered, line: &str)
    ensures
        rows_view(final(g)) == with_candidate(rows_view(old(g)), line@),
{
    if let Some((a, b)) = text::split_once(line, "=") {
        let concept = keys::slug(a.as_str());
        let home = text::trim(b.as_str());
        let left = text::chars_of(concept.as_str());
        let right = text::chars_of(home.as_str());
        if left.len() > 0 && right.len() > 0 {
            let mut homes = match g.candidates.get(concept.as_str()) {
                Some(v) => list::copy(v),
                None => list::none(),
            };
            keys::add_item(&mut homes, home);
            g.candidates.insert(concept, homes);
        }
    }
}

fn add_row(g: &mut Gathered, section: &str, line: &str)
    ensures
        rows_view(final(g)) == with_row(rows_view(old(g)), section@, line@),
{
    let name = text::ascii_lower(section);
    let name = name.as_str();
    if text::same(name, "map") {
        add_candidate(g, line);
    } else if text::same(name, "protected") {
        keys::add_item(&mut g.protected, keys::slug(line));
    } else if text::same(name, "context") {
        keys::add_item(&mut g.context, keys::slug(line));
    } else if text::same(name, "terminal") {
        keys::add_item(&mut g.terminal, keys::slug(line));
    } else if text::same(name, "multi-destination") {
        let k = keys::slug(line);
        let chars = text::chars_of(k.as_str());
        if chars.len() > 0 {
            keys::add_item(&mut g.multi, k);
        }
    }
}

/// Reads a roadmap.
pub fn parse_roadmap(s: &str) -> (r: SectionMap)
    ensures
        r.deep_view() == roadmap_of(s@),
{
    let lines = text::lines(s);
    let ghost lv = lines.deep_view();
    let mut g = Gathered {
        candidates: TextMap::new(),
        protected: list::none(),
        context: list::none(),
        terminal: list::none(),
        multi: list::none(),
    };
    let mut section = String::new();
    let mut i: usize = 0;
    assert(section@ =~= section_after(lv, 0));
    while i < lines.len()
        invariant
            i <= lines.len(),
            lv == lines.deep_view(),
            section@ == section_after(lv, i as int),
            rows_view(&g) == rows_first(lv, i as int),
        decreases lines.len() - i,
    {
        assert(lv[i as int] == lines@[i as int]@);
        let line = text::trim(lines[i].as_str());
        let chars = text::chars_of(line.as_str());
        match keys::header(line.as_str()) {
            Some(h) => {
                section = h;
            },
            None => {
                if chars.len() > 0 && !keys::comment(line.as_str()) {
                    add_row(&mut g, section.as_str(), line.as_str());
                }
            },
        }
        i = i + 1;
    }
    assert(lv.len() == lines.len());
    let ghost rows = rows_view(&g);
    let Gathered { candidates, protected, context, terminal, multi } = g;
    let mut multi_destination = multi;
    let mut mappings: TextMap<String> = TextMap::new();
    let mut branch_destinations: TextMap<Vec<String>> = TextMap::new();
    let mut i: usize = 0;
    while i < candidates.len()
        invariant
            i <= rows.candidates.len(),
            rows.candidates == candidates.deep_view(),
            ({
                let r = routes_first(rows.candidates, rows.multi, i as int);
                &&& mappings.deep_view() == r.mappings
                &&& multi_destination.deep_view() == r.multi
                &&& branch_destinations.deep_view() == r.branches
            }),
        decreases rows.candidates.len() - i,
    {
        let e = candidates.at(i);
        assert(e.1.deep_view().len() == e.1.len());
        if e.1.len() == 1 {
            assert(e.1.deep_view()[0] == e.1@[0]@);
            mappings.insert(e.0.clone(), e.1[0].clone());
        } else {
            keys::add_item(&mut multi_destination, e.0.clone());
            branch_destinations.insert(e.0.clone(), sort::sort(list::copy(&e.1)));
        }
        i = i + 1;
    }
    let path = String::new();
    assert(path@ =~= Seq::<char>::empty());
    SectionMap {
        path,
        created: false,
        mappings,
        protected,
        context,
        terminal,
        ambiguous: list::none(),
        multi_destination,
        branch_destinations,
    }
}

// ---- a new roadmap ----

/// The labels among the first `n` that name the concept and are open to all.
pub open spec fn homes_of(labels: Seq<Seq<char>>, concept: Seq<char>, n: int) -> Seq<Seq<char>>
    decreases n,
{
    if n <= 0 {
        Seq::empty()
    } else {
        let before = homes_of(labels, concept, n - 1);
        if !is_protected_label(labels[n - 1]) && names_concept(labels[n - 1], concept) {
            before.push(labels[n - 1])
        } else {
            before
        }
    }
}

pub open spec fn mapped_rows(labels: Seq<Seq<char>>, n: int) -> Seq<Seq<char>>
    decreases n,
{
    if n <= 0 {
        Seq::empty()
    } else {
        let before = mapped_rows(labels, n - 1);
        let concept = CONCEPTS@[n - 1]@;
        let homes = homes_of(labels, concept, labels.len() as int);
        if homes.len() == 1 {
            before.push(concept + " = "@ + homes[0])
        } else {
            before
        }
    }
}

pub open spec fn review_rows(labels: Seq<Seq<char>>, n: int) -> Seq<Seq<char>>
    decreases n,
{
    if n <= 0 {
        Seq::empty()
    } else {
        let before = review_rows(labels, n - 1);
        let concept = CONCEPTS@[n - 1]@;
        let homes = homes_of(labels, concept, labels.len() as int);
        if homes.len() > 1 {
            before.push("# "@ + concept + ": "@ + joined(homes, " | "@))
        } else {
            before
        }
    }
}

/// The concepts among the first `n` that several labels name.
pub open spec fn branching(labels: Seq<Seq<char>>, n: int) -> Seq<Seq<char>>
    decreases n,
{
    if n <= 0 {
        Seq::empty()
    } else {
        let before = branching(labels, n - 1);
        let concept = CONCEPTS@[n - 1]@;
        if homes_of(labels, concept, labels.len() as int).len() > 1 {
            before.push(concept)
        } else {
            before
        }
    }
}

pub open spec fn protected_rows(labels: Seq<Seq<char>>, n: int) -> Seq<Seq<char>>
    decreases n,
{
    if n <= 0 {
        Seq::empty()
    } else {
        let before = protected_rows(labels, n - 1);
        if is_protected_label(labels[n - 1]) {
            before.push(labels[n - 1])
        } else {
            before
        }
    }
}

/// The labels among the first `n` with that slug, but for the one equal to `skip`.
pub open spec fn slugged_rows(
    labels: Seq<Seq<char>>,
    slug: Seq<char>,
    skip: Option<Seq<char>>,
    n: int,
) -> Seq<Seq<char>>
    decreases n,
{
    if n <= 0 {
        Seq::empty()
    } else {
        let before = slugged_rows(labels, slug, skip, n - 1);
        if slug_of(labels[n - 1]) == slug && skip != Some(labels[n - 1]) {
            before.push(labels[n - 1])
        } else {
            before
        }
    }
}

pub open spec fn last_of(labels: Seq<Seq<char>>) -> Option<Seq<char>> {
    if labels.len() == 0 {
        None
    } else {
        Some(labels.last())
    }
}

/// The rows that hold no shelf: the outermost wrapper and the game folder.
pub open spec fn context_rows(labels: Seq<Seq<char>>) -> Seq<Seq<char>> {
    (match last_of(labels) {
        Some(l) => seq![l],
        None => Seq::empty(),
    }) + slugged_rows(labels, "game-folder"@, last_of(labels), labels.len() as int)
}

pub open spec fn terminal_rows(labels: Seq<Seq<char>>) -> Seq<Seq<char>> {
    slugged_rows(labels, "end-of-list"@, None, labels.len() as int)
}

/// Whether any word of the table is in the label.
pub open spec fn names_any(label: Seq<char>) -> bool {
    exists|j: int| 0 <= j < 48 && says_phrase(label, (#[trigger] ALIASES@[j]).1@)
}

pub open spec fn unmapped_rows(labels: Seq<Seq<char>>, n: int) -> Seq<Seq<char>>
    decreases n,
{
    if n <= 0 {
        Seq::empty()
    } else {
        let before = unmapped_rows(labels, n - 1);
        if !is_protected_label(labels[n - 1]) && !names_any(labels[n - 1]) {
            before.push("# "@ + labels[n - 1])
        } else {
            before
        }
    }
}

/// The lines of a new roadmap that say what each concept is mapped to.
pub open spec fn concept_lines(labels: Seq<Seq<char>>) -> Seq<Seq<char>> {
    seq![
        "# ModSlut separator roadmap - generated once per MO2 profile."@,
        "#"@,
        "# This file maps PORTABLE CONCEPTS to your profile's separator labels."@,
        "# ModSlut reads this before it plans moves. Edit the generated entries or add"@,
        "# your own. A separator with no entry is intentionally not a destination."@,
        "# Protected separators are never automatic destinations."@,
        ""@,
        "[map]"@,
    ] + mapped_rows(labels, 32) + seq![
        ""@,
        "# Concepts with several plausible separator targets are deliberately"@,
        "# not auto-mapped. Pick ONE target below and add it to [map] if you want it."@,
        "[needs-review]"@,
    ] + review_rows(labels, 32)
}

/// The lines of a new roadmap that say which labels are set apart.
pub open spec fn label_lines(labels: Seq<Seq<char>>) -> Seq<Seq<char>> {
    seq![""@, "[protected]"@] + protected_rows(labels, labels.len() as int) + seq![
        ""@,
        "# Non-sortable MO2 presentation rows for this profile."@,
        "[context]"@,
    ] + context_rows(labels) + seq![""@, "[terminal]"@] + terminal_rows(labels)
}

/// The lines of a new roadmap on what has no one place.
pub open spec fn open_lines(labels: Seq<Seq<char>>) -> Seq<Seq<char>> {
    seq![
        ""@,
        "# Concepts that deliberately have NO global destination. They need"@,
        "# narrower evidence (city name, interface file, patch parentage) or a user rule."@,
        "[multi-destination]"@,
    ] + sorted::<String>(branching(labels, 32)) + seq![""@, "[unmapped]"@] + unmapped_rows(
        labels,
        labels.len() as int,
    )
}

/// The lines of a new roadmap for a profile with these labels.
pub open spec fn roadmap_lines(labels: Seq<Seq<char>>) -> Seq<Seq<char>> {
    concept_lines(labels) + label_lines(labels) + open_lines(labels)
}

fn find_homes(labels: &[String], concept: &str) -> (r: Vec<String>)
    ensures
        r.deep_view() == homes_of(labels.deep_view(), concept@, labels.len() as int),
{
    let ghost lv = labels.deep_view();
    let mut out: Vec<String> = list::none();
    let mut i: usize = 0;
    while i < labels.len()
        invariant
            i <= labels.len(),
            lv == labels.deep_view(),
            out.deep_view() == homes_of(lv, concept@, i as int),
        decreases labels.len() - i,
    {
        assert(lv[i as int] == labels@[i as int]@);
        if !protected(labels[i].as_str()) && label_names(labels[i].as_str(), concept) {
            list::put(&mut out, labels[i].clone());
        }
        i = i + 1;
    }
    out
}

struct Drafts {
    mapped: Vec<String>,
    review: Vec<String>,
    branching: Vec<String>,
}

fn draft(labels: &[String]) -> (r: Drafts)
    ensures
        r.mapped.deep_view() == mapped_rows(labels.deep_view(), 32),
        r.review.deep_view() == review_rows(labels.deep_view(), 32),
        r.branching.deep_view() == branching(labels.deep_view(), 32),
{
    let ghost lv = labels.deep_view();
    assert(lv.len() == labels.len());
    let mut d = Drafts { mapped: list::none(), review: list::none(), branching: list::none() };
    let mut i: usize = 0;
    while i < 32
        invariant
            i <= 32,
            lv == labels.deep_view(),
            lv.len() == labels.len(),
            d.mapped.deep_view() == mapped_rows(lv, i as int),
            d.review.deep_view() == review_rows(lv, i as int),
            d.branching.deep_view() == branching(lv, i as int),
        decreases 32 - i,
    {
        let concept = CONCEPTS[i];
        let homes = find_homes(labels, concept);
        assert(homes.deep_view().len() == homes.len());
        if homes.len() == 1 {
            assert(homes.deep_view()[0] == homes@[0]@);
            list::put(&mut d.mapped, text::cat3(concept, " = ", homes[0].as_str()));
        } else if homes.len() > 1 {
            let all = text::join(&homes, " | ");
            let mut line = text::cat3("# ", concept, ": ");
            line.append(all.as_str());
            list::put(&mut d.review, line);
            list::put(&mut d.branching, concept.to_string());
        }
        i = i + 1;
    }
    d
}

fn add_protected(out: &mut Vec<String>, labels: &[String])
    ensures
        final(out).deep_view() == old(out).deep_view() + protected_rows(
            labels.deep_view(),
            labels.len() as int,
        ),
{
    let ghost lv = labels.deep_view();
    let ghost start = out.deep_view();
    let mut i: usize = 0;
    assert(start + Seq::<Seq<char>>::empty() =~= start);
    while i < labels.len()
        invariant
            i <= labels.len(),
            lv == labels.deep_view(),
            out.deep_view() == start + protected_rows(lv, i as int),
        decreases labels.len() - i,
    {
        assert(lv[i as int] == labels@[i as int]@);
        if protected(labels[i].as_str()) {
            list::put(out, labels[i].clone());
        }
        i = i + 1;
        assert(out.deep_view() =~= start + protected_rows(lv, i as int));
    }
}

fn add_slugged(out: &mut Vec<String>, labels: &[String], slug: &str, skip: &Option<String>)
    ensures
        final(out).deep_view() == old(out).deep_view() + slugged_rows(
            labels.deep_view(),
            slug@,
            skip.deep_view(),
            labels.len() as int,
        ),
{
    let ghost lv = labels.deep_view();
    let ghost start = out.deep_view();
    let mut i: usize = 0;
    assert(start + Seq::<Seq<char>>::empty() =~= start);
    while i < labels.len()
        invariant
            i <= labels.len(),
            lv == labels.deep_view(),
            out.deep_view() == start + slugged_rows(lv, slug@, skip.deep_view(), i as int),
        decreases labels.len() - i,
    {
        assert(lv[i as int] == labels@[i as int]@);
        let k = keys::slug(labels[i].as_str());
        let skipped = match skip {
            Some(s) => labels[i] == *s,
            None => false,
        };
        if text::same(k.as_str(), slug) && !skipped {
            list::put(out, labels[i].clone());
        }
        i = i + 1;
        assert(out.deep_view() =~= start + slugged_rows(lv, slug@, skip.deep_view(), i as int));
    }
}

fn add_context(out: &mut Vec<String>, labels: &[String])
    ensures
        final(out).deep_view() == old(out).deep_view() + context_rows(labels.deep_view()),
{
    let ghost lv = labels.deep_view();
    let ghost start = out.deep_view();
    assert(lv.len() == labels.len());
    let wrapper: Option<String> = if labels.len() == 0 {
        None
    } else {
        assert(lv.last() == labels@[labels.len() - 1]@);
        Some(labels[labels.len() - 1].clone())
    };
    match &wrapper {
        Some(w) => {
            list::put(out, w.clone());
        },
        None => {},
    }
    add_slugged(out, labels, "game-folder", &wrapper);
    assert(out.deep_view() =~= start + context_rows(lv));
}

fn label_names_any(label: &str) -> (r: bool)
    ensures
        r == names_any(label@),
{
    let mut j: usize = 0;
    while j < 48
        invariant
            j <= 48,
            forall|k: int| 0 <= k < j ==> !says_phrase(label@, (#[trigger] ALIASES@[k]).1@),
        decreases 48 - j,
    {
        if has_phrase(label, ALIASES[j].1) {
            assert(says_phrase(label@, ALIASES@[j as int].1@));
            return true;
        }
        j = j + 1;
    }
    false
}

fn add_unmapped(out: &mut Vec<String>, labels: &[String])
    ensures
        final(out).deep_view() == old(out).deep_view() + unmapped_rows(
            labels.deep_view(),
            labels.len() as int,
        ),
{
    let ghost lv = labels.deep_view();
    let ghost start = out.deep_view();
    let mut i: usize = 0;
    assert(start + Seq::<Seq<char>>::empty() =~= start);
    while i < labels.len()
        invariant
            i <= labels.len(),
            lv == labels.deep_view(),
            out.deep_view() == start + unmapped_rows(lv, i as int),
        decreases labels.len() - i,
    {
        assert(lv[i as int] == labels@[i as int]@);
        if !protected(labels[i].as_str()) && !label_names_any(labels[i].as_str()) {
            list::put(out, text::cat("# ", labels[i].as_str()));
        }
        i = i + 1;
        assert(out.deep_view() =~= start + unmapped_rows(lv, i as int));
    }
}

fn put_concepts(out: &mut Vec<String>, mapped: Vec<String>, review: Vec<String>, labels: Ghost<Seq<Seq<char>>>)
    requires
        mapped.deep_view() == mapped_rows(labels@, 32),
        review.deep_view() == review_rows(labels@, 32),
    ensures
        final(out).deep_view() == old(out).deep_view() + concept_lines(labels@),
{
    let ghost start = out.deep_view();
    list::put(out, "# ModSlut separator roadmap - generated once per MO2 profile.".to_string());
    list::put(out, "#".to_string());
    list::put(
        out,
        "# This file maps PORTABLE CONCEPTS to your profile's separator labels.".to_string(),
    );
    list::put(
        out,
        "# ModSlut reads this before it plans moves. Edit the generated entries or add".to_string(),
    );
    list::put(
        out,
        "# your own. A separator with no entry is intentionally not a destination.".to_string(),
    );
    list::put(out, "# Protected separators are never automatic destinations.".to_string());
    list::put(out, "".to_string());
    list::put(out, "[map]".to_string());
    list::put_all(out, mapped);
    list::put(out, "".to_string());
    list::put(
        out,
        "# Concepts with several plausible separator targets are deliberately".to_string(),
    );
    list::put(
        out,
        "# not auto-mapped. Pick ONE target below and add it to [map] if you want it.".to_string(),
    );
    list::put(out, "[needs-review]".to_string());
    list::put_all(out, review);
    assert(out.deep_view() =~= start + concept_lines(labels@));
}

fn put_labels(out: &mut Vec<String>, labels: &[String])
    ensures
        final(out).deep_view() == old(out).deep_view() + label_lines(labels.deep_view()),
{
    let ghost start = out.deep_view();
    assert(labels.deep_view().len() == labels.len());
    list::put(out, "".to_string());
    list::put(out, "[protected]".to_string());
    add_protected(out, labels);
    list::put(out, "".to_string());
    list::put(out, "# Non-sortable MO2 presentation rows for this profile.".to_string());
    list::put(out, "[context]".to_string());
    add_context(out, labels);
    list::put(out, "".to_string());
    list::put(out, "[terminal]".to_string());
    add_slugged(out, labels, "end-of-list", &None);
    assert(out.deep_view() =~= start + label_lines(labels.deep_view()));
}

fn put_open(out: &mut Vec<String>, branches: Vec<String>, labels: &[String])
    requires
        branches.deep_view() == branching(labels.deep_view(), 32),
    ensures
        final(out).deep_view() == old(out).deep_view() + open_lines(labels.deep_view()),
{
    let ghost start = out.deep_view();
    assert(labels.deep_view().len() == labels.len());
    list::put(out, "".to_string());
    list::put(
        out,
        "# Concepts that deliberately have NO global destination. They need".to_string(),
    );
    list::put(
        out,
        "# narrower evidence (city name, interface file, patch parentage) or a user rule.".to_string(),
    );
    list::put(out, "[multi-destination]".to_string());
    list::put_all(out, sort::sort(branches));
    list::put(out, "".to_string());
    list::put(out, "[unmapped]".to_string());
    add_unmapped(out, labels);
    assert(out.deep_view() =~= start + open_lines(labels.deep_view()));
}

/// A new roadmap: what the labels say plainly is mapped, and the rest is left to the user.
pub fn roadmap_text(labels: &[String]) -> (r: String)
    ensures
        r@ == ended(roadmap_lines(labels.deep_view())),
{
    let ghost lv = labels.deep_view();
    let Drafts { mapped, review, branching: branches } = draft(labels);
    let mut out: Vec<String> = list::none();
    put_concepts(&mut out, mapped, review, Ghost(lv));
    put_labels(&mut out, labels);
    put_open(&mut out, branches, labels);
    assert(out.deep_view() =~= roadmap_lines(lv));
    text::end_lines(&out)
}

// ---- edits ----

/// A row of `[map]` for the concept. With `guarded` a comment is none.
pub open spec fn is_map_row(
    lines: Seq<Seq<char>>,
    k: int,
    wanted: Seq<char>,
    guarded: bool,
) -> bool {
    let line = trimmed(lines[k]);
    ascii_lowered(section_after(lines, k + 1)) == ascii_lowered("map"@) && !(guarded && is_comment(
        line,
    )) && (match split_first(line, "="@) {
        Some((a, _)) => slug_of(a) == wanted,
        None => false,
    })
}

pub open spec fn is_multi_row(lines: Seq<Seq<char>>, k: int, wanted: Seq<char>) -> bool {
    ascii_lowered(section_after(lines, k + 1)) == ascii_lowered("multi-destination"@) && slug_of(
        trimmed(lines[k]),
    ) == wanted
}

/// The first `n` lines without the rows for the concept.
pub open spec fn kept_first(
    lines: Seq<Seq<char>>,
    wanted: Seq<char>,
    guarded: bool,
    n: int,
) -> Seq<Seq<char>>
    decreases n,
{
    if n <= 0 {
        Seq::empty()
    } else {
        let before = kept_first(lines, wanted, guarded, n - 1);
        if is_map_row(lines, n - 1, wanted, guarded) || is_multi_row(lines, n - 1, wanted) {
            before
        } else {
            before.push(lines[n - 1])
        }
    }
}

/// The first line from `i` on that is that header.
pub open spec fn header_place(lines: Seq<Seq<char>>, header: Seq<char>, i: int) -> Option<int>
    decreases lines.len() - i,
{
    if i < 0 || i >= lines.len() {
        None
    } else if ascii_lowered(trimmed(lines[i])) == ascii_lowered(header) {
        Some(i)
    } else {
        header_place(lines, header, i + 1)
    }
}

/// Where the section ends whose first row is at `i`.
pub open spec fn section_end(lines: Seq<Seq<char>>, i: int) -> int
    decreases lines.len() - i,
{
    if i < 0 || i >= lines.len() {
        lines.len() as int
    } else if header_of(trimmed(lines[i])) is Some {
        i
    } else {
        section_end(lines, i + 1)
    }
}

/// The lines once the concept has that separator and no other.
pub open spec fn reviewed_lines(
    lines: Seq<Seq<char>>,
    wanted: Seq<char>,
    home: Seq<char>,
) -> Option<Seq<Seq<char>>> {
    let kept = kept_first(lines, wanted, true, lines.len() as int);
    match header_place(kept, "[map]"@, 0) {
        Some(start) => Some(kept.insert(section_end(kept, start + 1), wanted + " = "@ + home)),
        None => None,
    }
}

/// The lines once the concept is known to have no one separator.
pub open spec fn multi_lines(lines: Seq<Seq<char>>, wanted: Seq<char>) -> Seq<Seq<char>> {
    let kept = kept_first(lines, wanted, false, lines.len() as int);
    match header_place(kept, "[multi-destination]"@, 0) {
        Some(start) => kept.insert(section_end(kept, start + 1), wanted),
        None => kept + seq![""@, "[multi-destination]"@, wanted],
    }
}

fn keep_rows(lines: &Vec<String>, wanted: &str, guarded: bool) -> (r: Vec<String>)
    ensures
        r.deep_view() == kept_first(lines.deep_view(), wanted@, guarded, lines.len() as int),
{
    let ghost lv = lines.deep_view();
    let mut out: Vec<String> = list::none();
    let mut section = String::new();
    let mut i: usize = 0;
    assert(section@ =~= section_after(lv, 0));
    while i < lines.len()
        invariant
            i <= lines.len(),
            lv == lines.deep_view(),
            section@ == section_after(lv, i as int),
            out.deep_view() == kept_first(lv, wanted@, guarded, i as int),
        decreases lines.len() - i,
    {
        assert(lv[i as int] == lines@[i as int]@);
        let line = text::trim(lines[i].as_str());
        match keys::header(line.as_str()) {
            Some(h) => {
                section = h;
            },
            None => {},
        }
        let map_row = text::same_ignoring_case(section.as_str(), "map") && !(guarded
            && keys::comment(line.as_str())) && match text::split_once(line.as_str(), "=") {
            Some((a, _)) => {
                let k = keys::slug(a.as_str());
                text::same(k.as_str(), wanted)
            },
            None => false,
        };
        let multi_row = text::same_ignoring_case(section.as_str(), "multi-destination") && {
            let k = keys::slug(line.as_str());
            text::same(k.as_str(), wanted)
        };
        if !map_row && !multi_row {
            list::put(&mut out, lines[i].clone());
        }
        i = i + 1;
    }
    out
}

fn find_header(lines: &Vec<String>, header: &str) -> (r: Option<usize>)
    ensures
        match r {
            Some(i) => header_place(lines.deep_view(), header@, 0) == Some(i as int) && i
                < lines.len(),
            None => header_place(lines.deep_view(), header@, 0) is None,
        },
{
    let ghost lv = lines.deep_view();
    let mut i: usize = 0;
    while i < lines.len()
        invariant
            i <= lines.len(),
            lv == lines.deep_view(),
            header_place(lv, header@, i as int) == header_place(lv, header@, 0),
        decreases lines.len() - i,
    {
        assert(lv[i as int] == lines@[i as int]@);
        let line = text::trim(lines[i].as_str());
        if text::same_ignoring_case(line.as_str(), header) {
            return Some(i);
        }
        i = i + 1;
    }
    None
}

fn find_end(lines: &Vec<String>, from: usize) -> (r: usize)
    requires
        from <= lines.len(),
    ensures
        r == section_end(lines.deep_view(), from as int),
        r <= lines.len(),
{
    let ghost lv = lines.deep_view();
    let mut i: usize = from;
    while i < lines.len()
        invariant
            i <= lines.len(),
            lv == lines.deep_view(),
            section_end(lv, i as int) == section_end(lv, from as int),
        decreases lines.len() - i,
    {
        assert(lv[i as int] == lines@[i as int]@);
        let line = text::trim(lines[i].as_str());
        if keys::header(line.as_str()).is_some() {
            return i;
        }
        i = i + 1;
    }
    i
}

fn finish(lines: &Vec<String>) -> (r: String)
    ensures
        r@ == joined(lines.deep_view(), "\n"@) + "\n"@,
{
    let mut r = text::join(lines, "\n");
    r.append("\n");
    r
}

/// The roadmap with the reviewed separator of a concept in place of every row for it.
/// There is none where the text has no `[map]` section.
pub fn save_reviewed_mapping(s: &str, concept: &str, destination: &str) -> (r: Option<String>)
    ensures
        r.deep_view() == (match reviewed_lines(lines_of(s@), slug_of(concept@), destination@) {
            Some(lines) => Some(joined(lines, "\n"@) + "\n"@),
            None => None,
        }),
{
    let wanted = keys::slug(concept);
    let lines = text::lines(s);
    assert(lines.deep_view().len() == lines.len());
    let mut kept = keep_rows(&lines, wanted.as_str(), true);
    match find_header(&kept, "[map]") {
        Some(start) => {
            let end = find_end(&kept, start + 1);
            list::put_at(&mut kept, end, text::cat3(wanted.as_str(), " = ", destination));
            Some(finish(&kept))
        },
        None => None,
    }
}

/// The roadmap with a concept marked as one that has no single separator.
pub fn save_multi_destination(s: &str, concept: &str) -> (r: String)
    ensures
        r@ == joined(multi_lines(lines_of(s@), slug_of(concept@)), "\n"@) + "\n"@,
{
    let wanted = keys::slug(concept);
    let lines = text::lines(s);
    assert(lines.deep_view().len() == lines.len());
    let mut kept = keep_rows(&lines, wanted.as_str(), false);
    match find_header(&kept, "[multi-destination]") {
        Some(start) => {
            let end = find_end(&kept, start + 1);
            list::put_at(&mut kept, end, wanted);
        },
        None => {
            let ghost before = kept.deep_view();
            let ghost w = wanted@;
            list::put(&mut kept, "".to_string());
            list::put(&mut kept, "[multi-destination]".to_string());
            list::put(&mut kept, wanted);
            assert(kept.deep_view() =~= before + seq![""@, "[multi-destination]"@, w]);
        },
    }
    finish(&kept)
}

/// What is put behind a roadmap that lacks a section of its own for rows and shelves.
pub open spec fn missing_lines(lines: Seq<Seq<char>>, labels: Seq<Seq<char>>) -> Seq<Seq<char>> {
    (if header_place(lines, "[context]"@, 0) is None {
        seq![""@, "# Non-sortable MO2 presentation rows for this profile."@, "[context]"@]
            + context_rows(labels)
    } else {
        Seq::empty()
    }) + (if header_place(lines, "[terminal]"@, 0) is None {
        seq![""@, "# Last shelf: nothing is sorted beyond it."@, "[terminal]"@] + terminal_rows(labels)
    } else {
        Seq::empty()
    })
}

/// The text that a roadmap is to be replaced with, if any.
pub open spec fn completed(existing: Option<Seq<char>>, labels: Seq<Seq<char>>) -> Option<
    Seq<char>,
> {
    match existing {
        None => Some(ended(roadmap_lines(labels))),
        Some(s) => {
            let lines = lines_of(s);
            if header_place(lines, "[context]"@, 0) is None || header_place(
                lines,
                "[terminal]"@,
                0,
            ) is None {
                Some(
                    s + (if finishes(s, "\n"@) {
                        Seq::empty()
                    } else {
                        "\n"@
                    }) + ended(missing_lines(lines, labels)),
                )
            } else {
                None
            }
        },
    }
}

fn complete(existing: Option<&str>, labels: &[String]) -> (r: Option<String>)
    ensures
        r.deep_view() == completed(existing.deep_view(), labels.deep_view()),
{
    let s = match existing {
        None => {
            return Some(roadmap_text(labels));
        },
        Some(s) => s,
    };
    let ghost lv = labels.deep_view();
    assert(lv.len() == labels.len());
    let lines = text::lines(s);
    let context = find_header(&lines, "[context]").is_some();
    let terminal = find_header(&lines, "[terminal]").is_some();
    if context && terminal {
        return None;
    }
    let mut more: Vec<String> = list::none();
    if !context {
        list::put(&mut more, "".to_string());
        list::put(&mut more, "# Non-sortable MO2 presentation rows for this profile.".to_string());
        list::put(&mut more, "[context]".to_string());
        add_context(&mut more, labels);
    }
    if !terminal {
        list::put(&mut more, "".to_string());
        list::put(&mut more, "# Last shelf: nothing is sorted beyond it.".to_string());
        list::put(&mut more, "[terminal]".to_string());
        add_slugged(&mut more, labels, "end-of-list", &None);
    }
    assert(more.deep_view() =~= missing_lines(lines.deep_view(), lv));
    let mut out = s.to_string();
    if !text::ends_with(s, "\n") {
        out.append("\n");
    }
    let tail = text::end_lines(&more);
    out.append(tail.as_str());
    assert(out@ =~= completed(Some(s@), lv)->0);
    Some(out)
}

/// The roadmap kept at `path`, and the text that is to be written there: a new roadmap,
/// or the old one with the sections that it lacked.
pub fn load_or_create(existing: Option<&str>, path: &str, labels: &[String]) -> (r: (
    SectionMap,
    Option<String>,
))
    ensures
        r.1.deep_view() == completed(existing.deep_view(), labels.deep_view()),
        ({
            let s = match completed(existing.deep_view(), labels.deep_view()) {
                Some(t) => t,
                None => existing->0@,
            };
            r.0.deep_view() == (SectionMapView {
                path: path@,
                created: existing is None,
                ..roadmap_of(s)
            })
        }),
{
    let update = complete(existing, labels);
    let mut m = match &update {
        Some(t) => parse_roadmap(t.as_str()),
        None => match existing {
            Some(s) => parse_roadmap(s),
            None => {
                assert(false);
                parse_roadmap("")
            },
        },
    };
    m.path = path.to_string();
    m.created = existing.is_none();
    (m, update)
}

/// The destinations among the first `n` mappings that no label of the profile equals.
pub open spec fn strangers_first(
    mappings: Seq<(Seq<char>, Seq<char>)>,
    labels: Seq<Seq<char>>,
    n: int,
) -> Seq<Seq<char>>
    decreases n,
{
    if n <= 0 {
        Seq::empty()
    } else {
        let before = strangers_first(mappings, labels, n - 1);
        if place_like(labels, mappings[n - 1].1, 0) is None {
            before.push(mappings[n - 1].1)
        } else {
            before
        }
    }
}

/// Whether a roadmap fits a profile: the number of its mappings, or what is wrong with it.
pub fn import_for_profile(source: &str, labels: &[String]) -> (r: Result<usize, String>)
    ensures
        ({
            let m = roadmap_of(source@).mappings;
            let unknown = strangers_first(m, labels.deep_view(), m.len() as int);
            match r {
                Ok(n) => unknown.len() == 0 && n == m.len(),
                Err(e) => unknown.len() > 0 && e@
                    == "pack names separators this profile does not have: "@ + joined(
                    unknown,
                    ", "@,
                ),
            }
        }),
{
    let m = parse_roadmap(source);
    let ghost mv = m.mappings.deep_view();
    let ghost lv = labels.deep_view();
    let mut unknown: Vec<String> = list::none();
    let mut i: usize = 0;
    while i < m.mappings.len()
        invariant
            i <= mv.len(),
            mv == m.mappings.deep_view(),
            lv == labels.deep_view(),
            unknown.deep_view() == strangers_first(mv, lv, i as int),
        decreases mv.len() - i,
    {
        let e = m.mappings.at(i);
        if keys::find_like(labels, e.1.as_str()).is_none() {
            list::put(&mut unknown, e.1.clone());
        }
        i = i + 1;
    }
    assert(unknown.deep_view().len() == unknown.len());
    if unknown.len() > 0 {
        let names = text::join(&unknown, ", ");
        Err(text::cat("pack names separators this profile does not have: ", names.as_str()))
    } else {
        Ok(m.mappings.len())
    }
}

/// Where the roadmap of a profile is kept.
pub fn path_for(folder: &str) -> (r: String)
    ensures
        r@ == data_path(folder@, "section_map.ini"@),
{
    profile::profile_data_path(folder, "section_map.ini")
}

proof fn lemma_filter_next(s: Seq<Seq<char>>, p: spec_fn(Seq<char>) -> bool, i: int)
    requires
        0 <= i < s.len(),
    ensures
        s.take(i + 1).filter(p) == if p(s[i]) {
            s.take(i).filter(p).push(s[i])
        } else {
            s.take(i).filter(p)
        },
{
    reveal(Seq::filter);
    assert(s.take(i + 1).drop_last() =~= s.take(i));
}

} // verus!
