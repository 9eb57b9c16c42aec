//! Mods that need each other by their plugins: who provides which plugin, whose plugin
//! has whose as a master, and moves to sections that load after the masters.
use vstd::prelude::*;
use crate::decide::Decision;
#[allow(unused_imports)]
use crate::decide::{DecisionView, Decisions};
use crate::list;
#[allow(unused_imports)]
use crate::loot::Edges;
use crate::map::TextMap;
#[allow(unused_imports)]
use crate::map::{found, inserted, key_from, lemma_key_from};
use crate::modlist::Section;
#[allow(unused_imports)]
use crate::modlist::SectionView;
use crate::plan::Why;
#[allow(unused_imports)]
use crate::plan::{anchored, WhyView};
use crate::plugins::PluginInfo;
#[allow(unused_imports)]
use crate::plugins::{CensusView, PluginView};
use crate::sort;
#[allow(unused_imports)]
use crate::sort::{deduped, sorted};
use crate::suggest;
#[allow(unused_imports)]
use crate::suggest::is_dump;
use crate::text;
#[allow(unused_imports)]
use crate::text::{begins, decimal, finishes, lowercase};

verus! {

pub type Census = Vec<(String, String, PluginInfo)>;

pub type Providers = Seq<(Seq<char>, Seq<char>)>;

/// Which mod provides which plugin, for the first `n` plugins: the first provider wins.
pub open spec fn providers_first(census: CensusView, n: int) -> Providers
    decreases n,
{
    if n <= 0 {
        Seq::empty()
    } else {
        let before = providers_first(census, n - 1);
        let plugin = census[n - 1].2.plugin;
        if found(before, plugin) is Some {
            before
        } else {
            inserted(before, plugin, census[n - 1].0)
        }
    }
}

pub open spec fn providers(census: CensusView) -> Providers {
    providers_first(census, census.len() as int)
}

pub fn provider_map(census: &Census) -> (r: TextMap<String>)
    ensures
        r.deep_view() == providers(census.deep_view()),
{
    let ghost cv = census.deep_view();
    let mut out: TextMap<String> = TextMap::new();
    let mut i: usize = 0;
    while i < census.len()
        invariant
            i <= census.len(),
            cv == census.deep_view(),
            out.deep_view() == providers_first(cv, i as int),
        decreases census.len() - i,
    {
        let row = &census[i];
        assert(cv[i as int] == row.deep_view());
        if !out.contains_key(row.2.plugin.as_str()) {
            out.insert(row.2.plugin.clone(), row.0.clone());
        }
        i = i + 1;
    }
    assert(cv.len() == census.len());
    out
}

/// A master of the base game or the creation club: it draws nothing after it.
pub open spec fn is_base(base: Seq<Seq<char>>, plugin: Seq<char>) -> bool {
    base.contains(plugin) || begins(plugin, "cc"@)
}

pub fn base_master(base: &[&str], plugin: &str) -> (r: bool)
    ensures
        r == is_base(base.deep_view(), plugin@),
{
    let mut i: usize = 0;
    while i < base.len()
        invariant
            i <= base.len(),
            forall|j: int| 0 <= j < i ==> base.deep_view()[j] != plugin@,
        decreases base.len() - i,
    {
        assert(base.deep_view()[i as int] == base@[i as int]@);
        if text::same(base[i], plugin) {
            assert(base.deep_view().contains(plugin@));
            return true;
        }
        i = i + 1;
    }
    text::starts_with(plugin, "cc")
}

/// The mod that provides a plugin which `name` needs, if it is another mod.
pub open spec fn parent_mod(
    name: Seq<char>,
    plugin: Seq<char>,
    base: Seq<Seq<char>>,
    prov: Providers,
) -> Option<Seq<char>> {
    if is_base(base, plugin) {
        None
    } else {
        match found(prov, plugin) {
            Some(m) => if m != name {
                Some(m)
            } else {
                None
            },
            None => None,
        }
    }
}

/// The parents that the first `n` plugins add.
pub open spec fn with_parents(
    ps: Seq<Seq<char>>,
    name: Seq<char>,
    plugins: Seq<Seq<char>>,
    base: Seq<Seq<char>>,
    prov: Providers,
    n: int,
) -> Seq<Seq<char>>
    decreases n,
{
    if n <= 0 {
        ps
    } else {
        let before = with_parents(ps, name, plugins, base, prov, n - 1);
        match parent_mod(name, plugins[n - 1], base, prov) {
            Some(m) => before.push(m),
            None => before,
        }
    }
}

pub open spec fn listed_or_none(m: Edges, name: Seq<char>) -> Seq<Seq<char>> {
    match found(m, name) {
        Some(ps) => ps,
        None => Seq::empty(),
    }
}

/// The parents of the mods of the first `n` plugins, as the plugin headers state them.
pub open spec fn header_parents_first(
    census: CensusView,
    base: Seq<Seq<char>>,
    prov: Providers,
    n: int,
) -> Edges
    decreases n,
{
    if n <= 0 {
        Seq::empty()
    } else {
        let before = header_parents_first(census, base, prov, n - 1);
        let (name, _, p) = census[n - 1];
        inserted(
            before,
            name,
            with_parents(
                listed_or_none(before, name),
                name,
                p.masters,
                base,
                prov,
                p.masters.len() as int,
            ),
        )
    }
}

/// The parents of the mods of the first `n` plugins, as the masterlist states them.
pub open spec fn loot_parents_first(
    census: CensusView,
    after: Edges,
    base: Seq<Seq<char>>,
    prov: Providers,
    n: int,
) -> Edges
    decreases n,
{
    if n <= 0 {
        Seq::empty()
    } else {
        let before = loot_parents_first(census, after, base, prov, n - 1);
        let (name, _, p) = census[n - 1];
        match found(after, lowercase(p.plugin)) {
            Some(targets) => inserted(
                before,
                name,
                with_parents(
                    listed_or_none(before, name),
                    name,
                    targets,
                    base,
                    prov,
                    targets.len() as int,
                ),
            ),
            None => before,
        }
    }
}

/// The mods of the first `n` entries that have parents, each list in order and each
/// parent once.
pub open spec fn kept_first(m: Edges, n: int) -> Edges
    decreases n,
{
    if n <= 0 {
        Seq::empty()
    } else {
        let before = kept_first(m, n - 1);
        let ps = deduped(sorted::<String>(m[n - 1].1));
        if ps.len() == 0 {
            before
        } else {
            inserted(before, m[n - 1].0, ps)
        }
    }
}

pub open spec fn content_parents(census: CensusView, base: Seq<Seq<char>>) -> Edges {
    let m = header_parents_first(census, base, providers(census), census.len() as int);
    kept_first(m, m.len() as int)
}

pub open spec fn loot_parents(census: CensusView, after: Edges, base: Seq<Seq<char>>) -> Edges {
    let m = loot_parents_first(census, after, base, providers(census), census.len() as int);
    kept_first(m, m.len() as int)
}

fn add_parents(
    ps: &mut Vec<String>,
    name: &str,
    plugins: &Vec<String>,
    base: &[&str],
    prov: &TextMap<String>,
)
    ensures
        final(ps).deep_view() == with_parents(
            old(ps).deep_view(),
            name@,
            plugins.deep_view(),
            base.deep_view(),
            prov.deep_view(),
            plugins.len() as int,
        ),
{
    let ghost before = ps.deep_view();
    let mut i: usize = 0;
    while i < plugins.len()
        invariant
            i <= plugins.len(),
            ps.deep_view() == with_parents(
                before,
                name@,
                plugins.deep_view(),
                base.deep_view(),
                prov.deep_view(),
                i as int,
            ),
        decreases plugins.len() - i,
    {
        assert(plugins.deep_view()[i as int] == plugins@[i as int]@);
        let plugin = plugins[i].as_str();
        if !base_master(base, plugin) {
            if let Some(m) = prov.get(plugin) {
                if !text::same(m.as_str(), name) {
                    list::put(ps, m.clone());
                }
            }
        }
        i = i + 1;
    }
}

fn held_parents(m: &TextMap<Vec<String>>, name: &str) -> (r: Vec<String>)
    ensures
        r.deep_view() == listed_or_none(m.deep_view(), name@),
{
    match m.get(name) {
        Some(ps) => list::copy(ps),
        None => list::none(),
    }
}

fn keep_parents(m: &TextMap<Vec<String>>) -> (r: TextMap<Vec<String>>)
    ensures
        r.deep_view() == kept_first(m.deep_view(), m.deep_view().len() as int),
{
    let ghost mv = m.deep_view();
    let mut out: TextMap<Vec<String>> = TextMap::new();
    let mut i: usize = 0;
    while i < m.len()
        invariant
            i <= mv.len(),
            mv == m.deep_view(),
            out.deep_view() == kept_first(mv, i as int),
        decreases mv.len() - i,
    {
        let e = m.at(i);
        let s = sort::sort(list::copy(&e.1));
        let ps = sort::dedup(&s);
        assert(ps.deep_view().len() == ps.len());
        if ps.len() > 0 {
            out.insert(e.0.clone(), ps);
        }
        i = i + 1;
    }
    out
}

pub fn find_content_parents(census: &Census, base: &[&str], prov: &TextMap<String>) -> (r: TextMap<
    Vec<String>,
>)
    requires
        prov.deep_view() == providers(census.deep_view()),
    ensures
        r.deep_view() == content_parents(census.deep_view(), base.deep_view()),
{
    let ghost cv = census.deep_view();
    let ghost bv = base.deep_view();
    let ghost pv = prov.deep_view();
    let mut m: TextMap<Vec<String>> = TextMap::new();
    let mut i: usize = 0;
    while i < census.len()
        invariant
            i <= census.len(),
            cv == census.deep_view(),
            bv == base.deep_view(),
            pv == prov.deep_view(),
            m.deep_view() == header_parents_first(cv, bv, pv, i as int),
        decreases census.len() - i,
    {
        let row = &census[i];
        assert(cv[i as int] == row.deep_view());
        let mut ps = held_parents(&m, row.0.as_str());
        assert(row.2.masters.deep_view().len() == row.2.masters.len());
        add_parents(&mut ps, row.0.as_str(), &row.2.masters, base, prov);
        m.insert(row.0.clone(), ps);
        i = i + 1;
    }
    assert(cv.len() == census.len());
    keep_parents(&m)
}

pub fn find_loot_parents(
    census: &Census,
    after: &TextMap<Vec<String>>,
    base: &[&str],
    prov: &TextMap<String>,
) -> (r: TextMap<Vec<String>>)
    requires
        prov.deep_view() == providers(census.deep_view()),
    ensures
        r.deep_view() == loot_parents(census.deep_view(), after.deep_view(), base.deep_view()),
{
    let ghost cv = census.deep_view();
    let ghost av = after.deep_view();
    let ghost bv = base.deep_view();
    let ghost pv = prov.deep_view();
    let mut m: TextMap<Vec<String>> = TextMap::new();
    let mut i: usize = 0;
    while i < census.len()
        invariant
            i <= census.len(),
            cv == census.deep_view(),
            av == after.deep_view(),
            bv == base.deep_view(),
            pv == prov.deep_view(),
            m.deep_view() == loot_parents_first(cv, av, bv, pv, i as int),
        decreases census.len() - i,
    {
        let row = &census[i];
        assert(cv[i as int] == row.deep_view());
        let plugin = row.2.plugin.as_str().to_lowercase();
        if let Some(targets) = after.get(plugin.as_str()) {
            let mut ps = held_parents(&m, row.0.as_str());
            assert(targets.deep_view().len() == targets.len());
            add_parents(&mut ps, row.0.as_str(), targets, base, prov);
            m.insert(row.0.clone(), ps);
        }
        i = i + 1;
    }
    assert(cv.len() == census.len());
    keep_parents(&m)
}

// ---- master files ----

pub open spec fn is_esm_name(s: Seq<char>) -> bool {
    finishes(lowercase(s), ".esm"@)
}

/// A plugin that is a master file, by its flag, its name or the name of its mod.
pub open spec fn is_esm_row(row: (Seq<char>, Seq<char>, PluginView)) -> bool {
    row.2.is_esm || is_esm_name(row.2.plugin) || is_esm_name(row.0)
}

pub open spec fn esm_mods_first(census: CensusView, n: int) -> Seq<Seq<char>>
    decreases n,
{
    if n <= 0 {
        Seq::empty()
    } else {
        let before = esm_mods_first(census, n - 1);
        if is_esm_row(census[n - 1]) && !before.contains(census[n - 1].0) {
            before.push(census[n - 1].0)
        } else {
            before
        }
    }
}

/// The mods that hold a master file.
pub open spec fn esm_mods(census: CensusView) -> Seq<Seq<char>> {
    esm_mods_first(census, census.len() as int)
}

fn esm_name(s: &str) -> (r: bool)
    ensures
        r == is_esm_name(s@),
{
    let l = s.to_lowercase();
    text::ends_with(l.as_str(), ".esm")
}

pub fn find_esm_mods(census: &Census) -> (r: Vec<String>)
    ensures
        r.deep_view() == esm_mods(census.deep_view()),
{
    let ghost cv = census.deep_view();
    let mut out: Vec<String> = list::none();
    let mut i: usize = 0;
    while i < census.len()
        invariant
            i <= census.len(),
            cv == census.deep_view(),
            out.deep_view() == esm_mods_first(cv, i as int),
        decreases census.len() - i,
    {
        let row = &census[i];
        assert(cv[i as int] == row.deep_view());
        if (row.2.is_esm || esm_name(row.2.plugin.as_str()) || esm_name(row.0.as_str()))
            && !list::holds(&out, row.0.as_str()) {
            list::put(&mut out, row.0.clone());
        }
        i = i + 1;
    }
    assert(cv.len() == census.len());
    out
}

/// Whether a mod counts as a master file inside its section.
pub open spec fn is_esm_entry_of(name: Seq<char>, census: Option<CensusView>) -> bool {
    is_esm_name(name) || match census {
        Some(c) => holds_esm(c, name),
        None => false,
    }
}

/// Whether a plugin of the mod is a master file.
pub open spec fn holds_esm(c: CensusView, name: Seq<char>) -> bool {
    exists|i: int|
        0 <= i < c.len() && (#[trigger] c[i]).0 == name && (c[i].2.is_esm || is_esm_name(
            c[i].2.plugin,
        ))
}

pub fn is_esm_entry(mod_name: &str, census: Option<&Census>) -> (r: bool)
    ensures
        r == is_esm_entry_of(mod_name@, census.deep_view()),
{
    if esm_name(mod_name) {
        return true;
    }
    match census {
        Some(c) => {
            let key = mod_name.to_string();
            let ghost cv = c.deep_view();
            let mut i: usize = 0;
            while i < c.len()
                invariant
                    i <= c.len(),
                    key@ == mod_name@,
                    cv == c.deep_view(),
                    census.deep_view() == Some(cv),
                    !is_esm_name(mod_name@),
                    forall|j: int|
                        0 <= j < i ==> !((#[trigger] cv[j]).0 == mod_name@ && (cv[j].2.is_esm
                            || is_esm_name(cv[j].2.plugin))),
                decreases c.len() - i,
            {
                let row = &c[i];
                assert(cv[i as int] == row.deep_view());
                if row.0 == key && (row.2.is_esm || esm_name(row.2.plugin.as_str())) {
                    assert(cv[i as int].0 == mod_name@);
                    assert(holds_esm(cv, mod_name@));
                    return true;
                }
                i = i + 1;
            }
            assert(!holds_esm(cv, mod_name@));
            false
        },
        None => false,
    }
}

// ---- sections that load after the masters ----

/// The index of each label; the last of equal labels counts.
pub open spec fn label_places(sections: Seq<SectionView>, n: int) -> Seq<(Seq<char>, usize)>
    decreases n,
{
    if n <= 0 {
        Seq::empty()
    } else {
        inserted(label_places(sections, n - 1), sections[n - 1].label, (n - 1) as usize)
    }
}

pub fn label_map(sections: &Vec<Section>) -> (r: TextMap<usize>)
    ensures
        r.deep_view() == label_places(sections.deep_view(), sections.len() as int),
        places_below(r.deep_view(), sections.len() as nat),
{
    let ghost secs = sections.deep_view();
    let mut out: TextMap<usize> = TextMap::new();
    let mut i: usize = 0;
    while i < sections.len()
        invariant
            i <= sections.len(),
            secs == sections.deep_view(),
            out.deep_view() == label_places(secs, i as int),
            places_below(out.deep_view(), i as nat),
        decreases sections.len() - i,
    {
        assert(secs[i as int] == sections@[i as int].deep_view());
        let ghost before = out.deep_view();
        proof {
            lemma_key_from(before, secs[i as int].label, 0);
        }
        out.insert(sections[i].label.clone(), i);
        assert forall|j: int| 0 <= j < out.deep_view().len() implies (#[trigger] out.deep_view()[j]).1
            < i + 1 by {
            if j < before.len() {
                assert(before[j].1 < i);
            }
        }
        i = i + 1;
    }
    out
}

pub open spec fn places_below(m: Seq<(Seq<char>, usize)>, n: nat) -> bool {
    forall|i: int| 0 <= i < m.len() ==> (#[trigger] m[i]).1 < n
}

pub open spec fn place_or_zero(m: Seq<(Seq<char>, usize)>, k: Seq<char>) -> usize {
    match found(m, k) {
        Some(i) => i,
        None => 0,
    }
}

/// The section that a decision sends a mod to.
pub open spec fn decided_place(d: DecisionView, places: Seq<(Seq<char>, usize)>) -> usize {
    match d.want {
        Some(w) => match found(places, w) {
            Some(i) => i,
            None => place_or_zero(places, d.from),
        },
        None => place_or_zero(places, d.from),
    }
}

fn place_under(m: &TextMap<usize>, k: &str, n: Ghost<nat>) -> (r: usize)
    requires
        places_below(m.deep_view(), n@),
        n@ > 0,
    ensures
        r == place_or_zero(m.deep_view(), k@),
        r < n@,
{
    proof {
        lemma_key_from(m.deep_view(), k@, 0);
    }
    match m.get(k) {
        Some(i) => {
            proof {
                let j = key_from(m.deep_view(), k@, 0)->0;
                assert(m.deep_view()[j].1 == *i);
            }
            *i
        },
        None => 0,
    }
}

fn decided(d: &Decision, places: &TextMap<usize>, n: Ghost<nat>) -> (r: usize)
    requires
        places_below(places.deep_view(), n@),
        n@ > 0,
    ensures
        r == decided_place(d.deep_view(), places.deep_view()),
        r < n@,
{
    match &d.want {
        Some(w) => if places.contains_key(w.as_str()) {
            place_under(places, w.as_str(), n)
        } else {
            place_under(places, d.from.as_str(), n)
        },
        None => place_under(places, d.from.as_str(), n),
    }
}

/// The last section that holds one of the first `n` master-file mods.
pub open spec fn latest_esm_first(
    esm: Seq<Seq<char>>,
    decisions: Decisions,
    places: Seq<(Seq<char>, usize)>,
    n: int,
) -> usize
    decreases n,
{
    if n <= 0 {
        0
    } else {
        let before = latest_esm_first(esm, decisions, places, n - 1);
        match found(decisions, esm[n - 1]) {
            Some(d) => if decided_place(d, places) > before {
                decided_place(d, places)
            } else {
                before
            },
            None => before,
        }
    }
}

fn latest_esm(
    esm: &Vec<String>,
    decisions: &TextMap<Decision>,
    places: &TextMap<usize>,
    n: Ghost<nat>,
) -> (r: usize)
    requires
        places_below(places.deep_view(), n@),
        n@ > 0,
    ensures
        r == latest_esm_first(
            esm.deep_view(),
            decisions.deep_view(),
            places.deep_view(),
            esm.len() as int,
        ),
        r < n@,
{
    let ghost ev = esm.deep_view();
    let mut best: usize = 0;
    let mut i: usize = 0;
    while i < esm.len()
        invariant
            i <= esm.len(),
            ev == esm.deep_view(),
            places_below(places.deep_view(), n@),
            n@ > 0,
            best < n@,
            best == latest_esm_first(
                ev,
                decisions.deep_view(),
                places.deep_view(),
                i as int,
            ),
        decreases esm.len() - i,
    {
        assert(ev[i as int] == esm@[i as int]@);
        if let Some(d) = decisions.get(esm[i].as_str()) {
            let at = decided(d, places, n);
            if at > best {
                best = at;
            }
        }
        i = i + 1;
    }
    best
}

pub type Places = Seq<(Seq<char>, usize)>;

/// What the search for a mod's section goes by.
pub struct Bonds {
    pub parents: Edges,
    pub places: Places,
    pub esm: Seq<Seq<char>>,
    pub latest_esm: usize,
}

/// The section at which a mod loads after all its parents, and the sections found so
/// far with it. A mod that is no master file also loads after every master file.
/// Chains are followed 64 steps deep.
pub open spec fn settled(
    name: Seq<char>,
    b: Bonds,
    decisions: Decisions,
    memo: Places,
    depth: int,
) -> (usize, Places)
    decreases 66 - depth, 1int, 0int,
{
    if found(memo, name) is Some {
        (found(memo, name)->0, memo)
    } else if depth > 64 {
        (0, memo)
    } else {
        let own = decided_place(found(decisions, name)->0, b.places);
        let (dest, after) = match found(b.parents, name) {
            Some(ps) => settled_parents(ps, 0, own, b, decisions, memo, depth),
            None => (own, memo),
        };
        let last = if !b.esm.contains(name) && b.latest_esm > dest {
            b.latest_esm
        } else {
            dest
        };
        (last, inserted(after, name, last))
    }
}

/// The latest of `dest` and the sections of the parents from `i` on.
pub open spec fn settled_parents(
    ps: Seq<Seq<char>>,
    i: int,
    dest: usize,
    b: Bonds,
    decisions: Decisions,
    memo: Places,
    depth: int,
) -> (usize, Places)
    decreases 66 - depth, 0int, ps.len() - i,
{
    if i < 0 || i >= ps.len() || depth > 64 {
        (dest, memo)
    } else if found(decisions, ps[i]) is Some {
        let (at, after) = settled(ps[i], b, decisions, memo, depth + 1);
        settled_parents(
            ps,
            i + 1,
            if at > dest {
                at
            } else {
                dest
            },
            b,
            decisions,
            after,
            depth,
        )
    } else {
        settled_parents(ps, i + 1, dest, b, decisions, memo, depth)
    }
}

struct Search {
    parents: TextMap<Vec<String>>,
    places: TextMap<usize>,
    esm: Vec<String>,
    latest_esm: usize,
}

impl Search {
    spec fn view(&self) -> Bonds {
        Bonds {
            parents: self.parents.deep_view(),
            places: self.places.deep_view(),
            esm: self.esm.deep_view(),
            latest_esm: self.latest_esm,
        }
    }
}

fn add_place(memo: &mut TextMap<usize>, name: &str, at: usize, n: Ghost<nat>)
    requires
        places_below(old(memo).deep_view(), n@),
        at < n@,
    ensures
        final(memo).deep_view() == inserted(old(memo).deep_view(), name@, at),
        places_below(final(memo).deep_view(), n@),
{
    let ghost before = memo.deep_view();
    proof {
        lemma_key_from(before, name@, 0);
    }
    memo.insert(name.to_string(), at);
    assert forall|j: int| 0 <= j < memo.deep_view().len() implies (#[trigger] memo.deep_view()[j]).1
        < n@ by {
        if j < before.len() {
            assert(before[j].1 < n@);
        }
    }
}

fn settle(
    name: &str,
    s: &Search,
    decisions: &TextMap<Decision>,
    memo: &mut TextMap<usize>,
    depth: u8,
    n: Ghost<nat>,
) -> (r: usize)
    requires
        depth <= 65,
        found(decisions.deep_view(), name@) is Some,
        places_below(s.places.deep_view(), n@),
        places_below(old(memo).deep_view(), n@),
        s.latest_esm < n@,
        n@ > 0,
    ensures
        (r, final(memo).deep_view()) == settled(
            name@,
            s.view(),
            decisions.deep_view(),
            old(memo).deep_view(),
            depth as int,
        ),
        r < n@,
        places_below(final(memo).deep_view(), n@),
    decreases 66 - depth,
{
    if memo.contains_key(name) {
        return place_under(memo, name, n);
    }
    if depth > 64 {
        return 0;
    }
    let ghost start = memo.deep_view();
    let mut dest = match decisions.get(name) {
        Some(d) => decided(d, &s.places, n),
        None => 0,
    };
    let ghost own = dest;
    if let Some(ps) = s.parents.get(name) {
        let ghost pv = ps.deep_view();
        let ghost goal = settled_parents(
            pv,
            0,
            dest,
            s.view(),
            decisions.deep_view(),
            start,
            depth as int,
        );
        let mut i: usize = 0;
        while i < ps.len()
            invariant
                i <= ps.len(),
                pv == ps.deep_view(),
                depth <= 64,
                places_below(s.places.deep_view(), n@),
                places_below(memo.deep_view(), n@),
                s.latest_esm < n@,
                n@ > 0,
                dest < n@,
                settled_parents(
                    pv,
                    i as int,
                    dest,
                    s.view(),
                    decisions.deep_view(),
                    memo.deep_view(),
                    depth as int,
                ) == goal,
            decreases ps.len() - i,
        {
            assert(pv[i as int] == ps@[i as int]@);
            if decisions.contains_key(ps[i].as_str()) {
                let at = settle(ps[i].as_str(), s, decisions, memo, depth + 1, n);
                if at > dest {
                    dest = at;
                }
            }
            i = i + 1;
        }
        assert(settled_parents(
            pv,
            pv.len() as int,
            dest,
            s.view(),
            decisions.deep_view(),
            memo.deep_view(),
            depth as int,
        ) == (dest, memo.deep_view()));
    }
    if !list::holds(&s.esm, name) {
        if s.latest_esm > dest {
            dest = s.latest_esm;
        }
    }
    add_place(memo, name, dest, n);
    dest
}

/// The parent, among the first `n` that have a decision, in the latest section; the
/// last of equals.
pub open spec fn strongest_first(
    ps: Seq<Seq<char>>,
    decisions: Decisions,
    memo: Places,
    n: int,
) -> Option<int>
    decreases n,
{
    if n <= 0 {
        None
    } else {
        let before = strongest_first(ps, decisions, memo, n - 1);
        if found(decisions, ps[n - 1]) is None {
            before
        } else {
            match before {
                Some(k) => if place_or_zero(memo, ps[n - 1]) >= place_or_zero(memo, ps[k]) {
                    Some(n - 1)
                } else {
                    before
                },
                None => Some(n - 1),
            }
        }
    }
}

pub open spec fn strongest(
    name: Seq<char>,
    parents: Edges,
    decisions: Decisions,
    memo: Places,
) -> Seq<char> {
    match found(parents, name) {
        Some(ps) => match strongest_first(ps, decisions, memo, ps.len() as int) {
            Some(k) => ps[k],
            None => "ESM master"@,
        },
        None => "ESM master"@,
    }
}

fn strongest_of(
    name: &str,
    parents: &TextMap<Vec<String>>,
    decisions: &TextMap<Decision>,
    memo: &TextMap<usize>,
    n: Ghost<nat>,
) -> (r: String)
    requires
        places_below(memo.deep_view(), n@),
        n@ > 0,
    ensures
        r@ == strongest(
            name@,
            parents.deep_view(),
            decisions.deep_view(),
            memo.deep_view(),
        ),
{
    match parents.get(name) {
        Some(ps) => {
            let ghost pv = ps.deep_view();
            let ghost ds = decisions.deep_view();
            let ghost mv = memo.deep_view();
            let mut best: Option<(usize, usize)> = None;
            let mut i: usize = 0;
            while i < ps.len()
                invariant
                    i <= ps.len(),
                    pv == ps.deep_view(),
                    ds == decisions.deep_view(),
                    mv == memo.deep_view(),
                    places_below(mv, n@),
                    n@ > 0,
                    match best {
                        Some((k, at)) => strongest_first(pv, ds, mv, i as int) == Some(k as int)
                            && k < i && at == place_or_zero(mv, pv[k as int]),
                        None => strongest_first(pv, ds, mv, i as int) is None,
                    },
                decreases ps.len() - i,
            {
                assert(pv[i as int] == ps@[i as int]@);
                if decisions.contains_key(ps[i].as_str()) {
                    let at = place_under(memo, ps[i].as_str(), n);
                    let better = match best {
                        Some((_, b)) => at >= b,
                        None => true,
                    };
                    if better {
                        best = Some((i, at));
                    }
                }
                i = i + 1;
            }
            assert(pv.len() == ps.len());
            match best {
                Some((k, _)) => {
                    assert(pv[k as int] == ps@[k as int]@);
                    ps[k].clone()
                },
                None => "ESM master".to_string(),
            }
        },
        None => "ESM master".to_string(),
    }
}

/// The decisions while mods are pulled behind their masters.
pub struct Pull {
    pub decisions: Decisions,
    pub memo: Places,
    pub lines: Seq<Seq<char>>,
    pub pulled: nat,
}

pub open spec fn pull_line(name: Seq<char>, by: Seq<char>, target: Seq<char>) -> Seq<char> {
    "  "@ + name + " | master constraint ["@ + by + "] loads later | dest -> ["@ + target + "]"@
}

/// One mod is looked at: it moves to a later section if a master is there, unless a
/// rule anchors it, it is pinned, or the section is a waiting room.
pub open spec fn pull_one(
    p: Pull,
    i: int,
    b: Bonds,
    sections: Seq<SectionView>,
    pins: Seq<Seq<char>>,
    dump: Seq<Seq<char>>,
) -> Pull {
    let (name, d) = p.decisions[i];
    if anchored(d.why) || pins.contains(name) {
        p
    } else {
        let (at, memo) = settled(name, b, p.decisions, p.memo, 0);
        let target = sections[at as int].label;
        if at > decided_place(d, b.places) && !is_dump(dump, target) {
            let by = strongest(name, b.parents, p.decisions, memo);
            Pull {
                decisions: p.decisions.update(
                    i,
                    (name, DecisionView { want: Some(target), why: WhyView::FollowParent(by), ..d }),
                ),
                memo,
                lines: p.lines.push(pull_line(name, by, target)),
                pulled: p.pulled + 1,
            }
        } else {
            Pull { memo, ..p }
        }
    }
}

pub open spec fn pull_first(
    decisions: Decisions,
    b: Bonds,
    sections: Seq<SectionView>,
    pins: Seq<Seq<char>>,
    dump: Seq<Seq<char>>,
    n: int,
) -> Pull
    decreases n,
{
    if n <= 0 {
        Pull { decisions, memo: Seq::empty(), lines: Seq::empty(), pulled: 0 }
    } else {
        pull_one(
            pull_first(decisions, b, sections, pins, dump, n - 1),
            n - 1,
            b,
            sections,
            pins,
            dump,
        )
    }
}

pub open spec fn bonds(
    census: CensusView,
    base: Seq<Seq<char>>,
    decisions: Decisions,
    sections: Seq<SectionView>,
) -> Bonds {
    let places = label_places(sections, sections.len() as int);
    let esm = esm_mods(census);
    Bonds {
        parents: content_parents(census, base),
        places,
        esm,
        latest_esm: latest_esm_first(esm, decisions, places, esm.len() as int),
    }
}

/// The decisions and the notes once every mod loads after its plugin masters.
pub open spec fn pulled(
    census: CensusView,
    base: Seq<Seq<char>>,
    decisions: Decisions,
    sections: Seq<SectionView>,
    pins: Seq<Seq<char>>,
    dump: Seq<Seq<char>>,
) -> (Decisions, Seq<Seq<char>>) {
    let b = bonds(census, base, decisions, sections);
    if b.parents.len() == 0 && b.esm.len() == 0 {
        (decisions, Seq::empty())
    } else {
        let p = pull_first(decisions, b, sections, pins, dump, decisions.len() as int);
        (
            p.decisions,
            p.lines.push(
                "  plugin family: "@ + decimal(p.pulled)
                    + " mod(s) moved to load after their plugin masters"@,
            ),
        )
    }
}

proof fn lemma_found_by_key(ds: Decisions, i: int)
    requires
        0 <= i < ds.len(),
    ensures
        found(ds, ds[i].0) is Some,
{
    lemma_key_from(ds, ds[i].0, 0);
}

/// Pulls mods behind their plugin masters.
pub(crate) fn pull(
    decisions: &mut TextMap<Decision>,
    census: &Census,
    content: &TextMap<Vec<String>>,
    sections: &Vec<Section>,
    pins: &Vec<String>,
    dump: &Vec<String>,
    base: Ghost<Seq<Seq<char>>>,
) -> (lines: Vec<String>)
    requires
        content.deep_view() == content_parents(census.deep_view(), base@),
        old(decisions).deep_view().len() > 0 ==> sections.len() > 0,
    ensures
        (final(decisions).deep_view(), lines.deep_view()) == pulled(
            census.deep_view(),
            base@,
            old(decisions).deep_view(),
            sections.deep_view(),
            pins.deep_view(),
            dump.deep_view(),
        ),
{
    let ghost start = decisions.deep_view();
    let ghost secs = sections.deep_view();
    let ghost pv = pins.deep_view();
    let ghost dv = dump.deep_view();
    let ghost n = secs.len();
    assert(secs.len() == sections.len());
    let mut lines: Vec<String> = list::none();
    let esm = find_esm_mods(census);
    assert(esm.deep_view().len() == esm.len());
    if content.len() == 0 && esm.len() == 0 {
        return lines;
    }
    let count: usize = decisions.len();
    let places = label_map(sections);
    let mut done: usize = 0;
    if count > 0 {
        let latest = latest_esm(&esm, decisions, &places, Ghost(n));
        let s = Search {
            parents: copy_edges(content),
            places,
            esm,
            latest_esm: latest,
        };
        let ghost b = bonds(census.deep_view(), base@, start, secs);
        assert(s.view() == b);
        let mut memo: TextMap<usize> = TextMap::new();
        let mut i: usize = 0;
        while i < count
            invariant
                i <= count,
                count == start.len(),
                n == secs.len() == sections.len(),
                n > 0,
                secs == sections.deep_view(),
                pv == pins.deep_view(),
                dv == dump.deep_view(),
                s.view() == b,
                places_below(s.places.deep_view(), n),
                places_below(memo.deep_view(), n),
                s.latest_esm < n,
                decisions.deep_view().len() == count,
                done <= i,
                pull_first(start, b, secs, pv, dv, i as int) == (Pull {
                    decisions: decisions.deep_view(),
                    memo: memo.deep_view(),
                    lines: lines.deep_view(),
                    pulled: done as nat,
                }),
            decreases count - i,
        {
            let ghost ds = decisions.deep_view();
            let name = decisions.at(i).0.clone();
            assert(name@ == ds[i as int].0);
            let skip = decisions.at(i).1.why.is_anchored() || list::holds(pins, name.as_str());
            if !skip {
                proof {
                    lemma_found_by_key(ds, i as int);
                }
                let cur = decided(&decisions.at(i).1, &s.places, Ghost(n));
                let at = settle(name.as_str(), &s, decisions, &mut memo, 0, Ghost(n));
                assert(secs[at as int] == sections@[at as int].deep_view());
                if at > cur && !suggest::in_dump(dump, sections[at].label.as_str()) {
                    let target = sections[at].label.clone();
                    let by = strongest_of(name.as_str(), &s.parents, decisions, &memo, Ghost(n));
                    let mut line = text::cat3("  ", name.as_str(), " | master constraint [");
                    line.append(by.as_str());
                    line.append("] loads later | dest -> [");
                    line.append(target.as_str());
                    line.append("]");
                    list::put(&mut lines, line);
                    let mut d = Decision {
                        from: String::new(),
                        want: None,
                        why: Why::NoMatch,
                        cat_str: String::new(),
                    };
                    decisions.swap_at(i, &mut d);
                    d.want = Some(target);
                    d.why = Why::FollowParent(by);
                    decisions.swap_at(i, &mut d);
                    assert(decisions.deep_view() =~= ds.update(
                        i as int,
                        (
                            name@,
                            DecisionView {
                                want: Some(target@),
                                why: WhyView::FollowParent(by@),
                                ..ds[i as int].1
                            },
                        ),
                    ));
                    done = done + 1;
                }
            }
            i = i + 1;
        }
    }
    let number = text::dec(done as u128);
    let line = text::cat3(
        "  plugin family: ",
        number.as_str(),
        " mod(s) moved to load after their plugin masters",
    );
    list::put(&mut lines, line);
    lines
}

pub fn copy_edges(m: &TextMap<Vec<String>>) -> (r: TextMap<Vec<String>>)
    ensures
        r.deep_view() == m.deep_view(),
{
    let ghost mv = m.deep_view();
    m.keys_are_distinct();
    let mut out: TextMap<Vec<String>> = TextMap::new();
    let mut i: usize = 0;
    while i < m.len()
        invariant
            i <= mv.len(),
            mv == m.deep_view(),
            crate::map::distinct_keys(mv),
            out.deep_view() == mv.take(i as int),
        decreases mv.len() - i,
    {
        let e = m.at(i);
        let ghost before = out.deep_view();
        proof {
            lemma_key_from(before, mv[i as int].0, 0);
            if key_from(before, mv[i as int].0, 0) is Some {
                let j = key_from(before, mv[i as int].0, 0)->0;
                assert(mv[j].0 != mv[i as int].0);
            }
        }
        out.insert(e.0.clone(), list::copy(&e.1));
        i = i + 1;
        assert(out.deep_view() =~= mv.take(i as int));
    }
    assert(mv.take(mv.len() as int) =~= mv);
    out
}

} // verus!
