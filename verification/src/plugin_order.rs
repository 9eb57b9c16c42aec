//! The order of the plugins: a new order for the plugin list, and what the solved order
//! says of the mods that own the plugins.
use vstd::prelude::*;
use crate::libloot_adapter;
#[allow(unused_imports)]
use crate::libloot_adapter::{in_order_once, tags_or_none};
use crate::list;
use crate::map::TextMap;
#[allow(unused_imports)]
use crate::map::{found, inserted};
use crate::plugins::PluginOwner;
#[allow(unused_imports)]
use crate::plugins::OwnerView;
use crate::text;
#[allow(unused_imports)]
use crate::text::{after_prefix, ascii_lowered, begins, ended, joined, lines_of, lowercase, trimmed, trimmed_start};

verus! {

// ---- the plugin list ----

/// The plugin that a line activates.
pub open spec fn active_name(line: Seq<char>) -> Option<Seq<char>> {
    match after_prefix(trimmed_start(line), "*"@) {
        Some(name) => Some(trimmed(name)),
        None => None,
    }
}

/// The plugins that the first `n` lines activate.
pub open spec fn active_first(lines: Seq<Seq<char>>, n: int) -> Seq<Seq<char>>
    decreases n,
{
    if n <= 0 {
        Seq::empty()
    } else {
        match active_name(lines[n - 1]) {
            Some(name) => active_first(lines, n - 1).push(name),
            None => active_first(lines, n - 1),
        }
    }
}

pub open spec fn active_of(lines: Seq<Seq<char>>) -> Seq<Seq<char>> {
    active_first(lines, lines.len() as int)
}

/// The spelling of each of the first `n` names, by its lower case.
pub open spec fn spelled_first(names: Seq<Seq<char>>, n: int) -> Seq<(Seq<char>, Seq<char>)>
    decreases n,
{
    if n <= 0 {
        Seq::empty()
    } else {
        inserted(spelled_first(names, n - 1), ascii_lowered(names[n - 1]), names[n - 1])
    }
}

pub open spec fn spelled(names: Seq<Seq<char>>) -> Seq<(Seq<char>, Seq<char>)> {
    spelled_first(names, names.len() as int)
}

/// The first `n` of the solved names that are known, in their known spelling.
pub open spec fn wanted_first(
    sorted: Seq<Seq<char>>,
    known: Seq<(Seq<char>, Seq<char>)>,
    n: int,
) -> Seq<Seq<char>>
    decreases n,
{
    if n <= 0 {
        Seq::empty()
    } else {
        match found(known, ascii_lowered(sorted[n - 1])) {
            Some(name) => wanted_first(sorted, known, n - 1).push(name),
            None => wanted_first(sorted, known, n - 1),
        }
    }
}

/// The active plugins in the solved order.
pub open spec fn wanted_of(active: Seq<Seq<char>>, sorted: Seq<Seq<char>>) -> Seq<Seq<char>> {
    wanted_first(sorted, spelled(active), sorted.len() as int)
}

/// The solved order and the list name the same plugins.
pub open spec fn agree(active: Seq<Seq<char>>, wanted: Seq<Seq<char>>) -> bool {
    wanted.len() == active.len() && spelled(wanted).len() == spelled(active).len()
}

/// In how many of the first `n` places the names differ.
pub open spec fn differ_first(a: Seq<Seq<char>>, b: Seq<Seq<char>>, n: int) -> nat
    decreases n,
{
    if n <= 0 {
        0
    } else if ascii_lowered(a[n - 1]) != ascii_lowered(b[n - 1]) {
        differ_first(a, b, n - 1) + 1
    } else {
        differ_first(a, b, n - 1)
    }
}

/// The lines with the wanted names in the places of the active ones.
pub open spec fn reordered(lines: Seq<Seq<char>>, wanted: Seq<Seq<char>>) -> Seq<Seq<char>> {
    Seq::new(
        lines.len(),
        |i: int|
            if active_name(lines[i]) is Some {
                lines[i].take(lines[i].len() - trimmed_start(lines[i]).len()) + "*"@
                    + wanted[active_first(lines, i).len() as int]
            } else {
                lines[i]
            },
    )
}

/// The text of the plugin list in the solved order, and in how many places it differs;
/// an error where the two do not name the same plugins.
pub open spec fn previewed(s: Seq<char>, sorted: Seq<Seq<char>>) -> Result<
    (Seq<char>, nat),
    Seq<char>,
> {
    let lines = lines_of(s);
    let active = active_of(lines);
    let wanted = wanted_of(active, sorted);
    if active.len() == 0 || sorted.len() == 0 {
        Ok((s, 0))
    } else if !agree(active, wanted) {
        Err(
            "libloot order and plugins.txt active entries disagree; not preparing a plugin write"@,
        )
    } else {
        Ok(
            (
                ended(reordered(lines, wanted)),
                differ_first(active, wanted, active.len() as int),
            ),
        )
    }
}

fn read_active(line: &str) -> (r: Option<String>)
    ensures
        r.deep_view() == active_name(line@),
{
    let t = text::trim_start(line);
    match text::strip_prefix(t.as_str(), "*") {
        Some(name) => Some(text::trim(name.as_str())),
        None => None,
    }
}

fn collect_active(lines: &Vec<String>) -> (r: Vec<String>)
    ensures
        r.deep_view() == active_of(lines.deep_view()),
{
    let ghost lv = lines.deep_view();
    let mut out: Vec<String> = list::none();
    let mut i: usize = 0;
    while i < lines.len()
        invariant
            i <= lines.len(),
            lv == lines.deep_view(),
            out.deep_view() == active_first(lv, i as int),
        decreases lines.len() - i,
    {
        assert(lv[i as int] == lines@[i as int]@);
        if let Some(name) = read_active(lines[i].as_str()) {
            list::put(&mut out, name);
        }
        i = i + 1;
    }
    assert(lv.len() == lines.len());
    out
}

fn spell(names: &Vec<String>) -> (r: TextMap<String>)
    ensures
        r.deep_view() == spelled(names.deep_view()),
{
    let ghost nv = names.deep_view();
    let mut m: TextMap<String> = TextMap::new();
    let mut i: usize = 0;
    while i < names.len()
        invariant
            i <= names.len(),
            nv == names.deep_view(),
            m.deep_view() == spelled_first(nv, i as int),
        decreases names.len() - i,
    {
        assert(nv[i as int] == names@[i as int]@);
        m.insert(text::ascii_lower(names[i].as_str()), names[i].clone());
        i = i + 1;
    }
    assert(nv.len() == names.len());
    m
}

fn want(sorted: &Vec<String>, known: &TextMap<String>) -> (r: Vec<String>)
    ensures
        r.deep_view() == wanted_first(
            sorted.deep_view(),
            known.deep_view(),
            sorted.deep_view().len() as int,
        ),
{
    let ghost sv = sorted.deep_view();
    let mut out: Vec<String> = list::none();
    let mut i: usize = 0;
    while i < sorted.len()
        invariant
            i <= sorted.len(),
            sv == sorted.deep_view(),
            out.deep_view() == wanted_first(sv, known.deep_view(), i as int),
        decreases sorted.len() - i,
    {
        assert(sv[i as int] == sorted@[i as int]@);
        let key = text::ascii_lower(sorted[i].as_str());
        if let Some(name) = known.get(key.as_str()) {
            list::put(&mut out, name.clone());
        }
        i = i + 1;
    }
    assert(sv.len() == sorted.len());
    out
}

fn count_changed(a: &Vec<String>, b: &Vec<String>) -> (n: usize)
    requires
        a.len() == b.len(),
    ensures
        n == differ_first(a.deep_view(), b.deep_view(), a.len() as int),
{
    let ghost av = a.deep_view();
    let ghost bv = b.deep_view();
    let mut n: usize = 0;
    let mut i: usize = 0;
    while i < a.len()
        invariant
            n <= i <= a.len() == b.len(),
            av == a.deep_view(),
            bv == b.deep_view(),
            n == differ_first(av, bv, i as int),
        decreases a.len() - i,
    {
        assert(av[i as int] == a@[i as int]@ && bv[i as int] == b@[i as int]@);
        if !text::same_ignoring_case(a[i].as_str(), b[i].as_str()) {
            n = n + 1;
        }
        i = i + 1;
    }
    n
}

proof fn lemma_active_grows(lines: Seq<Seq<char>>, i: int, n: int)
    requires
        0 <= i <= n <= lines.len(),
    ensures
        active_first(lines, i).len() <= active_first(lines, n).len(),
    decreases n,
{
    if i < n {
        lemma_active_grows(lines, i, n - 1);
    }
}

fn put_in_places(lines: &Vec<String>, wanted: &Vec<String>) -> (r: Vec<String>)
    requires
        wanted.len() == active_of(lines.deep_view()).len(),
    ensures
        r.deep_view() == reordered(lines.deep_view(), wanted.deep_view()),
{
    let ghost lv = lines.deep_view();
    let ghost wv = wanted.deep_view();
    let ghost all = reordered(lv, wv);
    let mut out: Vec<String> = list::none();
    let mut used: usize = 0;
    let mut i: usize = 0;
    assert(all.take(0) =~= Seq::<Seq<char>>::empty());
    while i < lines.len()
        invariant
            i <= lines.len() == lv.len(),
            lv == lines.deep_view(),
            wv == wanted.deep_view(),
            all == reordered(lv, wv),
            wanted.len() == active_of(lv).len(),
            used == active_first(lv, i as int).len(),
            out.deep_view() == all.take(i as int),
        decreases lines.len() - i,
    {
        let line = lines[i].as_str();
        assert(lv[i as int] == line@);
        if read_active(line).is_some() {
            proof {
                lemma_active_grows(lv, i + 1, lv.len() as int);
            }
            let chars = text::chars_of(line);
            let t = text::trim_start(line);
            let rest = text::chars_of(t.as_str());
            proof {
                text::lemma_past_white(line@, 0);
            }
            let k: usize = chars.len() - rest.len();
            let indent = text::part(&chars, 0, k);
            assert(indent@ =~= line@.take(k as int));
            assert(wv[used as int] == wanted@[used as int]@);
            list::put(&mut out, text::cat3(indent.as_str(), "*", wanted[used].as_str()));
            used = used + 1;
        } else {
            list::put(&mut out, line.to_string());
        }
        i = i + 1;
        assert(out.deep_view() =~= all.take(i as int));
    }
    assert(all.take(i as int) =~= all);
    out
}

/// The plugin list in the solved order. Comments, inactive plugins and the user's
/// spelling stay as they are.
pub fn plugin_order_preview(s: &str, sorted: &Vec<String>) -> (r: Result<(String, usize), String>)
    ensures
        match (r, previewed(s@, sorted.deep_view())) {
            (Ok((t, n)), Ok((want, changed))) => t@ == want && n == changed,
            (Err(e), Err(want)) => e@ == want,
            _ => false,
        },
{
    let lines = text::lines(s);
    let active = collect_active(&lines);
    assert(active.deep_view().len() == active.len());
    assert(sorted.deep_view().len() == sorted.len());
    if active.len() == 0 || sorted.len() == 0 {
        return Ok((s.to_string(), 0));
    }
    let display = spell(&active);
    let wanted = want(sorted, &display);
    assert(wanted.deep_view().len() == wanted.len());
    let named = spell(&wanted);
    if wanted.len() != active.len() || named.len() != display.len() {
        return Err(
            "libloot order and plugins.txt active entries disagree; not preparing a plugin write".to_string(),
        );
    }
    let changed = count_changed(&active, &wanted);
    let rows = put_in_places(&lines, &wanted);
    Ok((text::end_lines(&rows), changed))
}

/// The plugins that the first `n` lines of a plugin list activate, in lower case.
pub open spec fn ordered_first(lines: Seq<Seq<char>>, n: int) -> Seq<Seq<char>>
    decreases n,
{
    if n <= 0 {
        Seq::empty()
    } else {
        match after_prefix(trimmed(lines[n - 1]), "*"@) {
            Some(name) => ordered_first(lines, n - 1).push(lowercase(trimmed(name))),
            None => ordered_first(lines, n - 1),
        }
    }
}

/// The active plugins of a plugin list, in their order.
pub fn plugin_order(s: &str) -> (r: Vec<String>)
    ensures
        r.deep_view() == ordered_first(lines_of(s@), lines_of(s@).len() as int),
{
    let lines = text::lines(s);
    let ghost lv = lines.deep_view();
    let mut out: Vec<String> = list::none();
    let mut i: usize = 0;
    while i < lines.len()
        invariant
            i <= lines.len(),
            lv == lines.deep_view(),
            out.deep_view() == ordered_first(lv, i as int),
        decreases lines.len() - i,
    {
        assert(lv[i as int] == lines@[i as int]@);
        let line = text::trim(lines[i].as_str());
        if let Some(name) = text::strip_prefix(line.as_str(), "*") {
            let name = text::trim(name.as_str());
            list::put(&mut out, name.as_str().to_lowercase());
        }
        i = i + 1;
    }
    assert(lv.len() == lines.len());
    out
}

// ---- what the order says of the mods ----

pub open spec fn owned_first(owners: Seq<OwnerView>, n: int) -> Seq<(Seq<char>, Seq<char>)>
    decreases n,
{
    if n <= 0 {
        Seq::empty()
    } else {
        inserted(owned_first(owners, n - 1), owners[n - 1].plugin, owners[n - 1].mod_name)
    }
}

/// The mod that each plugin comes from: the last one that ships it.
pub fn owner_of_plugin(owners: &Vec<PluginOwner>) -> (r: TextMap<String>)
    ensures
        r.deep_view() == owned_first(owners.deep_view(), owners.len() as int),
{
    let ghost ov = owners.deep_view();
    let mut m: TextMap<String> = TextMap::new();
    let mut i: usize = 0;
    while i < owners.len()
        invariant
            i <= owners.len(),
            ov == owners.deep_view(),
            m.deep_view() == owned_first(ov, i as int),
        decreases owners.len() - i,
    {
        let o = &owners[i];
        assert(ov[i as int] == o.deep_view());
        m.insert(o.plugin.clone(), o.mod_name.clone());
        i = i + 1;
    }
    m
}

/// The indexes of the plugins of each mod, as the first `n` owners give them.
pub open spec fn indexes_first(
    owners: Seq<OwnerView>,
    indexes: Seq<(Seq<char>, Seq<char>)>,
    n: int,
) -> Seq<(Seq<char>, Seq<Seq<char>>)>
    decreases n,
{
    if n <= 0 {
        Seq::empty()
    } else {
        let before = indexes_first(owners, indexes, n - 1);
        let o = owners[n - 1];
        match found(indexes, o.plugin) {
            Some(index) => inserted(
                before,
                o.mod_name,
                tags_or_none(found(before, o.mod_name)).push(index),
            ),
            None => before,
        }
    }
}

/// The first `n` entries as texts: in order, each once, with commas.
pub open spec fn joined_entries(m: Seq<(Seq<char>, Seq<Seq<char>>)>, n: int) -> Seq<
    (Seq<char>, Seq<char>),
>
    decreases n,
{
    if n <= 0 {
        Seq::empty()
    } else {
        inserted(
            joined_entries(m, n - 1),
            m[n - 1].0,
            joined(in_order_once(m[n - 1].1), ", "@),
        )
    }
}

/// The load indexes of each mod's plugins.
pub fn indexes_by_owner(owners: &Vec<PluginOwner>, indexes: &TextMap<String>) -> (r: TextMap<
    String,
>)
    ensures
        ({
            let m = indexes_first(owners.deep_view(), indexes.deep_view(), owners.len() as int);
            r.deep_view() == joined_entries(m, m.len() as int)
        }),
{
    let ghost ov = owners.deep_view();
    let mut m: TextMap<Vec<String>> = TextMap::new();
    let mut i: usize = 0;
    while i < owners.len()
        invariant
            i <= owners.len(),
            ov == owners.deep_view(),
            m.deep_view() == indexes_first(ov, indexes.deep_view(), i as int),
        decreases owners.len() - i,
    {
        let o = &owners[i];
        assert(ov[i as int] == o.deep_view());
        if let Some(index) = indexes.get(o.plugin.as_str()) {
            let mut here = match m.get(o.mod_name.as_str()) {
                Some(v) => list::copy(v),
                None => list::none(),
            };
            list::put(&mut here, index.clone());
            m.insert(o.mod_name.clone(), here);
        }
        i = i + 1;
    }
    let ghost mv = m.deep_view();
    let mut out: TextMap<String> = TextMap::new();
    let mut k: usize = 0;
    while k < m.len()
        invariant
            k <= mv.len(),
            mv == m.deep_view(),
            out.deep_view() == joined_entries(mv, k as int),
        decreases mv.len() - k,
    {
        let e = m.at(k);
        let v = libloot_adapter::put_in_order(list::copy(&e.1));
        out.insert(e.0.clone(), text::join(&v, ", "));
        k = k + 1;
    }
    out
}

/// The ranks once a plugin of rank `rank` is met: its owners have at least that rank.
pub open spec fn ranked_owners(
    ranks: Seq<(Seq<char>, usize)>,
    owners: Seq<OwnerView>,
    plugin: Seq<char>,
    rank: usize,
    n: int,
) -> Seq<(Seq<char>, usize)>
    decreases n,
{
    if n <= 0 {
        ranks
    } else {
        let before = ranked_owners(ranks, owners, plugin, rank, n - 1);
        let o = owners[n - 1];
        if ascii_lowered(o.plugin) == ascii_lowered(plugin) {
            match found(before, o.mod_name) {
                Some(r) => inserted(
                    before,
                    o.mod_name,
                    if r > rank {
                        r
                    } else {
                        rank
                    },
                ),
                None => inserted(before, o.mod_name, rank),
            }
        } else {
            before
        }
    }
}

pub open spec fn ranks_first(owners: Seq<OwnerView>, sorted: Seq<Seq<char>>, n: int) -> Seq<
    (Seq<char>, usize),
>
    decreases n,
{
    if n <= 0 {
        Seq::empty()
    } else {
        ranked_owners(
            ranks_first(owners, sorted, n - 1),
            owners,
            sorted[n - 1],
            (n - 1) as usize,
            owners.len() as int,
        )
    }
}

/// The rank of each mod: that of its latest plugin, so that patches win.
pub fn mod_ranks(owners: &Vec<PluginOwner>, sorted: &Vec<String>) -> (r: TextMap<usize>)
    ensures
        r.deep_view() == ranks_first(owners.deep_view(), sorted.deep_view(), sorted.len() as int),
{
    let ghost ov = owners.deep_view();
    let ghost sv = sorted.deep_view();
    let mut m: TextMap<usize> = TextMap::new();
    let mut i: usize = 0;
    while i < sorted.len()
        invariant
            i <= sorted.len(),
            ov == owners.deep_view(),
            sv == sorted.deep_view(),
            m.deep_view() == ranks_first(ov, sv, i as int),
        decreases sorted.len() - i,
    {
        let plugin = sorted[i].as_str();
        assert(sv[i as int] == plugin@);
        let ghost start = m.deep_view();
        let mut k: usize = 0;
        while k < owners.len()
            invariant
                k <= owners.len(),
                ov == owners.deep_view(),
                m.deep_view() == ranked_owners(start, ov, plugin@, i, k as int),
            decreases owners.len() - k,
        {
            let o = &owners[k];
            assert(ov[k as int] == o.deep_view());
            if text::same_ignoring_case(o.plugin.as_str(), plugin) {
                let rank: usize = match m.get(o.mod_name.as_str()) {
                    Some(r) => if *r > i {
                        *r
                    } else {
                        i
                    },
                    None => i,
                };
                m.insert(o.mod_name.clone(), rank);
            }
            k = k + 1;
        }
        assert(ov.len() == owners.len());
        i = i + 1;
    }
    m
}

/// The mods that the first `n` masters come from, other than the mod itself; the game's
/// own content is left out.
pub open spec fn parents_first(
    masters: Seq<Seq<char>>,
    owned: Seq<(Seq<char>, Seq<char>)>,
    child: Seq<char>,
    n: int,
) -> Seq<Seq<char>>
    decreases n,
{
    if n <= 0 {
        Seq::empty()
    } else {
        let before = parents_first(masters, owned, child, n - 1);
        if begins(masters[n - 1], "cc"@) {
            before
        } else {
            match found(owned, masters[n - 1]) {
                Some(parent) => if parent != child {
                    before.push(parent)
                } else {
                    before
                },
                None => before,
            }
        }
    }
}

/// The parents of each mod, as the first `n` plugins give them.
pub open spec fn links_first(
    masters: Seq<(Seq<char>, Seq<Seq<char>>)>,
    owned: Seq<(Seq<char>, Seq<char>)>,
    n: int,
) -> Seq<(Seq<char>, Seq<Seq<char>>)>
    decreases n,
{
    if n <= 0 {
        Seq::empty()
    } else {
        let before = links_first(masters, owned, n - 1);
        let (plugin, needs) = masters[n - 1];
        match found(owned, plugin) {
            Some(child) => inserted(
                before,
                child,
                tags_or_none(found(before, child)) + parents_first(
                    needs,
                    owned,
                    child,
                    needs.len() as int,
                ),
            ),
            None => before,
        }
    }
}

/// The first `n` entries that have parents, these in order and each once.
pub open spec fn kept_links(m: Seq<(Seq<char>, Seq<Seq<char>>)>, n: int) -> Seq<
    (Seq<char>, Seq<Seq<char>>),
>
    decreases n,
{
    if n <= 0 {
        Seq::empty()
    } else {
        let before = kept_links(m, n - 1);
        let parents = in_order_once(m[n - 1].1);
        if parents.len() == 0 {
            before
        } else {
            inserted(before, m[n - 1].0, parents)
        }
    }
}

fn collect_parents(masters: &Vec<String>, owned: &TextMap<String>, child: &str) -> (r: Vec<String>)
    ensures
        r.deep_view() == parents_first(
            masters.deep_view(),
            owned.deep_view(),
            child@,
            masters.deep_view().len() as int,
        ),
{
    let ghost mv = masters.deep_view();
    let mut out: Vec<String> = list::none();
    let mut i: usize = 0;
    while i < masters.len()
        invariant
            i <= masters.len(),
            mv == masters.deep_view(),
            out.deep_view() == parents_first(mv, owned.deep_view(), child@, i as int),
        decreases masters.len() - i,
    {
        let master = masters[i].as_str();
        assert(mv[i as int] == master@);
        if !text::starts_with(master, "cc") {
            if let Some(parent) = owned.get(master) {
                if !text::same(parent.as_str(), child) {
                    list::put(&mut out, parent.clone());
                }
            }
        }
        i = i + 1;
    }
    assert(mv.len() == masters.len());
    out
}

/// The mods whose plugins each mod's plugins name as masters.
pub fn mod_dependencies(owned: &TextMap<String>, masters: &TextMap<Vec<String>>) -> (r: TextMap<
    Vec<String>,
>)
    ensures
        ({
            let m = links_first(
                masters.deep_view(),
                owned.deep_view(),
                masters.deep_view().len() as int,
            );
            r.deep_view() == kept_links(m, m.len() as int)
        }),
{
    let ghost sv = masters.deep_view();
    let mut m: TextMap<Vec<String>> = TextMap::new();
    let mut i: usize = 0;
    while i < masters.len()
        invariant
            i <= sv.len(),
            sv == masters.deep_view(),
            m.deep_view() == links_first(sv, owned.deep_view(), i as int),
        decreases sv.len() - i,
    {
        let e = masters.at(i);
        if let Some(child) = owned.get(e.0.as_str()) {
            let more = collect_parents(&e.1, owned, child.as_str());
            let mut here = match m.get(child.as_str()) {
                Some(v) => list::copy(v),
                None => list::none(),
            };
            list::put_all(&mut here, more);
            m.insert(child.clone(), here);
        }
        i = i + 1;
    }
    let ghost mv = m.deep_view();
    let mut out: TextMap<Vec<String>> = TextMap::new();
    let mut k: usize = 0;
    while k < m.len()
        invariant
            k <= mv.len(),
            mv == m.deep_view(),
            out.deep_view() == kept_links(mv, k as int),
        decreases mv.len() - k,
    {
        let e = m.at(k);
        let parents = libloot_adapter::put_in_order(list::copy(&e.1));
        assert(parents.deep_view().len() == parents.len());
        if parents.len() > 0 {
            out.insert(e.0.clone(), parents);
        }
        k = k + 1;
    }
    out
}

/// A row of the solved order.
pub struct PluginRow {
    pub position: usize,
    pub index: String,
    pub name: String,
    /// The mod that the plugin comes from; none for the game's own.
    pub owner: Option<String>,
}

#[verifier::ext_equal]
pub struct RowView {
    pub position: usize,
    pub index: Seq<char>,
    pub name: Seq<char>,
    pub owner: Option<Seq<char>>,
}

impl DeepView for PluginRow {
    type V = RowView;

    open spec fn deep_view(&self) -> RowView {
        RowView {
            position: self.position,
            index: self.index@,
            name: self.name@,
            owner: self.owner.deep_view(),
        }
    }
}

/// The names of a plugin list, as it spells them.
pub open spec fn shown_names(s: Seq<char>) -> Seq<Seq<char>> {
    named_only(active_of(lines_of(s)), active_of(lines_of(s)).len() as int)
}

pub open spec fn named_only(names: Seq<Seq<char>>, n: int) -> Seq<Seq<char>>
    decreases n,
{
    if n <= 0 {
        Seq::empty()
    } else if names[n - 1].len() == 0 {
        named_only(names, n - 1)
    } else {
        named_only(names, n - 1).push(names[n - 1])
    }
}

pub open spec fn text_or(a: Option<Seq<char>>, b: Seq<char>) -> Seq<char> {
    match a {
        Some(s) => s,
        None => b,
    }
}

/// The rows of the solved order, with the spelling of the plugin list.
pub open spec fn rows_of(
    sorted: Seq<Seq<char>>,
    indexes: Seq<(Seq<char>, Seq<char>)>,
    shown: Seq<(Seq<char>, Seq<char>)>,
    owned: Seq<(Seq<char>, Seq<char>)>,
) -> Seq<RowView> {
    Seq::new(
        sorted.len(),
        |i: int|
            RowView {
                position: (i + 1) as usize,
                index: text_or(found(indexes, sorted[i]), ""@),
                name: text_or(found(shown, ascii_lowered(sorted[i])), sorted[i]),
                owner: found(owned, sorted[i]),
            },
    )
}

fn show_names(s: &str) -> (r: Vec<String>)
    ensures
        r.deep_view() == shown_names(s@),
{
    let lines = text::lines(s);
    let names = collect_active(&lines);
    let ghost nv = names.deep_view();
    let mut out: Vec<String> = list::none();
    let mut i: usize = 0;
    while i < names.len()
        invariant
            i <= names.len(),
            nv == names.deep_view(),
            out.deep_view() == named_only(nv, i as int),
        decreases names.len() - i,
    {
        assert(nv[i as int] == names@[i as int]@);
        let chars = text::chars_of(names[i].as_str());
        if chars.len() > 0 {
            list::put(&mut out, names[i].clone());
        }
        i = i + 1;
    }
    assert(nv.len() == names.len());
    out
}

pub fn plugin_rows(
    sorted: &Vec<String>,
    indexes: &TextMap<String>,
    plugin_list: &str,
    owned: &TextMap<String>,
) -> (r: Vec<PluginRow>)
    ensures
        r.deep_view() == rows_of(
            sorted.deep_view(),
            indexes.deep_view(),
            spelled(shown_names(plugin_list@)),
            owned.deep_view(),
        ),
{
    let names = show_names(plugin_list);
    let shown = spell(&names);
    let ghost sv = sorted.deep_view();
    let ghost all = rows_of(sv, indexes.deep_view(), shown.deep_view(), owned.deep_view());
    let mut out: Vec<PluginRow> = list::none();
    let mut i: usize = 0;
    assert(all.take(0) =~= Seq::<RowView>::empty());
    while i < sorted.len()
        invariant
            i <= sorted.len() == sv.len(),
            sv == sorted.deep_view(),
            all == rows_of(sv, indexes.deep_view(), shown.deep_view(), owned.deep_view()),
            out.deep_view() == all.take(i as int),
        decreases sorted.len() - i,
    {
        let plugin = sorted[i].as_str();
        assert(sv[i as int] == plugin@);
        let index = match indexes.get(plugin) {
            Some(x) => x.clone(),
            None => "".to_string(),
        };
        let key = text::ascii_lower(plugin);
        let name = match shown.get(key.as_str()) {
            Some(x) => x.clone(),
            None => plugin.to_string(),
        };
        let owner = match owned.get(plugin) {
            Some(x) => Some(x.clone()),
            None => None,
        };
        list::put(&mut out, PluginRow { position: i + 1, index, name, owner });
        i = i + 1;
        assert(out.deep_view() =~= all.take(i as int));
    }
    assert(all.take(i as int) =~= all);
    out
}

/// Whether a row has the text in its name or in its owner's, whatever the case.
pub open spec fn row_has(row: RowView, needle: Seq<char>) -> bool {
    needle.len() == 0 || text::contains_text(ascii_lowered(row.name), needle) || (row.owner is Some
        && text::contains_text(ascii_lowered(row.owner->0), needle))
}

/// Whether a search for `typed` shows the row.
pub fn row_matches(row: &PluginRow, typed: &str) -> (r: bool)
    ensures
        r == row_has(row.deep_view(), ascii_lowered(trimmed(typed@))),
{
    let t = text::trim(typed);
    let needle = text::ascii_lower(t.as_str());
    let chars = text::chars_of(needle.as_str());
    if chars.len() == 0 {
        return true;
    }
    let name = text::ascii_lower(row.name.as_str());
    if text::contains(name.as_str(), needle.as_str()) {
        return true;
    }
    match &row.owner {
        Some(o) => {
            let o = text::ascii_lower(o.as_str());
            text::contains(o.as_str(), needle.as_str())
        },
        None => false,
    }
}

// ---- laws of the preview ----

/// Every row that activates no plugin stays as it is, and in its place.
pub proof fn inactive_rows_stay(lines: Seq<Seq<char>>, wanted: Seq<Seq<char>>, i: int)
    requires
        0 <= i < lines.len(),
        active_name(lines[i]) is None,
    ensures
        reordered(lines, wanted).len() == lines.len(),
        reordered(lines, wanted)[i] == lines[i],
{
}

proof fn lemma_spelled(names: Seq<Seq<char>>, n: int, k: Seq<char>)
    requires
        0 <= n <= names.len(),
    ensures
        match found(spelled_first(names, n), k) {
            Some(name) => ascii_lowered(name) == k && names.take(n).contains(name),
            None => forall|i: int| 0 <= i < n ==> ascii_lowered(#[trigger] names[i]) != k,
        },
    decreases n,
{
    if n > 0 {
        lemma_spelled(names, n - 1, k);
        let before = spelled_first(names, n - 1);
        crate::map::insert_then_get(before, ascii_lowered(names[n - 1]), names[n - 1], k);
        if ascii_lowered(names[n - 1]) == k {
            assert(names.take(n)[n - 1] == names[n - 1]);
        } else if found(before, k) is Some {
            let name = found(before, k)->0;
            let prior = names.take(n - 1);
            let j = choose|j: int| 0 <= j < prior.len() && prior[j] == name;
            assert(names.take(n)[j] == name);
        }
    } else {
        crate::map::lemma_key_from(spelled_first(names, 0), k, 0);
    }
}

/// Every name of the preview is an active plugin's, in the user's spelling.
pub proof fn preview_names_active_plugins(active: Seq<Seq<char>>, sorted: Seq<Seq<char>>, i: int)
    requires
        0 <= i < wanted_of(active, sorted).len(),
    ensures
        active.contains(wanted_of(active, sorted)[i]),
{
    lemma_wanted(active, sorted, sorted.len() as int, i);
}

proof fn lemma_wanted(active: Seq<Seq<char>>, sorted: Seq<Seq<char>>, n: int, i: int)
    requires
        0 <= n <= sorted.len(),
        0 <= i < wanted_first(sorted, spelled(active), n).len(),
    ensures
        active.contains(wanted_first(sorted, spelled(active), n)[i]),
    decreases n,
{
    if n > 0 {
        let known = spelled(active);
        let before = wanted_first(sorted, known, n - 1);
        if i < before.len() {
            lemma_wanted(active, sorted, n - 1, i);
        } else {
            lemma_spelled(active, active.len() as int, ascii_lowered(sorted[n - 1]));
            assert(active.take(active.len() as int) =~= active);
        }
    }
}

/// No two names are the same but for case.
pub open spec fn all_differ(names: Seq<Seq<char>>, n: int) -> bool {
    forall|i: int, j: int|
        0 <= i < j < n ==> ascii_lowered(#[trigger] names[i]) != ascii_lowered(#[trigger] names[j])
}

proof fn lemma_spelled_len(names: Seq<Seq<char>>, n: int)
    requires
        0 <= n <= names.len(),
    ensures
        spelled_first(names, n).len() <= n,
        spelled_first(names, n).len() == n <==> all_differ(names, n),
    decreases n,
{
    if n > 0 {
        lemma_spelled_len(names, n - 1);
        let before = spelled_first(names, n - 1);
        let k = ascii_lowered(names[n - 1]);
        lemma_spelled(names, n - 1, k);
        crate::map::lemma_key_from(before, k, 0);
        if found(before, k) is Some {
            let name = found(before, k)->0;
            let prior = names.take(n - 1);
            let j = choose|j: int| 0 <= j < prior.len() && prior[j] == name;
            assert(ascii_lowered(names[j]) == ascii_lowered(names[n - 1]));
        } else if all_differ(names, n - 1) {
            assert forall|i: int, j: int| 0 <= i < j < n implies ascii_lowered(#[trigger] names[i])
                != ascii_lowered(#[trigger] names[j]) by {}
        }
    }
}

/// The preview names every active plugin as often as the list does: the active plugins
/// are only put in another order.
pub proof fn preview_is_a_reordering(active: Seq<Seq<char>>, sorted: Seq<Seq<char>>)
    requires
        agree(active, wanted_of(active, sorted)),
        all_differ(active, active.len() as int),
    ensures
        wanted_of(active, sorted).to_multiset() == active.to_multiset(),
{
    broadcast use vstd::seq_lib::group_to_multiset_ensures;

    let wanted = wanted_of(active, sorted);
    lemma_spelled_len(active, active.len() as int);
    lemma_spelled_len(wanted, wanted.len() as int);
    assert(all_differ(wanted, wanted.len() as int));
    assert(wanted.no_duplicates());
    assert(active.no_duplicates());
    wanted.unique_seq_to_set();
    active.unique_seq_to_set();
    assert forall|x: Seq<char>| wanted.to_set().contains(x) implies active.to_set().contains(x) by {
        let i = choose|i: int| 0 <= i < wanted.len() && wanted[i] == x;
        preview_names_active_plugins(active, sorted, i);
    }
    vstd::set_lib::lemma_subset_equality(wanted.to_set(), active.to_set());
    wanted.lemma_multiset_has_no_duplicates();
    active.lemma_multiset_has_no_duplicates();
    assert forall|x: Seq<char>| wanted.to_multiset().count(x) == active.to_multiset().count(x) by {
        assert(wanted.to_set().contains(x) <==> active.to_set().contains(x));
        assert(wanted.contains(x) <==> active.contains(x));
        if wanted.contains(x) {
            assert(wanted.to_multiset().contains(x));
            assert(active.to_multiset().contains(x));
        } else {
            assert(!wanted.to_multiset().contains(x));
            assert(!active.to_multiset().contains(x));
        }
    }
    assert(wanted.to_multiset() =~= active.to_multiset());
}

} // verus!
