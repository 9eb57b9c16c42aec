//! The organizer's categories: which category a mod carries, from the category
//! tables of an instance and the `meta.ini` of each mod.
use vstd::prelude::*;
use std::collections::HashMap;
use crate::map::TextMap;
#[allow(unused_imports)]
use crate::map::found;
use crate::text;
#[allow(unused_imports)]
use crate::text::{begins, decimal, lines_of, number, set_trimmed_start, split_on, trimmed, trimmed_end};

verus! {

broadcast use vstd::std_specs::hash::group_hash_axioms;

pub struct Categories {
    pub id_to_name: HashMap<u32, String>,
    /// From the category number of the download site to the local one.
    pub nexus_to_local: HashMap<u32, u32>,
    /// The text of each mod's `meta.ini`, by the name of the mod.
    pub metas: TextMap<String>,
}

#[verifier::ext_equal]
pub struct CategoriesView {
    pub names: Map<u32, Seq<char>>,
    pub locals: Map<u32, u32>,
    pub metas: Seq<(Seq<char>, Seq<char>)>,
}

pub open spec fn texts(m: Map<u32, String>) -> Map<u32, Seq<char>> {
    Map::new(|k: u32| m.contains_key(k), |k: u32| m[k]@)
}

impl DeepView for Categories {
    type V = CategoriesView;

    open spec fn deep_view(&self) -> CategoriesView {
        CategoriesView {
            names: texts(self.id_to_name@),
            locals: self.nexus_to_local@,
            metas: self.metas.deep_view(),
        }
    }
}

/// The number that a trimmed cell spells, as an unsigned 32-bit integer.
pub open spec fn id_in(s: Seq<char>) -> Option<nat> {
    number(s, u32::MAX as nat)
}

pub open spec fn cells_of(line: Seq<char>) -> Seq<Seq<char>> {
    split_on(trimmed_end(line), "|"@)
}

/// The category names that the first `n` lines give: `id|name|...`; the last line
/// of a number wins.
pub open spec fn names_first(lines: Seq<Seq<char>>, n: int) -> Map<u32, Seq<char>>
    decreases n,
{
    if n <= 0 {
        Map::empty()
    } else {
        let before = names_first(lines, n - 1);
        let cells = cells_of(lines[n - 1]);
        if cells.len() >= 2 && id_in(trimmed(cells[0])) is Some {
            before.insert(id_in(trimmed(cells[0]))->0 as u32, trimmed(cells[1]))
        } else {
            before
        }
    }
}

/// The map that the first `n` lines give: `local|name|nexus|...`.
pub open spec fn locals_first(lines: Seq<Seq<char>>, n: int) -> Map<u32, u32>
    decreases n,
{
    if n <= 0 {
        Map::empty()
    } else {
        let before = locals_first(lines, n - 1);
        let cells = cells_of(lines[n - 1]);
        if cells.len() >= 3 && id_in(trimmed(cells[0])) is Some && id_in(trimmed(cells[2])) is Some {
            before.insert(id_in(trimmed(cells[2]))->0 as u32, id_in(trimmed(cells[0]))->0 as u32)
        } else {
            before
        }
    }
}

pub open spec fn name_under(names: Map<u32, Seq<char>>, id: u32) -> Seq<char> {
    if names.contains_key(id) {
        names[id]
    } else {
        "<unknown id "@ + decimal(id as nat) + ">"@
    }
}

/// A value behind `=` signs and spaces.
pub open spec fn meta_value(rest: Seq<char>) -> Seq<char> {
    trimmed(set_trimmed_start(rest, "= "@))
}

/// The category that the first of a mod's `category` numbers names, unless it is 0.
pub open spec fn explicit_id(line: Seq<char>) -> Option<u32> {
    let l = trimmed(line);
    if begins(l, "category"@) {
        let first = trimmed(split_on(meta_value(l.skip("category"@.len() as int)), ","@)[0]);
        match id_in(first) {
            Some(id) => if id != 0 {
                Some(id as u32)
            } else {
                None
            },
            None => None,
        }
    } else {
        None
    }
}

pub open spec fn nexus_id(line: Seq<char>) -> Option<u32> {
    let l = trimmed(line);
    if !begins(l, "category"@) && begins(l, "nexusCategory"@) {
        match id_in(meta_value(l.skip("nexusCategory"@.len() as int))) {
            Some(id) => if id != 0 {
                Some(id as u32)
            } else {
                None
            },
            None => None,
        }
    } else {
        None
    }
}

/// The category of a mod whose `meta.ini` has these lines, where `nexus` is the last
/// site category that the lines before index `i` name.
pub open spec fn category_from(
    c: CategoriesView,
    lines: Seq<Seq<char>>,
    i: int,
    nexus: Option<u32>,
) -> Option<(u32, Seq<char>)>
    decreases lines.len() - i,
{
    if i < 0 || i >= lines.len() {
        match nexus {
            Some(nid) => if c.locals.contains_key(nid) {
                Some((c.locals[nid], name_under(c.names, c.locals[nid])))
            } else {
                None
            },
            None => None,
        }
    } else {
        match explicit_id(lines[i]) {
            Some(id) => Some((id, name_under(c.names, id))),
            None => match nexus_id(lines[i]) {
                Some(nid) => category_from(c, lines, i + 1, Some(nid)),
                None => category_from(c, lines, i + 1, nexus),
            },
        }
    }
}

/// The number and the name of a mod's category: an explicit assignment, or else the
/// site category carried over to the local table.
pub open spec fn category_detail(c: CategoriesView, name: Seq<char>) -> Option<(u32, Seq<char>)> {
    match found(c.metas, name) {
        Some(meta) => category_from(c, lines_of(meta), 0, None),
        None => None,
    }
}

pub open spec fn category_name(c: CategoriesView, name: Seq<char>) -> Option<Seq<char>> {
    match category_detail(c, name) {
        Some((_, n)) => Some(n),
        None => None,
    }
}

fn id_of(s: &str) -> (r: Option<u32>)
    ensures
        match r {
            Some(n) => id_in(s@) == Some(n as nat),
            None => id_in(s@) is None,
        },
{
    match text::parse_number(s, 0xffff_ffff) {
        Some(n) => Some(n as u32),
        None => None,
    }
}

fn cells(line: &str) -> (r: Vec<String>)
    ensures
        r.deep_view() == cells_of(line@),
{
    let t = text::trim_end(line);
    text::split(t.as_str(), "|")
}

fn explicit_in(line: &str) -> (r: Option<u32>)
    ensures
        r == explicit_id(line@),
{
    let l = text::trim(line);
    match text::strip_prefix(l.as_str(), "category") {
        Some(rest) => {
            let open = text::trim_start_of(rest.as_str(), "= ");
            let value = text::trim(open.as_str());
            let parts = text::split(value.as_str(), ",");
            proof {
                text::lemma_split_nonempty(value@, ","@);
            }
            assert(parts.deep_view()[0] == parts@[0]@);
            let first = text::trim(parts[0].as_str());
            match id_of(first.as_str()) {
                Some(id) => if id != 0 {
                    Some(id)
                } else {
                    None
                },
                None => None,
            }
        },
        None => None,
    }
}

fn nexus_in(line: &str) -> (r: Option<u32>)
    ensures
        r == nexus_id(line@),
{
    let l = text::trim(line);
    if text::starts_with(l.as_str(), "category") {
        return None;
    }
    match text::strip_prefix(l.as_str(), "nexusCategory") {
        Some(rest) => {
            let open = text::trim_start_of(rest.as_str(), "= ");
            let value = text::trim(open.as_str());
            match id_of(value.as_str()) {
                Some(id) => if id != 0 {
                    Some(id)
                } else {
                    None
                },
                None => None,
            }
        },
        None => None,
    }
}

impl Categories {
    /// The category tables of an instance, from the text of its category file, that of
    /// its site map if there is one, and the `meta.ini` texts of its mods. A category
    /// file that names no category gives none.
    pub fn from_texts(categories: &str, nexus_map: Option<&str>, metas: TextMap<String>) -> (r:
        Option<Categories>)
        ensures
            ({
                let lines = lines_of(categories@);
                let names = names_first(lines, lines.len() as int);
                match r {
                    Some(c) => names.dom().len() > 0 && c.deep_view() == (CategoriesView {
                        names,
                        locals: match nexus_map {
                            Some(t) => locals_first(lines_of(t@), lines_of(t@).len() as int),
                            None => Map::empty(),
                        },
                        metas: metas.deep_view(),
                    }),
                    None => names.dom().len() == 0,
                }
            }),
    {
        let id_to_name = read_names(categories);
        proof {
            let lines = lines_of(categories@);
            assert(texts(id_to_name@).dom() =~= id_to_name@.dom());
        }
        if id_to_name.len() == 0 {
            return None;
        }
        let nexus_to_local = match nexus_map {
            Some(t) => read_locals(t),
            None => HashMap::new(),
        };
        Some(Categories { id_to_name, nexus_to_local, metas })
    }

    pub fn name_for(&self, id: u32) -> (r: String)
        ensures
            r@ == name_under(self.deep_view().names, id),
    {
        match self.id_to_name.get(&id) {
            Some(s) => s.clone(),
            None => {
                let n = text::dec(id as u128);
                text::cat3("<unknown id ", n.as_str(), ">")
            },
        }
    }

    pub fn category_of(&self, mod_name: &str) -> (r: Option<String>)
        ensures
            r.deep_view() == category_name(self.deep_view(), mod_name@),
    {
        match self.category_detail_of(mod_name) {
            Some((_, n)) => Some(n),
            None => None,
        }
    }

    pub fn category_detail_of(&self, mod_name: &str) -> (r: Option<(u32, String)>)
        ensures
            r.deep_view() == category_detail(self.deep_view(), mod_name@),
    {
        let meta = match self.metas.get(mod_name) {
            Some(m) => m,
            None => {
                return None;
            },
        };
        let lines = text::lines(meta.as_str());
        let ghost c = self.deep_view();
        let ghost all = lines.deep_view();
        let mut nexus: Option<u32> = None;
        let mut i: usize = 0;
        while i < lines.len()
            invariant
                i <= lines.len(),
                c == self.deep_view(),
                all == lines.deep_view(),
                category_detail(c, mod_name@) == category_from(c, all, 0, None),
                category_from(c, all, i as int, nexus) == category_from(c, all, 0, None),
            decreases lines.len() - i,
        {
            assert(all[i as int] == lines@[i as int]@);
            if let Some(id) = explicit_in(lines[i].as_str()) {
                return Some((id, self.name_for(id)));
            }
            if let Some(id) = nexus_in(lines[i].as_str()) {
                nexus = Some(id);
            }
            i = i + 1;
        }
        match nexus {
            Some(nid) => match self.nexus_to_local.get(&nid) {
                Some(local) => Some((*local, self.name_for(*local))),
                None => None,
            },
            None => None,
        }
    }
}

fn read_names(text: &str) -> (m: HashMap<u32, String>)
    ensures
        texts(m@) == names_first(lines_of(text@), lines_of(text@).len() as int),
{
    let lines = text::lines(text);
    let mut m: HashMap<u32, String> = HashMap::new();
    assert(texts(m@) =~= Map::empty());
    let mut i: usize = 0;
    while i < lines.len()
        invariant
            i <= lines.len(),
            lines.deep_view() == lines_of(text@),
            texts(m@) == names_first(lines.deep_view(), i as int),
        decreases lines.len() - i,
    {
        assert(lines.deep_view()[i as int] == lines@[i as int]@);
        let c = cells(lines[i].as_str());
        if c.len() >= 2 {
            assert(c.deep_view()[0] == c@[0]@);
            assert(c.deep_view()[1] == c@[1]@);
            let first = text::trim(c[0].as_str());
            if let Some(id) = id_of(first.as_str()) {
                let name = text::trim(c[1].as_str());
                let ghost before = m@;
                m.insert(id, name);
                assert(texts(m@) =~= texts(before).insert(id, name@));
            }
        }
        i = i + 1;
    }
    m
}

fn read_locals(text: &str) -> (m: HashMap<u32, u32>)
    ensures
        m@ == locals_first(lines_of(text@), lines_of(text@).len() as int),
{
    let lines = text::lines(text);
    let mut m: HashMap<u32, u32> = HashMap::new();
    let mut i: usize = 0;
    while i < lines.len()
        invariant
            i <= lines.len(),
            lines.deep_view() == lines_of(text@),
            m@ == locals_first(lines.deep_view(), i as int),
        decreases lines.len() - i,
    {
        assert(lines.deep_view()[i as int] == lines@[i as int]@);
        let c = cells(lines[i].as_str());
        if c.len() >= 3 {
            assert(c.deep_view()[0] == c@[0]@);
            assert(c.deep_view()[2] == c@[2]@);
            let a = text::trim(c[0].as_str());
            let b = text::trim(c[2].as_str());
            let local = id_of(a.as_str());
            let nexus = id_of(b.as_str());
            if local.is_some() && nexus.is_some() {
                m.insert(nexus.unwrap(), local.unwrap());
            }
        }
        i = i + 1;
    }
    m
}

} // verus!
