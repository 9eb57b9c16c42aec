//! Where the users of other profiles put the same mods.
use vstd::prelude::*;
use crate::keys;
#[allow(unused_imports)]
use crate::keys::{place_alike, squeezed};
use crate::list;
use crate::map::TextMap;
#[allow(unused_imports)]
use crate::map::{found, inserted};
use crate::profile;
#[allow(unused_imports)]
use crate::profile::data_path;
use crate::text;
#[allow(unused_imports)]
use crate::text::{ascii_lowered, before_suffix, begins, contains_text, ended, finishes, lines_of, set_trimmed_start, split_first, trimmed};

verus! {

/// The sections of a mod in the referenced profiles, by the letters and digits of its name.
pub struct ReferenceIndex {
    pub entries: TextMap<Vec<String>>,
}

pub type Homes = Seq<(Seq<char>, Seq<Seq<char>>)>;

/// A section that says nothing of where a mod belongs.
pub open spec fn is_operational(section: Seq<char>) -> bool {
    let s = ascii_lowered(section);
    contains_text(s, "end of list"@) || contains_text(s, "output"@) || contains_text(s, "testing"@)
        || contains_text(s, "game folder"@) || contains_text(s, "creation kit"@)
}

pub fn operational_section(section: &str) -> (r: bool)
    ensures
        r == is_operational(section@),
{
    let s = text::ascii_lower(section);
    let s = s.as_str();
    text::contains(s, "end of list") || text::contains(s, "output") || text::contains(s, "testing")
        || text::contains(s, "game folder") || text::contains(s, "creation kit")
}

pub open spec fn homes_or_none(h: Option<Seq<Seq<char>>>) -> Seq<Seq<char>> {
    match h {
        Some(s) => s,
        None => Seq::empty(),
    }
}

pub open spec fn homes_first(lines: Seq<Seq<char>>, n: int) -> Homes
    decreases n,
{
    if n <= 0 {
        Seq::empty()
    } else {
        let before = homes_first(lines, n - 1);
        match split_first(lines[n - 1], "\t"@) {
            Some((a, b)) => {
                let name = trimmed(a);
                let section = trimmed(b);
                if name.len() > 0 && section.len() > 0 && !is_operational(section) {
                    inserted(
                        before,
                        squeezed(name),
                        homes_or_none(found(before, squeezed(name))).push(section),
                    )
                } else {
                    before
                }
            },
            None => before,
        }
    }
}

pub open spec fn homes_of(s: Option<Seq<char>>) -> Homes {
    match s {
        Some(t) => homes_first(lines_of(t), lines_of(t).len() as int),
        None => Seq::empty(),
    }
}

/// The sections of this profile that the first `n` references vote for.
pub open spec fn votes_first(homes: Seq<Seq<char>>, sections: Seq<Seq<char>>, n: int) -> Seq<
    Seq<char>,
>
    decreases n,
{
    if n <= 0 {
        Seq::empty()
    } else {
        let before = votes_first(homes, sections, n - 1);
        match place_alike(sections, homes[n - 1], 0) {
            Some(i) => before.push(sections[i]),
            None => before,
        }
    }
}

/// All votes are for one section.
pub open spec fn unanimous(votes: Seq<Seq<char>>) -> bool {
    votes.len() > 0 && forall|i: int| 0 <= i < votes.len() ==> #[trigger] votes[i] == votes[0]
}

/// The section that all votes agree on; two of them make it near certain.
pub open spec fn agreed(entries: Homes, name: Seq<char>, sections: Seq<Seq<char>>) -> Option<
    (Seq<char>, u8),
> {
    match found(entries, squeezed(name)) {
        Some(homes) => {
            let votes = votes_first(homes, sections, homes.len() as int);
            if unanimous(votes) {
                Some(
                    (
                        votes[0],
                        if votes.len() >= 2 {
                            99u8
                        } else {
                            92u8
                        },
                    ),
                )
            } else {
                None
            }
        },
        None => None,
    }
}

impl ReferenceIndex {
    /// The references in a text, if there is one.
    pub fn load(s: Option<&str>) -> (r: ReferenceIndex)
        ensures
            r.entries.deep_view() == homes_of(s.deep_view()),
    {
        let mut entries: TextMap<Vec<String>> = TextMap::new();
        match s {
            None => {},
            Some(t) => {
                let lines = text::lines(t);
                let ghost lv = lines.deep_view();
                let mut i: usize = 0;
                while i < lines.len()
                    invariant
                        i <= lines.len(),
                        lv == lines.deep_view(),
                        entries.deep_view() == homes_first(lv, i as int),
                    decreases lines.len() - i,
                {
                    assert(lv[i as int] == lines@[i as int]@);
                    if let Some((a, b)) = text::split_once(lines[i].as_str(), "\t") {
                        let name = text::trim(a.as_str());
                        let section = text::trim(b.as_str());
                        let left = text::chars_of(name.as_str());
                        let right = text::chars_of(section.as_str());
                        if left.len() > 0 && right.len() > 0 && !operational_section(
                            section.as_str(),
                        ) {
                            let k = keys::squeeze(name.as_str());
                            let mut here = match entries.get(k.as_str()) {
                                Some(v) => list::copy(v),
                                None => list::none(),
                            };
                            list::put(&mut here, section);
                            entries.insert(k, here);
                        }
                    }
                    i = i + 1;
                }
                assert(lv.len() == lines.len());
            },
        }
        ReferenceIndex { entries }
    }

    pub fn source_count(&self) -> (n: usize)
        ensures
            n == self.entries.deep_view().len(),
    {
        self.entries.len()
    }

    /// The section that every usable reference agrees on.
    pub fn destination(&self, mod_name: &str, sections: &[String]) -> (r: Option<(String, u8)>)
        ensures
            r.deep_view() == agreed(self.entries.deep_view(), mod_name@, sections.deep_view()),
    {
        let k = keys::squeeze(mod_name);
        let homes = match self.entries.get(k.as_str()) {
            Some(v) => v,
            None => {
                return None;
            },
        };
        let ghost hv = homes.deep_view();
        let ghost sv = sections.deep_view();
        let mut votes: Vec<String> = list::none();
        let mut i: usize = 0;
        while i < homes.len()
            invariant
                i <= homes.len(),
                hv == homes.deep_view(),
                sv == sections.deep_view(),
                votes.deep_view() == votes_first(hv, sv, i as int),
            decreases homes.len() - i,
        {
            assert(hv[i as int] == homes@[i as int]@);
            if let Some(j) = keys::find_alike(sections, homes[i].as_str()) {
                assert(sv[j as int] == sections@[j as int]@);
                list::put(&mut votes, sections[j].clone());
            }
            i = i + 1;
        }
        assert(hv.len() == homes.len());
        let ghost vv = votes.deep_view();
        assert(vv.len() == votes.len());
        if votes.len() == 0 {
            return None;
        }
        let mut i: usize = 0;
        while i < votes.len()
            invariant
                0 < votes.len(),
                i <= votes.len(),
                vv == votes.deep_view(),
                vv == votes_first(hv, sv, hv.len() as int),
                found(self.entries.deep_view(), squeezed(mod_name@)) == Some(hv),
                sv == sections.deep_view(),
                forall|j: int| 0 <= j < i ==> #[trigger] vv[j] == vv[0],
            decreases votes.len() - i,
        {
            assert(vv[i as int] == votes@[i as int]@);
            assert(vv[0] == votes@[0]@);
            if !(votes[i] == votes[0]) {
                assert(!unanimous(vv));
                return None;
            }
            i = i + 1;
        }
        assert(vv[0] == votes@[0]@);
        assert(unanimous(vv));
        Some(
            (
                votes[0].clone(),
                if votes.len() >= 2 {
                    99
                } else {
                    92
                },
            ),
        )
    }
}

// ---- importing a profile ----

pub struct Walk {
    pub bucket: Seq<Seq<char>>,
    pub rows: Seq<(Seq<char>, Seq<char>)>,
}

pub open spec fn filed(names: Seq<Seq<char>>, label: Seq<char>) -> Seq<(Seq<char>, Seq<char>)> {
    Seq::new(names.len(), |i: int| (names[i], label))
}

/// A row of a list: a separator takes the mods that stand above it in the file.
pub open spec fn walked(w: Walk, raw: Seq<char>) -> Walk {
    let line = trimmed(raw);
    let bare = trimmed(set_trimmed_start(line, "+-"@));
    match before_suffix(bare, "_separator"@) {
        Some(l) => Walk {
            bucket: Seq::empty(),
            rows: if is_operational(trimmed(l)) {
                w.rows
            } else {
                w.rows + filed(w.bucket, trimmed(l))
            },
        },
        None => if (begins(line, "+"@) || begins(line, "-"@)) && bare.len() > 0 {
            Walk { bucket: w.bucket.push(bare), ..w }
        } else {
            w
        },
    }
}

pub open spec fn walked_first(lines: Seq<Seq<char>>, n: int) -> Walk
    decreases n,
{
    if n <= 0 {
        Walk { bucket: Seq::empty(), rows: Seq::empty() }
    } else {
        walked(walked_first(lines, n - 1), lines[n - 1])
    }
}

/// The mods of a list with their sections.
pub open spec fn filed_in(s: Seq<char>) -> Seq<(Seq<char>, Seq<char>)> {
    walked_first(lines_of(s), lines_of(s).len() as int).rows
}

fn add_filed(rows: &mut Vec<(String, String)>, names: &Vec<String>, label: &str)
    ensures
        final(rows).deep_view() == old(rows).deep_view() + filed(names.deep_view(), label@),
{
    let ghost start = rows.deep_view();
    let ghost all = filed(names.deep_view(), label@);
    let mut i: usize = 0;
    assert(start + all.take(0) =~= start);
    while i < names.len()
        invariant
            i <= names.len(),
            all == filed(names.deep_view(), label@),
            rows.deep_view() == start + all.take(i as int),
        decreases names.len() - i,
    {
        assert(all[i as int] == (names@[i as int]@, label@));
        list::put(rows, (names[i].clone(), label.to_string()));
        i = i + 1;
        assert(rows.deep_view() =~= start + all.take(i as int));
    }
    assert(all.take(i as int) =~= all);
}

fn find_filed(s: &str) -> (r: Vec<(String, String)>)
    ensures
        r.deep_view() == filed_in(s@),
{
    let lines = text::lines(s);
    let ghost lv = lines.deep_view();
    let mut bucket: Vec<String> = list::none();
    let mut rows: Vec<(String, String)> = list::none();
    let mut i: usize = 0;
    while i < lines.len()
        invariant
            i <= lines.len(),
            lv == lines.deep_view(),
            walked_first(lv, i as int) == (Walk {
                bucket: bucket.deep_view(),
                rows: rows.deep_view(),
            }),
        decreases lines.len() - i,
    {
        assert(lv[i as int] == lines@[i as int]@);
        let line = text::trim(lines[i].as_str());
        let bare = text::trim_start_of(line.as_str(), "+-");
        let bare = text::trim(bare.as_str());
        let chars = text::chars_of(bare.as_str());
        match text::strip_suffix(bare.as_str(), "_separator") {
            Some(l) => {
                let label = text::trim(l.as_str());
                if !operational_section(label.as_str()) {
                    add_filed(&mut rows, &bucket, label.as_str());
                }
                bucket = list::none();
            },
            None => {
                if (text::starts_with(line.as_str(), "+") || text::starts_with(line.as_str(), "-"))
                    && chars.len() > 0 {
                    list::put(&mut bucket, bare);
                }
            },
        }
        i = i + 1;
    }
    assert(lv.len() == lines.len());
    rows
}

pub open spec fn head_of(existing: Option<Seq<char>>, source_name: Seq<char>) -> Seq<char> {
    let t = match existing {
        Some(s) => s,
        None => "# ModSlut private human-reference data. Do not ship with ModSlut itself.\n"@,
    };
    (if finishes(t, "\n"@) {
        t
    } else {
        t + "\n"@
    }) + "# source: "@ + source_name + "\n"@
}

/// The rows among the first `n` lines: those with a tab.
pub open spec fn tabbed_first(lines: Seq<Seq<char>>, n: int) -> Seq<Seq<char>>
    decreases n,
{
    if n <= 0 {
        Seq::empty()
    } else {
        let before = tabbed_first(lines, n - 1);
        if contains_text(lines[n - 1], "\t"@) {
            keys::with_item(before, lines[n - 1])
        } else {
            before
        }
    }
}

/// The rows that the first `n` references add to those that are there.
pub open spec fn new_rows(
    known: Seq<Seq<char>>,
    rows: Seq<(Seq<char>, Seq<char>)>,
    n: int,
) -> Seq<Seq<char>>
    decreases n,
{
    if n <= 0 {
        Seq::empty()
    } else {
        let before = new_rows(known, rows, n - 1);
        let row = rows[n - 1].0 + "\t"@ + rows[n - 1].1;
        if known.contains(row) || before.contains(row) {
            before
        } else {
            before.push(row)
        }
    }
}

/// The rows that a list adds to a reference text.
pub open spec fn import_rows(existing: Option<Seq<char>>, source_name: Seq<char>, source: Seq<char>) -> Seq<
    Seq<char>,
> {
    let lines = lines_of(head_of(existing, source_name));
    new_rows(
        tabbed_first(lines, lines.len() as int),
        filed_in(source),
        filed_in(source).len() as int,
    )
}

/// Adds the mods of a sorted list to a reference text, and counts the new rows.
pub fn import_source(existing: Option<&str>, source_name: &str, source: &str) -> (r: (String, usize))
    ensures
        ({
            let rows = import_rows(existing.deep_view(), source_name@, source@);
            r.0@ == head_of(existing.deep_view(), source_name@) + ended(rows) && r.1 == rows.len()
        }),
{
    let rows = find_filed(source);
    let ghost rv = rows.deep_view();
    assert(rv.len() == rows.len());
    let mut out = match existing {
        Some(s) => s.to_string(),
        None => "# ModSlut private human-reference data. Do not ship with ModSlut itself.\n".to_string(),
    };
    if !text::ends_with(out.as_str(), "\n") {
        out.append("\n");
    }
    out.append("# source: ");
    out.append(source_name);
    out.append("\n");
    let ghost head = head_of(existing.deep_view(), source_name@);
    assert(out@ =~= head);
    let lines = text::lines(out.as_str());
    let ghost lv = lines.deep_view();
    let mut known: Vec<String> = list::none();
    let mut i: usize = 0;
    while i < lines.len()
        invariant
            i <= lines.len(),
            lv == lines.deep_view(),
            known.deep_view() == tabbed_first(lv, i as int),
        decreases lines.len() - i,
    {
        assert(lv[i as int] == lines@[i as int]@);
        if text::contains(lines[i].as_str(), "\t") {
            keys::add_item(&mut known, lines[i].clone());
        }
        i = i + 1;
    }
    assert(lv.len() == lines.len());
    let mut added: Vec<String> = list::none();
    let mut i: usize = 0;
    while i < rows.len()
        invariant
            i <= rows.len(),
            rv == rows.deep_view(),
            added.deep_view() == new_rows(known.deep_view(), rv, i as int),
        decreases rows.len() - i,
    {
        assert(rv[i as int] == rows@[i as int].deep_view());
        let row = text::cat3(rows[i].0.as_str(), "\t", rows[i].1.as_str());
        if !list::holds(&known, row.as_str()) && !list::holds(&added, row.as_str()) {
            list::put(&mut added, row);
        }
        i = i + 1;
    }
    let tail = text::end_lines(&added);
    out.append(tail.as_str());
    assert(added.deep_view().len() == added.len());
    (out, added.len())
}

/// Where the references of a profile are kept.
pub fn path_for(folder: &str) -> (r: String)
    ensures
        r@ == data_path(folder@, "private_reference.ini"@),
{
    profile::profile_data_path(folder, "private_reference.ini")
}

} // verus!
