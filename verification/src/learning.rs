//! What a user's own moves teach: the homes of mods.
use vstd::prelude::*;
use crate::keys;
#[allow(unused_imports)]
use crate::keys::{place_alike, place_like, squeezed};
use crate::list;
use crate::map::TextMap;
#[allow(unused_imports)]
use crate::map::{found, inserted};
use crate::priority_manifest;
#[allow(unused_imports)]
use crate::priority_manifest::{entry_of, rows_of};
use crate::profile;
#[allow(unused_imports)]
use crate::profile::data_path;
use crate::sort;
#[allow(unused_imports)]
use crate::sort::sorted;
use crate::text;
#[allow(unused_imports)]
use crate::text::{after_prefix, ascii_lowered, before_suffix, contains_text, decimal, ended, lines_of, split_first, trimmed};

#[allow(unused_imports)]
use crate::map::{distinct_keys, insert_then_get, lemma_key_from};
#[allow(unused_imports)]
use crate::readback::{gathered, lemma_found_permuted, lemma_gathered, lemma_keys_permuted, lemma_no_split, lemma_split_at, lemma_squeezed_once, lemma_trim_tight, lemma_trimmed_is_tight, tight};
#[allow(unused_imports)]
use crate::text::{is_alnum, is_line};

verus! {

/// A section that is no home.
pub open spec fn is_operational(section: Seq<char>) -> bool {
    contains_text(ascii_lowered(section), "end of list"@) || contains_text(
        ascii_lowered(section),
        "output"@,
    )
}

pub fn operational(section: &str) -> (r: bool)
    ensures
        r == is_operational(section@),
{
    let s = text::ascii_lower(section);
    text::contains(s.as_str(), "end of list") || text::contains(s.as_str(), "output")
}

/// Where a mod stands: its section, and its place from the bottom of the file.
pub struct Placement {
    pub section: String,
    pub priority: usize,
}

#[verifier::ext_equal]
pub struct PlacementView {
    pub section: Seq<char>,
    pub priority: usize,
}

impl DeepView for Placement {
    type V = PlacementView;

    open spec fn deep_view(&self) -> PlacementView {
        PlacementView { section: self.section@, priority: self.priority }
    }
}

pub type Placements = Seq<(Seq<char>, PlacementView)>;

pub type Homes = Seq<(Seq<char>, Seq<char>)>;

pub struct Walk {
    pub pending: Seq<(Seq<char>, usize)>,
    pub placed: Placements,
}

/// The first `n` waiting mods go to a section.
pub open spec fn settled(
    placed: Placements,
    pending: Seq<(Seq<char>, usize)>,
    section: Seq<char>,
    n: int,
) -> Placements
    decreases n,
{
    if n <= 0 {
        placed
    } else {
        inserted(
            settled(placed, pending, section, n - 1),
            squeezed(pending[n - 1].0),
            PlacementView { section, priority: pending[n - 1].1 },
        )
    }
}

pub open spec fn walked(w: Walk, row: Seq<char>, priority: usize) -> Walk {
    let bare = entry_of(row);
    match before_suffix(bare, "_separator"@) {
        Some(l) => Walk {
            pending: Seq::empty(),
            placed: if is_operational(trimmed(l)) {
                w.placed
            } else {
                settled(w.placed, w.pending, trimmed(l), w.pending.len() as int)
            },
        },
        None => if bare.len() > 0 {
            Walk { pending: w.pending.push((bare, priority)), ..w }
        } else {
            w
        },
    }
}

pub open spec fn walked_first(rows: Seq<Seq<char>>, n: int) -> Walk
    decreases n,
{
    if n <= 0 {
        Walk { pending: Seq::empty(), placed: Seq::empty() }
    } else {
        walked(walked_first(rows, n - 1), rows[n - 1], (rows.len() - (n - 1)) as usize)
    }
}

/// Where the mods of a list stand.
pub open spec fn placements_of(s: Seq<char>) -> Placements {
    walked_first(rows_of(s), rows_of(s).len() as int).placed
}

pub fn placements(s: &str) -> (r: TextMap<Placement>)
    ensures
        r.deep_view() == placements_of(s@),
{
    let rows = priority_manifest::list_rows(s);
    let ghost rv = rows.deep_view();
    assert(rv.len() == rows.len());
    let mut pending: Vec<(String, usize)> = list::none();
    let mut out: TextMap<Placement> = TextMap::new();
    let mut i: usize = 0;
    while i < rows.len()
        invariant
            i <= rows.len(),
            rv == rows.deep_view(),
            rv.len() == rows.len(),
            walked_first(rv, i as int) == (Walk {
                pending: pending.deep_view(),
                placed: out.deep_view(),
            }),
        decreases rows.len() - i,
    {
        assert(rv[i as int] == rows@[i as int]@);
        let bare = priority_manifest::entry_name(rows[i].as_str());
        let chars = text::chars_of(bare.as_str());
        let priority: usize = rows.len() - i;
        match text::strip_suffix(bare.as_str(), "_separator") {
            Some(l) => {
                let section = text::trim(l.as_str());
                if !operational(section.as_str()) {
                    let ghost before = out.deep_view();
                    let ghost pv = pending.deep_view();
                    assert(pv.len() == pending.len());
                    let mut k: usize = 0;
                    while k < pending.len()
                        invariant
                            k <= pending.len(),
                            pv == pending.deep_view(),
                            out.deep_view() == settled(before, pv, section@, k as int),
                        decreases pending.len() - k,
                    {
                        assert(pv[k as int] == pending@[k as int].deep_view());
                        out.insert(
                            keys::squeeze(pending[k].0.as_str()),
                            Placement { section: section.clone(), priority: pending[k].1 },
                        );
                        k = k + 1;
                    }
                }
                pending = list::none();
            },
            None => {
                if chars.len() > 0 {
                    list::put(&mut pending, (bare, priority));
                }
            },
        }
        i = i + 1;
    }
    out
}

// ---- saved homes ----

/// The home that a saved row states.
pub open spec fn home_of(line: Seq<char>) -> Option<(Seq<char>, Seq<char>)> {
    match split_first(line, "\t"@) {
        Some((a, b)) => {
            let name = squeezed(trimmed(a));
            let section = trimmed(b);
            if name.len() > 0 && section.len() > 0 && !is_operational(section) {
                Some((name, section))
            } else {
                None
            }
        },
        None => None,
    }
}

pub open spec fn homes_first(lines: Seq<Seq<char>>, n: int) -> Homes
    decreases n,
{
    if n <= 0 {
        Seq::empty()
    } else {
        let before = homes_first(lines, n - 1);
        match home_of(lines[n - 1]) {
            Some((name, section)) => inserted(before, name, section),
            None => before,
        }
    }
}

/// The homes that a text holds.
pub open spec fn homes_of(s: Option<Seq<char>>) -> Homes {
    match s {
        Some(t) => homes_first(lines_of(t), lines_of(t).len() as int),
        None => Seq::empty(),
    }
}

pub open spec fn home_rows(homes: Homes) -> Seq<Seq<char>> {
    Seq::new(homes.len(), |i: int| homes[i].0 + "\t"@ + homes[i].1)
}

/// The lines that keep homes, by name.
pub open spec fn homes_lines(homes: Homes) -> Seq<Seq<char>> {
    seq!["# Exact homes explicitly learned from this profile."@] + home_rows(
        sorted::<(String, String)>(homes),
    )
}

pub fn load_saved_homes(s: Option<&str>) -> (r: TextMap<String>)
    ensures
        r.deep_view() == homes_of(s.deep_view()),
{
    let mut out: TextMap<String> = TextMap::new();
    match s {
        None => {},
        Some(t) => {
            let lines = text::lines(t);
            let ghost lv = lines.deep_view();
            let mut i: usize = 0;
            while i < lines.len()
                invariant
                    i <= lines.len(),
                    lv == lines.deep_view(),
                    out.deep_view() == homes_first(lv, i as int),
                decreases lines.len() - i,
            {
                assert(lv[i as int] == lines@[i as int]@);
                if let Some((a, b)) = text::split_once(lines[i].as_str(), "\t") {
                    let a = text::trim(a.as_str());
                    let name = keys::squeeze(a.as_str());
                    let section = text::trim(b.as_str());
                    let left = text::chars_of(name.as_str());
                    let right = text::chars_of(section.as_str());
                    if left.len() > 0 && right.len() > 0 && !operational(section.as_str()) {
                        out.insert(name, section);
                    }
                }
                i = i + 1;
            }
            assert(lv.len() == lines.len());
        },
    }
    out
}

pub fn save_homes(homes: &TextMap<String>) -> (r: String)
    ensures
        r@ == ended(homes_lines(homes.deep_view())),
{
    let ghost all = homes.deep_view();
    let mut rows: Vec<(String, String)> = list::none();
    let mut i: usize = 0;
    assert(all.take(0) =~= Seq::<(Seq<char>, Seq<char>)>::empty());
    while i < homes.len()
        invariant
            i <= all.len(),
            all == homes.deep_view(),
            rows.deep_view() == all.take(i as int),
        decreases all.len() - i,
    {
        let e = homes.at(i);
        list::put(&mut rows, (e.0.clone(), e.1.clone()));
        i = i + 1;
        assert(rows.deep_view() =~= all.take(i as int));
    }
    assert(all.take(i as int) =~= all);
    let rows = sort::sort(rows);
    let ghost rv = rows.deep_view();
    let ghost texts = home_rows(rv);
    assert(rv.len() == rows.len());
    let mut out: Vec<String> = list::none();
    list::put(&mut out, "# Exact homes explicitly learned from this profile.".to_string());
    let ghost head = out.deep_view();
    let mut i: usize = 0;
    assert(head + texts.take(0) =~= head);
    while i < rows.len()
        invariant
            i <= rows.len(),
            rv == rows.deep_view(),
            texts == home_rows(rv),
            out.deep_view() == head + texts.take(i as int),
        decreases rows.len() - i,
    {
        assert(rv[i as int] == rows@[i as int].deep_view());
        list::put(&mut out, text::cat3(rows[i].0.as_str(), "\t", rows[i].1.as_str()));
        i = i + 1;
        assert(out.deep_view() =~= head + texts.take(i as int));
    }
    assert(texts.take(i as int) =~= texts);
    assert(out.deep_view() =~= homes_lines(all));
    text::end_lines(&out)
}

// ---- learning ----

/// What was learned, and how often.
pub struct Lessons {
    pub homes: Homes,
    pub count: nat,
}

/// A mod gets a home, if it has no such one.
pub open spec fn taught(l: Lessons, name: Seq<char>, section: Seq<char>) -> Lessons {
    if found(l.homes, name) == Some(section) {
        l
    } else {
        Lessons { homes: inserted(l.homes, name, section), count: l.count + 1 }
    }
}

pub open spec fn taught_first(l: Lessons, section: Seq<char>, mods: Seq<Seq<char>>, n: int) -> Lessons
    decreases n,
{
    if n <= 0 {
        l
    } else {
        let before = taught_first(l, section, mods, n - 1);
        let name = squeezed(mods[n - 1]);
        if name.len() > 0 {
            taught(before, name, section)
        } else {
            before
        }
    }
}

fn teach(homes: &mut TextMap<String>, name: String, section: &str) -> (changed: bool)
    ensures
        forall|count: nat|
            #[trigger] taught(Lessons { homes: old(homes).deep_view(), count }, name@, section@) == (
            Lessons {
                homes: final(homes).deep_view(),
                count: if changed {
                    count + 1
                } else {
                    count
                },
            }),
{
    let known = match homes.get(name.as_str()) {
        Some(old) => text::same(old.as_str(), section),
        None => false,
    };
    if known {
        false
    } else {
        homes.insert(name, section.to_string());
        true
    }
}

fn teach_section(homes: &mut TextMap<String>, section: &str, mods: &Vec<String>) -> (n: usize)
    ensures
        taught_first(
            Lessons { homes: old(homes).deep_view(), count: 0 },
            section@,
            mods.deep_view(),
            mods.len() as int,
        ) == (Lessons { homes: final(homes).deep_view(), count: n as nat }),
        n <= mods.len(),
{
    let ghost start = Lessons { homes: homes.deep_view(), count: 0 };
    let ghost mv = mods.deep_view();
    let mut n: usize = 0;
    let mut i: usize = 0;
    while i < mods.len()
        invariant
            i <= mods.len(),
            n <= i,
            mv == mods.deep_view(),
            taught_first(start, section@, mv, i as int) == (Lessons {
                homes: homes.deep_view(),
                count: n as nat,
            }),
        decreases mods.len() - i,
    {
        assert(mv[i as int] == mods@[i as int]@);
        let name = keys::squeeze(mods[i].as_str());
        let chars = text::chars_of(name.as_str());
        if chars.len() > 0 {
            let ghost before = Lessons { homes: homes.deep_view(), count: n as nat };
            let ghost key = name@;
            if teach(homes, name, section) {
                n = n + 1;
            }
            assert(taught(before, key, section@) == (Lessons {
                homes: homes.deep_view(),
                count: n as nat,
            }));
        }
        i = i + 1;
    }
    n
}

/// What one section teaches.
pub open spec fn section_lessons(homes: Homes, section: Seq<char>, mods: Seq<Seq<char>>) -> Lessons {
    taught_first(Lessons { homes, count: 0 }, section, mods, mods.len() as int)
}

/// Makes a section the home of its mods. The text of the homes is to be saved, unless the
/// section is no home.
pub fn learn_section(saved: Option<&str>, section: &str, mods: &Vec<String>) -> (r: (
    usize,
    Option<String>,
))
    ensures
        if is_operational(section@) {
            r.0 == 0 && r.1 is None
        } else {
            let l = section_lessons(homes_of(saved.deep_view()), section@, mods.deep_view());
            r.0 == l.count && r.1.deep_view() == Some(ended(homes_lines(l.homes)))
        },
{
    if operational(section) {
        return (0, None);
    }
    let mut homes = load_saved_homes(saved);
    assert(mods.deep_view().len() == mods.len());
    let n = teach_section(&mut homes, section, mods);
    (n, Some(save_homes(&homes)))
}

/// What the first `n` sections teach. Outputs, the end of the list and the game folder
/// teach nothing.
pub open spec fn lessons_first(
    homes: Homes,
    sections: Seq<(Seq<char>, Seq<Seq<char>>)>,
    n: int,
) -> Lessons
    decreases n,
{
    if n <= 0 {
        Lessons { homes, count: 0 }
    } else {
        let before = lessons_first(homes, sections, n - 1);
        let (section, mods) = sections[n - 1];
        if is_operational(section) || ascii_lowered(section) == ascii_lowered("Game Folder"@) {
            before
        } else {
            let l = section_lessons(before.homes, section, mods);
            Lessons { homes: l.homes, count: before.count + l.count }
        }
    }
}

/// Makes every section the home of its mods.
pub fn learn_all(saved: Option<&str>, sections: &Vec<(String, Vec<String>)>) -> (r: (u128, String))
    ensures
        ({
            let l = lessons_first(
                homes_of(saved.deep_view()),
                sections.deep_view(),
                sections.len() as int,
            );
            r.0 == l.count && r.1@ == ended(homes_lines(l.homes))
        }),
{
    let mut homes = load_saved_homes(saved);
    let ghost start = homes.deep_view();
    let ghost sv = sections.deep_view();
    let mut n: u128 = 0;
    let mut i: usize = 0;
    while i < sections.len()
        invariant
            i <= sections.len(),
            sv == sections.deep_view(),
            n <= i * 0x1_0000_0000_0000_0000,
            lessons_first(start, sv, i as int) == (Lessons {
                homes: homes.deep_view(),
                count: n as nat,
            }),
        decreases sections.len() - i,
    {
        let s = &sections[i];
        assert(sv[i as int] == s.deep_view());
        if !operational(s.0.as_str()) && !text::same_ignoring_case(s.0.as_str(), "Game Folder") {
            assert(s.1.deep_view().len() == s.1.len());
            let more = teach_section(&mut homes, s.0.as_str(), &s.1);
            n = n + more as u128;
        }
        i = i + 1;
    }
    (n, save_homes(&homes))
}

/// The first `n` homes without that of a mod.
pub open spec fn forgotten_first(homes: Homes, name: Seq<char>, n: int) -> Homes
    decreases n,
{
    if n <= 0 {
        Seq::empty()
    } else {
        let before = forgotten_first(homes, name, n - 1);
        if homes[n - 1].0 == name {
            before
        } else {
            inserted(before, homes[n - 1].0, homes[n - 1].1)
        }
    }
}

/// The text of the homes without that of a mod, if it has one.
pub fn forget_home(saved: Option<&str>, mod_name: &str) -> (r: Option<String>)
    ensures
        ({
            let homes = homes_of(saved.deep_view());
            r.deep_view() == (if found(homes, squeezed(mod_name@)) is None {
                None
            } else {
                Some(
                    ended(
                        homes_lines(
                            forgotten_first(homes, squeezed(mod_name@), homes.len() as int),
                        ),
                    ),
                )
            })
        }),
{
    let homes = load_saved_homes(saved);
    let name = keys::squeeze(mod_name);
    if !homes.contains_key(name.as_str()) {
        return None;
    }
    let ghost all = homes.deep_view();
    let mut kept: TextMap<String> = TextMap::new();
    let mut i: usize = 0;
    while i < homes.len()
        invariant
            i <= all.len(),
            all == homes.deep_view(),
            kept.deep_view() == forgotten_first(all, name@, i as int),
        decreases all.len() - i,
    {
        let e = homes.at(i);
        if !(e.0 == name) {
            kept.insert(e.0.clone(), e.1.clone());
        }
        i = i + 1;
    }
    Some(save_homes(&kept))
}

pub struct LearningIndex {
    pub homes: TextMap<String>,
    /// Moves to another section since the last sort.
    pub observed_corrections: usize,
    /// Moves inside a section since then.
    pub observed_priority_adjustments: usize,
    /// All homes that are known.
    pub corrections: usize,
}

/// What a comparison of two layouts shows.
pub struct Observed {
    pub homes: Homes,
    pub corrections: nat,
    pub adjustments: nat,
}

pub open spec fn observed_first(
    homes: Homes,
    previous: Placements,
    current: Placements,
    n: int,
) -> Observed
    decreases n,
{
    if n <= 0 {
        Observed { homes, corrections: 0, adjustments: 0 }
    } else {
        let o = observed_first(homes, previous, current, n - 1);
        let (name, place) = current[n - 1];
        match found(previous, name) {
            Some(old_place) => if old_place.section != place.section {
                let l = taught(Lessons { homes: o.homes, count: o.corrections }, name, place.section);
                Observed { homes: l.homes, corrections: l.count, ..o }
            } else if old_place.priority != place.priority {
                Observed { adjustments: o.adjustments + 1, ..o }
            } else {
                o
            },
            None => o,
        }
    }
}

/// What the current layout shows against the one kept before.
pub open spec fn observed(homes: Homes, previous: Option<Seq<char>>, current: Seq<char>) -> Observed {
    match previous {
        Some(p) => observed_first(
            homes,
            placements_of(p),
            placements_of(current),
            placements_of(current).len() as int,
        ),
        None => Observed { homes, corrections: 0, adjustments: 0 },
    }
}

/// The live label for the home of a mod.
pub open spec fn home_label(homes: Homes, name: Seq<char>, sections: Seq<Seq<char>>) -> Option<
    Seq<char>,
> {
    match found(homes, squeezed(name)) {
        Some(home) => match place_alike(sections, home, 0) {
            Some(i) => Some(sections[i]),
            None => None,
        },
        None => None,
    }
}

/// The name and the section of a pin.
pub open spec fn pin_of(line: Seq<char>) -> Option<(Seq<char>, Seq<char>)> {
    let body = match after_prefix(line, "!"@) {
        Some(b) => Some(b),
        None => match after_prefix(line, "<"@) {
            Some(b) => Some(b),
            None => after_prefix(line, "^"@),
        },
    };
    match body {
        Some(b) => match split_first(b, "="@) {
            Some((n, t)) => if trimmed(n).len() == 0 || trimmed(t).len() == 0 || is_operational(
                trimmed(t),
            ) {
                None
            } else {
                Some((trimmed(n), trimmed(t)))
            },
            None => None,
        },
        None => None,
    }
}

/// What the pins in the first `n` lines teach.
pub open spec fn pinned_first(
    l: Lessons,
    lines: Seq<Seq<char>>,
    sections: Seq<Seq<char>>,
    n: int,
) -> Lessons
    decreases n,
{
    if n <= 0 {
        l
    } else {
        let before = pinned_first(l, lines, sections, n - 1);
        match pin_of(trimmed(lines[n - 1])) {
            Some((name, target)) => match place_like(sections, target, 0) {
                Some(i) => taught(before, squeezed(name), sections[i]),
                None => before,
            },
            None => before,
        }
    }
}

/// What the pins in the first `n` texts teach.
pub open spec fn pins_first(l: Lessons, texts: Seq<Seq<char>>, sections: Seq<Seq<char>>, n: int) -> Lessons
    decreases n,
{
    if n <= 0 {
        l
    } else {
        let lines = lines_of(texts[n - 1]);
        pinned_first(pins_first(l, texts, sections, n - 1), lines, sections, lines.len() as int)
    }
}

fn read_pin(line: &str) -> (r: Option<(String, String)>)
    ensures
        r.deep_view() == pin_of(line@),
{
    let body = match text::strip_prefix(line, "!") {
        Some(b) => b,
        None => match text::strip_prefix(line, "<") {
            Some(b) => b,
            None => match text::strip_prefix(line, "^") {
                Some(b) => b,
                None => {
                    return None;
                },
            },
        },
    };
    match text::split_once(body.as_str(), "=") {
        Some((n, t)) => {
            let n = text::trim(n.as_str());
            let t = text::trim(t.as_str());
            let left = text::chars_of(n.as_str());
            let right = text::chars_of(t.as_str());
            if left.len() == 0 || right.len() == 0 || operational(t.as_str()) {
                None
            } else {
                Some((n, t))
            }
        },
        None => None,
    }
}

impl LearningIndex {
    /// What is known of a profile: the saved homes, and the moves since the layout that
    /// was kept before.
    pub fn observe(saved: Option<&str>, previous: Option<&str>, current: &str) -> (r: LearningIndex)
        ensures
            ({
                let o = observed(
                    homes_of(saved.deep_view()),
                    previous.deep_view(),
                    current@,
                );
                &&& r.homes.deep_view() == o.homes
                &&& r.observed_corrections == o.corrections
                &&& r.observed_priority_adjustments == o.adjustments
                &&& r.corrections == o.homes.len()
            }),
    {
        let mut homes = load_saved_homes(saved);
        let ghost start = homes.deep_view();
        let mut corrections: usize = 0;
        let mut adjustments: usize = 0;
        match previous {
            None => {},
            Some(p) => {
                let before = placements(p);
                let now = placements(current);
                let ghost bv = before.deep_view();
                let ghost nv = now.deep_view();
                let count: usize = now.len();
                let mut i: usize = 0;
                while i < count
                    invariant
                        i <= count == nv.len(),
                        bv == before.deep_view(),
                        nv == now.deep_view(),
                        corrections <= i,
                        adjustments <= i,
                        observed_first(start, bv, nv, i as int) == (Observed {
                            homes: homes.deep_view(),
                            corrections: corrections as nat,
                            adjustments: adjustments as nat,
                        }),
                    decreases count - i,
                {
                    let e = now.at(i);
                    if let Some(place) = before.get(e.0.as_str()) {
                        if !(place.section == e.1.section) {
                            let ghost l = Lessons {
                                homes: homes.deep_view(),
                                count: corrections as nat,
                            };
                            if teach(&mut homes, e.0.clone(), e.1.section.as_str()) {
                                corrections = corrections + 1;
                            }
                            assert(taught(l, nv[i as int].0, nv[i as int].1.section) == (Lessons {
                                homes: homes.deep_view(),
                                count: corrections as nat,
                            }));
                        } else if place.priority != e.1.priority {
                            adjustments = adjustments + 1;
                        }
                    }
                    i = i + 1;
                }
            },
        }
        let n = homes.len();
        LearningIndex {
            homes,
            observed_corrections: corrections,
            observed_priority_adjustments: adjustments,
            corrections: n,
        }
    }

    /// The section that a mod was taught to live in.
    pub fn destination(&self, mod_name: &str, sections: &[String]) -> (r: Option<String>)
        ensures
            r.deep_view() == home_label(self.homes.deep_view(), mod_name@, sections.deep_view()),
    {
        let k = keys::squeeze(mod_name);
        match self.homes.get(k.as_str()) {
            Some(home) => match keys::find_alike(sections, home.as_str()) {
                Some(i) => {
                    assert(sections.deep_view()[i as int] == sections@[i as int]@);
                    Some(sections[i].clone())
                },
                None => None,
            },
            None => None,
        }
    }

    /// Makes homes of the pins in a profile's rules, and gives the text that is to be
    /// saved where that taught anything.
    pub fn learn_profile_pins(&mut self, texts: &Vec<String>, sections: &[String]) -> (r: (
        u128,
        Option<String>,
    ))
        ensures
            ({
                let l = pins_first(
                    Lessons { homes: old(self).homes.deep_view(), count: 0 },
                    texts.deep_view(),
                    sections.deep_view(),
                    texts.len() as int,
                );
                &&& r.0 == l.count
                &&& final(self).homes.deep_view() == l.homes
                &&& r.1.deep_view() == (if l.count > 0 {
                    Some(ended(homes_lines(l.homes)))
                } else {
                    None
                })
                &&& final(self).corrections == (if l.count > 0 {
                    l.homes.len()
                } else {
                    old(self).corrections as nat
                })
                &&& final(self).observed_corrections == old(self).observed_corrections
                &&& final(self).observed_priority_adjustments == old(
                    self,
                ).observed_priority_adjustments
            }),
    {
        let mut homes: TextMap<String> = TextMap::new();
        std::mem::swap(&mut homes, &mut self.homes);
        let ghost start = Lessons { homes: homes.deep_view(), count: 0 };
        let ghost tv = texts.deep_view();
        let ghost sv = sections.deep_view();
        let mut n: u128 = 0;
        let mut i: usize = 0;
        while i < texts.len()
            invariant
                i <= texts.len(),
                tv == texts.deep_view(),
                sv == sections.deep_view(),
                n <= i * 0x1_0000_0000_0000_0000,
                pins_first(start, tv, sv, i as int) == (Lessons {
                    homes: homes.deep_view(),
                    count: n as nat,
                }),
            decreases texts.len() - i,
        {
            assert(tv[i as int] == texts@[i as int]@);
            let lines = text::lines(texts[i].as_str());
            let ghost lv = lines.deep_view();
            let ghost here = Lessons { homes: homes.deep_view(), count: n as nat };
            assert(lv.len() == lines.len());
            let ghost most = n;
            let mut k: usize = 0;
            while k < lines.len()
                invariant
                    k <= lines.len(),
                    lv == lines.deep_view(),
                    sv == sections.deep_view(),
                    n <= most + k,
                    most <= i * 0x1_0000_0000_0000_0000,
                    i < texts.len(),
                    pinned_first(here, lv, sv, k as int) == (Lessons {
                        homes: homes.deep_view(),
                        count: n as nat,
                    }),
                decreases lines.len() - k,
            {
                assert(lv[k as int] == lines@[k as int]@);
                let line = text::trim(lines[k].as_str());
                if let Some((name, target)) = read_pin(line.as_str()) {
                    if let Some(j) = keys::find_like(sections, target.as_str()) {
                        assert(sv[j as int] == sections@[j as int]@);
                        let ghost l = Lessons { homes: homes.deep_view(), count: n as nat };
                        let key = keys::squeeze(name.as_str());
                        let ghost kv = key@;
                        if teach(&mut homes, key, sections[j].as_str()) {
                            n = n + 1;
                        }
                        assert(taught(l, kv, sv[j as int]) == (Lessons {
                            homes: homes.deep_view(),
                            count: n as nat,
                        }));
                    }
                }
                k = k + 1;
            }
            i = i + 1;
        }
        assert(tv.len() == texts.len());
        let saved = if n > 0 {
            self.corrections = homes.len();
            Some(save_homes(&homes))
        } else {
            None
        };
        self.homes = homes;
        (n, saved)
    }
}

/// Where the layout is kept that was written last.
pub fn baseline_path(folder: &str) -> (r: String)
    ensures
        r@ == data_path(folder@, "applied_baseline.ini"@),
{
    profile::profile_data_path(folder, "applied_baseline.ini")
}

/// Where the layout is kept that was sorted last.
pub fn observation_path(folder: &str) -> (r: String)
    ensures
        r@ == data_path(folder@, "sort_observation.ini"@),
{
    profile::profile_data_path(folder, "sort_observation.ini")
}

/// Where the homes are kept.
pub fn homes_path(folder: &str) -> (r: String)
    ensures
        r@ == data_path(folder@, "learned_homes.ini"@),
{
    profile::profile_data_path(folder, "learned_homes.ini")
}

// ---- laws ----

/// A home that a row can hold: the name is made of letters and digits, and the section
/// is one line that nothing is to be trimmed from.
pub open spec fn is_home(name: Seq<char>, section: Seq<char>) -> bool {
    squeezed(name) == name && name.len() > 0 && is_home_section(section)
}

pub open spec fn is_home_section(section: Seq<char>) -> bool {
    section.len() > 0 && tight(section) && !section.contains('\n') && !is_operational(section)
}

pub open spec fn homes_valid(homes: Homes) -> bool {
    distinct_keys(homes) && forall|i: int|
        0 <= i < homes.len() ==> is_home((#[trigger] homes[i]).0, homes[i].1)
}

proof fn lemma_home_row(name: Seq<char>, section: Seq<char>)
    requires
        is_home(name, section),
    ensures
        home_of(name + "\t"@ + section) == Some((name, section)),
        is_line(name + "\t"@ + section),
{
    reveal_strlit("\t");
    assert("\t"@ =~= seq!['\t']);
    lemma_squeezed_once(name);
    assert forall|i: int| 0 <= i < name.len() implies name[i] != '\t' && name[i] != '\n' by {
        assert(is_alnum(squeezed(name)[i]));
    }
    lemma_split_at(name, '\t', section);
    lemma_trim_tight(name);
    lemma_trim_tight(section);
    let row = name + "\t"@ + section;
    assert forall|i: int| 0 <= i < row.len() implies row[i] != '\n' by {
        if i < name.len() {
            assert(row[i] == name[i]);
        } else if i > name.len() {
            assert(row[i] == section[i - name.len() - 1]);
        }
    }
    assert(row.last() == section.last());
}

proof fn lemma_home_rows(homes: Homes, lines: Seq<Seq<char>>, n: int)
    requires
        0 <= n <= homes.len(),
        homes_valid(homes),
        lines.len() == homes.len() + 1,
        home_of(lines[0]) is None,
        forall|i: int| 0 <= i < homes.len() ==> lines[i + 1] == (#[trigger] home_rows(homes)[i]),
    ensures
        homes_first(lines, n + 1) == gathered(homes, n),
    decreases n,
{
    if n > 0 {
        lemma_home_rows(homes, lines, n - 1);
        assert(lines[n] == home_rows(homes)[n - 1]);
        assert(is_home(homes[n - 1].0, homes[n - 1].1));
        lemma_home_row(homes[n - 1].0, homes[n - 1].1);
    } else {
        assert(homes_first(lines, 0) =~= Seq::empty());
        assert(homes_first(lines, 1) == homes_first(lines, 0));
    }
}

/// Homes that are saved are loaded, each with its section, and no other.
pub proof fn saved_homes_are_loaded(homes: Homes, k: Seq<char>)
    requires
        homes_valid(homes),
    ensures
        found(homes_of(Some(ended(homes_lines(homes)))), k) == found(homes, k),
{
    let rows = sorted::<(String, String)>(homes);
    crate::sort::sorting_orders_and_keeps::<(String, String)>(homes);
    lemma_keys_permuted(homes, rows);
    assert forall|i: int| 0 <= i < rows.len() implies is_home(
        (#[trigger] rows[i]).0,
        rows[i].1,
    ) by {
        broadcast use vstd::seq_lib::group_to_multiset_ensures;

        assert(rows.contains(rows[i]));
        assert(homes.to_multiset().count(rows[i]) > 0);
        assert(homes.contains(rows[i]));
        let j = choose|j: int| 0 <= j < homes.len() && homes[j] == rows[i];
        assert(is_home(homes[j].0, homes[j].1));
    }
    let lines = homes_lines(homes);
    let head = "# Exact homes explicitly learned from this profile."@;
    assert(is_line(head) && home_of(head) is None) by {
        reveal_strlit("# Exact homes explicitly learned from this profile.");
        reveal_strlit("\t");
        assert("\t"@ =~= seq!['\t']);
        lemma_no_split(head, '\t');
    }
    assert(lines[0] == head);
    assert forall|i: int| 0 <= i < lines.len() implies is_line(#[trigger] lines[i]) by {
        if i > 0 {
            assert(lines[i] == home_rows(rows)[i - 1]);
            assert(is_home(rows[i - 1].0, rows[i - 1].1));
            lemma_home_row(rows[i - 1].0, rows[i - 1].1);
        }
    }
    text::lemma_lines_read_back(lines);
    assert forall|i: int| 0 <= i < rows.len() implies lines[i + 1] == (#[trigger] home_rows(
        rows,
    )[i]) by {}
    lemma_home_rows(rows, lines, rows.len() as int);
    lemma_gathered(rows, rows.len() as int);
    assert(rows.take(rows.len() as int) =~= rows);
    lemma_found_permuted(homes, rows, k);
}

proof fn lemma_inserted_valid(homes: Homes, name: Seq<char>, section: Seq<char>)
    requires
        homes_valid(homes),
        is_home(name, section),
    ensures
        homes_valid(inserted(homes, name, section)),
{
    insert_then_get(homes, name, section, name);
    lemma_key_from(homes, name, 0);
    let t = inserted(homes, name, section);
    assert forall|i: int| 0 <= i < t.len() implies is_home((#[trigger] t[i]).0, t[i].1) by {
        if i < homes.len() && t[i] == homes[i] {
            assert(is_home(homes[i].0, homes[i].1));
        }
    }
}

proof fn lemma_homes_first(lines: Seq<Seq<char>>, n: int)
    requires
        0 <= n <= lines.len(),
        forall|i: int| 0 <= i < lines.len() ==> !(#[trigger] lines[i]).contains('\n'),
    ensures
        homes_valid(homes_first(lines, n)),
    decreases n,
{
    if n > 0 {
        lemma_homes_first(lines, n - 1);
        let line = lines[n - 1];
        if home_of(line) is Some {
            let (a, b) = split_first(line, "\t"@)->0;
            let (name, section) = home_of(line)->0;
            lemma_squeezed_once(trimmed(a));
            lemma_trimmed_is_tight(b);
            text::lemma_past_white(b, 0);
            let t = text::trimmed_start(b);
            text::lemma_before_white(t, t.len() as int);
            text::lemma_find(line, "\t"@, 0);
            reveal_strlit("\t");
            assert forall|i: int| 0 <= i < section.len() implies section[i] != '\n' by {
                let at = i + text::past_white(b, 0);
                assert(section[i] == b[at]);
                let k = text::find_from(line, "\t"@, 0)->0;
                assert(b[at] == line[at + k + 1]);
                assert(line.contains(line[at + k + 1]));
            }
            lemma_inserted_valid(homes_first(lines, n - 1), name, section);
        }
    }
}

/// Whatever text they come from, homes can be saved again.
pub proof fn loaded_homes_are_valid(s: Option<Seq<char>>)
    ensures
        homes_valid(homes_of(s)),
{
    match s {
        Some(t) => {
            text::lemma_lines_have_no_feed(t, 0);
            lemma_homes_first(lines_of(t), lines_of(t).len() as int);
        },
        None => {},
    }
}

/// The key is that of one of the first `n` mods.
pub open spec fn keyed_in(mods: Seq<Seq<char>>, n: int, k: Seq<char>) -> bool {
    k.len() > 0 && exists|i: int| 0 <= i < n && squeezed(#[trigger] mods[i]) == k
}

/// The keys of the first `n` mods whose home is another section, or none.
pub open spec fn homeless_in(
    homes: Homes,
    section: Seq<char>,
    mods: Seq<Seq<char>>,
    n: int,
) -> Set<Seq<char>> {
    Set::new(|k: Seq<char>| keyed_in(mods, n, k) && found(homes, k) != Some(section))
}

proof fn lemma_keyed_in(mods: Seq<Seq<char>>, n: int, k: Seq<char>)
    requires
        0 < n <= mods.len(),
    ensures
        keyed_in(mods, n, k) == (keyed_in(mods, n - 1, k) || (k.len() > 0 && squeezed(
            mods[n - 1],
        ) == k)),
{
    if k.len() > 0 && squeezed(mods[n - 1]) == k {
        assert(keyed_in(mods, n, k));
    }
    if keyed_in(mods, n - 1, k) {
        let i = choose|i: int| 0 <= i < n - 1 && squeezed(#[trigger] mods[i]) == k;
        assert(0 <= i < n && squeezed(mods[i]) == k);
    }
}

proof fn lemma_taught(homes: Homes, section: Seq<char>, mods: Seq<Seq<char>>, n: int)
    requires
        0 <= n <= mods.len(),
        homes_valid(homes),
        is_home_section(section),
    ensures
        ({
            let l = taught_first(Lessons { homes, count: 0 }, section, mods, n);
            &&& homes_valid(l.homes)
            &&& forall|k: Seq<char>| #[trigger]
                found(l.homes, k) == (if keyed_in(mods, n, k) {
                    Some(section)
                } else {
                    found(homes, k)
                })
            &&& homeless_in(homes, section, mods, n).finite()
            &&& l.count == homeless_in(homes, section, mods, n).len()
        }),
    decreases n,
{
    let set = homeless_in(homes, section, mods, n);
    if n > 0 {
        lemma_taught(homes, section, mods, n - 1);
        let before = taught_first(Lessons { homes, count: 0 }, section, mods, n - 1);
        let l = taught_first(Lessons { homes, count: 0 }, section, mods, n);
        let prior = homeless_in(homes, section, mods, n - 1);
        let name = squeezed(mods[n - 1]);
        assert forall|k: Seq<char>| #[trigger] keyed_in(mods, n, k) == (keyed_in(mods, n - 1, k) || (
        k.len() > 0 && name == k)) by {
            lemma_keyed_in(mods, n, k);
        }
        if name.len() > 0 && found(before.homes, name) != Some(section) {
            lemma_squeezed_once(mods[n - 1]);
            lemma_inserted_valid(before.homes, name, section);
            assert forall|k: Seq<char>| #[trigger] found(l.homes, k) == (if keyed_in(mods, n, k) {
                Some(section)
            } else {
                found(homes, k)
            }) by {
                insert_then_get(before.homes, name, section, k);
                assert(found(before.homes, k) == (if keyed_in(mods, n - 1, k) {
                    Some(section)
                } else {
                    found(homes, k)
                }));
            }
            assert(set =~= prior.insert(name));
            assert(!prior.contains(name));
        } else {
            assert(name.len() > 0 ==> found(before.homes, name) == Some(section));
            assert(set =~= prior);
        }
    } else {
        assert(set =~= Set::empty());
    }
}

proof fn lemma_nothing_to_teach(homes: Homes, section: Seq<char>, mods: Seq<Seq<char>>, n: int)
    requires
        0 <= n <= mods.len(),
        forall|i: int|
            0 <= i < mods.len() && squeezed(#[trigger] mods[i]).len() > 0 ==> found(
                homes,
                squeezed(mods[i]),
            ) == Some(section),
    ensures
        taught_first(Lessons { homes, count: 0 }, section, mods, n) == (Lessons { homes, count: 0 }),
    decreases n,
{
    if n > 0 {
        lemma_nothing_to_teach(homes, section, mods, n - 1);
        assert(squeezed(mods[n - 1]).len() > 0 ==> found(homes, squeezed(mods[n - 1])) == Some(
            section,
        ));
    }
}

/// A section that is learned is the home of each of its mods from then on, and every
/// other home stays. What is counted are the keys whose home is a new one, each once, so
/// to learn the section again changes nothing.
pub proof fn learned_section_is_the_home_of_its_mods(
    saved: Option<Seq<char>>,
    section: Seq<char>,
    mods: Seq<Seq<char>>,
    k: Seq<char>,
)
    requires
        is_home_section(section),
    ensures
        ({
            let homes = homes_of(saved);
            let l = section_lessons(homes, section, mods);
            let after = homes_of(Some(ended(homes_lines(l.homes))));
            &&& found(after, k) == (if keyed_in(mods, mods.len() as int, k) {
                Some(section)
            } else {
                found(homes, k)
            })
            &&& homeless_in(homes, section, mods, mods.len() as int).finite()
            &&& l.count == homeless_in(homes, section, mods, mods.len() as int).len()
            &&& section_lessons(after, section, mods) == (Lessons { homes: after, count: 0 })
        }),
{
    let homes = homes_of(saved);
    let n = mods.len() as int;
    loaded_homes_are_valid(saved);
    lemma_taught(homes, section, mods, n);
    let l = section_lessons(homes, section, mods);
    let after = homes_of(Some(ended(homes_lines(l.homes))));
    saved_homes_are_loaded(l.homes, k);
    assert forall|i: int| 0 <= i < mods.len() && squeezed(#[trigger] mods[i]).len() > 0 implies found(
        after,
        squeezed(mods[i]),
    ) == Some(section) by {
        saved_homes_are_loaded(l.homes, squeezed(mods[i]));
        assert(keyed_in(mods, n, squeezed(mods[i])));
    }
    lemma_nothing_to_teach(after, section, mods, n);
}

proof fn lemma_forgotten(homes: Homes, name: Seq<char>, n: int, k: Seq<char>)
    requires
        0 <= n <= homes.len(),
        homes_valid(homes),
    ensures
        homes_valid(forgotten_first(homes, name, n)),
        found(forgotten_first(homes, name, n), k) == (if k == name {
            None
        } else {
            found(homes.take(n), k)
        }),
    decreases n,
{
    if n > 0 {
        lemma_forgotten(homes, name, n - 1, k);
        let before = forgotten_first(homes, name, n - 1);
        let (key, section) = homes[n - 1];
        assert(is_home(homes[n - 1].0, homes[n - 1].1));
        lemma_gathered(homes, n);
        lemma_gathered(homes, n - 1);
        assert(homes.take(n) == inserted(homes.take(n - 1), key, section));
        insert_then_get(homes.take(n - 1), key, section, k);
        if key != name {
            lemma_inserted_valid(before, key, section);
            insert_then_get(before, key, section, k);
        }
    } else {
        lemma_key_from(forgotten_first(homes, name, 0), k, 0);
        lemma_key_from(homes.take(0), k, 0);
    }
}

/// A home that is forgotten is gone, and every other home stays.
pub proof fn forgotten_home_is_gone(saved: Option<Seq<char>>, name: Seq<char>, k: Seq<char>)
    ensures
        ({
            let homes = homes_of(saved);
            let left = forgotten_first(homes, squeezed(name), homes.len() as int);
            found(homes_of(Some(ended(homes_lines(left)))), k) == (if k == squeezed(name) {
                None
            } else {
                found(homes, k)
            })
        }),
{
    loaded_homes_are_valid(saved);
    let homes = homes_of(saved);
    let left = forgotten_first(homes, squeezed(name), homes.len() as int);
    lemma_forgotten(homes, squeezed(name), homes.len() as int, k);
    assert(homes.take(homes.len() as int) =~= homes);
    saved_homes_are_loaded(left, k);
}

/// No pin in the first `n` lines names the mod.
pub open spec fn unpinned_in(lines: Seq<Seq<char>>, name: Seq<char>, n: int) -> bool {
    forall|i: int|
        0 <= i < n ==> (pin_of(trimmed(#[trigger] lines[i])) matches Some((pinned, _)) ==> squeezed(
            pinned,
        ) != name)
}

proof fn lemma_lessons_stay(
    l: Lessons,
    lines: Seq<Seq<char>>,
    sections: Seq<Seq<char>>,
    name: Seq<char>,
    n: int,
)
    requires
        n <= lines.len(),
    ensures
        found(l.homes, name) is Some ==> found(pinned_first(l, lines, sections, n).homes, name) is Some,
        unpinned_in(lines, name, n) ==> found(pinned_first(l, lines, sections, n).homes, name)
            == found(l.homes, name),
    decreases n,
{
    if n > 0 {
        lemma_lessons_stay(l, lines, sections, name, n - 1);
        let before = pinned_first(l, lines, sections, n - 1);
        if let Some((pinned, target)) = pin_of(trimmed(lines[n - 1])) {
            if let Some(i) = place_like(sections, target, 0) {
                insert_then_get(before.homes, squeezed(pinned), sections[i], name);
            }
        }
    }
}

proof fn lemma_texts_teach(
    l: Lessons,
    texts: Seq<Seq<char>>,
    sections: Seq<Seq<char>>,
    name: Seq<char>,
    n: int,
)
    requires
        n <= texts.len(),
    ensures
        found(l.homes, name) is Some ==> found(pins_first(l, texts, sections, n).homes, name) is Some,
        (forall|i: int|
            0 <= i < n ==> unpinned_in(
                #[trigger] lines_of(texts[i]),
                name,
                lines_of(texts[i]).len() as int,
            )) ==> found(pins_first(l, texts, sections, n).homes, name) == found(l.homes, name),
    decreases n,
{
    if n > 0 {
        lemma_texts_teach(l, texts, sections, name, n - 1);
        let lines = lines_of(texts[n - 1]);
        lemma_lessons_stay(
            pins_first(l, texts, sections, n - 1),
            lines,
            sections,
            name,
            lines.len() as int,
        );
    }
}

/// Pins only teach. A mod that has a home keeps one, and where no pin names it any more
/// it keeps the one it has: to remove a pin forgets nothing.
pub proof fn removed_pins_are_not_forgotten(
    homes: Homes,
    texts: Seq<Seq<char>>,
    sections: Seq<Seq<char>>,
    name: Seq<char>,
)
    ensures
        ({
            let after = pins_first(
                Lessons { homes, count: 0 },
                texts,
                sections,
                texts.len() as int,
            ).homes;
            &&& found(homes, name) is Some ==> found(after, name) is Some
            &&& (forall|i: int|
                0 <= i < texts.len() ==> unpinned_in(
                    #[trigger] lines_of(texts[i]),
                    name,
                    lines_of(texts[i]).len() as int,
                )) ==> found(after, name) == found(homes, name)
        }),
{
    lemma_texts_teach(Lessons { homes, count: 0 }, texts, sections, name, texts.len() as int);
}

// ---- what the trace says ----

pub open spec fn counted_line(n: nat, lead: Seq<char>, tail: Seq<char>) -> Seq<char> {
    if n == 0 {
        ""@
    } else {
        lead + decimal(n) + tail
    }
}

fn show_counted(n: u128, lead: &str, tail: &str) -> (r: String)
    ensures
        r@ == counted_line(n as nat, lead@, tail@),
{
    if n == 0 {
        "".to_string()
    } else {
        let d = text::dec(n);
        text::cat3(lead, d.as_str(), tail)
    }
}

/// How many pins of the profile became homes.
pub fn pins_note(pins: u128) -> (r: String)
    ensures
        r@ == counted_line(
            pins as nat,
            "manual-learning: learned "@,
            " explicit profile pin(s) as durable homes; removing the pin will not forget them\n"@,
        ),
{
    show_counted(
        pins,
        "manual-learning: learned ",
        " explicit profile pin(s) as durable homes; removing the pin will not forget them\n",
    )
}

impl LearningIndex {
    /// What was seen since the last sort, and what is known: one line for each count
    /// that is not zero.
    pub fn notes(&self) -> (r: String)
        ensures
            r@ == counted_line(
                self.observed_corrections as nat,
                "manual-learning: captured "@,
                " manual section correction(s) since the last Sort/Apply\n"@,
            ) + counted_line(
                self.observed_priority_adjustments as nat,
                "manual-learning: observed "@,
                " manual in-section priority adjustment(s); the refreshed priority backbone preserves them\n"@,
            ) + counted_line(
                self.corrections as nat,
                "manual-learning: "@,
                " saved profile home(s) active\n"@,
            ),
    {
        let a = show_counted(
            self.observed_corrections as u128,
            "manual-learning: captured ",
            " manual section correction(s) since the last Sort/Apply\n",
        );
        let b = show_counted(
            self.observed_priority_adjustments as u128,
            "manual-learning: observed ",
            " manual in-section priority adjustment(s); the refreshed priority backbone preserves them\n",
        );
        let c = show_counted(
            self.corrections as u128,
            "manual-learning: ",
            " saved profile home(s) active\n",
        );
        text::cat3(a.as_str(), b.as_str(), c.as_str())
    }
}

} // verus!
