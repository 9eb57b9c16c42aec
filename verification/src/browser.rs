//! What the window lists: the mods with their priorities, the cards beside them, and what
//! a search finds.
use vstd::prelude::*;
use crate::list;
use crate::map::TextMap;
#[allow(unused_imports)]
use crate::map::{found, inserted};
use crate::modlist::{ModEntry, Modlist, Section};
#[allow(unused_imports)]
use crate::modlist::{EntryView, ModlistView, SectionView};
use crate::plan::{Change, ChangeKind};
#[allow(unused_imports)]
use crate::plan::ChangeView;
use crate::sort;
#[allow(unused_imports)]
use crate::sort::{deduped, sorted, Ranked};
use crate::text;
#[allow(unused_imports)]
use crate::text::{after_prefix, ascii_lowered, before_suffix, begins, contains_text, decimal, joined, lines_of, number, replaced, set_trimmed_start, split_first, trimmed, trimmed_start};

verus! {

pub open spec fn tag_of(kind: ChangeKind) -> Seq<char> {
    match kind {
        ChangeKind::Move => "MOVE"@,
        ChangeKind::Reorder => "REOR"@,
        ChangeKind::Promote => "PROM"@,
        ChangeKind::Sink => "SINK"@,
        ChangeKind::Float => "FLOT"@,
        ChangeKind::Warn => "WARN"@,
        ChangeKind::Rename => "REN"@,
    }
}

/// The tag in front of a change.
pub fn kind_tag(kind: ChangeKind) -> (r: &'static str)
    ensures
        r@ == tag_of(kind),
{
    match kind {
        ChangeKind::Move => "MOVE",
        ChangeKind::Reorder => "REOR",
        ChangeKind::Promote => "PROM",
        ChangeKind::Sink => "SINK",
        ChangeKind::Float => "FLOT",
        ChangeKind::Warn => "WARN",
        ChangeKind::Rename => "REN",
    }
}

// ---- priorities ----

/// The rows of a modlist among the first `n` lines: what is not empty behind the header.
pub open spec fn rows_first(lines: Seq<Seq<char>>, n: int) -> Seq<Seq<char>>
    decreases n,
{
    if n <= 1 {
        Seq::empty()
    } else if trimmed(lines[n - 1]).len() == 0 {
        rows_first(lines, n - 1)
    } else {
        rows_first(lines, n - 1).push(trimmed(lines[n - 1]))
    }
}

/// The priorities and marks of mods, and the priorities of separators.
#[verifier::ext_equal]
pub struct Priorities {
    pub mods: Seq<(Seq<char>, usize)>,
    pub states: Seq<(Seq<char>, char)>,
    pub separators: Seq<(Seq<char>, usize)>,
}

pub open spec fn is_mark(c: char) -> bool {
    c == '+' || c == '-' || c == '*'
}

/// What the first `n` rows say; the first row has the highest priority.
pub open spec fn priorities_first(rows: Seq<Seq<char>>, n: int) -> Priorities
    decreases n,
{
    if n <= 0 {
        Priorities { mods: Seq::empty(), states: Seq::empty(), separators: Seq::empty() }
    } else {
        let before = priorities_first(rows, n - 1);
        let row = rows[n - 1];
        let priority = (rows.len() - (n - 1)) as usize;
        let bare = trimmed(set_trimmed_start(row, "+-*"@));
        match before_suffix(bare, "_separator"@) {
            Some(label) => Priorities {
                separators: inserted(before.separators, trimmed(label), priority),
                ..before
            },
            None => if bare.len() == 0 {
                before
            } else {
                Priorities {
                    mods: inserted(before.mods, bare, priority),
                    states: if is_mark(row[0]) {
                        inserted(before.states, bare, row[0])
                    } else {
                        before.states
                    },
                    ..before
                }
            },
        }
    }
}

pub open spec fn priorities_of(s: Seq<char>) -> Priorities {
    let rows = rows_first(lines_of(s), lines_of(s).len() as int);
    priorities_first(rows, rows.len() as int)
}

proof fn lemma_rows(lines: Seq<Seq<char>>, n: int)
    requires
        n <= lines.len(),
    ensures
        forall|i: int|
            0 <= i < rows_first(lines, n).len() ==> (#[trigger] rows_first(lines, n)[i]).len() > 0,
    decreases n,
{
    if n > 1 {
        lemma_rows(lines, n - 1);
        let before = rows_first(lines, n - 1);
        assert forall|i: int| 0 <= i < rows_first(lines, n).len() implies (#[trigger] rows_first(
            lines,
            n,
        )[i]).len() > 0 by {
            if i < before.len() {
                assert(before[i].len() > 0);
            }
        }
    }
}

/// The priority and the mark of each mod as the organizer shows them, and the priority of
/// each separator.
pub fn mo2_priority_view(s: &str) -> (r: (TextMap<usize>, TextMap<char>, TextMap<usize>))
    ensures
        r.0.deep_view() == priorities_of(s@).mods,
        r.1.deep_view() == priorities_of(s@).states,
        r.2.deep_view() == priorities_of(s@).separators,
{
    let lines = text::lines(s);
    let ghost lv = lines.deep_view();
    let mut rows: Vec<String> = list::none();
    let mut i: usize = 1;
    while i < lines.len()
        invariant
            1 <= i,
            i <= lines.len() || i == 1,
            lv == lines.deep_view(),
            rows.deep_view() == rows_first(lv, i as int),
        decreases lines.len() - i,
    {
        assert(lv[i as int] == lines@[i as int]@);
        let row = text::trim(lines[i].as_str());
        let chars = text::chars_of(row.as_str());
        if chars.len() > 0 {
            list::put(&mut rows, row);
        }
        i = i + 1;
    }
    assert(lv.len() == lines.len());
    let ghost rv = rows.deep_view();
    assert(rv == rows_first(lv, lv.len() as int));
    proof {
        lemma_rows(lv, lv.len() as int);
    }
    let mut mods: TextMap<usize> = TextMap::new();
    let mut states: TextMap<char> = TextMap::new();
    let mut separators: TextMap<usize> = TextMap::new();
    let total: usize = rows.len();
    let mut k: usize = 0;
    while k < rows.len()
        invariant
            k <= rows.len() == total == rv.len(),
            rv == rows.deep_view(),
            forall|j: int| 0 <= j < rv.len() ==> (#[trigger] rv[j]).len() > 0,
            mods.deep_view() == priorities_first(rv, k as int).mods,
            states.deep_view() == priorities_first(rv, k as int).states,
            separators.deep_view() == priorities_first(rv, k as int).separators,
        decreases rows.len() - k,
    {
        let row = rows[k].as_str();
        assert(rv[k as int] == row@);
        let priority: usize = total - k;
        let chars = text::chars_of(row);
        let mark = chars[0];
        let bare = text::trim_start_of(row, "+-*");
        let bare = text::trim(bare.as_str());
        match text::strip_suffix(bare.as_str(), "_separator") {
            Some(label) => {
                separators.insert(text::trim(label.as_str()), priority);
            },
            None => {
                let letters = text::chars_of(bare.as_str());
                if letters.len() > 0 {
                    if mark == '+' || mark == '-' || mark == '*' {
                        states.insert(bare.clone(), mark);
                    }
                    mods.insert(bare, priority);
                }
            },
        }
        k = k + 1;
    }
    (mods, states, separators)
}

/// A mod with its priority.
pub struct Weighted {
    pub priority: usize,
    pub entry: ModEntry,
}

impl DeepView for Weighted {
    type V = (usize, EntryView);

    open spec fn deep_view(&self) -> (usize, EntryView) {
        (self.priority, self.entry.deep_view())
    }
}

/// The highest priority comes first.
impl Ranked for Weighted {
    open spec fn precedes(a: (usize, EntryView), b: (usize, EntryView)) -> bool {
        a.0 >= b.0
    }

    proof fn total(a: (usize, EntryView), b: (usize, EntryView)) {
    }

    proof fn transitive(a: (usize, EntryView), b: (usize, EntryView), c: (usize, EntryView)) {
    }

    fn goes_before(&self, other: &Weighted) -> (r: bool) {
        self.priority >= other.priority
    }
}

pub open spec fn priority_of(ranks: Seq<(Seq<char>, usize)>, name: Seq<char>) -> usize {
    match found(ranks, ascii_lowered(name)) {
        Some(p) => p,
        None => 0,
    }
}

pub open spec fn weighed(mods: Seq<EntryView>, ranks: Seq<(Seq<char>, usize)>) -> Seq<
    (usize, EntryView),
> {
    Seq::new(mods.len(), |i: int| (priority_of(ranks, mods[i].name), mods[i]))
}

/// The mods from the highest priority down; those of one priority stay as they stood.
pub open spec fn by_priority(mods: Seq<EntryView>, ranks: Seq<(Seq<char>, usize)>) -> Seq<
    EntryView,
> {
    let s = sorted::<Weighted>(weighed(mods, ranks));
    Seq::new(s.len(), |i: int| s[i].1)
}

pub open spec fn by_priority_first(
    sections: Seq<SectionView>,
    ranks: Seq<(Seq<char>, usize)>,
    n: int,
) -> Seq<SectionView>
    decreases n,
{
    if n <= 0 {
        Seq::empty()
    } else {
        by_priority_first(sections, ranks, n - 1).push(
            SectionView { mods: by_priority(sections[n - 1].mods, ranks), ..sections[n - 1] },
        )
    }
}

fn put_by_priority(mods: Vec<ModEntry>, ranks: &TextMap<usize>) -> (r: Vec<ModEntry>)
    ensures
        r.deep_view() == by_priority(mods.deep_view(), ranks.deep_view()),
{
    let ghost mv = mods.deep_view();
    let ghost all = weighed(mv, ranks.deep_view());
    let mut v: Vec<Weighted> = list::none();
    let mut i: usize = 0;
    assert(all.take(0) =~= Seq::empty());
    while i < mods.len()
        invariant
            i <= mods.len() == mv.len(),
            mv == mods.deep_view(),
            all == weighed(mv, ranks.deep_view()),
            v.deep_view() == all.take(i as int),
        decreases mods.len() - i,
    {
        assert(mv[i as int] == mods@[i as int].deep_view());
        let key = text::ascii_lower(mods[i].name.as_str());
        let priority: usize = match ranks.get(key.as_str()) {
            Some(p) => *p,
            None => 0,
        };
        list::put(&mut v, Weighted { priority, entry: mods[i].clone() });
        i = i + 1;
        assert(v.deep_view() =~= all.take(i as int));
    }
    assert(all.take(i as int) =~= all);
    let v = sort::sort(v);
    let ghost s = v.deep_view();
    let ghost want = Seq::new(s.len(), |i: int| s[i].1);
    let mut out: Vec<ModEntry> = list::none();
    let mut k: usize = 0;
    assert(want.take(0) =~= Seq::<EntryView>::empty());
    while k < v.len()
        invariant
            k <= v.len() == s.len(),
            s == v.deep_view(),
            want == Seq::new(s.len(), |i: int| s[i].1),
            out.deep_view() == want.take(k as int),
        decreases v.len() - k,
    {
        assert(s[k as int] == v@[k as int].deep_view());
        list::put(&mut out, v[k].entry.clone());
        k = k + 1;
        assert(out.deep_view() =~= want.take(k as int));
    }
    assert(want.take(k as int) =~= want);
    out
}

/// Puts the mods of every section in the order of their priorities.
pub fn arrange_by_priority(ml: &mut Modlist, ranks: &TextMap<usize>)
    ensures
        final(ml).deep_view() == (ModlistView {
            sections: by_priority_first(
                old(ml).deep_view().sections,
                ranks.deep_view(),
                old(ml).deep_view().sections.len() as int,
            ),
            ..old(ml).deep_view()
        }),
{
    let ghost start = ml.deep_view();
    let ghost sv = ml.sections.deep_view();
    let mut rest: Vec<Section> = Vec::new();
    std::mem::swap(&mut rest, &mut ml.sections);
    let mut out: Vec<Section> = list::none();
    let mut i: usize = 0;
    while i < rest.len()
        invariant
            i <= rest.len(),
            sv == rest.deep_view(),
            out.deep_view() == by_priority_first(sv, ranks.deep_view(), i as int),
        decreases rest.len() - i,
    {
        let s = &rest[i];
        assert(sv[i as int] == s.deep_view());
        let mods = put_by_priority(crate::modlist::copy_mods(&s.mods), ranks);
        list::put(
            &mut out,
            Section { sep_line: s.sep_line.clone(), label: s.label.clone(), mods },
        );
        i = i + 1;
    }
    assert(sv.len() == rest.len());
    ml.sections = out;
    assert(ml.deep_view() =~= ModlistView {
        sections: by_priority_first(sv, ranks.deep_view(), sv.len() as int),
        ..start
    });
}

// ---- the layout ----

pub type Layout = Vec<(String, Vec<String>)>;

pub type LayoutView = Seq<(Seq<char>, Seq<Seq<char>>)>;

pub open spec fn names_in(mods: Seq<EntryView>) -> Seq<Seq<char>> {
    Seq::new(mods.len(), |i: int| mods[i].name)
}

pub open spec fn layout_of(sections: Seq<SectionView>) -> LayoutView {
    Seq::new(sections.len(), |i: int| (sections[i].label, names_in(sections[i].mods)))
}

fn collect_names(mods: &Vec<ModEntry>) -> (r: Vec<String>)
    ensures
        r.deep_view() == names_in(mods.deep_view()),
{
    let ghost mv = mods.deep_view();
    let ghost all = names_in(mv);
    let mut out: Vec<String> = list::none();
    let mut i: usize = 0;
    assert(all.take(0) =~= Seq::<Seq<char>>::empty());
    while i < mods.len()
        invariant
            i <= mods.len() == mv.len(),
            mv == mods.deep_view(),
            all == names_in(mv),
            out.deep_view() == all.take(i as int),
        decreases mods.len() - i,
    {
        assert(mv[i as int] == mods@[i as int].deep_view());
        list::put(&mut out, mods[i].name.clone());
        i = i + 1;
        assert(out.deep_view() =~= all.take(i as int));
    }
    assert(all.take(i as int) =~= all);
    out
}

/// The sections with the names of their mods.
pub fn layout(ml: &Modlist) -> (r: Layout)
    ensures
        r.deep_view() == layout_of(ml.deep_view().sections),
{
    let ghost sv = ml.sections.deep_view();
    let ghost all = layout_of(sv);
    let mut out: Layout = list::none();
    let mut i: usize = 0;
    assert(all.take(0) =~= Seq::empty());
    while i < ml.sections.len()
        invariant
            i <= ml.sections.len() == sv.len(),
            sv == ml.sections.deep_view(),
            all == layout_of(sv),
            out.deep_view() == all.take(i as int),
        decreases ml.sections.len() - i,
    {
        let s = &ml.sections[i];
        assert(sv[i as int] == s.deep_view());
        list::put(&mut out, (s.label.clone(), collect_names(&s.mods)));
        i = i + 1;
        assert(out.deep_view() =~= all.take(i as int));
    }
    assert(all.take(i as int) =~= all);
    out
}

/// The mods among the first `n` lines that stand in no section.
pub open spec fn parked_first(lines: Seq<Seq<char>>, n: int) -> Seq<Seq<char>>
    decreases n,
{
    if n <= 0 {
        Seq::empty()
    } else {
        let before = parked_first(lines, n - 1);
        let line = trimmed(lines[n - 1]);
        let name = trimmed(set_trimmed_start(line, "+-*"@));
        if begins(line, "#"@) || name.len() == 0 {
            before
        } else {
            before.push(name)
        }
    }
}

/// The names of the mods that stand in no section.
pub fn parked_names(ml: &Modlist) -> (r: Vec<String>)
    ensures
        r.deep_view() == parked_first(
            ml.deep_view().parking,
            ml.deep_view().parking.len() as int,
        ),
{
    let ghost pv = ml.parking.deep_view();
    let mut out: Vec<String> = list::none();
    let mut i: usize = 0;
    while i < ml.parking.len()
        invariant
            i <= ml.parking.len(),
            pv == ml.parking.deep_view(),
            out.deep_view() == parked_first(pv, i as int),
        decreases ml.parking.len() - i,
    {
        assert(pv[i as int] == ml.parking@[i as int]@);
        let line = text::trim(ml.parking[i].as_str());
        if !text::starts_with(line.as_str(), "#") {
            let name = text::trim_start_of(line.as_str(), "+-*");
            let name = text::trim(name.as_str());
            let chars = text::chars_of(name.as_str());
            if chars.len() > 0 {
                list::put(&mut out, name);
            }
        }
        i = i + 1;
    }
    assert(pv.len() == ml.parking.len());
    out
}

/// The mods among the first `n` that are switched on, each with the section's label.
pub open spec fn enabled_mods(
    mods: Seq<EntryView>,
    label: Seq<char>,
    n: int,
) -> Seq<(Seq<char>, Seq<char>)>
    decreases n,
{
    if n <= 0 {
        Seq::empty()
    } else if begins(trimmed_start(mods[n - 1].raw), "+"@) {
        enabled_mods(mods, label, n - 1).push((mods[n - 1].name, label))
    } else {
        enabled_mods(mods, label, n - 1)
    }
}

pub open spec fn enabled_first(sections: Seq<SectionView>, n: int) -> Seq<(Seq<char>, Seq<char>)>
    decreases n,
{
    if n <= 0 {
        Seq::empty()
    } else {
        let s = sections[n - 1];
        enabled_first(sections, n - 1) + enabled_mods(s.mods, s.label, s.mods.len() as int)
    }
}

/// Every mod that is switched on, with its section.
pub fn enabled(ml: &Modlist) -> (r: Vec<(String, String)>)
    ensures
        r.deep_view() == enabled_first(
            ml.deep_view().sections,
            ml.deep_view().sections.len() as int,
        ),
{
    let ghost sv = ml.sections.deep_view();
    let mut out: Vec<(String, String)> = list::none();
    let mut i: usize = 0;
    while i < ml.sections.len()
        invariant
            i <= ml.sections.len(),
            sv == ml.sections.deep_view(),
            out.deep_view() == enabled_first(sv, i as int),
        decreases ml.sections.len() - i,
    {
        let s = &ml.sections[i];
        assert(sv[i as int] == s.deep_view());
        let ghost mv = s.mods.deep_view();
        let ghost before = out.deep_view();
        let mut k: usize = 0;
        assert(before + enabled_mods(mv, s.label@, 0) =~= before);
        while k < s.mods.len()
            invariant
                k <= s.mods.len(),
                mv == s.mods.deep_view(),
                out.deep_view() == before + enabled_mods(mv, s.label@, k as int),
            decreases s.mods.len() - k,
        {
            let m = &s.mods[k];
            assert(mv[k as int] == m.deep_view());
            let line = text::trim_start(m.raw.as_str());
            if text::starts_with(line.as_str(), "+") {
                list::put(&mut out, (m.name.clone(), s.label.clone()));
            }
            k = k + 1;
            assert(out.deep_view() =~= before + enabled_mods(mv, s.label@, k as int));
        }
        assert(mv.len() == s.mods.len());
        i = i + 1;
    }
    assert(sv.len() == ml.sections.len());
    out
}

/// The mod on top of the list, as the organizer shows it: the last one of the last of the
/// first `n` sections that shows mods.
pub open spec fn top_of(sections: LayoutView, context: Seq<Seq<char>>, n: int) -> Option<
    (Seq<char>, Seq<char>),
>
    decreases n,
{
    if n <= 0 {
        None
    } else {
        let (label, mods) = sections[n - 1];
        if context.contains(label) || mods.len() == 0 {
            top_of(sections, context, n - 1)
        } else {
            Some((mods.last(), label))
        }
    }
}

pub fn top_mod(sections: &Layout, context: &Vec<String>) -> (r: Option<(String, String)>)
    ensures
        r.deep_view() == top_of(
            sections.deep_view(),
            context.deep_view(),
            sections.deep_view().len() as int,
        ),
{
    let ghost sv = sections.deep_view();
    let ghost cv = context.deep_view();
    let mut n: usize = sections.len();
    while n > 0
        invariant
            n <= sections.len() == sv.len(),
            sv == sections.deep_view(),
            cv == context.deep_view(),
            top_of(sv, cv, n as int) == top_of(sv, cv, sv.len() as int),
        decreases n,
    {
        n = n - 1;
        let s = &sections[n];
        assert(sv[n as int] == s.deep_view());
        assert(s.1.deep_view().len() == s.1.len());
        if s.1.len() > 0 && !list::holds(context, s.0.as_str()) {
            let last: usize = s.1.len() - 1;
            assert(s.1.deep_view()[last as int] == s.1@[last as int]@);
            return Some((s.1[last].clone(), s.0.clone()));
        }
    }
    None
}

// ---- searching ----

/// The places of the changes of each name among the first `n`.
pub open spec fn changes_first(plan: Seq<ChangeView>, n: int) -> Seq<(Seq<char>, Seq<usize>)>
    decreases n,
{
    if n <= 0 {
        Seq::empty()
    } else {
        let before = changes_first(plan, n - 1);
        let name = plan[n - 1].name;
        inserted(
            before,
            name,
            match found(before, name) {
                Some(v) => v.push((n - 1) as usize),
                None => seq![(n - 1) as usize],
            },
        )
    }
}

fn copy_places(v: &Vec<usize>) -> (r: Vec<usize>)
    ensures
        r.deep_view() == v.deep_view(),
{
    let ghost all = v.deep_view();
    let mut out: Vec<usize> = list::none();
    let mut i: usize = 0;
    assert(all.take(0) =~= Seq::<usize>::empty());
    while i < v.len()
        invariant
            i <= v.len(),
            all == v.deep_view(),
            out.deep_view() == all.take(i as int),
        decreases v.len() - i,
    {
        assert(all[i as int] == v@[i as int]);
        list::put(&mut out, v[i]);
        i = i + 1;
        assert(out.deep_view() =~= all.take(i as int));
    }
    assert(all.take(i as int) =~= all);
    out
}

/// Where the plan names each mod.
pub fn change_map(plan: &Vec<Change>) -> (r: TextMap<Vec<usize>>)
    ensures
        r.deep_view() == changes_first(plan.deep_view(), plan.len() as int),
{
    let ghost pv = plan.deep_view();
    let mut m: TextMap<Vec<usize>> = TextMap::new();
    let mut i: usize = 0;
    while i < plan.len()
        invariant
            i <= plan.len(),
            pv == plan.deep_view(),
            m.deep_view() == changes_first(pv, i as int),
        decreases plan.len() - i,
    {
        assert(pv[i as int] == plan@[i as int].deep_view());
        let name = plan[i].name.clone();
        let mut here: Vec<usize> = match m.get(name.as_str()) {
            Some(v) => copy_places(v),
            None => list::none(),
        };
        let ghost h = here.deep_view();
        list::put(&mut here, i);
        assert(here.deep_view() =~= h.push(i));
        assert(Seq::<usize>::empty().push(i) =~= seq![i]);
        m.insert(name, here);
        i = i + 1;
    }
    m
}

/// The names of the sections and mods, and of the mods in no section, in their order.
pub open spec fn listed_first(sections: LayoutView, n: int) -> Seq<Seq<char>>
    decreases n,
{
    if n <= 0 {
        Seq::empty()
    } else {
        listed_first(sections, n - 1).push(sections[n - 1].0) + sections[n - 1].1
    }
}

pub open spec fn terms_first(names: Seq<Seq<char>>, n: int) -> Seq<(Seq<char>, Seq<char>)>
    decreases n,
{
    if n <= 0 {
        Seq::empty()
    } else {
        inserted(terms_first(names, n - 1), names[n - 1], ascii_lowered(names[n - 1]))
    }
}

fn list_names(sections: &Layout) -> (r: Vec<String>)
    ensures
        r.deep_view() == listed_first(sections.deep_view(), sections.len() as int),
{
    let ghost sv = sections.deep_view();
    let mut out: Vec<String> = list::none();
    let mut i: usize = 0;
    while i < sections.len()
        invariant
            i <= sections.len(),
            sv == sections.deep_view(),
            out.deep_view() == listed_first(sv, i as int),
        decreases sections.len() - i,
    {
        let s = &sections[i];
        assert(sv[i as int] == s.deep_view());
        list::put(&mut out, s.0.clone());
        list::put_all(&mut out, list::copy(&s.1));
        i = i + 1;
    }
    out
}

/// What a search compares with, for everything that is listed.
pub fn search_terms(sections: &Layout, parked: &Vec<String>) -> (r: TextMap<String>)
    ensures
        ({
            let names = listed_first(sections.deep_view(), sections.len() as int)
                + parked.deep_view();
            r.deep_view() == terms_first(names, names.len() as int)
        }),
{
    let mut names = list_names(sections);
    list::put_all(&mut names, list::copy(parked));
    let ghost nv = names.deep_view();
    let mut m: TextMap<String> = TextMap::new();
    let mut i: usize = 0;
    while i < names.len()
        invariant
            i <= names.len(),
            nv == names.deep_view(),
            m.deep_view() == terms_first(nv, i as int),
        decreases names.len() - i,
    {
        assert(nv[i as int] == names@[i as int]@);
        m.insert(names[i].clone(), text::ascii_lower(names[i].as_str()));
        i = i + 1;
    }
    assert(nv.len() == names.len());
    m
}

/// A search finds what is listed under that name.
pub open spec fn finds(terms: Seq<(Seq<char>, Seq<char>)>, name: Seq<char>, needle: Seq<char>) -> bool {
    found(terms, name) matches Some(term) && contains_text(term, needle)
}

/// Of the first `n` mods of a section those that a search leaves: all where nothing is
/// sought or the section is found, or else those that are found.
pub open spec fn left_by_search(
    section: Seq<char>,
    mods: Seq<Seq<char>>,
    terms: Seq<(Seq<char>, Seq<char>)>,
    needle: Seq<char>,
    n: int,
) -> Seq<Seq<char>>
    decreases n,
{
    if n <= 0 {
        Seq::empty()
    } else {
        let before = left_by_search(section, mods, terms, needle, n - 1);
        if needle.len() == 0 || finds(terms, section, needle) || finds(terms, mods[n - 1], needle) {
            before.push(mods[n - 1])
        } else {
            before
        }
    }
}

fn is_found(terms: &TextMap<String>, name: &str, needle: &str) -> (r: bool)
    ensures
        r == finds(terms.deep_view(), name@, needle@),
{
    match terms.get(name) {
        Some(term) => text::contains(term.as_str(), needle),
        None => false,
    }
}

/// The mods of a section that are shown while a text is sought.
pub fn shown_mods(section: &str, mods: &Vec<String>, terms: &TextMap<String>, needle: &str) -> (r: Vec<
    String,
>)
    ensures
        r.deep_view() == left_by_search(
            section@,
            mods.deep_view(),
            terms.deep_view(),
            needle@,
            mods.len() as int,
        ),
{
    let ghost mv = mods.deep_view();
    let sought = text::chars_of(needle);
    let all = sought.len() == 0 || is_found(terms, section, needle);
    let mut out: Vec<String> = list::none();
    let mut i: usize = 0;
    while i < mods.len()
        invariant
            i <= mods.len(),
            mv == mods.deep_view(),
            all == (needle@.len() == 0 || finds(terms.deep_view(), section@, needle@)),
            out.deep_view() == left_by_search(section@, mv, terms.deep_view(), needle@, i as int),
        decreases mods.len() - i,
    {
        assert(mv[i as int] == mods@[i as int]@);
        if all || is_found(terms, mods[i].as_str(), needle) {
            list::put(&mut out, mods[i].clone());
        }
        i = i + 1;
    }
    out
}

/// The first `most` names from `i` on that have the text in them, but for `own`.
pub open spec fn hits_from(
    names: Seq<Seq<char>>,
    own: Option<Seq<char>>,
    needle: Seq<char>,
    most: nat,
    i: int,
) -> Seq<Seq<char>>
    decreases names.len() - i,
{
    if i < 0 || i >= names.len() || most == 0 {
        Seq::empty()
    } else if own != Some(names[i]) && contains_text(ascii_lowered(names[i]), needle) {
        seq![names[i]] + hits_from(names, own, needle, (most - 1) as nat, i + 1)
    } else {
        hits_from(names, own, needle, most, i + 1)
    }
}

fn find_hits(names: &Vec<String>, own: Option<&str>, needle: &str) -> (r: Vec<String>)
    ensures
        r.deep_view() == hits_from(names.deep_view(), own.deep_view(), needle@, 14, 0),
{
    let ghost nv = names.deep_view();
    let ghost ov = own.deep_view();
    let mut out: Vec<String> = list::none();
    let mut i: usize = 0;
    assert(out.deep_view() + hits_from(nv, ov, needle@, 14, 0) =~= hits_from(
        nv,
        ov,
        needle@,
        14,
        0,
    ));
    while i < names.len() && out.len() < 14
        invariant
            i <= names.len() == nv.len(),
            out.len() <= 14,
            nv == names.deep_view(),
            ov == own.deep_view(),
            out.deep_view() + hits_from(nv, ov, needle@, (14 - out.len()) as nat, i as int)
                == hits_from(nv, ov, needle@, 14, 0),
        decreases names.len() - i,
    {
        let name = names[i].as_str();
        assert(nv[i as int] == name@);
        let ghost before = out.deep_view();
        let ghost left = (14 - out.len()) as nat;
        let mine = match own {
            Some(o) => text::same(o, name),
            None => false,
        };
        let lower = text::ascii_lower(name);
        if !mine && text::contains(lower.as_str(), needle) {
            list::put(&mut out, name.to_string());
            assert(out.deep_view() + hits_from(nv, ov, needle@, (left - 1) as nat, i + 1) =~= before
                + hits_from(nv, ov, needle@, left, i as int));
        }
        i = i + 1;
    }
    assert(hits_from(nv, ov, needle@, (14 - out.len()) as nat, i as int) =~= Seq::<
        Seq<char>,
    >::empty());
    assert(out.deep_view() =~= out.deep_view() + Seq::<Seq<char>>::empty());
    out
}

/// The sections that a user can pick from after typing.
pub fn section_matches(sections: &Vec<String>, typed: &str) -> (r: Vec<String>)
    ensures
        r.deep_view() == hits_from(sections.deep_view(), None, ascii_lowered(typed@), 14, 0),
{
    let needle = text::ascii_lower(typed);
    let none: Option<&str> = None;
    find_hits(sections, none, needle.as_str())
}

pub open spec fn mods_first(sections: LayoutView, n: int) -> Seq<Seq<char>>
    decreases n,
{
    if n <= 0 {
        Seq::empty()
    } else {
        mods_first(sections, n - 1) + sections[n - 1].1
    }
}

pub open spec fn keyed_names(names: Seq<Seq<char>>) -> Seq<(Seq<char>, Seq<char>)> {
    Seq::new(names.len(), |i: int| (ascii_lowered(names[i]), names[i]))
}

/// The names in order whatever the case, without one that repeats the one before it.
pub open spec fn listed_once(names: Seq<Seq<char>>) -> Seq<Seq<char>> {
    let s = sorted::<(String, String)>(keyed_names(names));
    deduped(Seq::new(s.len(), |i: int| s[i].1))
}

/// The mods that a user can name beside `own` after typing.
pub open spec fn candidates_of(
    sections: LayoutView,
    parked: Seq<Seq<char>>,
    own: Seq<char>,
    typed: Seq<char>,
) -> Seq<Seq<char>> {
    let needle = ascii_lowered(trimmed(typed));
    let names = mods_first(sections, sections.len() as int) + parked;
    if needle.len() == 0 {
        Seq::empty()
    } else {
        listed_once(hits_from(names, Some(own), needle, 14, 0))
    }
}

fn all_mods(sections: &Layout) -> (r: Vec<String>)
    ensures
        r.deep_view() == mods_first(sections.deep_view(), sections.deep_view().len() as int),
{
    let ghost sv = sections.deep_view();
    let mut out: Vec<String> = list::none();
    let mut i: usize = 0;
    while i < sections.len()
        invariant
            i <= sections.len() == sv.len(),
            sv == sections.deep_view(),
            out.deep_view() == mods_first(sv, i as int),
        decreases sections.len() - i,
    {
        assert(sv[i as int] == sections@[i as int].deep_view());
        list::put_all(&mut out, list::copy(&sections[i].1));
        i = i + 1;
    }
    out
}

fn order_once(names: &Vec<String>) -> (r: Vec<String>)
    ensures
        r.deep_view() == listed_once(names.deep_view()),
{
    let ghost nv = names.deep_view();
    let ghost all = keyed_names(nv);
    let mut pairs: Vec<(String, String)> = list::none();
    let mut i: usize = 0;
    assert(all.take(0) =~= Seq::empty());
    while i < names.len()
        invariant
            i <= names.len() == nv.len(),
            nv == names.deep_view(),
            all == keyed_names(nv),
            pairs.deep_view() == all.take(i as int),
        decreases names.len() - i,
    {
        assert(nv[i as int] == names@[i as int]@);
        list::put(&mut pairs, (text::ascii_lower(names[i].as_str()), names[i].clone()));
        i = i + 1;
        assert(pairs.deep_view() =~= all.take(i as int));
    }
    assert(all.take(i as int) =~= all);
    let pairs = sort::sort(pairs);
    let ghost s = pairs.deep_view();
    let ghost want = Seq::new(s.len(), |i: int| s[i].1);
    let mut out: Vec<String> = list::none();
    let mut k: usize = 0;
    assert(want.take(0) =~= Seq::<Seq<char>>::empty());
    while k < pairs.len()
        invariant
            k <= pairs.len() == s.len(),
            s == pairs.deep_view(),
            want == Seq::new(s.len(), |i: int| s[i].1),
            out.deep_view() == want.take(k as int),
        decreases pairs.len() - k,
    {
        assert(s[k as int] == pairs@[k as int].deep_view());
        list::put(&mut out, pairs[k].1.clone());
        k = k + 1;
        assert(out.deep_view() =~= want.take(k as int));
    }
    assert(want.take(k as int) =~= want);
    sort::dedup(&out)
}

pub fn candidates(sections: &Layout, parked: &Vec<String>, own: &str, typed: &str) -> (r: Vec<
    String,
>)
    ensures
        r.deep_view() == candidates_of(
            sections.deep_view(),
            parked.deep_view(),
            own@,
            typed@,
        ),
{
    let t = text::trim(typed);
    let needle = text::ascii_lower(t.as_str());
    let chars = text::chars_of(needle.as_str());
    if chars.len() == 0 {
        return list::none();
    }
    let mut names = all_mods(sections);
    list::put_all(&mut names, list::copy(parked));
    let hits = find_hits(&names, Some(own), needle.as_str());
    order_once(&hits)
}

// ---- cards ----

#[verifier::ext_equal]
pub struct Provenance {
    pub url: Option<Seq<char>>,
    pub repository: Option<Seq<char>>,
    pub mod_id: Option<Seq<char>>,
}

pub open spec fn value_or(v: Seq<char>, before: Option<Seq<char>>) -> Option<Seq<char>> {
    if trimmed(v).len() == 0 {
        before
    } else {
        Some(trimmed(v))
    }
}

/// What the first `n` lines of a mod's install record say of where it is from.
pub open spec fn provenance_first(lines: Seq<Seq<char>>, n: int) -> Provenance
    decreases n,
{
    if n <= 0 {
        Provenance { url: None, repository: None, mod_id: None }
    } else {
        let before = provenance_first(lines, n - 1);
        let line = trimmed(lines[n - 1]);
        if after_prefix(line, "url="@) is Some {
            Provenance { url: value_or(after_prefix(line, "url="@)->0, before.url), ..before }
        } else if after_prefix(line, "repository="@) is Some {
            Provenance {
                repository: value_or(after_prefix(line, "repository="@)->0, before.repository),
                ..before
            }
        } else if after_prefix(line, "modid="@) is Some {
            Provenance {
                mod_id: value_or(after_prefix(line, "modid="@)->0, before.mod_id),
                ..before
            }
        } else {
            before
        }
    }
}

/// The source to show: a Nexus address, or the number of a Nexus mod.
pub open spec fn source_of(p: Provenance) -> Option<Seq<char>> {
    if p.url is Some && contains_text(ascii_lowered(p.url->0), "nexusmods.com"@) {
        p.url
    } else if p.repository is Some && contains_text(ascii_lowered(p.repository->0), "nexus"@)
        && p.mod_id is Some {
        match number(p.mod_id->0, u64::MAX as nat) {
            Some(id) => if id > 0 {
                Some("Nexus mod "@ + decimal(id))
            } else {
                None
            },
            None => None,
        }
    } else {
        None
    }
}

fn replace_if_any(v: &str, slot: &mut Option<String>)
    ensures
        final(slot).deep_view() == value_or(v@, old(slot).deep_view()),
{
    let v = text::trim(v);
    let chars = text::chars_of(v.as_str());
    if chars.len() > 0 {
        *slot = Some(v);
    }
}

/// Where a mod was installed from, by its install record.
pub fn source_from_meta(s: &str) -> (r: Option<String>)
    ensures
        r.deep_view() == source_of(
            provenance_first(lines_of(s@), lines_of(s@).len() as int),
        ),
{
    let lines = text::lines(s);
    let ghost lv = lines.deep_view();
    let mut url: Option<String> = None;
    let mut repository: Option<String> = None;
    let mut mod_id: Option<String> = None;
    let mut i: usize = 0;
    while i < lines.len()
        invariant
            i <= lines.len(),
            lv == lines.deep_view(),
            provenance_first(lv, i as int) == (Provenance {
                url: url.deep_view(),
                repository: repository.deep_view(),
                mod_id: mod_id.deep_view(),
            }),
        decreases lines.len() - i,
    {
        assert(lv[i as int] == lines@[i as int]@);
        let line = text::trim(lines[i].as_str());
        if let Some(v) = text::strip_prefix(line.as_str(), "url=") {
            replace_if_any(v.as_str(), &mut url);
        } else if let Some(v) = text::strip_prefix(line.as_str(), "repository=") {
            replace_if_any(v.as_str(), &mut repository);
        } else if let Some(v) = text::strip_prefix(line.as_str(), "modid=") {
            replace_if_any(v.as_str(), &mut mod_id);
        }
        i = i + 1;
    }
    assert(lv.len() == lines.len());
    if let Some(u) = &url {
        let lower = text::ascii_lower(u.as_str());
        if text::contains(lower.as_str(), "nexusmods.com") {
            return url;
        }
    }
    match (repository, mod_id) {
        (Some(r), Some(id)) => {
            let lower = text::ascii_lower(r.as_str());
            if !text::contains(lower.as_str(), "nexus") {
                return None;
            }
            match text::parse_number(id.as_str(), u64::MAX as u128) {
                Some(n) => {
                    if n > 0 {
                        let d = text::dec(n);
                        Some(text::cat("Nexus mod ", d.as_str()))
                    } else {
                        None
                    }
                },
                None => None,
            }
        },
        _ => None,
    }
}

/// A piece of a message: text, or a link with its address.
pub enum Piece {
    Text(String),
    Link(String, String),
}

pub enum PieceView {
    Text(Seq<char>),
    Link(Seq<char>, Seq<char>),
}

impl DeepView for Piece {
    type V = PieceView;

    open spec fn deep_view(&self) -> PieceView {
        match self {
            Piece::Text(s) => PieceView::Text(s@),
            Piece::Link(s, u) => PieceView::Link(s@, u@),
        }
    }
}

/// Text without its marks of emphasis.
pub open spec fn plain_of(s: Seq<char>) -> Seq<char> {
    replaced(replaced(s, "**"@, ""@), "__"@, ""@)
}

pub open spec fn text_piece(s: Seq<char>) -> Seq<PieceView> {
    if s.len() == 0 {
        Seq::empty()
    } else {
        seq![PieceView::Text(plain_of(s))]
    }
}

pub proof fn lemma_split_shrinks(s: Seq<char>, sep: Seq<char>)
    requires
        sep.len() > 0,
    ensures
        match split_first(s, sep) {
            Some((a, b)) => a.len() + sep.len() + b.len() == s.len(),
            None => true,
        },
{
    text::lemma_find(s, sep, 0);
}

/// The pieces of a message: `[label](address)` is a link where the address is one of the
/// web, and text without its closing bracket where not.
pub open spec fn pieces_of(s: Seq<char>) -> Seq<PieceView>
    decreases s.len(),
{
    match split_first(s, "["@) {
        None => text_piece(s),
        Some((before, tail)) => match split_first(tail, "]("@) {
            None => text_piece(before) + text_piece("["@ + tail),
            Some((label, address)) => match split_first(address, ")"@) {
                None => text_piece(before) + text_piece("["@ + tail),
                Some((url, rest)) => {
                    proof {
                        reveal_strlit("[");
                        reveal_strlit("](");
                        reveal_strlit(")");
                        lemma_split_shrinks(s, "["@);
                        lemma_split_shrinks(tail, "]("@);
                        lemma_split_shrinks(address, ")"@);
                    }
                    text_piece(before) + seq![
                        if begins(url, "https://"@) || begins(url, "http://"@) {
                            PieceView::Link(plain_of(label), url)
                        } else {
                            PieceView::Text(plain_of("["@ + label + "]("@ + url))
                        },
                    ] + pieces_of(rest)
                },
            },
        },
    }
}

fn plain(s: &str) -> (r: String)
    ensures
        r@ == plain_of(s@),
{
    let t = text::replace(s, "**", "");
    text::replace(t.as_str(), "__", "")
}

fn put_text(out: &mut Vec<Piece>, s: &str)
    ensures
        final(out).deep_view() == old(out).deep_view() + text_piece(s@),
{
    let ghost before = out.deep_view();
    let chars = text::chars_of(s);
    if chars.len() > 0 {
        list::put(out, Piece::Text(plain(s)));
        assert(out.deep_view() =~= before + text_piece(s@));
    } else {
        assert(out.deep_view() =~= before + text_piece(s@));
    }
}

/// The pieces that a message is shown in.
pub fn message_pieces(s: &str) -> (r: Vec<Piece>)
    ensures
        r.deep_view() == pieces_of(s@),
{
    let mut out: Vec<Piece> = list::none();
    let mut rest = s.to_string();
    assert(out.deep_view() + pieces_of(rest@) =~= pieces_of(s@));
    loop
        invariant
            out.deep_view() + pieces_of(rest@) == pieces_of(s@),
        decreases rest@.len(),
    {
        let ghost here = out.deep_view();
        let (before, tail) = match text::split_once(rest.as_str(), "[") {
            Some(p) => p,
            None => {
                put_text(&mut out, rest.as_str());
                return out;
            },
        };
        put_text(&mut out, before.as_str());
        let halves = text::split_once(tail.as_str(), "](");
        if let Some((label, address)) = halves {
            if let Some((url, after)) = text::split_once(address.as_str(), ")") {
                let piece = if text::starts_with(url.as_str(), "https://") || text::starts_with(
                    url.as_str(),
                    "http://",
                ) {
                    Piece::Link(plain(label.as_str()), url)
                } else {
                    let t = text::cat3("[", label.as_str(), "](");
                    let t = text::cat(t.as_str(), url.as_str());
                    Piece::Text(plain(t.as_str()))
                };
                let ghost p = piece.deep_view();
                list::put(&mut out, piece);
                proof {
                    reveal_strlit("[");
                    reveal_strlit("](");
                    reveal_strlit(")");
                    lemma_split_shrinks(rest@, "["@);
                    lemma_split_shrinks(tail@, "]("@);
                    lemma_split_shrinks(address@, ")"@);
                    assert(out.deep_view() + pieces_of(after@) =~= here + (text_piece(before@)
                        + seq![p] + pieces_of(after@)));
                }
                rest = after;
                continue;
            }
        }
        let t = text::cat("[", tail.as_str());
        put_text(&mut out, t.as_str());
        assert(out.deep_view() =~= here + (text_piece(before@) + text_piece("["@ + tail@)));
        return out;
    }
}

pub open spec fn line_if(lead: Seq<char>, v: Option<Seq<char>>) -> Seq<char> {
    match v {
        Some(s) => lead + s,
        None => ""@,
    }
}

pub open spec fn list_if(lead: Seq<char>, v: Seq<Seq<char>>) -> Seq<char> {
    if v.len() == 0 {
        ""@
    } else {
        lead + joined(v, ", "@)
    }
}

fn show_line(lead: &str, v: Option<&str>) -> (r: String)
    ensures
        r@ == line_if(lead@, v.deep_view()),
{
    match v {
        Some(s) => text::cat(lead, s),
        None => "".to_string(),
    }
}

fn show_list(lead: &str, v: &Vec<String>) -> (r: String)
    ensures
        r@ == list_if(lead@, v.deep_view()),
{
    assert(v.deep_view().len() == v.len());
    if v.len() == 0 {
        "".to_string()
    } else {
        let s = text::join(v, ", ");
        text::cat(lead, s.as_str())
    }
}

/// The text of a mod's card.
pub fn mod_card(
    name: &str,
    section: &str,
    plugins: &Vec<String>,
    source: Option<&str>,
    tags: &Vec<String>,
) -> (r: String)
    ensures
        r@ == "Mod: "@ + name@ + "\nSection: "@ + section@ + list_if(
            "\nPlugin(s): "@,
            plugins.deep_view(),
        ) + line_if("\nSource: "@, source.deep_view()) + list_if(
            "\nBash Tags: "@,
            tags.deep_view(),
        ),
{
    let mut r = text::cat3("Mod: ", name, "\nSection: ");
    r.append(section);
    let a = show_list("\nPlugin(s): ", plugins);
    r.append(a.as_str());
    let b = show_line("\nSource: ", source);
    r.append(b.as_str());
    let c = show_list("\nBash Tags: ", tags);
    r.append(c.as_str());
    r
}

/// The text of a plugin's card.
pub fn plugin_card(plugin: &str, owner: Option<&str>, source: Option<&str>, tags: &Vec<String>) -> (r:
    String)
    ensures
        r@ == "Plugin: "@ + plugin@ + "\nMO2 owner: "@ + (match owner {
            Some(o) => o@,
            None => "Game Folder"@,
        }) + line_if("\nSource: "@, source.deep_view()) + list_if(
            "\nBash Tags: "@,
            tags.deep_view(),
        ),
{
    let mut r = text::cat3("Plugin: ", plugin, "\nMO2 owner: ");
    match owner {
        Some(o) => r.append(o),
        None => r.append("Game Folder"),
    }
    let b = show_line("\nSource: ", source);
    r.append(b.as_str());
    let c = show_list("\nBash Tags: ", tags);
    r.append(c.as_str());
    r
}

/// The metadata of a mod, to be copied.
pub fn metadata_card(source: Option<&str>, tags: &Vec<String>) -> (r: String)
    ensures
        r@ == line_if("Source: "@, source.deep_view()) + list_if(
            "\nBash Tags: "@,
            tags.deep_view(),
        ),
{
    let a = show_line("Source: ", source);
    let b = show_list("\nBash Tags: ", tags);
    text::cat(a.as_str(), b.as_str())
}

// ---- the status line ----

pub struct Notes {
    /// Whether the organizer's categories were found.
    pub categories: bool,
    pub user_files: usize,
    /// The number of known conflict pairs.
    pub pairs: Option<usize>,
    /// Whether a conflict scan is under way.
    pub scanning: bool,
    pub warnings: usize,
    /// Where the debug log is.
    pub log: Option<String>,
    /// What was done about the separator roadmap.
    pub roadmap: Option<String>,
}

pub open spec fn count_if(n: usize, unit: Seq<char>) -> Seq<char> {
    if n > 0 {
        " + "@ + decimal(n as nat) + unit
    } else {
        ""@
    }
}

pub open spec fn notes_text(n: Notes) -> Seq<char> {
    (if n.categories {
        " (mo2 categories loaded)"@
    } else {
        " (no mo2 categories found - keyword rules only)"@
    }) + count_if(n.user_files, " user rules file(s)"@) + (match n.pairs {
        Some(p) => " + "@ + decimal(p as nat) + " conflict pair(s)"@,
        None => if n.scanning {
            " - conflict scan running in background, preview will refresh"@
        } else {
            ""@
        },
    }) + count_if(n.warnings, " warning(s)"@) + line_if(" · log: "@, n.log.deep_view()) + line_if(
        " · "@,
        n.roadmap.deep_view(),
    )
}

/// The status once a preview stands.
pub open spec fn status_text(changes: nat, plugins: bool, notes: Seq<char>) -> Seq<char> {
    if changes > 0 {
        decimal(changes) + " change(s) ready"@ + notes
            + " - review, then apply if it looks good"@
    } else if plugins {
        "plugin order preview ready"@ + notes + " - review, then apply if it looks good"@
    } else {
        "list's already clean"@ + notes
    }
}

fn show_count(n: usize, unit: &str) -> (r: String)
    ensures
        r@ == count_if(n, unit@),
{
    if n > 0 {
        let d = text::dec(n as u128);
        text::cat3(" + ", d.as_str(), unit)
    } else {
        "".to_string()
    }
}

fn show_option(lead: &str, v: &Option<String>) -> (r: String)
    ensures
        r@ == line_if(lead@, v.deep_view()),
{
    match v {
        Some(s) => text::cat(lead, s.as_str()),
        None => "".to_string(),
    }
}

fn show_notes(n: &Notes) -> (r: String)
    ensures
        r@ == notes_text(*n),
{
    let mut r = if n.categories {
        " (mo2 categories loaded)".to_string()
    } else {
        " (no mo2 categories found - keyword rules only)".to_string()
    };
    let a = show_count(n.user_files, " user rules file(s)");
    r.append(a.as_str());
    let b = match n.pairs {
        Some(p) => {
            let d = text::dec(p as u128);
            text::cat3(" + ", d.as_str(), " conflict pair(s)")
        },
        None => if n.scanning {
            " - conflict scan running in background, preview will refresh".to_string()
        } else {
            "".to_string()
        },
    };
    r.append(b.as_str());
    let c = show_count(n.warnings, " warning(s)");
    r.append(c.as_str());
    let d = show_option(" · log: ", &n.log);
    r.append(d.as_str());
    let e = show_option(" · ", &n.roadmap);
    r.append(e.as_str());
    r
}

pub fn preview_status(changes: usize, plugins_ready: bool, notes: &Notes) -> (r: String)
    ensures
        r@ == status_text(changes as nat, plugins_ready, notes_text(*notes)),
{
    let n = show_notes(notes);
    if changes > 0 {
        let d = text::dec(changes as u128);
        let r = text::cat3(d.as_str(), " change(s) ready", n.as_str());
        text::cat(r.as_str(), " - review, then apply if it looks good")
    } else if plugins_ready {
        text::cat3(
            "plugin order preview ready",
            n.as_str(),
            " - review, then apply if it looks good",
        )
    } else {
        text::cat("list's already clean", n.as_str())
    }
}

} // verus!
