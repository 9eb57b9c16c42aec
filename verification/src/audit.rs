//! The last pass of a sort: the finished order is held against what it must keep.
//! Nothing moves here; a breach is reported.
use vstd::prelude::*;
use crate::conflicts::ConflictIndex;
#[allow(unused_imports)]
use crate::conflicts::{shared_files, ConflictView, MIN_SHARED};
use crate::decide;
#[allow(unused_imports)]
use crate::decide::canon;
use crate::keywords::Keywords;
#[allow(unused_imports)]
use crate::keywords::{never_match, KeywordsView};
use crate::list;
use crate::map::TextMap;
#[allow(unused_imports)]
use crate::map::{found, inserted};
use crate::masters;
use crate::masters::Census;
#[allow(unused_imports)]
use crate::masters::{is_esm_entry_of, Providers};
use crate::matching;
#[allow(unused_imports)]
use crate::matching::patchy;
use crate::modlist::{ModEntry, Section};
#[allow(unused_imports)]
use crate::modlist::{EntryView, SectionView};
#[allow(unused_imports)]
use crate::place::Known;
use crate::plan::{Change, ChangeKind, Plan};
#[allow(unused_imports)]
use crate::plan::{counted, listed, logged, traced, ChangeView, PlanView};
#[allow(unused_imports)]
use crate::plugins::CensusView;
use crate::suggest;
#[allow(unused_imports)]
use crate::suggest::is_enabled;
use crate::text;
#[allow(unused_imports)]
use crate::text::{byte_len, contains_text, decimal};

verus! {

// ---- patches and the files they share ----

/// A family pair: the child, whose canonical name contains the other's, and its parent.
/// Two mods of one canonical name are siblings, and neither is the other's child.
pub open spec fn family_pair(a: EntryView, b: EntryView, known: Known) -> Option<
    (EntryView, EntryView),
> {
    let ca = canon(known, a);
    let cb = canon(known, b);
    if ca == cb {
        None
    } else if byte_len(ca) >= 10 && contains_text(cb, ca) {
        Some((b, a))
    } else if byte_len(cb) >= 10 && contains_text(ca, cb) {
        Some((a, b))
    } else {
        None
    }
}

/// The breach of a pair in which `a` stands before `b` in the file, and so loads after it:
/// of two ticked family mods that share enough files, a patch-flavored child loads before
/// its parent.
pub open spec fn breach(
    a: EntryView,
    b: EntryView,
    c: ConflictView,
    known: Known,
    kw: KeywordsView,
) -> Option<(EntryView, EntryView, u32)> {
    if !is_enabled(a) || !is_enabled(b) || never_match(kw, a.name, b.name) {
        None
    } else {
        match family_pair(a, b, known) {
            Some((child, parent)) => if !patchy(child.lower) || child.name == a.name {
                None
            } else {
                match shared_files(c.pairs, child.name, parent.name) {
                    Some((_, shared)) => if shared < MIN_SHARED {
                        None
                    } else {
                        Some((child, parent, shared))
                    },
                    None => None,
                }
            },
            None => None,
        }
    }
}

pub open spec fn breach_noted(
    plan: PlanView,
    label: Seq<char>,
    child: Seq<char>,
    parent: Seq<char>,
    shared: u32,
) -> PlanView {
    logged(
        traced(
            plan,
            "  AUDIT FAIL ["@ + label + "] "@ + parent + " loads after its own patch "@ + child
                + " ("@ + decimal(shared as nat) + " shared files at stake)"@,
        ),
        "WARN  "@ + parent + " loads after its patch "@ + child + " on "@ + decimal(shared as nat)
            + " shared files - needs a manual look"@,
    )
}

/// The pairs of a section from (`i`, `j`) on.
pub open spec fn pairs_audited(
    s: SectionView,
    c: ConflictView,
    known: Known,
    kw: KeywordsView,
    i: int,
    j: int,
    plan: PlanView,
) -> PlanView
    decreases s.mods.len() - i, s.mods.len() - j,
{
    if i < 0 || i >= s.mods.len() {
        plan
    } else if j >= s.mods.len() {
        pairs_audited(s, c, known, kw, i + 1, i + 2, plan)
    } else {
        match breach(s.mods[i], s.mods[j], c, known, kw) {
            Some((child, parent, shared)) => pairs_audited(
                s,
                c,
                known,
                kw,
                i,
                j + 1,
                breach_noted(plan, s.label, child.name, parent.name, shared),
            ),
            None => pairs_audited(s, c, known, kw, i, j + 1, plan),
        }
    }
}

pub open spec fn sections_audited(
    sections: Seq<SectionView>,
    c: ConflictView,
    known: Known,
    kw: KeywordsView,
    plan: PlanView,
    n: int,
) -> PlanView
    decreases n,
{
    if n <= 0 {
        plan
    } else {
        pairs_audited(
            sections[n - 1],
            c,
            known,
            kw,
            0,
            1,
            sections_audited(sections, c, known, kw, plan, n - 1),
        )
    }
}

/// The audit of conflict winners; the breaches are the lines that it adds to the log.
pub open spec fn winners_audited(
    plan: PlanView,
    c: ConflictView,
    known: Known,
    kw: KeywordsView,
) -> PlanView {
    let a = traced(plan, "\n--- audit gate: conflict winners ---"@);
    let b = sections_audited(a.sections, c, known, kw, a, a.sections.len() as int);
    traced(
        b,
        "  conflict audit complete: "@ + decimal((b.log.len() - a.log.len()) as nat)
            + " violation(s)"@,
    )
}

fn breach_of(a: &ModEntry, b: &ModEntry, c: &ConflictIndex, known: &TextMap<String>, kw: &Keywords) -> (r:
    Option<(String, String, u32)>)
    ensures
        r.deep_view() == (match breach(
            a.deep_view(),
            b.deep_view(),
            c.deep_view(),
            known.deep_view(),
            kw.deep_view(),
        ) {
            Some((child, parent, shared)) => Some((child.name, parent.name, shared)),
            None => None,
        }),
{
    if !suggest::enabled(a) || !suggest::enabled(b) || kw.is_never(
        a.name.as_str(),
        b.name.as_str(),
    ) {
        return None;
    }
    let ca = decide::canon_of(known, a);
    let cb = decide::canon_of(known, b);
    if text::same(ca.as_str(), cb.as_str()) {
        return None;
    }
    let (child, parent) = if text::bytes_in(ca.as_str()) >= 10 && text::contains(
        cb.as_str(),
        ca.as_str(),
    ) {
        (b, a)
    } else if text::bytes_in(cb.as_str()) >= 10 && text::contains(ca.as_str(), cb.as_str()) {
        (a, b)
    } else {
        return None;
    };
    if !matching::patch_flavored(child.lower.as_str()) || child.name == a.name {
        return None;
    }
    match c.shared(child.name.as_str(), parent.name.as_str()) {
        Some((_, shared)) => if shared < MIN_SHARED {
            None
        } else {
            Some((child.name.clone(), parent.name.clone(), shared))
        },
        None => None,
    }
}

/// The plan but for its log and its trace.
pub open spec fn same_lists(a: PlanView, b: PlanView) -> bool {
    a.sections == b.sections && a.parking == b.parking && a.out == b.out && a.seen == b.seen
        && a.changes == b.changes && a.log.len() >= b.log.len()
}

fn note_breach(plan: &mut Plan, label: &str, child: &str, parent: &str, shared: u32)
    requires
        counted(old(plan).deep_view()),
    ensures
        final(plan).deep_view() == breach_noted(
            old(plan).deep_view(),
            label@,
            child@,
            parent@,
            shared,
        ),
        counted(final(plan).deep_view()),
        same_lists(final(plan).deep_view(), old(plan).deep_view()),
{
    let n = text::dec(shared as u128);
    let mut line = text::cat3("  AUDIT FAIL [", label, "] ");
    line.append(parent);
    line.append(" loads after its own patch ");
    line.append(child);
    line.append(" (");
    line.append(n.as_str());
    line.append(" shared files at stake)");
    plan.trace_line(line);
    let mut line = text::cat3("WARN  ", parent, " loads after its patch ");
    line.append(child);
    line.append(" on ");
    line.append(n.as_str());
    line.append(" shared files - needs a manual look");
    plan.log_line(line);
    let len: usize = plan.log.len();
    assert(plan.log.deep_view().len() == len);
}

fn audit_section(
    plan: &mut Plan,
    s: &Section,
    c: &ConflictIndex,
    known: &TextMap<String>,
    kw: &Keywords,
)
    requires
        counted(old(plan).deep_view()),
    ensures
        final(plan).deep_view() == pairs_audited(
            s.deep_view(),
            c.deep_view(),
            known.deep_view(),
            kw.deep_view(),
            0,
            1,
            old(plan).deep_view(),
        ),
        counted(final(plan).deep_view()),
        same_lists(final(plan).deep_view(), old(plan).deep_view()),
{
    let ghost sv = s.deep_view();
    let ghost cv = c.deep_view();
    let ghost kn = known.deep_view();
    let ghost kv = kw.deep_view();
    let ghost start = plan.deep_view();
    let ghost goal = pairs_audited(sv, cv, kn, kv, 0, 1, start);
    let mut i: usize = 0;
    while i < s.mods.len()
        invariant
            i <= s.mods.len() == sv.mods.len(),
            sv == s.deep_view(),
            cv == c.deep_view(),
            kn == known.deep_view(),
            kv == kw.deep_view(),
            counted(plan.deep_view()),
            same_lists(plan.deep_view(), start),
            pairs_audited(sv, cv, kn, kv, i as int, i + 1, plan.deep_view()) == goal,
        decreases s.mods.len() - i,
    {
        let mut j: usize = i + 1;
        while j < s.mods.len()
            invariant
                i < j <= s.mods.len() == sv.mods.len(),
                sv == s.deep_view(),
                cv == c.deep_view(),
                kn == known.deep_view(),
                kv == kw.deep_view(),
                counted(plan.deep_view()),
                same_lists(plan.deep_view(), start),
                pairs_audited(sv, cv, kn, kv, i as int, j as int, plan.deep_view()) == goal,
            decreases s.mods.len() - j,
        {
            assert(sv.mods[i as int] == s.mods@[i as int].deep_view());
            assert(sv.mods[j as int] == s.mods@[j as int].deep_view());
            if let Some((child, parent, shared)) = breach_of(&s.mods[i], &s.mods[j], c, known, kw) {
                note_breach(plan, s.label.as_str(), child.as_str(), parent.as_str(), shared);
            }
            j = j + 1;
        }
        i = i + 1;
    }
}

/// Takes the sections out of a plan.
pub fn take_sections(plan: &mut Plan) -> (r: Vec<Section>)
    ensures
        r.deep_view() == old(plan).deep_view().sections,
        final(plan).deep_view() == (PlanView {
            sections: Seq::empty(),
            ..old(plan).deep_view()
        }),
{
    let mut r: Vec<Section> = list::none();
    std::mem::swap(&mut r, &mut plan.sections);
    r
}

/// The plan with other sections.
pub open spec fn with_sections(plan: PlanView, sections: Seq<SectionView>) -> PlanView {
    PlanView { sections, ..plan }
}

proof fn lemma_pairs_audited_elsewhere(
    s: SectionView,
    c: ConflictView,
    known: Known,
    kw: KeywordsView,
    i: int,
    j: int,
    plan: PlanView,
    sections: Seq<SectionView>,
)
    ensures
        pairs_audited(s, c, known, kw, i, j, with_sections(plan, sections)) == with_sections(
            pairs_audited(s, c, known, kw, i, j, plan),
            sections,
        ),
    decreases s.mods.len() - i, s.mods.len() - j,
{
    if i < 0 || i >= s.mods.len() {
    } else if j >= s.mods.len() {
        lemma_pairs_audited_elsewhere(s, c, known, kw, i + 1, i + 2, plan, sections);
    } else {
        match breach(s.mods[i], s.mods[j], c, known, kw) {
            Some((child, parent, shared)) => {
                let noted = breach_noted(plan, s.label, child.name, parent.name, shared);
                lemma_pairs_audited_elsewhere(s, c, known, kw, i, j + 1, noted, sections);
                assert(breach_noted(
                    with_sections(plan, sections),
                    s.label,
                    child.name,
                    parent.name,
                    shared,
                ) == with_sections(noted, sections));
            },
            None => {
                lemma_pairs_audited_elsewhere(s, c, known, kw, i, j + 1, plan, sections);
            },
        }
    }
}

/// Audits the winners of shared files.
pub fn audit_winners(plan: &mut Plan, c: &ConflictIndex, known: &TextMap<String>, kw: &Keywords)
    requires
        counted(old(plan).deep_view()),
    ensures
        final(plan).deep_view() == winners_audited(
            old(plan).deep_view(),
            c.deep_view(),
            known.deep_view(),
            kw.deep_view(),
        ),
        counted(final(plan).deep_view()),
{
    plan.trace_line("\n--- audit gate: conflict winners ---".to_string());
    let ghost a = plan.deep_view();
    let ghost secs = a.sections;
    let start: usize = plan.log.len();
    assert(a.log.len() == start);
    let sections = take_sections(plan);
    let mut i: usize = 0;
    while i < sections.len()
        invariant
            i <= sections.len() == secs.len(),
            secs == sections.deep_view(),
            secs == a.sections,
            counted(plan.deep_view()),
            plan.deep_view().log.len() >= a.log.len(),
            with_sections(plan.deep_view(), secs) == sections_audited(
                secs,
                c.deep_view(),
                known.deep_view(),
                kw.deep_view(),
                a,
                i as int,
            ),
        decreases sections.len() - i,
    {
        assert(secs[i as int] == sections@[i as int].deep_view());
        let ghost before = plan.deep_view();
        audit_section(plan, &sections[i], c, known, kw);
        proof {
            lemma_pairs_audited_elsewhere(
                secs[i as int],
                c.deep_view(),
                known.deep_view(),
                kw.deep_view(),
                0,
                1,
                before,
                secs,
            );
        }
        i = i + 1;
    }
    plan.sections = sections;
    assert(plan.log.deep_view().len() == plan.log.len());
    let fails: usize = plan.log.len() - start;
    let n = text::dec(fails as u128);
    plan.trace_line(text::cat3("  conflict audit complete: ", n.as_str(), " violation(s)"));
}

// ---- masters ----

pub type Position = (usize, usize);

pub open spec fn loads_before(a: Position, b: Position) -> bool {
    a.0 < b.0 || (a.0 == b.0 && a.1 < b.1)
}

fn is_before(a: Position, b: Position) -> (r: bool)
    ensures
        r == loads_before(a, b),
{
    a.0 < b.0 || (a.0 == b.0 && a.1 < b.1)
}

pub type Positions = Seq<(Seq<char>, Position)>;

/// The positions once the first `n` mods of section `si` are noted: the section, and
/// the place in load order. Unticked mods have none.
pub open spec fn with_positions(m: Positions, mods: Seq<EntryView>, si: int, n: int) -> Positions
    decreases n,
{
    if n <= 0 {
        m
    } else {
        let before = with_positions(m, mods, si, n - 1);
        if is_enabled(mods[n - 1]) {
            inserted(before, mods[n - 1].name, (si as usize, (mods.len() - n) as usize))
        } else {
            before
        }
    }
}

pub open spec fn positions_first(sections: Seq<SectionView>, n: int) -> Positions
    decreases n,
{
    if n <= 0 {
        Seq::empty()
    } else {
        with_positions(
            positions_first(sections, n - 1),
            sections[n - 1].mods,
            n - 1,
            sections[n - 1].mods.len() as int,
        )
    }
}

pub open spec fn positions(sections: Seq<SectionView>) -> Positions {
    positions_first(sections, sections.len() as int)
}

fn position_map(sections: &Vec<Section>) -> (r: TextMap<Position>)
    ensures
        r.deep_view() == positions(sections.deep_view()),
{
    let ghost secs = sections.deep_view();
    let mut out: TextMap<Position> = TextMap::new();
    let mut si: usize = 0;
    while si < sections.len()
        invariant
            si <= sections.len(),
            secs == sections.deep_view(),
            out.deep_view() == positions_first(secs, si as int),
        decreases sections.len() - si,
    {
        let s = &sections[si];
        assert(secs[si as int] == s.deep_view());
        let ghost before = out.deep_view();
        let ghost mv = s.mods.deep_view();
        let n: usize = s.mods.len();
        let mut mi: usize = 0;
        while mi < n
            invariant
                mi <= n == s.mods.len() == mv.len(),
                mv == s.mods.deep_view(),
                out.deep_view() == with_positions(before, mv, si as int, mi as int),
            decreases n - mi,
        {
            assert(mv[mi as int] == s.mods@[mi as int].deep_view());
            if suggest::enabled(&s.mods[mi]) {
                out.insert(s.mods[mi].name.clone(), (si, n - 1 - mi));
            }
            mi = mi + 1;
        }
        si = si + 1;
    }
    assert(secs.len() == sections.len());
    out
}

/// The mod that provides a master of another mod's plugin, and its position.
pub open spec fn master_at(
    name: Seq<char>,
    plugin: Seq<char>,
    base: Seq<Seq<char>>,
    prov: Providers,
    pos: Positions,
) -> Option<(Seq<char>, Position)> {
    match masters::parent_mod(name, plugin, base, prov) {
        Some(m) => match found(pos, m) {
            Some(p) => Some((m, p)),
            None => None,
        },
        None => None,
    }
}

/// The one that loads later; the second of equals.
pub open spec fn later_of(
    a: Option<(Seq<char>, Position)>,
    b: Option<(Seq<char>, Position)>,
) -> Option<(Seq<char>, Position)> {
    match (a, b) {
        (Some(x), Some(y)) => if loads_before(y.1, x.1) {
            Some(x)
        } else {
            Some(y)
        },
        (Some(x), None) => Some(x),
        (None, y) => y,
    }
}

/// The latest of the mods that provide the first `n` masters.
pub open spec fn latest_master(
    name: Seq<char>,
    plugins: Seq<Seq<char>>,
    base: Seq<Seq<char>>,
    prov: Providers,
    pos: Positions,
    n: int,
) -> Option<(Seq<char>, Position)>
    decreases n,
{
    if n <= 0 {
        None
    } else {
        later_of(
            latest_master(name, plugins, base, prov, pos, n - 1),
            master_at(name, plugins[n - 1], base, prov, pos),
        )
    }
}

/// A master-file mod of the census other than `name`, with its position.
pub open spec fn esm_position(
    row: (Seq<char>, Seq<char>, crate::plugins::PluginView),
    name: Seq<char>,
    census: CensusView,
    pos: Positions,
) -> Option<(Seq<char>, Position)> {
    if is_esm_entry_of(row.0, Some(census)) && row.0 != name {
        match found(pos, row.0) {
            Some(p) => Some((row.0, p)),
            None => None,
        }
    } else {
        None
    }
}

pub open spec fn latest_esm(name: Seq<char>, census: CensusView, pos: Positions, n: int) -> Option<
    (Seq<char>, Position),
>
    decreases n,
{
    if n <= 0 {
        None
    } else {
        later_of(
            latest_esm(name, census, pos, n - 1),
            esm_position(census[n - 1], name, census, pos),
        )
    }
}

pub open spec fn position_text(p: Position) -> Seq<char> {
    "("@ + decimal(p.0 as nat) + ", "@ + decimal(p.1 as nat) + ")"@
}

pub struct Audit {
    pub plan: PlanView,
    pub reported: Seq<Seq<char>>,
    pub forced: nat,
}

pub open spec fn label_at(sections: Seq<SectionView>, i: usize) -> Seq<char> {
    if i < sections.len() {
        sections[i as int].label
    } else {
        ""@
    }
}

/// The words of the two order audits.
pub struct Words {
    pub subject: Seq<char>,
    pub before: Seq<char>,
    pub tag: Seq<char>,
}

pub open spec fn master_words() -> Words {
    Words { subject: ""@, before: " loads before its master "@, tag: "[master order]"@ }
}

pub open spec fn esm_words() -> Words {
    Words { subject: "non-ESM "@, before: " loads before ESM "@, tag: "[ESM order] non-ESM"@ }
}

/// A mod that loads before one it must load after is reported, once for each mod. A
/// pin may have forced it.
pub open spec fn order_noted(
    a: Audit,
    name: Seq<char>,
    at: Position,
    other: Option<(Seq<char>, Position)>,
    pins: Seq<Seq<char>>,
    w: Words,
) -> Audit {
    match other {
        Some((later, p)) => if !loads_before(at, p) || a.reported.contains(name) {
            a
        } else {
            let by_pin = pins.contains(name) || pins.contains(later);
            let t = traced(
                a.plan,
                "  AUDIT FAIL "@ + w.subject + name + w.before + later + " (load "@ + position_text(
                    at,
                ) + " < "@ + position_text(p) + ")"@ + (if by_pin {
                    " [forced by user pin]"@
                } else {
                    ""@
                }),
            );
            let forced_text = if by_pin {
                " (forced by user pin)"@
            } else {
                ""@
            };
            let l = logged(t, "WARN  "@ + w.subject + name + w.before + later + forced_text);
            Audit {
                plan: listed(
                    l,
                    ChangeView {
                        kind: ChangeKind::Warn,
                        name,
                        detail: w.tag + w.before + later + forced_text,
                        section: label_at(a.plan.sections, at.0),
                    },
                ),
                reported: a.reported.push(name),
                forced: if by_pin {
                    a.forced + 1
                } else {
                    a.forced
                },
            }
        },
        None => a,
    }
}

pub open spec fn masters_audited(
    a: Audit,
    census: CensusView,
    base: Seq<Seq<char>>,
    prov: Providers,
    pos: Positions,
    pins: Seq<Seq<char>>,
    n: int,
) -> Audit
    decreases n,
{
    if n <= 0 {
        a
    } else {
        let before = masters_audited(a, census, base, prov, pos, pins, n - 1);
        let (name, _, p) = census[n - 1];
        match found(pos, name) {
            Some(at) => order_noted(
                before,
                name,
                at,
                latest_master(name, p.masters, base, prov, pos, p.masters.len() as int),
                pins,
                master_words(),
            ),
            None => before,
        }
    }
}

pub open spec fn esms_audited(
    a: Audit,
    census: CensusView,
    pos: Positions,
    pins: Seq<Seq<char>>,
    n: int,
) -> Audit
    decreases n,
{
    if n <= 0 {
        a
    } else {
        let before = esms_audited(a, census, pos, pins, n - 1);
        let name = census[n - 1].0;
        if is_esm_entry_of(name, Some(census)) {
            before
        } else {
            match found(pos, name) {
                Some(at) => order_noted(
                    before,
                    name,
                    at,
                    latest_esm(name, census, pos, census.len() as int),
                    pins,
                    esm_words(),
                ),
                None => before,
            }
        }
    }
}

/// The audit of master order; the breaches are the lines that it adds to the log.
pub open spec fn order_audited(
    plan: PlanView,
    census: CensusView,
    base: Seq<Seq<char>>,
    pins: Seq<Seq<char>>,
) -> PlanView {
    let prov = masters::providers(census);
    let pos = positions(plan.sections);
    let start = traced(plan, "\n--- audit gate: master order ---"@);
    let a = masters_audited(
        Audit { plan: start, reported: Seq::empty(), forced: 0 },
        census,
        base,
        prov,
        pos,
        pins,
        census.len() as int,
    );
    let b = esms_audited(a, census, pos, pins, census.len() as int);
    traced(
        b.plan,
        "  master-order audit complete: "@ + decimal((b.plan.log.len() - start.log.len()) as nat)
            + " violation(s) ("@ + decimal(b.forced) + " forced by user pins)"@,
    )
}

fn show_position(p: Position) -> (r: String)
    ensures
        r@ == position_text(p),
{
    let a = text::dec(p.0 as u128);
    let b = text::dec(p.1 as u128);
    let mut r = text::cat3("(", a.as_str(), ", ");
    r.append(b.as_str());
    r.append(")");
    r
}

fn pick_later(a: Option<(String, Position)>, b: Option<(String, Position)>) -> (r: Option<
    (String, Position),
>)
    ensures
        r.deep_view() == later_of(a.deep_view(), b.deep_view()),
{
    match (a, b) {
        (Some(x), Some(y)) => if is_before(y.1, x.1) {
            Some(x)
        } else {
            Some(y)
        },
        (Some(x), None) => Some(x),
        (None, y) => y,
    }
}

fn find_latest_master(
    name: &str,
    plugins: &Vec<String>,
    base: &[&str],
    prov: &TextMap<String>,
    pos: &TextMap<Position>,
) -> (r: Option<(String, Position)>)
    ensures
        r.deep_view() == latest_master(
            name@,
            plugins.deep_view(),
            base.deep_view(),
            prov.deep_view(),
            pos.deep_view(),
            plugins.len() as int,
        ),
{
    let ghost pv = plugins.deep_view();
    let mut best: Option<(String, Position)> = None;
    let mut i: usize = 0;
    while i < plugins.len()
        invariant
            i <= plugins.len(),
            pv == plugins.deep_view(),
            best.deep_view() == latest_master(
                name@,
                pv,
                base.deep_view(),
                prov.deep_view(),
                pos.deep_view(),
                i as int,
            ),
        decreases plugins.len() - i,
    {
        assert(pv[i as int] == plugins@[i as int]@);
        let plugin = plugins[i].as_str();
        let mut other: Option<(String, Position)> = None;
        if !masters::base_master(base, plugin) {
            if let Some(m) = prov.get(plugin) {
                if !text::same(m.as_str(), name) {
                    if let Some(p) = pos.get(m.as_str()) {
                        other = Some((m.clone(), *p));
                    }
                }
            }
        }
        assert(other.deep_view() == master_at(
            name@,
            pv[i as int],
            base.deep_view(),
            prov.deep_view(),
            pos.deep_view(),
        ));
        best = pick_later(best, other);
        i = i + 1;
    }
    best
}

fn find_latest_esm(name: &str, census: &Census, pos: &TextMap<Position>) -> (r: Option<
    (String, Position),
>)
    ensures
        r.deep_view() == latest_esm(
            name@,
            census.deep_view(),
            pos.deep_view(),
            census.len() as int,
        ),
{
    let ghost cv = census.deep_view();
    let mut best: Option<(String, Position)> = None;
    let mut i: usize = 0;
    while i < census.len()
        invariant
            i <= census.len(),
            cv == census.deep_view(),
            best.deep_view() == latest_esm(name@, cv, pos.deep_view(), i as int),
        decreases census.len() - i,
    {
        let row = &census[i];
        assert(cv[i as int] == row.deep_view());
        let mut other: Option<(String, Position)> = None;
        if masters::is_esm_entry(row.0.as_str(), Some(census)) && !text::same(
            row.0.as_str(),
            name,
        ) {
            if let Some(p) = pos.get(row.0.as_str()) {
                other = Some((row.0.clone(), *p));
            }
        }
        assert(other.deep_view() == esm_position(cv[i as int], name@, cv, pos.deep_view()));
        best = pick_later(best, other);
        i = i + 1;
    }
    best
}

struct Notes {
    reported: Vec<String>,
    forced: usize,
}

struct Phrases {
    subject: &'static str,
    before: &'static str,
    tag: &'static str,
}

impl Phrases {
    spec fn view(&self) -> Words {
        Words { subject: self.subject@, before: self.before@, tag: self.tag@ }
    }
}

spec fn audit_view(plan: &Plan, notes: &Notes) -> Audit {
    Audit {
        plan: plan.deep_view(),
        reported: notes.reported.deep_view(),
        forced: notes.forced as nat,
    }
}

/// The forced breaches have their lines in the log since `start`.
spec fn noted(plan: &Plan, notes: &Notes, start: usize) -> bool {
    counted(plan.deep_view()) && notes.forced + start <= plan.deep_view().log.len()
}

fn note_order(
    plan: &mut Plan,
    notes: &mut Notes,
    name: &str,
    at: Position,
    other: Option<(String, Position)>,
    pins: &Vec<String>,
    w: &Phrases,
    start: usize,
)
    requires
        noted(old(plan), old(notes), start),
    ensures
        audit_view(final(plan), final(notes)) == order_noted(
            audit_view(old(plan), old(notes)),
            name@,
            at,
            other.deep_view(),
            pins.deep_view(),
            w.view(),
        ),
        noted(final(plan), final(notes), start),
        final(plan).deep_view().sections == old(plan).deep_view().sections,
{
    match other {
        Some((later, p)) => {
            if !is_before(at, p) || list::holds(&notes.reported, name) {
                return ;
            }
            let by_pin = list::holds(pins, name) || list::holds(pins, later.as_str());
            let a = show_position(at);
            let b = show_position(p);
            let mut line = text::cat3("  AUDIT FAIL ", w.subject, name);
            line.append(w.before);
            line.append(later.as_str());
            line.append(" (load ");
            line.append(a.as_str());
            line.append(" < ");
            line.append(b.as_str());
            line.append(")");
            line.append(
                if by_pin {
                    " [forced by user pin]"
                } else {
                    ""
                },
            );
            plan.trace_line(line);
            let forced_text = if by_pin {
                " (forced by user pin)"
            } else {
                ""
            };
            let mut line = text::cat3("WARN  ", w.subject, name);
            line.append(w.before);
            line.append(later.as_str());
            line.append(forced_text);
            plan.log_line(line);
            let len: usize = plan.log.len();
            assert(plan.log.deep_view().len() == len);
            assert(plan.sections.deep_view().len() == plan.sections.len());
            let section = if at.0 < plan.sections.len() {
                assert(plan.sections.deep_view()[at.0 as int]
                    == plan.sections@[at.0 as int].deep_view());
                plan.sections[at.0].label.clone()
            } else {
                "".to_string()
            };
            let mut detail = text::cat3(w.tag, w.before, later.as_str());
            detail.append(forced_text);
            plan.list_change(
                Change { kind: ChangeKind::Warn, name: name.to_string(), detail, section },
            );
            list::put(&mut notes.reported, name.to_string());
            if by_pin {
                notes.forced = notes.forced + 1;
            }
        },
        None => {},
    }
}

/// Audits the order of masters and of master files.
pub fn audit_order(plan: &mut Plan, census: &Census, base: &[&str], pins: &Vec<String>)
    requires
        counted(old(plan).deep_view()),
    ensures
        final(plan).deep_view() == order_audited(
            old(plan).deep_view(),
            census.deep_view(),
            base.deep_view(),
            pins.deep_view(),
        ),
        counted(final(plan).deep_view()),
{
    let ghost cv = census.deep_view();
    let ghost bv = base.deep_view();
    let ghost pins_view = pins.deep_view();
    let prov = masters::provider_map(census);
    let pos = position_map(&plan.sections);
    let ghost posv = pos.deep_view();
    let ghost provv = prov.deep_view();
    plan.trace_line("\n--- audit gate: master order ---".to_string());
    let ghost first = plan.deep_view();
    let start: usize = plan.log.len();
    assert(first.log.len() == start);
    let mut notes = Notes { reported: list::none(), forced: 0 };
    let ghost a0 = audit_view(plan, &notes);
    let words = Phrases {
        subject: "",
        before: " loads before its master ",
        tag: "[master order]",
    };
    let mut i: usize = 0;
    while i < census.len()
        invariant
            i <= census.len(),
            cv == census.deep_view(),
            bv == base.deep_view(),
            pins_view == pins.deep_view(),
            provv == prov.deep_view(),
            posv == pos.deep_view(),
            words.view() == master_words(),
            noted(plan, &notes, start),
            audit_view(plan, &notes) == masters_audited(
                a0,
                cv,
                bv,
                provv,
                posv,
                pins_view,
                i as int,
            ),
        decreases census.len() - i,
    {
        let row = &census[i];
        assert(cv[i as int] == row.deep_view());
        if let Some(at) = pos.get(row.0.as_str()) {
            let other = find_latest_master(row.0.as_str(), &row.2.masters, base, &prov, &pos);
            assert(row.2.masters.deep_view().len() == row.2.masters.len());
            note_order(plan, &mut notes, row.0.as_str(), *at, other, pins, &words, start);
        }
        i = i + 1;
    }
    assert(cv.len() == census.len());
    let ghost a1 = audit_view(plan, &notes);
    let words = Phrases {
        subject: "non-ESM ",
        before: " loads before ESM ",
        tag: "[ESM order] non-ESM",
    };
    let mut i: usize = 0;
    while i < census.len()
        invariant
            i <= census.len() == cv.len(),
            cv == census.deep_view(),
            pins_view == pins.deep_view(),
            posv == pos.deep_view(),
            words.view() == esm_words(),
            noted(plan, &notes, start),
            audit_view(plan, &notes) == esms_audited(a1, cv, posv, pins_view, i as int),
        decreases census.len() - i,
    {
        let row = &census[i];
        assert(cv[i as int] == row.deep_view());
        if !masters::is_esm_entry(row.0.as_str(), Some(census)) {
            if let Some(at) = pos.get(row.0.as_str()) {
                let other = find_latest_esm(row.0.as_str(), census, &pos);
                note_order(plan, &mut notes, row.0.as_str(), *at, other, pins, &words, start);
            }
        }
        i = i + 1;
    }
    assert(plan.log.deep_view().len() == plan.log.len());
    let fails: usize = plan.log.len() - start;
    let n = text::dec(fails as u128);
    let k = text::dec(notes.forced as u128);
    let mut line = text::cat3("  master-order audit complete: ", n.as_str(), " violation(s) (");
    line.append(k.as_str());
    line.append(" forced by user pins)");
    plan.trace_line(line);
}

} // verus!
