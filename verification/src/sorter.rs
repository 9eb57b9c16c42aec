//! A whole sort, in memory: sections, parked mods, the order inside each section, and
//! the audit. Nothing is written; the caller decides what to do with the plan.
use vstd::prelude::*;
use crate::audit;
#[allow(unused_imports)]
use crate::audit::{order_audited, winners_audited, with_sections};
use crate::categories::Categories;
#[allow(unused_imports)]
use crate::categories::CategoriesView;
use crate::conflicts::ConflictIndex;
#[allow(unused_imports)]
use crate::conflicts::{pairs_count, ConflictView};
use crate::decide;
use crate::decide::Decision;
#[allow(unused_imports)]
use crate::decide::{category_text, decision, decisions_first, detail_of, family_decisions, held_first, known_first, masters_decided, master_first, masters_first, placed, ruling, DecisionView, Decisions, Placed};
use crate::game;
#[allow(unused_imports)]
use crate::game::{info_of, selected};
use crate::keywords::Keywords;
#[allow(unused_imports)]
use crate::keywords::KeywordsView;
use crate::list;
#[allow(unused_imports)]
use crate::list::firsts;
use crate::loot::LootData;
#[allow(unused_imports)]
use crate::loot::{Edges, LootView};
use crate::map::TextMap;
#[allow(unused_imports)]
use crate::map::{found, insert_then_get};
use crate::masters;
use crate::masters::Census;
#[allow(unused_imports)]
use crate::masters::{content_parents, loot_parents, pulled};
use crate::matching;
#[allow(unused_imports)]
use crate::matching::labelled;
use crate::modlist;
use crate::modlist::{ModEntry, Modlist, Section};
#[allow(unused_imports)]
use crate::modlist::{entry_of, EntryView, ModlistView, SectionView};
use crate::place;
use crate::place::Inputs;
#[allow(unused_imports)]
use crate::place::{arranged, mod_from, Facts};
use crate::plan::{Change, ChangeKind, Plan};
#[allow(unused_imports)]
use crate::plan::{bumped, counted, listed, logged, traced, why_text, ChangeView, PlanView};
#[allow(unused_imports)]
use crate::plugins::CensusView;
use crate::rules::Rules;
#[allow(unused_imports)]
use crate::rules::RulesView;
use crate::suggest;
#[allow(unused_imports)]
use crate::suggest::{is_dump, rename_notes, renames_first, resolution_lines, resolved_rules};
use crate::text;
#[allow(unused_imports)]
use crate::text::{ascii_lowered, decimal, ended};

verus! {

pub const VERSION: &'static str = "0.1.0";

/// What a run draws on.
pub struct Sources {
    pub rules: RulesView,
    pub cats: Option<CategoriesView>,
    pub conflicts: Option<ConflictView>,
    pub census: Option<CensusView>,
    pub kw: KeywordsView,
    pub loot: Option<LootView>,
    pub solo: bool,
}

pub open spec fn with_trace(p: PlanView, lines: Seq<Seq<char>>) -> PlanView {
    PlanView { trace: p.trace + lines, ..p }
}

// ---- the head of the diagnostic ----

pub open spec fn keyword_line(kw: KeywordsView) -> Seq<Seq<char>> {
    if kw.alias.len() > 0 || kw.family.len() > 0 || kw.never.len() > 0 {
        seq![
            "keywords.ini: "@ + decimal(kw.alias.len()) + " aliases, "@ + decimal(kw.family.len())
                + " family members, "@ + decimal(kw.never.len()) + " never-rules"@,
        ]
    } else {
        Seq::empty()
    }
}

pub open spec fn head_lines(i: Sources) -> Seq<Seq<char>> {
    (if i.solo {
        seq![
            "user-rules-only apply: solo run - only modslut_rules.txt rules act (loot/family/census/conflict passes skipped)"@,
        ]
    } else {
        Seq::empty()
    }) + keyword_line(i.kw) + seq![
        "=== modslut v"@ + VERSION@ + " debug trace ==="@,
        "built: "@ + VERSION@ + " local"@,
        "categories.dat: "@ + (if i.cats is Some {
            "found"@
        } else {
            "NOT FOUND - category tiers skipped"@
        }),
        "conflict index: "@ + (match i.conflicts {
            Some(c) => decimal(pairs_count(c.pairs, c.pairs.len() as int))
                + " related pair(s) loaded"@,
            None => "NOT AVAILABLE - conflict auto-fix pass skipped"@,
        }),
    ]
}

fn trace_head(
    plan: &mut Plan,
    cats: Option<&Categories>,
    conflicts: Option<&ConflictIndex>,
    kw: &Keywords,
    solo: bool,
    i: Ghost<Sources>,
)
    requires
        i@.cats == cats.deep_view(),
        i@.conflicts == conflicts.deep_view(),
        i@.kw == kw.deep_view(),
        i@.solo == solo,
    ensures
        final(plan).deep_view() == with_trace(old(plan).deep_view(), head_lines(i@)),
{
    let ghost start = plan.trace.deep_view();
    if solo {
        plan.trace_line(
            "user-rules-only apply: solo run - only modslut_rules.txt rules act (loot/family/census/conflict passes skipped)".to_string(),
        );
    }
    assert(kw.never.deep_view().len() == kw.never.len());
    if kw.alias.len() > 0 || kw.family.len() > 0 || kw.never.len() > 0 {
        let a = text::dec(kw.alias.len() as u128);
        let b = text::dec(kw.family.len() as u128);
        let c = text::dec(kw.never.len() as u128);
        let mut line = text::cat3("keywords.ini: ", a.as_str(), " aliases, ");
        line.append(b.as_str());
        line.append(" family members, ");
        line.append(c.as_str());
        line.append(" never-rules");
        plan.trace_line(line);
    }
    plan.trace_line(text::cat3("=== modslut v", VERSION, " debug trace ==="));
    plan.trace_line(text::cat3("built: ", VERSION, " local"));
    plan.trace_line(
        text::cat(
            "categories.dat: ",
            if cats.is_some() {
                "found"
            } else {
                "NOT FOUND - category tiers skipped"
            },
        ),
    );
    let note = match conflicts {
        Some(c) => {
            let n = text::dec(c.count());
            text::cat(n.as_str(), " related pair(s) loaded")
        },
        None => "NOT AVAILABLE - conflict auto-fix pass skipped".to_string(),
    };
    plan.trace_line(text::cat("conflict index: ", note.as_str()));
    assert(plan.trace.deep_view() =~= start + head_lines(i@));
}

// ---- new names for separators ----

pub open spec fn renamed_one(p: PlanView, r: (usize, Seq<char>)) -> PlanView {
    let (i, label) = r;
    if i < p.sections.len() {
        let before = p.sections[i as int].label;
        let line = "REN   ["@ + before + "] -> ["@ + label + "]"@;
        let q = bumped(traced(p, "  "@ + line), line);
        listed(
            PlanView {
                sections: q.sections.update(i as int, SectionView { label, ..q.sections[i as int] }),
                ..q
            },
            ChangeView {
                kind: ChangeKind::Rename,
                name: before,
                detail: "renamed to ["@ + label + "]"@,
                section: before,
            },
        )
    } else {
        p
    }
}

pub open spec fn renamed_first(p: PlanView, renames: Seq<(usize, Seq<char>)>, n: int) -> PlanView
    decreases n,
{
    if n <= 0 {
        p
    } else {
        renamed_one(renamed_first(p, renames, n - 1), renames[n - 1])
    }
}

/// Separators get the names of the concepts that they hold, where the rules ask for it.
pub open spec fn renamed(p: PlanView, i: Sources) -> PlanView {
    if i.rules.rename_separators {
        let n = p.sections.len() as int;
        let renames = renames_first(p.sections, i.cats, n);
        let a = with_trace(p, rename_notes(p.sections, i.cats, n));
        let b = if renames.len() > 0 {
            traced(
                a,
                "\n--- pass 0: separator auto-rename ("@ + decimal(renames.len())
                    + " separator(s)) ---"@,
            )
        } else {
            a
        };
        renamed_first(b, renames, renames.len() as int)
    } else {
        traced(
            p,
            "\n--- pass 0: separator auto-rename OFF (add `!rename-separators` to modslut_rules.txt to enable) ---"@,
        )
    }
}

fn rename_section(plan: &mut Plan, i: usize, label: &str)
    requires
        counted(old(plan).deep_view()),
    ensures
        final(plan).deep_view() == renamed_one(old(plan).deep_view(), (i, label@)),
        counted(final(plan).deep_view()),
{
    assert(plan.sections.deep_view().len() == plan.sections.len());
    if i < plan.sections.len() {
        let ghost secs = plan.sections.deep_view();
        assert(secs[i as int] == plan.sections@[i as int].deep_view());
        let before = plan.sections[i].label.clone();
        let mut line = text::cat3("REN   [", before.as_str(), "] -> [");
        line.append(label);
        line.append("]");
        plan.trace_line(text::cat("  ", line.as_str()));
        plan.count_change(line);
        plan.sections[i].label = label.to_string();
        assert(plan.sections.deep_view() =~= secs.update(
            i as int,
            SectionView { label: label@, ..secs[i as int] },
        ));
        plan.list_change(
            Change {
                kind: ChangeKind::Rename,
                name: before.clone(),
                detail: text::cat3("renamed to [", label, "]"),
                section: before,
            },
        );
    }
}

fn rename_sections(plan: &mut Plan, rules: &Rules, cats: Option<&Categories>, i: Ghost<Sources>)
    requires
        counted(old(plan).deep_view()),
        i@.rules == rules.deep_view(),
        i@.cats == cats.deep_view(),
    ensures
        final(plan).deep_view() == renamed(old(plan).deep_view(), i@),
        counted(final(plan).deep_view()),
{
    if rules.rename_separators {
        assert(plan.sections.deep_view().len() == plan.sections.len());
        let renames = suggest::suggest_renames(&plan.sections, cats, &mut plan.trace);
        let ghost rv = renames.deep_view();
        assert(rv.len() == renames.len());
        if renames.len() > 0 {
            let n = text::dec(renames.len() as u128);
            plan.trace_line(
                text::cat3(
                    "\n--- pass 0: separator auto-rename (",
                    n.as_str(),
                    " separator(s)) ---",
                ),
            );
        }
        let ghost start = plan.deep_view();
        let mut k: usize = 0;
        while k < renames.len()
            invariant
                k <= renames.len() == rv.len(),
                rv == renames.deep_view(),
                counted(plan.deep_view()),
                plan.deep_view() == renamed_first(start, rv, k as int),
            decreases renames.len() - k,
        {
            assert(rv[k as int] == renames@[k as int].deep_view());
            rename_section(plan, renames[k].0, renames[k].1.as_str());
            k = k + 1;
        }
    } else {
        plan.trace_line(
            "\n--- pass 0: separator auto-rename OFF (add `!rename-separators` to modslut_rules.txt to enable) ---".to_string(),
        );
    }
}

// ---- pins ----

/// The mods that a rule pins: what is proven of plugins does not draw them out of their
/// section.
pub open spec fn pins_of(r: RulesView) -> Seq<Seq<char>> {
    firsts(r.exact) + firsts(r.sink) + r.sink_any + firsts(r.float)
}

/// The mods with an exact rule: they keep their place in their section too. A sunk or
/// floated mod has no place of its own but an end of its section.
pub open spec fn fixed_of(r: RulesView) -> Seq<Seq<char>> {
    firsts(r.exact)
}

fn add_firsts(out: &mut Vec<String>, pairs: &Vec<(String, String)>)
    ensures
        final(out).deep_view() == old(out).deep_view() + firsts(pairs.deep_view()),
{
    let ghost start = out.deep_view();
    let ghost all = firsts(pairs.deep_view());
    let mut i: usize = 0;
    assert(start + all.take(0) =~= start);
    while i < pairs.len()
        invariant
            i <= pairs.len(),
            all == firsts(pairs.deep_view()),
            out.deep_view() == start + all.take(i as int),
        decreases pairs.len() - i,
    {
        assert(all[i as int] == pairs@[i as int].0@);
        list::put(out, pairs[i].0.clone());
        i = i + 1;
        assert(out.deep_view() =~= start + all.take(i as int));
    }
    assert(all.take(i as int) =~= all);
}

fn find_pins(rules: &Rules) -> (r: Vec<String>)
    ensures
        r.deep_view() == pins_of(rules.deep_view()),
{
    let mut out: Vec<String> = list::none();
    add_firsts(&mut out, &rules.exact);
    add_firsts(&mut out, &rules.sink);
    list::put_all(&mut out, list::copy(&rules.sink_any));
    add_firsts(&mut out, &rules.float);
    assert(out.deep_view() =~= pins_of(rules.deep_view()));
    out
}

fn find_fixed(rules: &Rules) -> (r: Vec<String>)
    ensures
        r.deep_view() == fixed_of(rules.deep_view()),
{
    let mut out: Vec<String> = list::none();
    add_firsts(&mut out, &rules.exact);
    assert(out.deep_view() =~= fixed_of(rules.deep_view()));
    out
}

// ---- moves ----

pub type Move = (Seq<char>, Seq<char>, Seq<char>);

pub struct Survey {
    pub moves: Seq<Move>,
    pub lines: Seq<Seq<char>>,
    pub blocked: nat,
}

pub open spec fn mod_line(
    name: Seq<char>,
    cat: Seq<char>,
    why: Seq<char>,
    to: Option<Seq<char>>,
) -> Seq<char> {
    "  "@ + name + " | cat "@ + cat + " | "@ + why + " | "@ + (match to {
        Some(w) => "MOVE -> ["@ + w + "]"@,
        None => "stay"@,
    })
}

/// The section that a decision moves a mod to, if it is another one.
pub open spec fn leaves_for(d: DecisionView) -> Option<Seq<char>> {
    match d.want {
        Some(w) => if w != d.from {
            Some(w)
        } else {
            None
        },
        None => None,
    }
}

/// One mod is surveyed: it moves, unless a waiting room is its destination.
pub open spec fn survey_one(s: Survey, m: EntryView, decisions: Decisions, dump: Seq<Seq<char>>) -> Survey {
    match found(decisions, m.name) {
        Some(d) => match leaves_for(d) {
            Some(w) => if is_dump(dump, w) {
                Survey {
                    lines: s.lines.push(
                        "  "@ + m.name + " | BLOCKED: ["@ + w
                            + "] is a dump section - staying in ["@ + d.from + "]"@,
                    ),
                    blocked: s.blocked + 1,
                    ..s
                }
            } else {
                Survey {
                    moves: s.moves.push((m.name, d.from, w)),
                    lines: s.lines.push(mod_line(m.name, d.cat_str, why_text(d.why), Some(w))),
                    ..s
                }
            },
            None => Survey {
                lines: s.lines.push(mod_line(m.name, d.cat_str, why_text(d.why), None)),
                ..s
            },
        },
        None => s,
    }
}

pub open spec fn survey_first(
    mods: Placed,
    decisions: Decisions,
    dump: Seq<Seq<char>>,
    n: int,
) -> Survey
    decreases n,
{
    if n <= 0 {
        Survey { moves: Seq::empty(), lines: Seq::empty(), blocked: 0 }
    } else {
        survey_one(
            survey_first(mods, decisions, dump, n - 1),
            mods[n - 1].1,
            decisions,
            dump,
        )
    }
}

/// The first section from `i` on with that label, whatever its case.
pub open spec fn labelled_like(sections: Seq<SectionView>, label: Seq<char>, i: int) -> Option<int>
    decreases sections.len() - i,
{
    if i < 0 || i >= sections.len() {
        None
    } else if ascii_lowered(sections[i].label) == ascii_lowered(label) {
        Some(i)
    } else {
        labelled_like(sections, label, i + 1)
    }
}

/// How many of the first `n` mods of a waiting room nothing claims.
pub open spec fn unclaimed_first(s: SectionView, decisions: Decisions, n: int) -> nat
    decreases n,
{
    if n <= 0 {
        0
    } else {
        unclaimed_first(s, decisions, n - 1) + (match found(decisions, s.mods[n - 1].name) {
            Some(d) => if d.want is None || d.want == Some(s.label) {
                1nat
            } else {
                0
            },
            None => 0,
        })
    }
}

pub open spec fn dump_one(
    p: PlanView,
    dump: Seq<char>,
    decisions: Decisions,
) -> PlanView {
    match labelled_like(p.sections, dump, 0) {
        Some(i) => {
            let s = p.sections[i];
            let staying = unclaimed_first(s, decisions, s.mods.len() as int);
            let filed = (s.mods.len() - staying) as nat;
            let t = s.label + "]: "@ + decimal(filed) + " filed out, "@ + decimal(staying)
                + " unclaimed"@;
            logged(
                traced(
                    p,
                    "dump section ["@ + t + (if staying > 0 {
                        " (no rule/category/keyword matched them)"@
                    } else {
                        ""@
                    }),
                ),
                "DUMP  ["@ + t,
            )
        },
        None => p,
    }
}

pub open spec fn dumps_first(
    p: PlanView,
    dump: Seq<Seq<char>>,
    decisions: Decisions,
    n: int,
) -> PlanView
    decreases n,
{
    if n <= 0 {
        p
    } else {
        dump_one(dumps_first(p, dump, decisions, n - 1), dump[n - 1], decisions)
    }
}

pub open spec fn with_mods(s: SectionView, mods: Seq<EntryView>) -> SectionView {
    SectionView { mods, ..s }
}

/// A mod is taken out of one section and put at the end of another. There is nothing to
/// take where the first section of the one label does not hold a mod of that name.
pub open spec fn moved_one(p: PlanView, mv: Move) -> Option<PlanView> {
    let (name, from, to) = mv;
    let q = listed(
        bumped(p, "MOVE  "@ + name + "   ["@ + from + " -> "@ + to + "]"@),
        ChangeView {
            kind: ChangeKind::Move,
            name,
            detail: from + " -> "@ + to,
            section: from,
        },
    );
    match labelled(p.sections, from, 0) {
        Some(si) => match mod_from(p.sections[si].mods, name, 0) {
            Some(mi) => {
                let s = p.sections[si];
                let taken = p.sections.update(si, with_mods(s, s.mods.remove(mi)));
                match labelled(taken, to, 0) {
                    Some(di) => Some(
                        with_sections(
                            q,
                            taken.update(di, with_mods(taken[di], taken[di].mods.push(s.mods[mi]))),
                        ),
                    ),
                    None => None,
                }
            },
            None => None,
        },
        None => None,
    }
}

pub open spec fn moved_first(p: PlanView, moves: Seq<Move>, n: int) -> Option<PlanView>
    decreases n,
{
    if n <= 0 {
        Some(p)
    } else {
        match moved_first(p, moves, n - 1) {
            Some(q) => moved_one(q, moves[n - 1]),
            None => None,
        }
    }
}

fn show_mod(name: &str, cat: &str, why: &str, to: &Option<String>) -> (r: String)
    ensures
        r@ == mod_line(name@, cat@, why@, to.deep_view()),
{
    let tail = match to {
        Some(w) => text::cat3("MOVE -> [", w.as_str(), "]"),
        None => "stay".to_string(),
    };
    let mut r = text::cat3("  ", name, " | cat ");
    r.append(cat);
    r.append(" | ");
    r.append(why);
    r.append(" | ");
    r.append(tail.as_str());
    r
}

struct Findings {
    moves: Vec<(String, String, String)>,
    lines: Vec<String>,
    blocked: usize,
}

spec fn findings_view(f: &Findings) -> Survey {
    Survey {
        moves: f.moves.deep_view(),
        lines: f.lines.deep_view(),
        blocked: f.blocked as nat,
    }
}

fn survey(mods: &Vec<(String, ModEntry)>, decisions: &TextMap<Decision>, dump: &Vec<String>) -> (r: Findings)
    ensures
        findings_view(&r) == survey_first(
            mods.deep_view(),
            decisions.deep_view(),
            dump.deep_view(),
            mods.len() as int,
        ),
{
    let ghost ms = mods.deep_view();
    let ghost ds = decisions.deep_view();
    let ghost dv = dump.deep_view();
    let mut f = Findings { moves: list::none(), lines: list::none(), blocked: 0 };
    let mut i: usize = 0;
    while i < mods.len()
        invariant
            i <= mods.len(),
            ms == mods.deep_view(),
            ds == decisions.deep_view(),
            dv == dump.deep_view(),
            f.blocked <= i,
            findings_view(&f) == survey_first(ms, ds, dv, i as int),
        decreases mods.len() - i,
    {
        let m = &mods[i].1;
        assert(ms[i as int] == mods@[i as int].deep_view());
        if let Some(d) = decisions.get(m.name.as_str()) {
            let to = match &d.want {
                Some(w) => if !(*w == d.from) {
                    Some(w.clone())
                } else {
                    None
                },
                None => None,
            };
            assert(to.deep_view() == leaves_for(d.deep_view()));
            let why = d.why.describe();
            match &to {
                Some(w) => {
                    if suggest::in_dump(dump, w.as_str()) {
                        let mut line = text::cat3("  ", m.name.as_str(), " | BLOCKED: [");
                        line.append(w.as_str());
                        line.append("] is a dump section - staying in [");
                        line.append(d.from.as_str());
                        line.append("]");
                        list::put(&mut f.lines, line);
                        f.blocked = f.blocked + 1;
                    } else {
                        let line = show_mod(
                            m.name.as_str(),
                            d.cat_str.as_str(),
                            why.as_str(),
                            &to,
                        );
                        list::put(&mut f.lines, line);
                        list::put(&mut f.moves, (m.name.clone(), d.from.clone(), w.clone()));
                    }
                },
                None => {
                    let line = show_mod(m.name.as_str(), d.cat_str.as_str(), why.as_str(), &to);
                    list::put(&mut f.lines, line);
                },
            }
        }
        i = i + 1;
    }
    f
}

fn find_like(sections: &Vec<Section>, label: &str) -> (r: Option<usize>)
    ensures
        match r {
            Some(i) => labelled_like(sections.deep_view(), label@, 0) == Some(i as int) && i
                < sections.len(),
            None => labelled_like(sections.deep_view(), label@, 0) is None,
        },
{
    let ghost secs = sections.deep_view();
    let mut i: usize = 0;
    while i < sections.len()
        invariant
            i <= sections.len(),
            secs == sections.deep_view(),
            labelled_like(secs, label@, i as int) == labelled_like(secs, label@, 0),
        decreases sections.len() - i,
    {
        assert(secs[i as int] == sections@[i as int].deep_view());
        if text::same_ignoring_case(sections[i].label.as_str(), label) {
            return Some(i);
        }
        i = i + 1;
    }
    None
}

fn report_dump(plan: &mut Plan, dump: &str, decisions: &TextMap<Decision>)
    requires
        counted(old(plan).deep_view()),
    ensures
        final(plan).deep_view() == dump_one(
            old(plan).deep_view(),
            dump@,
            decisions.deep_view(),
        ),
        counted(final(plan).deep_view()),
{
    if let Some(i) = find_like(&plan.sections, dump) {
        let ghost sv = plan.sections.deep_view()[i as int];
        assert(sv == plan.sections@[i as int].deep_view());
        let s = &plan.sections[i];
        let mut staying: usize = 0;
        let mut k: usize = 0;
        while k < s.mods.len()
            invariant
                k <= s.mods.len() == sv.mods.len(),
                sv == s.deep_view(),
                staying <= k,
                staying == unclaimed_first(sv, decisions.deep_view(), k as int),
            decreases s.mods.len() - k,
        {
            assert(sv.mods[k as int] == s.mods@[k as int].deep_view());
            if let Some(d) = decisions.get(s.mods[k].name.as_str()) {
                let unclaimed = match &d.want {
                    Some(w) => *w == s.label,
                    None => true,
                };
                if unclaimed {
                    staying = staying + 1;
                }
            }
            k = k + 1;
        }
        let filed: usize = s.mods.len() - staying;
        let a = text::dec(filed as u128);
        let b = text::dec(staying as u128);
        let mut t = text::cat3(s.label.as_str(), "]: ", a.as_str());
        t.append(" filed out, ");
        t.append(b.as_str());
        t.append(" unclaimed");
        plan.trace_line(
            text::cat3(
                "dump section [",
                t.as_str(),
                if staying > 0 {
                    " (no rule/category/keyword matched them)"
                } else {
                    ""
                },
            ),
        );
        plan.log_line(text::cat("DUMP  [", t.as_str()));
        let len: usize = plan.log.len();
        assert(plan.log.deep_view().len() == len);
    }
}

fn take_mod(sections: &mut Vec<Section>, si: usize, mi: usize) -> (m: ModEntry)
    requires
        si < old(sections).len(),
        mi < old(sections).deep_view()[si as int].mods.len(),
    ensures
        ({
            let secs = old(sections).deep_view();
            let s = secs[si as int];
            &&& m.deep_view() == s.mods[mi as int]
            &&& final(sections).deep_view() == secs.update(
                si as int,
                with_mods(s, s.mods.remove(mi as int)),
            )
        }),
        final(sections).len() == old(sections).len(),
{
    let ghost secs = sections.deep_view();
    assert(secs[si as int] == sections@[si as int].deep_view());
    assert(secs[si as int].mods.len() == sections@[si as int].mods.len());
    let m = list::take_at(&mut sections[si].mods, mi);
    assert(sections.deep_view() =~= secs.update(
        si as int,
        with_mods(secs[si as int], secs[si as int].mods.remove(mi as int)),
    ));
    m
}

fn add_mod(sections: &mut Vec<Section>, si: usize, m: ModEntry)
    requires
        si < old(sections).len(),
    ensures
        ({
            let secs = old(sections).deep_view();
            let s = secs[si as int];
            final(sections).deep_view() == secs.update(
                si as int,
                with_mods(s, s.mods.push(m.deep_view())),
            )
        }),
        final(sections).len() == old(sections).len(),
{
    let ghost secs = sections.deep_view();
    assert(secs[si as int] == sections@[si as int].deep_view());
    list::put(&mut sections[si].mods, m);
    assert(sections.deep_view() =~= secs.update(
        si as int,
        with_mods(secs[si as int], secs[si as int].mods.push(m.deep_view())),
    ));
}

fn label_place(sections: &Vec<Section>, label: &str) -> (r: Option<usize>)
    ensures
        match r {
            Some(i) => labelled(sections.deep_view(), label@, 0) == Some(i as int) && i
                < sections.len(),
            None => labelled(sections.deep_view(), label@, 0) is None,
        },
{
    let slice = sections.as_slice();
    assert(slice.deep_view() =~= sections.deep_view());
    matching::find_label(slice, label)
}

fn apply_move(plan: &mut Plan, name: &str, from: &str, to: &str) -> (ok: bool)
    requires
        counted(old(plan).deep_view()),
    ensures
        match moved_one(old(plan).deep_view(), (name@, from@, to@)) {
            Some(q) => ok && final(plan).deep_view() == q && counted(q),
            None => !ok,
        },
{
    let mut line = text::cat3("MOVE  ", name, "   [");
    line.append(from);
    line.append(" -> ");
    line.append(to);
    line.append("]");
    plan.count_change(line);
    plan.list_change(
        Change {
            kind: ChangeKind::Move,
            name: name.to_string(),
            detail: text::cat3(from, " -> ", to),
            section: from.to_string(),
        },
    );
    let ghost secs = plan.sections.deep_view();
    let si = match label_place(&plan.sections, from) {
        Some(i) => i,
        None => {
            return false;
        },
    };
    assert(secs[si as int] == plan.sections@[si as int].deep_view());
    let mi = match place::find_mod(&plan.sections[si].mods, name) {
        Some(i) => i,
        None => {
            return false;
        },
    };
    assert(secs[si as int].mods.len() == plan.sections@[si as int].mods.len());
    let m = take_mod(&mut plan.sections, si, mi);
    let di = match label_place(&plan.sections, to) {
        Some(i) => i,
        None => {
            return false;
        },
    };
    add_mod(&mut plan.sections, di, m);
    true
}

proof fn lemma_moves_stopped(p: PlanView, moves: Seq<Move>, n: int, m: int)
    requires
        n <= m,
        moved_first(p, moves, n) is None,
    ensures
        moved_first(p, moves, m) is None,
    decreases m,
{
    if n < m {
        lemma_moves_stopped(p, moves, n, m - 1);
    }
}

fn apply_moves(plan: &mut Plan, moves: &Vec<(String, String, String)>) -> (ok: bool)
    requires
        counted(old(plan).deep_view()),
    ensures
        match moved_first(old(plan).deep_view(), moves.deep_view(), moves.len() as int) {
            Some(q) => ok && final(plan).deep_view() == q && counted(q),
            None => !ok,
        },
{
    let ghost start = plan.deep_view();
    let ghost mv = moves.deep_view();
    let mut i: usize = 0;
    while i < moves.len()
        invariant
            i <= moves.len(),
            mv == moves.deep_view(),
            start == old(plan).deep_view(),
            counted(plan.deep_view()),
            moved_first(start, mv, i as int) == Some(plan.deep_view()),
        decreases moves.len() - i,
    {
        let m = &moves[i];
        assert(mv[i as int] == m.deep_view());
        if !apply_move(plan, m.0.as_str(), m.1.as_str(), m.2.as_str()) {
            proof {
                lemma_moves_stopped(start, mv, i + 1, moves.len() as int);
            }
            return false;
        }
        i = i + 1;
    }
    true
}

// ---- parked mods ----

pub open spec fn parked_line(line: Seq<char>, rules: RulesView, i: Sources, sections: Seq<SectionView>) -> Seq<
    char,
> {
    let m = entry_of(line);
    let (want, why) = ruling(m, rules, i.cats, sections, i.solo);
    mod_line(m.name, category_text(detail_of(i.cats, m.name)), why_text(why), want)
}

pub open spec fn parked_lines(
    parking: Seq<Seq<char>>,
    rules: RulesView,
    i: Sources,
    sections: Seq<SectionView>,
    n: int,
) -> Seq<Seq<char>>
    decreases n,
{
    if n <= 0 {
        Seq::empty()
    } else {
        parked_lines(parking, rules, i, sections, n - 1).push(
            parked_line(parking[n - 1], rules, i, sections),
        )
    }
}

/// Where a rule files a parked mod.
pub open spec fn parked_target(
    line: Seq<char>,
    rules: RulesView,
    i: Sources,
    sections: Seq<SectionView>,
) -> Option<Seq<char>> {
    match ruling(entry_of(line), rules, i.cats, sections, i.solo).0 {
        Some(w) => if labelled(sections, w, 0) is Some {
            Some(w)
        } else {
            None
        },
        None => None,
    }
}

pub open spec fn parked_moves(
    parking: Seq<Seq<char>>,
    rules: RulesView,
    i: Sources,
    sections: Seq<SectionView>,
    n: int,
) -> Seq<(Seq<char>, Seq<char>)>
    decreases n,
{
    if n <= 0 {
        Seq::empty()
    } else {
        let before = parked_moves(parking, rules, i, sections, n - 1);
        match parked_target(parking[n - 1], rules, i, sections) {
            Some(to) => before.push((parking[n - 1], to)),
            None => before,
        }
    }
}

pub open spec fn filed_one(p: PlanView, mv: (Seq<char>, Seq<char>)) -> PlanView {
    let m = entry_of(mv.0);
    let to = mv.1;
    let q = listed(
        bumped(p, "MOVE  "@ + m.name + "   [parking lot -> "@ + to + "]"@),
        ChangeView {
            kind: ChangeKind::Move,
            name: m.name,
            detail: "parking lot -> "@ + to,
            section: "parking lot"@,
        },
    );
    match labelled(p.sections, to, 0) {
        Some(di) => with_sections(
            q,
            p.sections.update(di, with_mods(p.sections[di], p.sections[di].mods.push(m))),
        ),
        None => q,
    }
}

pub open spec fn filed_first(p: PlanView, moves: Seq<(Seq<char>, Seq<char>)>, n: int) -> PlanView
    decreases n,
{
    if n <= 0 {
        p
    } else {
        filed_one(filed_first(p, moves, n - 1), moves[n - 1])
    }
}

/// The first `n` parked lines that were not filed.
pub open spec fn left_parked(
    parking: Seq<Seq<char>>,
    moves: Seq<(Seq<char>, Seq<char>)>,
    n: int,
) -> Seq<Seq<char>>
    decreases n,
{
    if n <= 0 {
        Seq::empty()
    } else {
        let before = left_parked(parking, moves, n - 1);
        if found(moves, parking[n - 1]) is Some {
            before
        } else {
            before.push(parking[n - 1])
        }
    }
}

/// Parked mods that a rule claims go to their sections, flags and all.
pub open spec fn unparked(p: PlanView, rules: RulesView, i: Sources) -> PlanView {
    let n = p.parking.len() as int;
    let a = if n > 0 {
        traced(p, "\n--- pass 1b: parking lot ("@ + decimal(n as nat) + " mod(s)) ---"@)
    } else {
        p
    };
    let b = with_trace(a, parked_lines(p.parking, rules, i, p.sections, n));
    let moves = parked_moves(p.parking, rules, i, p.sections, n);
    let c = filed_first(b, moves, moves.len() as int);
    PlanView { parking: left_parked(p.parking, moves, n), ..c }
}

fn file_parked(plan: &mut Plan, line: &str, to: &str)
    requires
        counted(old(plan).deep_view()),
    ensures
        final(plan).deep_view() == filed_one(old(plan).deep_view(), (line@, to@)),
        counted(final(plan).deep_view()),
{
    let m = modlist::entry_from(line);
    let mut log = text::cat3("MOVE  ", m.name.as_str(), "   [parking lot -> ");
    log.append(to);
    log.append("]");
    plan.count_change(log);
    plan.list_change(
        Change {
            kind: ChangeKind::Move,
            name: m.name.clone(),
            detail: text::cat("parking lot -> ", to),
            section: "parking lot".to_string(),
        },
    );
    if let Some(di) = label_place(&plan.sections, to) {
        add_mod(&mut plan.sections, di, m);
    }
}

fn unpark(plan: &mut Plan, rules: &Rules, cats: Option<&Categories>, solo: bool, i: Ghost<Sources>)
    requires
        counted(old(plan).deep_view()),
        i@.cats == cats.deep_view(),
        i@.solo == solo,
    ensures
        final(plan).deep_view() == unparked(old(plan).deep_view(), rules.deep_view(), i@),
        counted(final(plan).deep_view()),
{
    let ghost start = plan.deep_view();
    let ghost parking = start.parking;
    let ghost secs = start.sections;
    let ghost rv = rules.deep_view();
    let total: usize = plan.parking.len();
    assert(parking.len() == total);
    if total > 0 {
        let n = text::dec(total as u128);
        plan.trace_line(text::cat3("\n--- pass 1b: parking lot (", n.as_str(), " mod(s)) ---"));
    }
    let ghost a = plan.deep_view();
    let mut moves: Vec<(String, String)> = list::none();
    let mut k: usize = 0;
    assert(with_trace(a, parked_lines(parking, rv, i@, secs, 0)) == a) by {
        assert(a.trace + Seq::<Seq<char>>::empty() =~= a.trace);
    }
    while k < total
        invariant
            k <= total == parking.len(),
            rv == rules.deep_view(),
            i@.cats == cats.deep_view(),
            i@.solo == solo,
            a.parking == parking,
            a.sections == secs,
            counted(plan.deep_view()),
            plan.deep_view() == with_trace(a, parked_lines(parking, rv, i@, secs, k as int)),
            moves.deep_view() == parked_moves(parking, rv, i@, secs, k as int),
        decreases total - k,
    {
        assert(plan.parking.deep_view() == parking);
        assert(plan.parking.deep_view().len() == plan.parking.len());
        assert(parking[k as int] == plan.parking@[k as int]@);
        let line = plan.parking[k].clone();
        let m = modlist::entry_from(line.as_str());
        let d = decide::detail(cats, m.name.as_str());
        let slice = plan.sections.as_slice();
        assert(slice.deep_view() =~= secs);
        let (want, why, _) = decide::rule_on(&m, rules, &d, slice, solo, Ghost(i@.cats));
        let reason = why.describe();
        let shown = decide::show_category(&d);
        let note = show_mod(m.name.as_str(), shown.as_str(), reason.as_str(), &want);
        match want {
            Some(w) => {
                if matching::find_label(slice, w.as_str()).is_some() {
                    list::put(&mut moves, (line, w));
                }
            },
            None => {},
        }
        let ghost before = plan.deep_view();
        plan.trace_line(note);
        k = k + 1;
        assert(plan.deep_view().trace =~= with_trace(
            a,
            parked_lines(parking, rv, i@, secs, k as int),
        ).trace);
    }
    let ghost b = plan.deep_view();
    let ghost mv = moves.deep_view();
    assert(mv.len() == moves.len());
    let mut k: usize = 0;
    while k < moves.len()
        invariant
            k <= moves.len() == mv.len(),
            mv == moves.deep_view(),
            counted(plan.deep_view()),
            plan.deep_view() == filed_first(b, mv, k as int),
        decreases moves.len() - k,
    {
        assert(mv[k as int] == moves@[k as int].deep_view());
        file_parked(plan, moves[k].0.as_str(), moves[k].1.as_str());
        k = k + 1;
    }
    proof {
        lemma_filed_parking(b, mv, mv.len() as int);
    }
    let ghost c = plan.deep_view();
    let mut left: Vec<String> = list::none();
    let mut k: usize = 0;
    while k < plan.parking.len()
        invariant
            k <= plan.parking.len(),
            plan.deep_view() == c,
            c.parking == parking,
            mv == moves.deep_view(),
            left.deep_view() == left_parked(parking, mv, k as int),
        decreases plan.parking.len() - k,
    {
        assert(plan.parking.deep_view() == parking);
        assert(parking[k as int] == plan.parking@[k as int]@);
        if suggest::pair_value(&moves, plan.parking[k].as_str()).is_none() {
            list::put(&mut left, plan.parking[k].clone());
        }
        k = k + 1;
    }
    assert(plan.parking.deep_view().len() == plan.parking.len());
    plan.parking = left;
}

proof fn lemma_filed_parking(p: PlanView, moves: Seq<(Seq<char>, Seq<char>)>, n: int)
    ensures
        filed_first(p, moves, n).parking == p.parking,
    decreases n,
{
    if n > 0 {
        lemma_filed_parking(p, moves, n - 1);
    }
}

// ---- the passes in their order ----

/// The plan with its head written, its separators named, and the rules about to be
/// resolved.
pub open spec fn opened(p: PlanView, i: Sources) -> PlanView {
    let a = renamed(with_trace(p, head_lines(i)), i);
    let b = if i.rules.proven_only {
        traced(
            a,
            "proven-only mode: ON - only explicit rules, LOOT, conflict, and census-proven constraints move mods (category/keyword guesses suppressed)"@,
        )
    } else {
        a
    };
    with_trace(b, resolution_lines(i.rules, b.sections))
}

fn open_plan(
    plan: &mut Plan,
    rules: &Rules,
    cats: Option<&Categories>,
    conflicts: Option<&ConflictIndex>,
    kw: &Keywords,
    solo: bool,
    i: Ghost<Sources>,
) -> (r: Rules)
    requires
        counted(old(plan).deep_view()),
        i@.rules == rules.deep_view(),
        i@.cats == cats.deep_view(),
        i@.conflicts == conflicts.deep_view(),
        i@.kw == kw.deep_view(),
        i@.solo == solo,
    ensures
        final(plan).deep_view() == opened(old(plan).deep_view(), i@),
        counted(final(plan).deep_view()),
        r.deep_view() == resolved_rules(i@.rules, final(plan).deep_view().sections),
{
    trace_head(plan, cats, conflicts, kw, solo, i);
    rename_sections(plan, rules, cats, i);
    if rules.proven_only {
        plan.trace_line(
            "proven-only mode: ON - only explicit rules, LOOT, conflict, and census-proven constraints move mods (category/keyword guesses suppressed)".to_string(),
        );
    }
    let slice = plan.sections.as_slice();
    assert(slice.deep_view() =~= plan.sections.deep_view());
    suggest::resolve_into(rules, slice, &mut plan.trace)
}

/// The decisions on all mods: those of the rules, then patches after their masters.
pub open spec fn decided(
    p: PlanView,
    rules: RulesView,
    known: Seq<(Seq<char>, Seq<char>)>,
    i: Sources,
) -> (PlanView, Decisions) {
    let a = traced(p, "\n--- pass 1: section assignment (per mod) ---"@);
    let mods = placed(p.sections);
    let n = mods.len() as int;
    let ds = decisions_first(mods, rules, i.cats, p.sections, i.solo, n);
    let held = held_first(mods, rules, i.cats, p.sections, i.solo, n);
    let b = if rules.proven_only && held > 0 {
        traced(
            a,
            "proven-only: "@ + decimal(held)
                + " guess-tier move(s) suppressed (category/keyword tiers held)"@,
        )
    } else {
        a
    };
    (
        b,
        if i.solo {
            ds
        } else {
            family_decisions(masters_first(mods, known, i.kw, n), ds)
        },
    )
}

proof fn lemma_decided(
    mods: Placed,
    rules: RulesView,
    cats: Option<CategoriesView>,
    sections: Seq<SectionView>,
    solo: bool,
    n: int,
    k: int,
)
    requires
        0 <= k < n <= mods.len(),
    ensures
        found(decisions_first(mods, rules, cats, sections, solo, n), mods[k].1.name) is Some,
    decreases n,
{
    let before = decisions_first(mods, rules, cats, sections, solo, n - 1);
    let (label, m) = mods[n - 1];
    insert_then_get(before, m.name, decision(label, m, rules, cats, sections, solo), mods[k].1.name);
    if k < n - 1 {
        lemma_decided(mods, rules, cats, sections, solo, n - 1, k);
    }
}

proof fn lemma_master_in_range(
    m: EntryView,
    mods: Placed,
    known: Seq<(Seq<char>, Seq<char>)>,
    kw: KeywordsView,
    n: int,
)
    requires
        n <= mods.len(),
    ensures
        match master_first(m, mods, known, kw, n) {
            Some(k) => 0 <= k < n,
            None => true,
        },
    decreases n,
{
    if n > 0 {
        lemma_master_in_range(m, mods, known, kw, n - 1);
    }
}

pub proof fn lemma_masters_are_mods(
    mods: Placed,
    known: Seq<(Seq<char>, Seq<char>)>,
    kw: KeywordsView,
    n: int,
    name: Seq<char>,
)
    requires
        0 <= n <= mods.len(),
    ensures
        match found(masters_first(mods, known, kw, n), name) {
            Some(master) => exists|k: int| 0 <= k < mods.len() && (#[trigger] mods[k]).1.name == master,
            None => true,
        },
    decreases n,
{
    if n > 0 {
        lemma_masters_are_mods(mods, known, kw, n - 1, name);
        let before = masters_first(mods, known, kw, n - 1);
        let m = mods[n - 1].1;
        lemma_master_in_range(m, mods, known, kw, mods.len() as int);
        match master_first(m, mods, known, kw, mods.len() as int) {
            Some(k) => {
                insert_then_get(before, m.name, mods[k].1.name, name);
            },
            None => {},
        }
    }
}

fn decide_all(
    plan: &mut Plan,
    rules: &Rules,
    known: &TextMap<String>,
    cats: Option<&Categories>,
    kw: &Keywords,
    solo: bool,
    i: Ghost<Sources>,
) -> (r: TextMap<Decision>)
    requires
        i@.cats == cats.deep_view(),
        i@.kw == kw.deep_view(),
        i@.solo == solo,
    ensures
        (final(plan).deep_view(), r.deep_view()) == decided(
            old(plan).deep_view(),
            rules.deep_view(),
            known.deep_view(),
            i@,
        ),
        r.deep_view().len() > 0 ==> final(plan).deep_view().sections.len() > 0,
{
    plan.trace_line("\n--- pass 1: section assignment (per mod) ---".to_string());
    let mods = decide::all_placed(&plan.sections);
    let ghost mv = mods.deep_view();
    let ghost rv = rules.deep_view();
    let ghost secs = plan.deep_view().sections;
    assert(mv.len() == mods.len());
    let (decisions, held) = decide::decide(&mods, rules, cats, &plan.sections, solo);
    let mut decisions = decisions;
    let ghost ds = decisions.deep_view();
    if rules.proven_only && held > 0 {
        let n = text::dec(held as u128);
        plan.trace_line(
            text::cat3(
                "proven-only: ",
                n.as_str(),
                " guess-tier move(s) suppressed (category/keyword tiers held)",
            ),
        );
    }
    assert(ds.len() > 0 ==> secs.len() > 0);
    if !solo {
        let masters = decide::find_masters(&mods, known, kw);
        let ghost ms = masters.deep_view();
        assert(masters_decided(ms, ds)) by {
            assert forall|name: Seq<char>|
                #![trigger found(ms, name)]
                found(ms, name) is Some implies found(ds, found(ms, name)->0) is Some by {
                lemma_masters_are_mods(mv, known.deep_view(), i@.kw, mv.len() as int, name);
                let k = choose|k: int|
                    0 <= k < mv.len() && (#[trigger] mv[k]).1.name == found(ms, name)->0;
                lemma_decided(mv, rv, i@.cats, secs, solo, mv.len() as int, k);
            }
        }
        decide::follow_family(&masters, &mut decisions);
    }
    decisions
}

pub open spec fn census_plugins(census: Option<CensusView>) -> Seq<Seq<char>> {
    match census {
        Some(c) => Seq::new(c.len(), |i: int| c[i].2.plugin),
        None => Seq::empty(),
    }
}

fn plugins_of(census: Option<&Census>) -> (r: Vec<String>)
    ensures
        r.deep_view() == census_plugins(census.deep_view()),
{
    let mut out: Vec<String> = list::none();
    match census {
        Some(c) => {
            let ghost all = census_plugins(census.deep_view());
            let mut i: usize = 0;
            assert(all.take(0) =~= Seq::<Seq<char>>::empty());
            while i < c.len()
                invariant
                    i <= c.len(),
                    census == Some(c),
                    all == census_plugins(census.deep_view()),
                    out.deep_view() == all.take(i as int),
                decreases c.len() - i,
            {
                assert(c.deep_view()[i as int] == c@[i as int].deep_view());
                list::put(&mut out, c[i].2.plugin.clone());
                i = i + 1;
                assert(out.deep_view() =~= all.take(i as int));
            }
            assert(all.take(i as int) =~= all);
        },
        None => {},
    }
    assert(out.deep_view() =~= census_plugins(census.deep_view()));
    out
}

/// What the plugins prove: which mods need which, and where that pulls them.
pub struct Proven {
    pub plan: PlanView,
    pub decisions: Decisions,
    pub content: Edges,
    pub loot: Edges,
}

pub open spec fn base_of(census: Option<CensusView>) -> Seq<Seq<char>> {
    info_of(selected(census_plugins(census), None)).base_masters
}

pub open spec fn loot_line(loot: Option<LootView>, edges: Edges) -> Seq<char> {
    match loot {
        Some(l) => "loot masterlist: "@ + l.path + " ("@ + decimal(l.after.len())
            + " after-rule(s) apply to "@ + decimal(edges.len()) + " mod(s))"@,
        None => "loot masterlist: not found - update LOOT's masterlist for Skyrim VR to enable"@,
    }
}

pub open spec fn proven(
    p: PlanView,
    decisions: Decisions,
    pins: Seq<Seq<char>>,
    dump: Seq<Seq<char>>,
    i: Sources,
) -> Proven {
    let game = info_of(selected(census_plugins(i.census), None));
    let a = traced(
        p,
        "game: "@ + game.name + " (base masters: "@ + decimal(game.base_masters.len()) + ")"@,
    );
    match i.census {
        Some(c) => {
            let loot = if i.solo {
                None
            } else {
                i.loot
            };
            let edges = match loot {
                Some(l) => loot_parents(c, l.after, game.base_masters),
                None => Seq::empty(),
            };
            let b = traced(a, loot_line(loot, edges));
            let (ds, lines) = pulled(c, game.base_masters, decisions, p.sections, pins, dump);
            Proven {
                plan: with_trace(b, lines),
                decisions: ds,
                content: content_parents(c, game.base_masters),
                loot: edges,
            }
        },
        None => Proven { plan: a, decisions, content: Seq::empty(), loot: Seq::empty() },
    }
}

struct Edged {
    content: TextMap<Vec<String>>,
    loot: TextMap<Vec<String>>,
}

fn show_loot(l: &LootData, count: usize) -> (r: String)
    ensures
        forall|edges: Edges|
            edges.len() == count ==> r@ == #[trigger] loot_line(Some(l.deep_view()), edges),
{
    let a = text::dec(l.after.len() as u128);
    let b = text::dec(count as u128);
    let mut r = text::cat3("loot masterlist: ", l.path.as_str(), " (");
    r.append(a.as_str());
    r.append(" after-rule(s) apply to ");
    r.append(b.as_str());
    r.append(" mod(s))");
    r
}

fn prove(
    plan: &mut Plan,
    decisions: &mut TextMap<Decision>,
    pins: &Vec<String>,
    dump: &Vec<String>,
    census: Option<&Census>,
    loot: Option<&LootData>,
    solo: bool,
    i: Ghost<Sources>,
) -> (r: Edged)
    requires
        old(decisions).deep_view().len() > 0 ==> old(plan).deep_view().sections.len() > 0,
        i@.census == census.deep_view(),
        i@.loot == loot.deep_view(),
        i@.solo == solo,
    ensures
        (Proven {
            plan: final(plan).deep_view(),
            decisions: final(decisions).deep_view(),
            content: r.content.deep_view(),
            loot: r.loot.deep_view(),
        }) == proven(
            old(plan).deep_view(),
            old(decisions).deep_view(),
            pins.deep_view(),
            dump.deep_view(),
            i@,
        ),
{
    let names = plugins_of(census);
    let slice = names.as_slice();
    assert(slice.deep_view() =~= names.deep_view());
    let game = game::detect_or_skyrim(slice);
    let n = text::dec(game.base_masters.len() as u128);
    let mut line = text::cat3("game: ", game.name, " (base masters: ");
    line.append(n.as_str());
    line.append(")");
    assert(game.base_masters.deep_view().len() == game.base_masters.len());
    plan.trace_line(line);
    let mut content: TextMap<Vec<String>> = TextMap::new();
    let mut edges: TextMap<Vec<String>> = TextMap::new();
    assert(plan.sections.deep_view().len() == plan.sections.len());
    match census {
        Some(c) => {
            let prov = masters::provider_map(c);
            content = masters::find_content_parents(c, game.base_masters, &prov);
            let used = if solo {
                None
            } else {
                loot
            };
            match used {
                Some(l) => {
                    edges = masters::find_loot_parents(c, &l.after, game.base_masters, &prov);
                    let line = show_loot(l, edges.len());
                    assert(line@ == loot_line(Some(l.deep_view()), edges.deep_view()));
                    plan.trace_line(line);
                },
                None => {
                    plan.trace_line(
                        "loot masterlist: not found - update LOOT's masterlist for Skyrim VR to enable".to_string(),
                    );
                },
            }
            let ghost before = plan.trace.deep_view();
            let lines = masters::pull(
                decisions,
                c,
                &content,
                &plan.sections,
                pins,
                dump,
                Ghost(game.base_masters.deep_view()),
            );
            list::put_all(&mut plan.trace, lines);
        },
        None => {},
    }
    Edged { content, loot: edges }
}

/// The moves between sections: surveyed, reported, and carried out.
pub open spec fn moved(p: PlanView, decisions: Decisions, dump: Seq<Seq<char>>) -> Option<PlanView> {
    let mods = placed(p.sections);
    let s = survey_first(mods, decisions, dump, mods.len() as int);
    let a = dumps_first(with_trace(p, s.lines), dump, decisions, dump.len() as int);
    let b = if s.blocked > 0 {
        traced(a, "dump sections blocked "@ + decimal(s.blocked) + " inbound move(s)"@)
    } else {
        a
    };
    moved_first(b, s.moves, s.moves.len() as int)
}

fn move_all(plan: &mut Plan, decisions: &TextMap<Decision>, dump: &Vec<String>) -> (ok: bool)
    requires
        counted(old(plan).deep_view()),
    ensures
        match moved(old(plan).deep_view(), decisions.deep_view(), dump.deep_view()) {
            Some(q) => ok && final(plan).deep_view() == q && counted(q),
            None => !ok,
        },
{
    let ghost start = plan.deep_view();
    let ghost ds = decisions.deep_view();
    let ghost dv = dump.deep_view();
    let mods = decide::all_placed(&plan.sections);
    assert(mods.deep_view().len() == mods.len());
    let f = survey(&mods, decisions, dump);
    let ghost s = survey_first(placed(start.sections), ds, dv, placed(start.sections).len() as int);
    let Findings { moves, lines, blocked } = f;
    list::put_all(&mut plan.trace, lines);
    let ghost a = plan.deep_view();
    assert(a == with_trace(start, s.lines));
    let mut k: usize = 0;
    while k < dump.len()
        invariant
            k <= dump.len(),
            ds == decisions.deep_view(),
            dv == dump.deep_view(),
            counted(plan.deep_view()),
            plan.deep_view() == dumps_first(a, dv, ds, k as int),
        decreases dump.len() - k,
    {
        assert(dv[k as int] == dump@[k as int]@);
        report_dump(plan, dump[k].as_str(), decisions);
        k = k + 1;
    }
    assert(dv.len() == dump.len());
    if blocked > 0 {
        let n = text::dec(blocked as u128);
        plan.trace_line(text::cat3("dump sections blocked ", n.as_str(), " inbound move(s)"));
    }
    assert(moves.deep_view().len() == moves.len());
    apply_moves(plan, &moves)
}

/// The first `n` sections arranged, and the plan by then.
pub open spec fn arranged_first(
    p: PlanView,
    sections: Seq<SectionView>,
    f: Facts,
    known: Seq<(Seq<char>, Seq<char>)>,
    kw: KeywordsView,
    pins: Seq<Seq<char>>,
    solo: bool,
    n: int,
) -> (Seq<SectionView>, PlanView)
    decreases n,
{
    if n <= 0 {
        (Seq::empty(), p)
    } else {
        let (done, q) = arranged_first(p, sections, f, known, kw, pins, solo, n - 1);
        let s = sections[n - 1];
        let (mods, r) = arranged(s.label, s.mods, f, known, kw, pins, solo, q);
        (done.push(with_mods(s, mods)), r)
    }
}

/// Every section arranged.
pub open spec fn all_arranged(
    p: PlanView,
    f: Facts,
    known: Seq<(Seq<char>, Seq<char>)>,
    kw: KeywordsView,
    pins: Seq<Seq<char>>,
    solo: bool,
) -> PlanView {
    let (sections, q) = arranged_first(
        with_sections(p, Seq::empty()),
        p.sections,
        f,
        known,
        kw,
        pins,
        solo,
        p.sections.len() as int,
    );
    with_sections(q, sections)
}

fn arrange_all(
    plan: &mut Plan,
    f: &Inputs,
    known: &TextMap<String>,
    kw: &Keywords,
    pins: &Vec<String>,
    solo: bool,
)
    requires
        counted(old(plan).deep_view()),
    ensures
        final(plan).deep_view() == all_arranged(
            old(plan).deep_view(),
            f.view(),
            known.deep_view(),
            kw.deep_view(),
            pins.deep_view(),
            solo,
        ),
        counted(final(plan).deep_view()),
{
    let sections = audit::take_sections(plan);
    let ghost start = plan.deep_view();
    let ghost secs = sections.deep_view();
    let mut done: Vec<Section> = list::none();
    let mut i: usize = 0;
    while i < sections.len()
        invariant
            i <= sections.len(),
            secs == sections.deep_view(),
            counted(plan.deep_view()),
            (done.deep_view(), plan.deep_view()) == arranged_first(
                start,
                secs,
                f.view(),
                known.deep_view(),
                kw.deep_view(),
                pins.deep_view(),
                solo,
                i as int,
            ),
        decreases sections.len() - i,
    {
        let s = &sections[i];
        assert(secs[i as int] == s.deep_view());
        let mods = place::arrange(s.label.as_str(), &s.mods, f, known, kw, pins, solo, plan);
        list::put(
            &mut done,
            Section { sep_line: s.sep_line.clone(), label: s.label.clone(), mods },
        );
        i = i + 1;
    }
    assert(secs.len() == sections.len());
    plan.sections = done;
}

pub open spec fn audited(
    p: PlanView,
    known: Seq<(Seq<char>, Seq<char>)>,
    pins: Seq<Seq<char>>,
    i: Sources,
) -> PlanView {
    let a = match i.conflicts {
        Some(c) => winners_audited(p, c, known, i.kw),
        None => p,
    };
    match i.census {
        Some(c) => order_audited(a, c, base_of(i.census), pins),
        None => a,
    }
}

pub open spec fn first_plan(ml: ModlistView) -> PlanView {
    PlanView {
        sections: ml.sections,
        parking: ml.parking,
        log: Seq::empty(),
        trace: Seq::empty(),
        out: Seq::empty(),
        seen: Seq::empty(),
        changes: 0,
    }
}

/// The canonical names of the mods of a list.
pub open spec fn known_of(sections: Seq<SectionView>, kw: KeywordsView) -> Seq<
    (Seq<char>, Seq<char>),
> {
    known_first(placed(sections), kw, placed(sections).len() as int)
}

/// What a sort makes of a list: the sections and parked lines, the log, the diagnostic
/// and the changes. There is no plan where a mod is to leave a section that another one
/// of the same label hides.
pub open spec fn run_plan(ml: ModlistView, i: Sources) -> Option<PlanView> {
    let known = known_of(ml.sections, i.kw);
    let a = opened(first_plan(ml), i);
    let rules = resolved_rules(i.rules, a.sections);
    let pins = pins_of(rules);
    let (b, decisions) = decided(a, rules, known, i);
    let c = proven(b, decisions, pins, rules.dump, i);
    match moved(c.plan, c.decisions, rules.dump) {
        Some(d) => {
            let f = Facts {
                rules,
                content: c.content,
                loot: c.loot,
                census: i.census,
                conflicts: i.conflicts,
            };
            Some(
                audited(
                    all_arranged(
                        unparked(d, rules, i),
                        f,
                        known,
                        i.kw,
                        fixed_of(rules),
                        i.solo,
                    ),
                    known,
                    pins,
                    i,
                ),
            )
        },
        None => None,
    }
}

fn audit_all(
    plan: &mut Plan,
    known: &TextMap<String>,
    kw: &Keywords,
    pins: &Vec<String>,
    conflicts: Option<&ConflictIndex>,
    census: Option<&Census>,
    i: Ghost<Sources>,
)
    requires
        counted(old(plan).deep_view()),
        i@.conflicts == conflicts.deep_view(),
        i@.census == census.deep_view(),
        i@.kw == kw.deep_view(),
    ensures
        final(plan).deep_view() == audited(
            old(plan).deep_view(),
            known.deep_view(),
            pins.deep_view(),
            i@,
        ),
        counted(final(plan).deep_view()),
{
    match conflicts {
        Some(c) => {
            audit::audit_winners(plan, c, known, kw);
        },
        None => {},
    }
    match census {
        Some(c) => {
            let names = plugins_of(census);
            let slice = names.as_slice();
            assert(slice.deep_view() =~= names.deep_view());
            let game = game::detect_or_skyrim(slice);
            audit::audit_order(plan, c, game.base_masters, pins);
        },
        None => {},
    }
}

fn plan_run(
    ml: &Modlist,
    rules: &Rules,
    cats: Option<&Categories>,
    conflicts: Option<&ConflictIndex>,
    census: Option<&Census>,
    kw: &Keywords,
    loot: Option<&LootData>,
    solo: bool,
) -> (r: Option<Plan>)
    ensures
        match run_plan(
            ml.deep_view(),
            sources(rules, cats, conflicts, census, kw, loot, solo),
        ) {
            Some(p) => r is Some && r->0.deep_view() == p && counted(p),
            None => r is None,
        },
{
    let ghost i = sources(rules, cats, conflicts, census, kw, loot, solo);
    let (conflicts, census, loot) = if solo {
        (None, None, None)
    } else {
        (conflicts, census, loot)
    };
    let mut plan = Plan {
        sections: modlist::copy_sections(&ml.sections),
        parking: list::copy(&ml.parking),
        log: list::none(),
        trace: list::none(),
        out: list::none(),
        seen: list::none(),
        changes: 0,
    };
    assert(plan.deep_view() == first_plan(ml.deep_view()));
    let mods = decide::all_placed(&ml.sections);
    assert(mods.deep_view().len() == mods.len());
    let known = decide::known_names(&mods, kw);
    let resolved = open_plan(&mut plan, rules, cats, conflicts, kw, solo, Ghost(i));
    let pins = find_pins(&resolved);
    let mut decisions = decide_all(&mut plan, &resolved, &known, cats, kw, solo, Ghost(i));
    let ghost before = plan.deep_view();
    let edges = prove(
        &mut plan,
        &mut decisions,
        &pins,
        &resolved.dump,
        census,
        loot,
        solo,
        Ghost(i),
    );
    assert(plan.deep_view().log == before.log && plan.deep_view().changes == before.changes);
    if !move_all(&mut plan, &decisions, &resolved.dump) {
        return None;
    }
    unpark(&mut plan, &resolved, cats, solo, Ghost(i));
    let f = Inputs {
        rules: &resolved,
        content: &edges.content,
        loot: &edges.loot,
        census,
        conflicts,
    };
    let fixed = find_fixed(&resolved);
    arrange_all(&mut plan, &f, &known, kw, &fixed, solo);
    audit_all(&mut plan, &known, kw, &pins, conflicts, census, Ghost(i));
    Some(plan)
}

/// What a run is given. With `solo` it draws on the rules alone: what is known of
/// conflicts, plugins and load order stays out.
pub open spec fn sources(
    rules: &Rules,
    cats: Option<&Categories>,
    conflicts: Option<&ConflictIndex>,
    census: Option<&Census>,
    kw: &Keywords,
    loot: Option<&LootData>,
    solo: bool,
) -> Sources {
    Sources {
        rules: rules.deep_view(),
        cats: cats.deep_view(),
        conflicts: if solo {
            None
        } else {
            conflicts.deep_view()
        },
        census: if solo {
            None
        } else {
            census.deep_view()
        },
        kw: kw.deep_view(),
        loot: if solo {
            None
        } else {
            loot.deep_view()
        },
        solo,
    }
}

/// Sorts a list in memory. `log` gets a line for every change, `out` the changes
/// themselves, and `trace` the whole diagnostic; the result is the number of changes.
/// With `solo` only the rules act.
pub fn run(
    ml: &mut Modlist,
    rules: &Rules,
    log: &mut String,
    out: &mut Vec<Change>,
    cats: Option<&Categories>,
    conflicts: Option<&ConflictIndex>,
    census: Option<&Census>,
    kw: &Keywords,
    loot: Option<&LootData>,
    solo: bool,
    trace: &mut String,
) -> (changes: usize)
    requires
        run_plan(
            old(ml).deep_view(),
            sources(rules, cats, conflicts, census, kw, loot, solo),
        ) is Some,
    ensures
        ({
            let p = run_plan(
                old(ml).deep_view(),
                sources(rules, cats, conflicts, census, kw, loot, solo),
            )->0;
            &&& final(ml).deep_view() == (ModlistView {
                sections: p.sections,
                parking: p.parking,
                ..old(ml).deep_view()
            })
            &&& final(log)@ == old(log)@ + ended(p.log)
            &&& final(out).deep_view() == old(out).deep_view() + p.out
            &&& final(trace)@ == old(trace)@ + ended(p.trace)
            &&& changes == p.changes
        }),
{
    match plan_run(ml, rules, cats, conflicts, census, kw, loot, solo) {
        Some(p) => {
            let Plan { sections, parking, log: log_lines, trace: trace_lines, out: changed, seen: _, changes } = p;
            ml.sections = sections;
            ml.parking = parking;
            let a = text::end_lines(&log_lines);
            log.append(a.as_str());
            let b = text::end_lines(&trace_lines);
            trace.append(b.as_str());
            list::put_all(out, changed);
            changes
        },
        None => {
            assert(false);
            0
        },
    }
}

/// Sorts a list if there is a plan for it, and leaves everything as it is if not.
pub fn try_run(
    ml: &mut Modlist,
    rules: &Rules,
    log: &mut String,
    out: &mut Vec<Change>,
    cats: Option<&Categories>,
    conflicts: Option<&ConflictIndex>,
    census: Option<&Census>,
    kw: &Keywords,
    loot: Option<&LootData>,
    solo: bool,
    trace: &mut String,
) -> (changes: Option<usize>)
    ensures
        match run_plan(
            old(ml).deep_view(),
            sources(rules, cats, conflicts, census, kw, loot, solo),
        ) {
            Some(p) => {
                &&& final(ml).deep_view() == (ModlistView {
                    sections: p.sections,
                    parking: p.parking,
                    ..old(ml).deep_view()
                })
                &&& final(log)@ == old(log)@ + ended(p.log)
                &&& final(out).deep_view() == old(out).deep_view() + p.out
                &&& final(trace)@ == old(trace)@ + ended(p.trace)
                &&& changes matches Some(n) && n == p.changes
            },
            None => {
                &&& *final(ml) == *old(ml)
                &&& *final(log) == *old(log)
                &&& *final(out) == *old(out)
                &&& *final(trace) == *old(trace)
                &&& changes is None
            },
        },
{
    if plan_run(ml, rules, cats, conflicts, census, kw, loot, solo).is_none() {
        return None;
    }
    Some(run(ml, rules, log, out, cats, conflicts, census, kw, loot, solo, trace))
}

} // verus!
