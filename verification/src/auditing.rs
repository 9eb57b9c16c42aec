//! What the audits of a sort promise: a mod that loads before what it needs is reported.
use vstd::prelude::*;
#[allow(unused_imports)]
use crate::audit::{esm_position, esms_audited, latest_esm, latest_master, loads_before, master_at, master_words, masters_audited, order_audited, order_noted, positions, positions_first, with_positions, Audit, Position, Positions, Words};
#[allow(unused_imports)]
use crate::conservation::audits_only_report;
#[allow(unused_imports)]
use crate::ends::{facts_of_run, filed_plan};
#[allow(unused_imports)]
use crate::feasible::rules_in_force;
#[allow(unused_imports)]
use crate::map::{found, insert_then_get};
#[allow(unused_imports)]
use crate::masters::{is_esm_entry_of, providers, Providers};
#[allow(unused_imports)]
use crate::modlist::{ModlistView, SectionView};
#[allow(unused_imports)]
use crate::plan::{traced, ChangeKind, ChangeView, PlanView};
#[allow(unused_imports)]
use crate::plugins::CensusView;
#[allow(unused_imports)]
use crate::sorter::{all_arranged, audited, base_of, fixed_of, known_of, pins_of, run_plan, Sources};
#[allow(unused_imports)]
use crate::suggest::is_enabled;

verus! {

// ---- positions ----

/// The row is ticked, and no other ticked row has its name.
pub open spec fn sole_row(sections: Seq<SectionView>, s: int, x: int) -> bool {
    &&& 0 <= s < sections.len()
    &&& 0 <= x < sections[s].mods.len()
    &&& is_enabled(sections[s].mods[x])
    &&& forall|t: int, y: int|
        0 <= t < sections.len() && 0 <= y < sections[t].mods.len() && !(t == s && y == x)
            && is_enabled(#[trigger] sections[t].mods[y]) ==> sections[t].mods[y].name
            != sections[s].mods[x].name
}

proof fn lemma_positions_in(
    m: Positions,
    sections: Seq<SectionView>,
    t: int,
    n: int,
    s: int,
    x: int,
)
    requires
        sole_row(sections, s, x),
        0 <= t < sections.len(),
        0 <= n <= sections[t].mods.len(),
    ensures
        found(with_positions(m, sections[t].mods, t, n), sections[s].mods[x].name) == (if t == s
            && x < n {
            Some((s as usize, (sections[s].mods.len() - 1 - x) as usize))
        } else {
            found(m, sections[s].mods[x].name)
        }),
    decreases n,
{
    if n > 0 {
        lemma_positions_in(m, sections, t, n - 1, s, x);
        let mods = sections[t].mods;
        let row = mods[n - 1];
        assert(row == sections[t].mods[n - 1]);
        if is_enabled(row) {
            insert_then_get(
                with_positions(m, mods, t, n - 1),
                row.name,
                (t as usize, (mods.len() - n) as usize),
                sections[s].mods[x].name,
            );
        }
    }
}

proof fn lemma_positions(sections: Seq<SectionView>, n: int, s: int, x: int)
    requires
        sole_row(sections, s, x),
        0 <= n <= sections.len(),
    ensures
        s < n ==> found(positions_first(sections, n), sections[s].mods[x].name) == Some(
            (s as usize, (sections[s].mods.len() - 1 - x) as usize),
        ),
    decreases n,
{
    if n > 0 {
        lemma_positions(sections, n - 1, s, x);
        lemma_positions_in(
            positions_first(sections, n - 1),
            sections,
            n - 1,
            sections[n - 1].mods.len() as int,
            s,
            x,
        );
    }
}

/// A ticked mod whose name no other ticked one has is known to the audits by its section
/// and its place in the load order there.
pub proof fn ticked_mods_have_their_position(sections: Seq<SectionView>, s: int, x: int)
    requires
        sole_row(sections, s, x),
    ensures
        found(positions(sections), sections[s].mods[x].name) == Some(
            (s as usize, (sections[s].mods.len() - 1 - x) as usize),
        ),
{
    lemma_positions(sections, sections.len() as int, s, x);
}

// ---- reports ----

/// A warning names the mod.
pub open spec fn warned(out: Seq<ChangeView>, name: Seq<char>) -> bool {
    exists|k: int|
        0 <= k < out.len() && (#[trigger] out[k]).kind == ChangeKind::Warn && out[k].name == name
}

/// Every mod that counts as reported has its warning.
pub open spec fn shown(a: Audit) -> bool {
    forall|k: int| 0 <= k < a.reported.len() ==> warned(a.plan.out, #[trigger] a.reported[k])
}

proof fn lemma_warned_more(out: Seq<ChangeView>, c: ChangeView, name: Seq<char>)
    requires
        warned(out, name),
    ensures
        warned(out.push(c), name),
{
    let k = choose|k: int|
        0 <= k < out.len() && (#[trigger] out[k]).kind == ChangeKind::Warn && out[k].name == name;
    assert(out.push(c)[k] == out[k]);
}

proof fn lemma_noted(
    a: Audit,
    name: Seq<char>,
    at: Position,
    other: Option<(Seq<char>, Position)>,
    pins: Seq<Seq<char>>,
    w: Words,
)
    requires
        shown(a),
    ensures
        ({
            let b = order_noted(a, name, at, other, pins, w);
            &&& shown(b)
            &&& forall|x: Seq<char>| a.reported.contains(x) ==> #[trigger] b.reported.contains(x)
            &&& (other matches Some((_, p)) && loads_before(at, p)) ==> b.reported.contains(name)
        }),
{
    let b = order_noted(a, name, at, other, pins, w);
    if b != a {
        let c = b.plan.out.last();
        assert(b.plan.out == a.plan.out.push(c));
        assert(b.reported == a.reported.push(name));
        assert(b.reported[a.reported.len() as int] == name);
        assert(b.plan.out[a.plan.out.len() as int].kind == ChangeKind::Warn);
        assert(warned(b.plan.out, name));
        assert forall|k: int| 0 <= k < b.reported.len() implies warned(
            b.plan.out,
            #[trigger] b.reported[k],
        ) by {
            if k < a.reported.len() {
                assert(warned(a.plan.out, a.reported[k]));
                lemma_warned_more(a.plan.out, c, a.reported[k]);
            }
        }
        assert forall|x: Seq<char>| a.reported.contains(x) implies #[trigger] b.reported.contains(
            x,
        ) by {
            let k = choose|k: int| 0 <= k < a.reported.len() && a.reported[k] == x;
            assert(b.reported[k] == x);
        }
    }
}

/// The latest of some mods loads no earlier than any of them.
proof fn lemma_latest_master(
    name: Seq<char>,
    plugins: Seq<Seq<char>>,
    base: Seq<Seq<char>>,
    prov: Providers,
    pos: Positions,
    n: int,
    m: int,
)
    requires
        0 <= m < n <= plugins.len(),
        master_at(name, plugins[m], base, prov, pos) is Some,
    ensures
        latest_master(name, plugins, base, prov, pos, n) matches Some((_, q)) && !loads_before(
            q,
            (master_at(name, plugins[m], base, prov, pos)->0).1,
        ),
    decreases n,
{
    if m < n - 1 {
        lemma_latest_master(name, plugins, base, prov, pos, n - 1, m);
    }
}

proof fn lemma_latest_esm(name: Seq<char>, census: CensusView, pos: Positions, n: int, m: int)
    requires
        0 <= m < n <= census.len(),
        esm_position(census[m], name, census, pos) is Some,
    ensures
        latest_esm(name, census, pos, n) matches Some((_, q)) && !loads_before(
            q,
            (esm_position(census[m], name, census, pos)->0).1,
        ),
    decreases n,
{
    if m < n - 1 {
        lemma_latest_esm(name, census, pos, n - 1, m);
    }
}

proof fn lemma_masters_reported(
    a: Audit,
    census: CensusView,
    base: Seq<Seq<char>>,
    prov: Providers,
    pos: Positions,
    pins: Seq<Seq<char>>,
    n: int,
)
    requires
        0 <= n <= census.len(),
        shown(a),
    ensures
        ({
            let b = masters_audited(a, census, base, prov, pos, pins, n);
            &&& shown(b)
            &&& forall|k: int, m: int|
                #![trigger census[k], census[k].2.masters[m]]
                0 <= k < n && 0 <= m < census[k].2.masters.len() && out_of_order(
                    census[k].0,
                    master_at(census[k].0, census[k].2.masters[m], base, prov, pos),
                    pos,
                ) ==> b.reported.contains(census[k].0)
        }),
    decreases n,
{
    if n > 0 {
        lemma_masters_reported(a, census, base, prov, pos, pins, n - 1);
        let before = masters_audited(a, census, base, prov, pos, pins, n - 1);
        let b = masters_audited(a, census, base, prov, pos, pins, n);
        let (name, _, p) = census[n - 1];
        let latest = latest_master(name, p.masters, base, prov, pos, p.masters.len() as int);
        if found(pos, name) is Some {
            lemma_noted(before, name, found(pos, name)->0, latest, pins, master_words());
        }
        assert forall|k: int, m: int|
            #![trigger census[k], census[k].2.masters[m]]
            0 <= k < n && 0 <= m < census[k].2.masters.len() && out_of_order(
                census[k].0,
                master_at(census[k].0, census[k].2.masters[m], base, prov, pos),
                pos,
            ) implies b.reported.contains(census[k].0) by {
            if k < n - 1 {
                assert(before.reported.contains(census[k].0));
            } else {
                lemma_latest_master(
                    name,
                    p.masters,
                    base,
                    prov,
                    pos,
                    p.masters.len() as int,
                    m,
                );
            }
        }
    }
}

/// A mod stands before another that it must load after.
pub open spec fn out_of_order(
    name: Seq<char>,
    other: Option<(Seq<char>, Position)>,
    pos: Positions,
) -> bool {
    match (found(pos, name), other) {
        (Some(at), Some((_, p))) => loads_before(at, p),
        _ => false,
    }
}

proof fn lemma_esms_reported(
    a: Audit,
    census: CensusView,
    pos: Positions,
    pins: Seq<Seq<char>>,
    n: int,
)
    requires
        0 <= n <= census.len(),
        shown(a),
    ensures
        ({
            let b = esms_audited(a, census, pos, pins, n);
            &&& shown(b)
            &&& forall|x: Seq<char>| a.reported.contains(x) ==> #[trigger] b.reported.contains(x)
            &&& forall|k: int, m: int|
                #![trigger census[k], census[m]]
                0 <= k < n && 0 <= m < census.len() && !is_esm_entry_of(census[k].0, Some(census))
                    && out_of_order(
                    census[k].0,
                    esm_position(census[m], census[k].0, census, pos),
                    pos,
                ) ==> b.reported.contains(census[k].0)
        }),
    decreases n,
{
    if n > 0 {
        lemma_esms_reported(a, census, pos, pins, n - 1);
        let before = esms_audited(a, census, pos, pins, n - 1);
        let b = esms_audited(a, census, pos, pins, n);
        let name = census[n - 1].0;
        let latest = latest_esm(name, census, pos, census.len() as int);
        if !is_esm_entry_of(name, Some(census)) && found(pos, name) is Some {
            lemma_noted(
                before,
                name,
                found(pos, name)->0,
                latest,
                pins,
                crate::audit::esm_words(),
            );
        }
        assert forall|k: int, m: int|
            #![trigger census[k], census[m]]
            0 <= k < n && 0 <= m < census.len() && !is_esm_entry_of(census[k].0, Some(census))
                && out_of_order(
                census[k].0,
                esm_position(census[m], census[k].0, census, pos),
                pos,
            ) implies b.reported.contains(census[k].0) by {
            if k < n - 1 {
                assert(before.reported.contains(census[k].0));
            } else {
                lemma_latest_esm(name, census, pos, census.len() as int, m);
            }
        }
    }
}

/// Both order audits in one: what each must report, and that it has its warning.
proof fn lemma_order_reported(
    plan: PlanView,
    census: CensusView,
    base: Seq<Seq<char>>,
    pins: Seq<Seq<char>>,
    k: int,
    m: int,
)
    requires
        0 <= k < census.len(),
        ({
            let name = census[k].0;
            let pos = positions(plan.sections);
            ||| 0 <= m < census[k].2.masters.len() && out_of_order(
                name,
                master_at(name, census[k].2.masters[m], base, providers(census), pos),
                pos,
            )
            ||| 0 <= m < census.len() && !is_esm_entry_of(name, Some(census)) && out_of_order(
                name,
                esm_position(census[m], name, census, pos),
                pos,
            )
        }),
    ensures
        warned(order_audited(plan, census, base, pins).out, census[k].0),
{
    let prov = providers(census);
    let pos = positions(plan.sections);
    let start = Audit {
        plan: traced(plan, "\n--- audit gate: master order ---"@),
        reported: Seq::empty(),
        forced: 0,
    };
    let n = census.len() as int;
    let a = masters_audited(start, census, base, prov, pos, pins, n);
    let b = esms_audited(a, census, pos, pins, n);
    lemma_masters_reported(start, census, base, prov, pos, pins, n);
    lemma_esms_reported(a, census, pos, pins, n);
    let name = census[k].0;
    assert(b.reported.contains(name)) by {
        if 0 <= m < census[k].2.masters.len() && out_of_order(
            name,
            master_at(name, census[k].2.masters[m], base, prov, pos),
            pos,
        ) {
            assert(census[k].2.masters[m] == census[k].2.masters[m]);
            assert(a.reported.contains(name));
        } else {
            assert(census[m] == census[m]);
        }
    }
    let r = choose|r: int| 0 <= r < b.reported.len() && b.reported[r] == name;
    assert(warned(b.plan.out, b.reported[r]));
}

/// What a run audits at its end: the list that it gives back.
proof fn lemma_audited_run(ml: ModlistView, i: Sources) -> (g: PlanView)
    requires
        run_plan(ml, i) is Some,
        i.census is Some,
    ensures
        run_plan(ml, i)->0 == order_audited(
            g,
            i.census->0,
            base_of(i.census),
            pins_of(rules_in_force(ml, i)),
        ),
        g.sections == run_plan(ml, i)->0.sections,
{
    let e = filed_plan(ml, i);
    let rules = rules_in_force(ml, i);
    let pins = pins_of(rules);
    let known = known_of(ml.sections, i.kw);
    let g = all_arranged(e, facts_of_run(ml, i), known, i.kw, fixed_of(rules), i.solo);
    audits_only_report(g, known, pins, i);
    let alone = Sources { census: None, ..i };
    audits_only_report(g, known, pins, alone);
    audited(g, known, pins, alone)
}

/// After a run with a census, a ticked mod that loads before the ticked mod which provides
/// one of its masters is warned of. Masters of the base game do not count.
pub proof fn late_masters_are_reported(ml: ModlistView, i: Sources, k: int, m: int)
    requires
        run_plan(ml, i) is Some,
        i.census is Some,
        0 <= k < i.census->0.len(),
        0 <= m < i.census->0[k].2.masters.len(),
        ({
            let census = i.census->0;
            let pos = positions(run_plan(ml, i)->0.sections);
            out_of_order(
                census[k].0,
                master_at(
                    census[k].0,
                    census[k].2.masters[m],
                    base_of(i.census),
                    providers(census),
                    pos,
                ),
                pos,
            )
        }),
    ensures
        warned(run_plan(ml, i)->0.out, i.census->0[k].0),
{
    let g = lemma_audited_run(ml, i);
    lemma_order_reported(
        g,
        i.census->0,
        base_of(i.census),
        pins_of(rules_in_force(ml, i)),
        k,
        m,
    );
}

/// After a run with a census, a ticked mod without a master file that loads before a
/// ticked mod with one is warned of.
pub proof fn late_master_files_are_reported(ml: ModlistView, i: Sources, k: int, m: int)
    requires
        run_plan(ml, i) is Some,
        i.census is Some,
        0 <= k < i.census->0.len(),
        0 <= m < i.census->0.len(),
        !is_esm_entry_of(i.census->0[k].0, i.census),
        ({
            let census = i.census->0;
            let pos = positions(run_plan(ml, i)->0.sections);
            out_of_order(census[k].0, esm_position(census[m], census[k].0, census, pos), pos)
        }),
    ensures
        warned(run_plan(ml, i)->0.out, i.census->0[k].0),
{
    let g = lemma_audited_run(ml, i);
    lemma_order_reported(
        g,
        i.census->0,
        base_of(i.census),
        pins_of(rules_in_force(ml, i)),
        k,
        m,
    );
}

} // verus!
