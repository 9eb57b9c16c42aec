//! Who depends on whom: the mods that a mod's plugins need, and how far back they pull it.
use vstd::prelude::*;
#[allow(unused_imports)]
use crate::decide::{DecisionView, Decisions};
#[allow(unused_imports)]
use crate::directives::{loads_after, rising, sorted_lists_hold_each_once};
#[allow(unused_imports)]
use crate::loot::Edges;
#[allow(unused_imports)]
use crate::map::{distinct_keys, found, insert_then_get, key_from, lemma_key_at, lemma_key_from};
#[allow(unused_imports)]
use crate::masters::{content_parents, decided_place, esm_mods, esm_mods_first, header_parents_first, kept_first, listed_or_none, loot_parents, loot_parents_first, parent_mod, providers, providers_first, pull_first, pulled, settled, settled_parents, with_parents, Bonds, Places};
#[allow(unused_imports)]
use crate::modlist::SectionView;
#[allow(unused_imports)]
use crate::plan::anchored;
#[allow(unused_imports)]
use crate::plugins::CensusView;
#[allow(unused_imports)]
use crate::sort::{deduped, sorted};
#[allow(unused_imports)]
use crate::suggest::is_dump;
#[allow(unused_imports)]
use crate::text::{begins, finishes, lowercase};

verus! {

// ---- owners ----

/// Row `k` is the first that holds the plugin.
pub open spec fn holds_first(census: CensusView, plugin: Seq<char>, k: int) -> bool {
    &&& 0 <= k < census.len()
    &&& census[k].2.plugin == plugin
    &&& forall|i: int| 0 <= i < k ==> (#[trigger] census[i]).2.plugin != plugin
}

/// The mod `m` holds a plugin that the mod `name` needs: the plugin does not come with the
/// game, and `m` is the first mod that holds it, and another one.
pub open spec fn supplies(
    census: CensusView,
    base: Seq<Seq<char>>,
    name: Seq<char>,
    plugin: Seq<char>,
    m: Seq<char>,
) -> bool {
    &&& !base.contains(plugin)
    &&& !begins(plugin, "cc"@)
    &&& m != name
    &&& exists|k: int| #[trigger] holds_first(census, plugin, k) && census[k].0 == m
}

proof fn lemma_providers(census: CensusView, n: int, plugin: Seq<char>)
    requires
        0 <= n <= census.len(),
    ensures
        match found(providers_first(census, n), plugin) {
            Some(m) => exists|k: int|
                k < n && #[trigger] holds_first(census, plugin, k) && census[k].0 == m,
            None => forall|k: int| 0 <= k < n ==> (#[trigger] census[k]).2.plugin != plugin,
        },
    decreases n,
{
    if n > 0 {
        lemma_providers(census, n - 1, plugin);
        let before = providers_first(census, n - 1);
        let own = census[n - 1].2.plugin;
        if found(before, own) is None {
            insert_then_get(before, own, census[n - 1].0, plugin);
            if own == plugin {
                assert(holds_first(census, plugin, n - 1));
            }
        }
        if found(before, plugin) is Some {
            let m = found(before, plugin)->0;
            let k = choose|k: int|
                k < n - 1 && #[trigger] holds_first(census, plugin, k) && census[k].0 == m;
            assert(k < n && holds_first(census, plugin, k));
        }
    }
}

proof fn lemma_parent(
    census: CensusView,
    base: Seq<Seq<char>>,
    name: Seq<char>,
    plugin: Seq<char>,
    m: Seq<char>,
)
    ensures
        (parent_mod(name, plugin, base, providers(census)) == Some(m)) == supplies(
            census,
            base,
            name,
            plugin,
            m,
        ),
{
    let n = census.len() as int;
    lemma_providers(census, n, plugin);
    match found(providers(census), plugin) {
        Some(p) => {
            let k = choose|k: int|
                k < n && #[trigger] holds_first(census, plugin, k) && census[k].0 == p;
            if supplies(census, base, name, plugin, m) {
                let h = choose|h: int| #[trigger]
                    holds_first(census, plugin, h) && census[h].0 == m;
                if h < k {
                    assert(census[h].2.plugin != plugin);
                } else if k < h {
                    assert(census[k].2.plugin != plugin);
                }
            }
        },
        None => {
            if supplies(census, base, name, plugin, m) {
                let h = choose|h: int| #[trigger]
                    holds_first(census, plugin, h) && census[h].0 == m;
                assert(census[h].2.plugin != plugin);
            }
        },
    }
}

// ---- parents ----

/// One of the first `n` plugins is supplied by `m`.
pub open spec fn supplied(
    census: CensusView,
    base: Seq<Seq<char>>,
    name: Seq<char>,
    plugins: Seq<Seq<char>>,
    n: int,
    m: Seq<char>,
) -> bool {
    exists|j: int| 0 <= j < n && supplies(census, base, name, #[trigger] plugins[j], m)
}

proof fn lemma_with_parents(
    ps: Seq<Seq<char>>,
    census: CensusView,
    base: Seq<Seq<char>>,
    name: Seq<char>,
    plugins: Seq<Seq<char>>,
    n: int,
    m: Seq<char>,
)
    requires
        0 <= n <= plugins.len(),
    ensures
        with_parents(ps, name, plugins, base, providers(census), n).contains(m) == (ps.contains(m)
            || supplied(census, base, name, plugins, n, m)),
    decreases n,
{
    if n > 0 {
        lemma_with_parents(ps, census, base, name, plugins, n - 1, m);
        let prov = providers(census);
        let before = with_parents(ps, name, plugins, base, prov, n - 1);
        let all = with_parents(ps, name, plugins, base, prov, n);
        lemma_parent(census, base, name, plugins[n - 1], m);
        if before.contains(m) {
            let i = choose|i: int| 0 <= i < before.len() && before[i] == m;
            assert(all[i] == m);
        }
        match parent_mod(name, plugins[n - 1], base, prov) {
            Some(p) => {
                assert(all == before.push(p));
                assert(all[before.len() as int] == p);
                if all.contains(m) && p != m {
                    let i = choose|i: int| 0 <= i < all.len() && all[i] == m;
                    assert(before[i] == m);
                }
            },
            None => {},
        }
        if supplied(census, base, name, plugins, n - 1, m) {
            let j = choose|j: int|
                0 <= j < n - 1 && supplies(census, base, name, #[trigger] plugins[j], m);
            assert(supplies(census, base, name, plugins[j], m));
        }
        if supplied(census, base, name, plugins, n, m) {
            let j = choose|j: int|
                0 <= j < n && supplies(census, base, name, #[trigger] plugins[j], m);
            if j < n - 1 {
                assert(supplied(census, base, name, plugins, n - 1, m));
            }
        }
    }
}

/// Row `i` is one of the mod's, and its plugin has a master that `m` supplies.
pub open spec fn row_needs(
    census: CensusView,
    base: Seq<Seq<char>>,
    i: int,
    name: Seq<char>,
    m: Seq<char>,
) -> bool {
    &&& census[i].0 == name
    &&& supplied(
        census,
        base,
        name,
        census[i].2.masters,
        census[i].2.masters.len() as int,
        m,
    )
}

/// Row `i` is one of the mod's, and the masterlist has its plugin load after one that `m`
/// supplies.
pub open spec fn row_follows(
    census: CensusView,
    base: Seq<Seq<char>>,
    after: Edges,
    i: int,
    name: Seq<char>,
    m: Seq<char>,
) -> bool {
    &&& census[i].0 == name
    &&& found(after, lowercase(census[i].2.plugin)) matches Some(ts) && supplied(
        census,
        base,
        name,
        ts,
        ts.len() as int,
        m,
    )
}

proof fn lemma_headers(
    census: CensusView,
    base: Seq<Seq<char>>,
    n: int,
    name: Seq<char>,
    m: Seq<char>,
)
    requires
        0 <= n <= census.len(),
    ensures
        ({
            let t = header_parents_first(census, base, providers(census), n);
            &&& distinct_keys(t)
            &&& listed_or_none(t, name).contains(m) == exists|i: int|
                0 <= i < n && #[trigger] row_needs(census, base, i, name, m)
        }),
    decreases n,
{
    if n > 0 {
        lemma_headers(census, base, n - 1, name, m);
        let prov = providers(census);
        let before = header_parents_first(census, base, prov, n - 1);
        let (own, _, p) = census[n - 1];
        let ps = listed_or_none(before, own);
        let k = p.masters.len() as int;
        let put = with_parents(ps, own, p.masters, base, prov, k);
        insert_then_get(before, own, put, name);
        lemma_with_parents(ps, census, base, own, p.masters, k, m);
        if exists|i: int| 0 <= i < n - 1 && #[trigger] row_needs(census, base, i, name, m) {
            let i = choose|i: int|
                0 <= i < n - 1 && #[trigger] row_needs(census, base, i, name, m);
            assert(row_needs(census, base, i, name, m));
        }
        if row_needs(census, base, n - 1, name, m) {
            assert(own == name);
        }
        assert(own == name ==> (put.contains(m) == (ps.contains(m) || row_needs(
            census,
            base,
            n - 1,
            name,
            m,
        ))));
    } else {
        assert(listed_or_none(Seq::empty(), name) =~= Seq::empty());
    }
}

proof fn lemma_follows(
    census: CensusView,
    base: Seq<Seq<char>>,
    after: Edges,
    n: int,
    name: Seq<char>,
    m: Seq<char>,
)
    requires
        0 <= n <= census.len(),
    ensures
        ({
            let t = loot_parents_first(census, after, base, providers(census), n);
            &&& distinct_keys(t)
            &&& listed_or_none(t, name).contains(m) == exists|i: int|
                0 <= i < n && #[trigger] row_follows(census, base, after, i, name, m)
        }),
    decreases n,
{
    if n > 0 {
        lemma_follows(census, base, after, n - 1, name, m);
        let prov = providers(census);
        let before = loot_parents_first(census, after, base, prov, n - 1);
        let (own, _, p) = census[n - 1];
        if exists|i: int| 0 <= i < n - 1 && #[trigger] row_follows(census, base, after, i, name, m) {
            let i = choose|i: int|
                0 <= i < n - 1 && #[trigger] row_follows(census, base, after, i, name, m);
            assert(row_follows(census, base, after, i, name, m));
        }
        match found(after, lowercase(p.plugin)) {
            Some(ts) => {
                let ps = listed_or_none(before, own);
                let k = ts.len() as int;
                let put = with_parents(ps, own, ts, base, prov, k);
                insert_then_get(before, own, put, name);
                lemma_with_parents(ps, census, base, own, ts, k, m);
                assert(own == name ==> (put.contains(m) == (ps.contains(m) || row_follows(
                    census,
                    base,
                    after,
                    n - 1,
                    name,
                    m,
                ))));
            },
            None => {
                assert(!row_follows(census, base, after, n - 1, name, m));
            },
        }
    } else {
        assert(listed_or_none(Seq::empty(), name) =~= Seq::empty());
    }
}

/// Only the lists with something in them are kept, each in order and once.
proof fn lemma_kept(m: Edges, n: int, x: Seq<char>, y: Seq<char>)
    requires
        0 <= n <= m.len(),
        distinct_keys(m),
    ensures
        ({
            let t = kept_first(m, n);
            &&& loads_after(t, x, y) == (listed_or_none(m.take(n), x).contains(y))
            &&& found(t, x) matches Some(l) ==> l.len() > 0 && rising(l)
        }),
    decreases n,
{
    if n > 0 {
        lemma_kept(m, n - 1, x, y);
        let before = kept_first(m, n - 1);
        let (key, list) = m[n - 1];
        let l = deduped(sorted::<String>(list));
        sorted_lists_hold_each_once(list);
        let a = m.take(n - 1);
        let b = m.take(n);
        assert(b =~= a.push(m[n - 1]));
        lemma_key_from(a, x, 0);
        lemma_key_from(b, x, 0);
        if key == x {
            lemma_key_at(b, x, 0, n - 1);
            assert(found(b, x) == Some(list));
            assert forall|i: int| 0 <= i < a.len() implies #[trigger] a[i].0 != x by {
                assert(m[i].0 != m[n - 1].0);
            }
            assert(found(a, x) is None);
            assert(l.contains(y) == list.contains(y));
            if l.len() == 0 {
                assert(!l.contains(y));
                if found(before, x) is Some {
                    let q = found(before, x)->0;
                    lemma_kept(m, n - 1, x, q[0]);
                    assert(q.contains(q[0]));
                }
            } else {
                insert_then_get(before, key, l, x);
            }
        } else {
            if l.len() > 0 {
                insert_then_get(before, key, l, x);
            }
            match key_from(a, x, 0) {
                Some(i) => {
                    assert(b[i].0 == x);
                    assert forall|h: int| 0 <= h < i implies #[trigger] b[h].0 != x by {
                        assert(a[h].0 != x);
                    }
                    lemma_key_at(b, x, 0, i);
                },
                None => {
                    if key_from(b, x, 0) is Some {
                        let i = key_from(b, x, 0)->0;
                        if i < n - 1 {
                            assert(a[i].0 != x);
                        }
                    }
                },
            }
        }
    } else {
        assert(listed_or_none(m.take(0), x) =~= Seq::empty());
    }
}

/// The parents of a mod are the mods that supply the masters in the headers of its
/// plugins, each once and in order; a mod without any is not listed.
pub proof fn parents_supply_the_masters(
    census: CensusView,
    base: Seq<Seq<char>>,
    name: Seq<char>,
    m: Seq<char>,
)
    ensures
        ({
            let t = content_parents(census, base);
            &&& loads_after(t, name, m) == exists|i: int|
                0 <= i < census.len() && #[trigger] row_needs(census, base, i, name, m)
            &&& found(t, name) matches Some(l) ==> l.len() > 0 && rising(l)
        }),
{
    let n = census.len() as int;
    let t = header_parents_first(census, base, providers(census), n);
    lemma_headers(census, base, n, name, m);
    lemma_kept(t, t.len() as int, name, m);
    assert(t.take(t.len() as int) =~= t);
}

/// The parents of a mod by the masterlist are the mods that supply the plugins which one
/// of its plugins is to load after, each once and in order.
pub proof fn listed_parents_supply_the_targets(
    census: CensusView,
    after: Edges,
    base: Seq<Seq<char>>,
    name: Seq<char>,
    m: Seq<char>,
)
    ensures
        ({
            let t = loot_parents(census, after, base);
            &&& loads_after(t, name, m) == exists|i: int|
                0 <= i < census.len() && #[trigger] row_follows(census, base, after, i, name, m)
            &&& found(t, name) matches Some(l) ==> l.len() > 0 && rising(l)
        }),
{
    let n = census.len() as int;
    let t = loot_parents_first(census, after, base, providers(census), n);
    lemma_follows(census, base, after, n, name, m);
    lemma_kept(t, t.len() as int, name, m);
    assert(t.take(t.len() as int) =~= t);
}

// ---- master files ----

/// A mod counts as one of master files where one of its plugins says so by its flag or by
/// its name, or where the mod has such a name itself; each such mod is named once.
pub proof fn master_file_mods_are_known(census: CensusView, name: Seq<char>)
    ensures
        esm_mods(census).contains(name) == exists|i: int|
            0 <= i < census.len() && (#[trigger] census[i]).0 == name && (census[i].2.is_esm
                || finishes(lowercase(census[i].2.plugin), ".esm"@) || finishes(
                lowercase(name),
                ".esm"@,
            )),
        esm_mods(census).no_duplicates(),
{
    lemma_esm_mods(census, census.len() as int, name);
}

proof fn lemma_esm_mods(census: CensusView, n: int, name: Seq<char>)
    requires
        0 <= n <= census.len(),
    ensures
        esm_mods_first(census, n).contains(name) == exists|i: int|
            0 <= i < n && (#[trigger] census[i]).0 == name && (census[i].2.is_esm || finishes(
                lowercase(census[i].2.plugin),
                ".esm"@,
            ) || finishes(lowercase(name), ".esm"@)),
        esm_mods_first(census, n).no_duplicates(),
    decreases n,
{
    if n > 0 {
        lemma_esm_mods(census, n - 1, name);
        let before = esm_mods_first(census, n - 1);
        let all = esm_mods_first(census, n);
        let own = census[n - 1].0;
        if all == before.push(own) && all != before {
            assert(all[before.len() as int] == own);
            if before.contains(name) {
                let i = choose|i: int| 0 <= i < before.len() && before[i] == name;
                assert(all[i] == name);
            }
            if all.contains(name) && name != own {
                let i = choose|i: int| 0 <= i < all.len() && all[i] == name;
                assert(before[i] == name);
            }
            assert forall|i: int, j: int|
                0 <= i < all.len() && 0 <= j < all.len() && i != j implies all[i] != all[j] by {
                if i < before.len() {
                    assert(before.contains(before[i]));
                }
                if j < before.len() {
                    assert(before.contains(before[j]));
                }
            }
        }
    }
}

// ---- pulling ----

/// The place at which a mod is settled is no earlier than its own, than that of any parent
/// with a decision, and, unless it is one of master files itself, than that of the last of
/// these; and it is one of them.
pub proof fn settling_is_the_latest_of_all(
    name: Seq<char>,
    b: Bonds,
    decisions: Decisions,
    memo: Places,
    depth: int,
)
    requires
        found(memo, name) is None,
        0 <= depth <= 64,
    ensures
        ({
            let at = settled(name, b, decisions, memo, depth).0;
            let own = decided_place(found(decisions, name)->0, b.places);
            let ps = listed_or_none(b.parents, name);
            &&& own <= at
            &&& !b.esm.contains(name) ==> b.latest_esm <= at
            &&& forall|i: int|
                0 <= i < ps.len() && found(decisions, #[trigger] ps[i]) is Some
                    ==> exists|seen: Places|
                    #[trigger] settled(ps[i], b, decisions, seen, depth + 1).0 <= at
            &&& at == own || (at == b.latest_esm && !b.esm.contains(name)) || exists|
                i: int,
                seen: Places,
            |
                0 <= i < ps.len() && found(decisions, ps[i]) is Some && at == (
                #[trigger] settled(ps[i], b, decisions, seen, depth + 1)).0
        }),
{
    let own = decided_place(found(decisions, name)->0, b.places);
    match found(b.parents, name) {
        Some(ps) => {
            lemma_settled(ps, 0, own, b, decisions, memo, depth);
        },
        None => {},
    }
}

proof fn lemma_settled(
    ps: Seq<Seq<char>>,
    i: int,
    dest: usize,
    b: Bonds,
    decisions: Decisions,
    memo: Places,
    depth: int,
)
    requires
        0 <= i <= ps.len(),
        0 <= depth <= 64,
    ensures
        ({
            let at = settled_parents(ps, i, dest, b, decisions, memo, depth).0;
            &&& dest <= at
            &&& forall|j: int|
                i <= j < ps.len() && found(decisions, #[trigger] ps[j]) is Some
                    ==> exists|seen: Places|
                    #[trigger] settled(ps[j], b, decisions, seen, depth + 1).0 <= at
            &&& at == dest || exists|j: int, seen: Places|
                i <= j < ps.len() && found(decisions, ps[j]) is Some && at == (#[trigger] settled(
                    ps[j],
                    b,
                    decisions,
                    seen,
                    depth + 1,
                )).0
        }),
    decreases ps.len() - i,
{
    if i < ps.len() {
        let at = settled_parents(ps, i, dest, b, decisions, memo, depth).0;
        if found(decisions, ps[i]) is Some {
            let (own, after) = settled(ps[i], b, decisions, memo, depth + 1);
            let next = if own > dest {
                own
            } else {
                dest
            };
            lemma_settled(ps, i + 1, next, b, decisions, after, depth);
            assert(settled(ps[i], b, decisions, memo, depth + 1).0 <= at);
        } else {
            lemma_settled(ps, i + 1, dest, b, decisions, memo, depth);
        }
    }
}

/// A decision is left as it was, or moved to a later section for the sake of a master: the
/// mod is held by no rule and no pin, and the section is no waiting room.
pub open spec fn pulled_later(
    old: (Seq<char>, DecisionView),
    new: (Seq<char>, DecisionView),
    places: Places,
    sections: Seq<SectionView>,
    pins: Seq<Seq<char>>,
    dump: Seq<Seq<char>>,
) -> bool {
    new == old || {
        &&& new.0 == old.0
        &&& new.1.from == old.1.from
        &&& !anchored(old.1.why)
        &&& !pins.contains(old.0)
        &&& new.1.why is FollowParent
        &&& exists|at: int|
            decided_place(old.1, places) < at && new.1.want == Some(
                (#[trigger] sections[at]).label,
            ) && !is_dump(dump, sections[at].label)
    }
}

proof fn lemma_pull(
    decisions: Decisions,
    b: Bonds,
    sections: Seq<SectionView>,
    pins: Seq<Seq<char>>,
    dump: Seq<Seq<char>>,
    n: int,
)
    requires
        0 <= n <= decisions.len(),
    ensures
        ({
            let p = pull_first(decisions, b, sections, pins, dump, n);
            &&& p.decisions.len() == decisions.len()
            &&& forall|i: int|
                n <= i < decisions.len() ==> #[trigger] p.decisions[i] == decisions[i]
            &&& forall|i: int|
                0 <= i < n ==> pulled_later(
                    decisions[i],
                    #[trigger] p.decisions[i],
                    b.places,
                    sections,
                    pins,
                    dump,
                )
        }),
    decreases n,
{
    if n > 0 {
        lemma_pull(decisions, b, sections, pins, dump, n - 1);
        let p = pull_first(decisions, b, sections, pins, dump, n - 1);
        let q = pull_first(decisions, b, sections, pins, dump, n);
        let (name, d) = p.decisions[n - 1];
        assert(p.decisions[n - 1] == decisions[n - 1]);
        let (at, memo) = settled(name, b, p.decisions, p.memo, 0);
        let spot = at as int;
        if !(anchored(d.why) || pins.contains(name)) && at > decided_place(d, b.places) && !is_dump(
            dump,
            sections[spot].label,
        ) {
            assert(decided_place(d, b.places) < spot && q.decisions[n - 1].1.want == Some(
                sections[spot].label,
            ));
        }
        assert forall|i: int| 0 <= i < n implies pulled_later(
            decisions[i],
            #[trigger] q.decisions[i],
            b.places,
            sections,
            pins,
            dump,
        ) by {
            if i < n - 1 {
                assert(q.decisions[i] == p.decisions[i]);
            }
        }
    }
}

/// Pulling mods behind their masters only ever moves them later, and leaves alone what a
/// rule or a pin holds.
pub proof fn masters_only_pull_later(
    census: CensusView,
    base: Seq<Seq<char>>,
    decisions: Decisions,
    sections: Seq<SectionView>,
    pins: Seq<Seq<char>>,
    dump: Seq<Seq<char>>,
)
    ensures
        ({
            let t = pulled(census, base, decisions, sections, pins, dump).0;
            let places = crate::masters::label_places(sections, sections.len() as int);
            &&& t.len() == decisions.len()
            &&& forall|i: int|
                0 <= i < t.len() ==> pulled_later(
                    decisions[i],
                    #[trigger] t[i],
                    places,
                    sections,
                    pins,
                    dump,
                )
        }),
{
    let b = crate::masters::bonds(census, base, decisions, sections);
    lemma_pull(decisions, b, sections, pins, dump, decisions.len() as int);
}

} // verus!
