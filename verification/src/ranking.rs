//! What the solved plugin order means for the mods: their ranks, their parents, and the
//! spelling of the list.
use vstd::prelude::*;
#[allow(unused_imports)]
use crate::directives::{loads_after, rising, sorted_lists_hold_each_once};
#[allow(unused_imports)]
use crate::libloot_adapter::tags_or_none;
#[allow(unused_imports)]
use crate::loot::{drawn, group_nodes, group_ready, group_sequence, next_at, next_from, occurs_from, with_heads, with_members, with_node, with_nodes, with_tails, Edges, LootView, Names};
#[allow(unused_imports)]
use crate::map::{distinct_keys, found, insert_then_get, key_from, lemma_key_at, lemma_key_from};
#[allow(unused_imports)]
use crate::plugin_order::{kept_links, links_first, parents_first, ranked_owners, ranks_first, spelled, spelled_first, wanted_first, wanted_of};
#[allow(unused_imports)]
use crate::plugins::OwnerView;
#[allow(unused_imports)]
use crate::sort::{deduped, sorted};
#[allow(unused_imports)]
use crate::text::{ascii_lowered, begins};

verus! {

// ---- ranks ----

/// One of the first `n` owner entries gives the plugin to the mod.
pub open spec fn gives(
    owners: Seq<OwnerView>,
    n: int,
    plugin: Seq<char>,
    m: Seq<char>,
) -> bool {
    exists|i: int|
        0 <= i < n && (#[trigger] owners[i]).mod_name == m && ascii_lowered(owners[i].plugin)
            == ascii_lowered(plugin)
}

/// The place of the last of the first `n` plugins of the order that the mod has.
pub open spec fn last_rank(
    owners: Seq<OwnerView>,
    order: Seq<Seq<char>>,
    n: int,
    m: Seq<char>,
) -> Option<usize>
    decreases n,
{
    if n <= 0 {
        None
    } else if gives(owners, owners.len() as int, order[n - 1], m) {
        Some((n - 1) as usize)
    } else {
        last_rank(owners, order, n - 1, m)
    }
}

proof fn lemma_gives(owners: Seq<OwnerView>, n: int, plugin: Seq<char>, m: Seq<char>)
    requires
        0 < n,
    ensures
        gives(owners, n, plugin, m) == (gives(owners, n - 1, plugin, m) || (owners[n - 1].mod_name
            == m && ascii_lowered(owners[n - 1].plugin) == ascii_lowered(plugin))),
{
    if gives(owners, n - 1, plugin, m) {
        let i = choose|i: int|
            0 <= i < n - 1 && (#[trigger] owners[i]).mod_name == m && ascii_lowered(
                owners[i].plugin,
            ) == ascii_lowered(plugin);
        assert(owners[i].mod_name == m);
    }
}

proof fn lemma_ranked(
    ranks: Seq<(Seq<char>, usize)>,
    owners: Seq<OwnerView>,
    plugin: Seq<char>,
    rank: usize,
    n: int,
    m: Seq<char>,
)
    requires
        0 <= n <= owners.len(),
    ensures
        found(ranked_owners(ranks, owners, plugin, rank, n), m) == (if gives(
            owners,
            n,
            plugin,
            m,
        ) {
            Some(
                match found(ranks, m) {
                    Some(r) => if r > rank {
                        r
                    } else {
                        rank
                    },
                    None => rank,
                },
            )
        } else {
            found(ranks, m)
        }),
    decreases n,
{
    if n > 0 {
        lemma_ranked(ranks, owners, plugin, rank, n - 1, m);
        lemma_gives(owners, n, plugin, m);
        let before = ranked_owners(ranks, owners, plugin, rank, n - 1);
        let o = owners[n - 1];
        if ascii_lowered(o.plugin) == ascii_lowered(plugin) {
            let put = match found(before, o.mod_name) {
                Some(r) => if r > rank {
                    r
                } else {
                    rank
                },
                None => rank,
            };
            insert_then_get(before, o.mod_name, put, m);
        }
    }
}

proof fn lemma_ranks(owners: Seq<OwnerView>, order: Seq<Seq<char>>, n: int, m: Seq<char>)
    requires
        0 <= n <= order.len() <= usize::MAX,
    ensures
        found(ranks_first(owners, order, n), m) == last_rank(owners, order, n, m),
        last_rank(owners, order, n, m) matches Some(r) ==> r < n,
    decreases n,
{
    if n > 0 {
        lemma_ranks(owners, order, n - 1, m);
        lemma_ranked(
            ranks_first(owners, order, n - 1),
            owners,
            order[n - 1],
            (n - 1) as usize,
            owners.len() as int,
            m,
        );
    }
}

/// A mod's rank is the place of the last plugin of the solved order that it has; a mod
/// without any plugin in it has no rank.
pub proof fn mods_rank_by_their_last_plugin(
    owners: Seq<OwnerView>,
    order: Seq<Seq<char>>,
    m: Seq<char>,
)
    requires
        order.len() <= usize::MAX,
    ensures
        found(ranks_first(owners, order, order.len() as int), m) == last_rank(
            owners,
            order,
            order.len() as int,
            m,
        ),
{
    lemma_ranks(owners, order, order.len() as int, m);
}

// ---- parents ----

/// One of the first `n` masters, which is not of the creation club, comes from the mod, and
/// that is another.
pub open spec fn comes_from(
    masters: Seq<Seq<char>>,
    owned: Seq<(Seq<char>, Seq<char>)>,
    child: Seq<char>,
    n: int,
    parent: Seq<char>,
) -> bool {
    parent != child && exists|k: int|
        0 <= k < n && !begins(#[trigger] masters[k], "cc"@) && found(owned, masters[k]) == Some(
            parent,
        )
}

proof fn lemma_parents(
    masters: Seq<Seq<char>>,
    owned: Seq<(Seq<char>, Seq<char>)>,
    child: Seq<char>,
    n: int,
    parent: Seq<char>,
)
    requires
        0 <= n <= masters.len(),
    ensures
        parents_first(masters, owned, child, n).contains(parent) == comes_from(
            masters,
            owned,
            child,
            n,
            parent,
        ),
    decreases n,
{
    if n > 0 {
        lemma_parents(masters, owned, child, n - 1, parent);
        let before = parents_first(masters, owned, child, n - 1);
        let all = parents_first(masters, owned, child, n);
        if before.contains(parent) {
            let i = choose|i: int| 0 <= i < before.len() && before[i] == parent;
            assert(all[i] == parent);
        }
        if all != before {
            let p = found(owned, masters[n - 1])->0;
            assert(all == before.push(p));
            assert(all[before.len() as int] == p);
            if all.contains(parent) && parent != p {
                let i = choose|i: int| 0 <= i < all.len() && all[i] == parent;
                assert(before[i] == parent);
            }
        }
        if comes_from(masters, owned, child, n - 1, parent) {
            let k = choose|k: int|
                0 <= k < n - 1 && !begins(#[trigger] masters[k], "cc"@) && found(
                    owned,
                    masters[k],
                ) == Some(parent);
            assert(found(owned, masters[k]) == Some(parent));
        }
        if comes_from(masters, owned, child, n, parent) {
            let k = choose|k: int|
                0 <= k < n && !begins(#[trigger] masters[k], "cc"@) && found(owned, masters[k])
                    == Some(parent);
            if k < n - 1 {
                assert(comes_from(masters, owned, child, n - 1, parent));
            }
        }
    }
}

/// Plugin `i` is the child's, and needs one of the parent's.
pub open spec fn links(
    masters: Seq<(Seq<char>, Seq<Seq<char>>)>,
    owned: Seq<(Seq<char>, Seq<char>)>,
    i: int,
    child: Seq<char>,
    parent: Seq<char>,
) -> bool {
    found(owned, masters[i].0) == Some(child) && comes_from(
        masters[i].1,
        owned,
        child,
        masters[i].1.len() as int,
        parent,
    )
}

proof fn lemma_links(
    masters: Seq<(Seq<char>, Seq<Seq<char>>)>,
    owned: Seq<(Seq<char>, Seq<char>)>,
    n: int,
    child: Seq<char>,
    parent: Seq<char>,
)
    requires
        0 <= n <= masters.len(),
    ensures
        ({
            let t = links_first(masters, owned, n);
            &&& distinct_keys(t)
            &&& tags_or_none(found(t, child)).contains(parent) == exists|i: int|
                0 <= i < n && #[trigger] links(masters, owned, i, child, parent)
        }),
    decreases n,
{
    if n > 0 {
        lemma_links(masters, owned, n - 1, child, parent);
        let before = links_first(masters, owned, n - 1);
        let (plugin, needs) = masters[n - 1];
        if exists|i: int| 0 <= i < n - 1 && #[trigger] links(masters, owned, i, child, parent) {
            let i = choose|i: int|
                0 <= i < n - 1 && #[trigger] links(masters, owned, i, child, parent);
            assert(links(masters, owned, i, child, parent));
        }
        match found(owned, plugin) {
            Some(own) => {
                let a = tags_or_none(found(before, own));
                let b = parents_first(needs, owned, own, needs.len() as int);
                insert_then_get(before, own, a + b, child);
                lemma_parents(needs, owned, own, needs.len() as int, parent);
                assert((a + b).contains(parent) == (a.contains(parent) || b.contains(parent))) by {
                    if a.contains(parent) {
                        let i = choose|i: int| 0 <= i < a.len() && a[i] == parent;
                        assert((a + b)[i] == parent);
                    }
                    if b.contains(parent) {
                        let i = choose|i: int| 0 <= i < b.len() && b[i] == parent;
                        assert((a + b)[a.len() + i] == parent);
                    }
                }
                assert(own == child ==> links(masters, owned, n - 1, child, parent) == b.contains(
                    parent,
                ));
            },
            None => {
                assert(!links(masters, owned, n - 1, child, parent));
            },
        }
    } else {
        assert(tags_or_none(found(Seq::empty(), child)) =~= Seq::empty());
    }
}

proof fn lemma_kept(m: Seq<(Seq<char>, Seq<Seq<char>>)>, n: int, x: Seq<char>, y: Seq<char>)
    requires
        0 <= n <= m.len(),
        distinct_keys(m),
    ensures
        ({
            let t = kept_links(m, n);
            &&& loads_after(t, x, y) == (tags_or_none(found(m.take(n), x)).contains(y))
            &&& found(t, x) matches Some(l) ==> l.len() > 0 && rising(l)
        }),
    decreases n,
{
    if n > 0 {
        lemma_kept(m, n - 1, x, y);
        let before = kept_links(m, n - 1);
        let (key, list) = m[n - 1];
        let l = deduped(sorted::<String>(list));
        sorted_lists_hold_each_once(list);
        let a = m.take(n - 1);
        let b = m.take(n);
        assert(b =~= a.push(m[n - 1]));
        lemma_key_from(a, x, 0);
        lemma_key_from(b, x, 0);
        if key == x {
            lemma_key_at(b, x, 0, n - 1);
            assert(found(b, x) == Some(list));
            assert forall|i: int| 0 <= i < a.len() implies #[trigger] a[i].0 != x by {
                assert(m[i].0 != m[n - 1].0);
            }
            assert(found(a, x) is None);
            assert(l.contains(y) == list.contains(y));
            if l.len() == 0 {
                assert(!l.contains(y));
                if found(before, x) is Some {
                    let q = found(before, x)->0;
                    lemma_kept(m, n - 1, x, q[0]);
                    assert(q.contains(q[0]));
                }
            } else {
                insert_then_get(before, key, l, x);
            }
        } else {
            if l.len() > 0 {
                insert_then_get(before, key, l, x);
            }
            match key_from(a, x, 0) {
                Some(i) => {
                    assert(b[i].0 == x);
                    assert forall|h: int| 0 <= h < i implies #[trigger] b[h].0 != x by {
                        assert(a[h].0 != x);
                    }
                    lemma_key_at(b, x, 0, i);
                },
                None => {
                    if key_from(b, x, 0) is Some {
                        let i = key_from(b, x, 0)->0;
                        if i < n - 1 {
                            assert(a[i].0 != x);
                        }
                    }
                },
            }
        }
    } else {
        assert(tags_or_none(found(m.take(0), x)) =~= Seq::empty());
    }
}

/// A mod is linked to another exactly where one of its plugins needs one of the other's;
/// the parents of each stand in order, each once.
pub proof fn linked_mods_need_each_other(
    masters: Seq<(Seq<char>, Seq<Seq<char>>)>,
    owned: Seq<(Seq<char>, Seq<char>)>,
    child: Seq<char>,
    parent: Seq<char>,
)
    ensures
        ({
            let m = links_first(masters, owned, masters.len() as int);
            let t = kept_links(m, m.len() as int);
            &&& loads_after(t, child, parent) == exists|i: int|
                0 <= i < masters.len() && #[trigger] links(masters, owned, i, child, parent)
            &&& found(t, child) matches Some(l) ==> l.len() > 0 && rising(l)
        }),
{
    let m = links_first(masters, owned, masters.len() as int);
    lemma_links(masters, owned, masters.len() as int, child, parent);
    lemma_kept(m, m.len() as int, child, parent);
    assert(m.take(m.len() as int) =~= m);
}

// ---- spelling ----

/// The last of the first `n` names that is the same but for case.
pub open spec fn last_spelling(names: Seq<Seq<char>>, n: int, key: Seq<char>) -> Option<Seq<char>>
    decreases n,
{
    if n <= 0 {
        None
    } else if ascii_lowered(names[n - 1]) == key {
        Some(names[n - 1])
    } else {
        last_spelling(names, n - 1, key)
    }
}

proof fn lemma_spelled(names: Seq<Seq<char>>, n: int, key: Seq<char>)
    requires
        0 <= n <= names.len(),
    ensures
        found(spelled_first(names, n), key) == last_spelling(names, n, key),
    decreases n,
{
    if n > 0 {
        lemma_spelled(names, n - 1, key);
        insert_then_get(
            spelled_first(names, n - 1),
            ascii_lowered(names[n - 1]),
            names[n - 1],
            key,
        );
    }
}

/// The first `n` plugins of the solved order that are active, as the list spells them.
pub open spec fn active_in_order(
    active: Seq<Seq<char>>,
    order: Seq<Seq<char>>,
    n: int,
) -> Seq<Seq<char>>
    decreases n,
{
    if n <= 0 {
        Seq::empty()
    } else {
        let before = active_in_order(active, order, n - 1);
        match last_spelling(active, active.len() as int, ascii_lowered(order[n - 1])) {
            Some(name) => before.push(name),
            None => before,
        }
    }
}

proof fn lemma_wanted(active: Seq<Seq<char>>, order: Seq<Seq<char>>, n: int)
    requires
        0 <= n <= order.len(),
    ensures
        wanted_first(order, spelled(active), n) == active_in_order(active, order, n),
    decreases n,
{
    if n > 0 {
        lemma_wanted(active, order, n - 1);
        lemma_spelled(active, active.len() as int, ascii_lowered(order[n - 1]));
    }
}

/// The plugins that are wanted are the active ones in the solved order, in the spelling of
/// the list.
pub proof fn wanted_plugins_follow_the_solved_order(
    active: Seq<Seq<char>>,
    order: Seq<Seq<char>>,
)
    ensures
        wanted_of(active, order) == active_in_order(active, order, order.len() as int),
{
    lemma_wanted(active, order, order.len() as int);
}

// ---- groups ----

proof fn lemma_with_node(nodes: Seq<Seq<char>>, n: Seq<char>, g: Seq<char>)
    ensures
        with_node(nodes, n).contains(g) == (nodes.contains(g) || n == g),
{
    let t = with_node(nodes, n);
    if nodes.contains(g) {
        let i = choose|i: int| 0 <= i < nodes.len() && nodes[i] == g;
        assert(t[i] == g);
    }
    if !nodes.contains(n) {
        assert(t[nodes.len() as int] == n);
        if t.contains(g) && n != g {
            let i = choose|i: int| 0 <= i < t.len() && t[i] == g;
            assert(nodes[i] == g);
        }
    }
}

proof fn lemma_with_nodes(nodes: Seq<Seq<char>>, more: Seq<Seq<char>>, n: int, g: Seq<char>)
    requires
        0 <= n <= more.len(),
    ensures
        with_nodes(nodes, more, n).contains(g) == (nodes.contains(g) || more.take(n).contains(g)),
    decreases n,
{
    if n > 0 {
        lemma_with_nodes(nodes, more, n - 1, g);
        lemma_with_node(with_nodes(nodes, more, n - 1), more[n - 1], g);
        let a = more.take(n - 1);
        let b = more.take(n);
        if a.contains(g) {
            let i = choose|i: int| 0 <= i < a.len() && a[i] == g;
            assert(b[i] == g);
        }
        assert(b[n - 1] == more[n - 1]);
        if b.contains(g) {
            let i = choose|i: int| 0 <= i < b.len() && b[i] == g;
            if i < n - 1 {
                assert(a[i] == g);
            }
        }
    }
}

proof fn lemma_with_members(nodes: Seq<Seq<char>>, groups: Names, n: int, g: Seq<char>)
    requires
        0 <= n <= groups.len(),
    ensures
        with_members(nodes, groups, n).contains(g) == (nodes.contains(g) || exists|i: int|
            0 <= i < n && (#[trigger] groups[i]).1 == g),
    decreases n,
{
    if n > 0 {
        lemma_with_members(nodes, groups, n - 1, g);
        lemma_with_node(with_members(nodes, groups, n - 1), groups[n - 1].1, g);
        if exists|i: int| 0 <= i < n - 1 && (#[trigger] groups[i]).1 == g {
            let i = choose|i: int| 0 <= i < n - 1 && (#[trigger] groups[i]).1 == g;
            assert(groups[i].1 == g);
        }
    }
}

proof fn lemma_with_heads(nodes: Seq<Seq<char>>, edges: Edges, n: int, g: Seq<char>)
    requires
        0 <= n <= edges.len(),
    ensures
        with_heads(nodes, edges, n).contains(g) == (nodes.contains(g) || exists|i: int|
            0 <= i < n && (#[trigger] edges[i]).0 == g),
    decreases n,
{
    if n > 0 {
        lemma_with_heads(nodes, edges, n - 1, g);
        lemma_with_node(with_heads(nodes, edges, n - 1), edges[n - 1].0, g);
        if exists|i: int| 0 <= i < n - 1 && (#[trigger] edges[i]).0 == g {
            let i = choose|i: int| 0 <= i < n - 1 && (#[trigger] edges[i]).0 == g;
            assert(edges[i].0 == g);
        }
    }
}

proof fn lemma_with_tails(nodes: Seq<Seq<char>>, edges: Edges, n: int, g: Seq<char>)
    requires
        0 <= n <= edges.len(),
    ensures
        with_tails(nodes, edges, n).contains(g) == (nodes.contains(g) || exists|i: int|
            0 <= i < n && (#[trigger] edges[i]).1.contains(g)),
    decreases n,
{
    if n > 0 {
        lemma_with_tails(nodes, edges, n - 1, g);
        let l = edges[n - 1].1;
        lemma_with_nodes(with_tails(nodes, edges, n - 1), l, l.len() as int, g);
        assert(l.take(l.len() as int) =~= l);
        if exists|i: int| 0 <= i < n - 1 && (#[trigger] edges[i]).1.contains(g) {
            let i = choose|i: int| 0 <= i < n - 1 && (#[trigger] edges[i]).1.contains(g);
            assert(edges[i].1.contains(g));
        }
    }
}

/// The data names the group: it is declared, or a plugin is in it, or it is linked.
pub open spec fn names_group(d: LootView, g: Seq<char>) -> bool {
    ||| d.group_order.contains(g)
    ||| exists|i: int| 0 <= i < d.groups.len() && (#[trigger] d.groups[i]).1 == g
    ||| exists|i: int| 0 <= i < d.group_after.len() && (#[trigger] d.group_after[i]).0 == g
    ||| exists|i: int|
        0 <= i < d.group_after.len() && (#[trigger] d.group_after[i]).1.contains(g)
}

proof fn lemma_group_nodes(d: LootView, g: Seq<char>)
    ensures
        group_nodes(d).contains(g) == names_group(d, g),
{
    let a = with_members(d.group_order, d.groups, d.groups.len() as int);
    let b = with_heads(a, d.group_after, d.group_after.len() as int);
    lemma_with_members(d.group_order, d.groups, d.groups.len() as int, g);
    lemma_with_heads(a, d.group_after, d.group_after.len() as int, g);
    lemma_with_tails(b, d.group_after, d.group_after.len() as int, g);
}

proof fn lemma_next(nodes: Seq<Seq<char>>, edges: Edges, done: Seq<Seq<char>>, i: int)
    requires
        0 <= i <= nodes.len(),
    ensures
        match next_from(nodes, edges, done, i) {
            Some(k) => i <= k < nodes.len() && next_at(nodes, edges, done, k),
            None => forall|k: int| i <= k < nodes.len() ==> !#[trigger] next_at(
                nodes,
                edges,
                done,
                k,
            ),
        },
    decreases nodes.len() - i,
{
    if i < nodes.len() && !next_at(nodes, edges, done, i) {
        lemma_next(nodes, edges, done, i + 1);
    }
}

/// The drawing ends because nothing may come next, or because all its draws were used.
proof fn lemma_drawn_out(
    nodes: Seq<Seq<char>>,
    edges: Edges,
    done: Seq<Seq<char>>,
    fuel: nat,
)
    requires
        done.no_duplicates(),
        forall|i: int| 0 <= i < done.len() ==> nodes.contains(#[trigger] done[i]),
    ensures
        ({
            let r = drawn(nodes, edges, done, fuel);
            &&& r.no_duplicates()
            &&& forall|i: int| 0 <= i < r.len() ==> nodes.contains(#[trigger] r[i])
            &&& next_from(nodes, edges, r, 0) is None || r.len() == done.len() + fuel
        }),
    decreases fuel,
{
    if fuel > 0 {
        lemma_next(nodes, edges, done, 0);
        match next_from(nodes, edges, done, 0) {
            Some(i) => {
                let more = done.push(nodes[i]);
                assert forall|a: int, b: int|
                    0 <= a < more.len() && 0 <= b < more.len() && a != b implies more[a]
                    != more[b] by {
                    if a < done.len() {
                        assert(done.contains(done[a]));
                    }
                    if b < done.len() {
                        assert(done.contains(done[b]));
                    }
                }
                assert forall|a: int| 0 <= a < more.len() implies nodes.contains(
                    #[trigger] more[a],
                ) by {
                    if a < done.len() {
                        assert(more[a] == done[a]);
                    } else {
                        assert(nodes.contains(nodes[i]));
                    }
                }
                lemma_drawn_out(nodes, edges, more, (fuel - 1) as nat);
            },
            None => {},
        }
    }
}

/// As many different nodes as there are are all of them.
proof fn lemma_all(nodes: Seq<Seq<char>>, r: Seq<Seq<char>>, g: Seq<char>)
    requires
        r.no_duplicates(),
        forall|i: int| 0 <= i < r.len() ==> nodes.contains(#[trigger] r[i]),
        r.len() >= nodes.len(),
        nodes.contains(g),
    ensures
        r.contains(g),
{
    if !r.contains(g) {
        let more = r.push(g);
        assert(more.no_duplicates()) by {
            assert forall|a: int, b: int|
                0 <= a < more.len() && 0 <= b < more.len() && a != b implies more[a] != more[b] by {
                if a < r.len() {
                    assert(r.contains(r[a]));
                }
                if b < r.len() {
                    assert(r.contains(r[b]));
                }
            }
        }
        more.unique_seq_to_set();
        nodes.lemma_cardinality_of_set();
        assert(more.to_set().subset_of(nodes.to_set())) by {
            assert forall|x: Seq<char>| more.to_set().contains(x) implies nodes.to_set().contains(
                x,
            ) by {
                let i = choose|i: int| 0 <= i < more.len() && more[i] == x;
                if i < r.len() {
                    assert(nodes.contains(r[i]));
                }
            }
        }
        vstd::set_lib::lemma_len_subset(more.to_set(), nodes.to_set());
    }
}

proof fn lemma_last_place(nodes: Seq<Seq<char>>, g: Seq<char>, i: int)
    requires
        0 <= i < nodes.len(),
        nodes[i] == g,
    ensures
        exists|k: int| i <= k < nodes.len() && nodes[k] == g && !#[trigger] occurs_from(
            nodes,
            g,
            k + 1,
        ),
    decreases nodes.len() - i,
{
    if occurs_from(nodes, g, i + 1) {
        let j = choose|j: int| i + 1 <= j < nodes.len() && nodes[j] == g;
        lemma_last_place(nodes, g, j);
        let k = choose|k: int|
            j <= k < nodes.len() && nodes[k] == g && !#[trigger] occurs_from(nodes, g, k + 1);
        assert(i <= k && !occurs_from(nodes, g, k + 1));
    } else {
        assert(!occurs_from(nodes, g, i + 1));
    }
}

/// Every group that the data names is ranked, and no other. A group is held up to the end
/// only where another that it loads after is held up too.
pub proof fn every_group_is_ranked(d: LootView, g: Seq<char>)
    ensures
        ({
            let nodes = group_nodes(d);
            let free = drawn(nodes, d.group_after, Seq::empty(), nodes.len());
            &&& group_sequence(d).contains(g) == names_group(d, g)
            &&& names_group(d, g) && !free.contains(g) ==> (found(
                d.group_after,
                g,
            ) matches Some(parents) && exists|i: int|
                0 <= i < parents.len() && #[trigger] parents[i] != g && !free.contains(parents[i]))
        }),
{
    let nodes = group_nodes(d);
    let none = Seq::<Seq<char>>::empty();
    let free = drawn(nodes, d.group_after, none, nodes.len());
    lemma_group_nodes(d, g);
    lemma_drawn_out(nodes, d.group_after, none, nodes.len());
    lemma_with_nodes(free, nodes, nodes.len() as int, g);
    assert(nodes.take(nodes.len() as int) =~= nodes);
    if free.contains(g) {
        let i = choose|i: int| 0 <= i < free.len() && free[i] == g;
        assert(nodes.contains(free[i]));
    }
    if names_group(d, g) && !free.contains(g) {
        if free.len() >= nodes.len() {
            lemma_all(nodes, free, g);
        }
        lemma_next(nodes, d.group_after, free, 0);
        let i = choose|i: int| 0 <= i < nodes.len() && nodes[i] == g;
        lemma_last_place(nodes, g, i);
        let k = choose|k: int|
            i <= k < nodes.len() && nodes[k] == g && !#[trigger] occurs_from(nodes, g, k + 1);
        assert(!next_at(nodes, d.group_after, free, k));
        assert(!group_ready(d.group_after, free, g));
        let parents = found(d.group_after, g)->0;
        let j = choose|j: int|
            0 <= j < parents.len() && !(parents[j] == g || free.contains(#[trigger] parents[j]));
        assert(parents[j] != g && !free.contains(parents[j]));
    }
}

} // verus!
