//! What is reported of the plugins: those that load before a master of theirs, and the
//! files that are plugins at all.
use vstd::prelude::*;
#[allow(unused_imports)]
use crate::plugins::{is_plugin_name, late_master, loose_masters, loose_violations_first, owned, owners_first, place_from, plugin_files, violation, CensusView, ModFilesView, OwnerView, PluginView, ViolationView};
#[allow(unused_imports)]
use crate::text::{ascii_lowered, begins, lemma_rfind, occurs_at, rfind_from};

verus! {

// ---- order ----

/// The plugin stands there first in the order.
pub open spec fn stands_at(order: Seq<Seq<char>>, x: Seq<char>, at: int) -> bool {
    &&& 0 <= at < order.len()
    &&& order[at] == x
    &&& forall|i: int| 0 <= i < at ==> #[trigger] order[i] != x
}

/// A master that counts and that stands behind the place `at` in the order. Those of the
/// game and of the creation club do not count.
pub open spec fn is_late(
    master: Seq<char>,
    base: Seq<Seq<char>>,
    order: Seq<Seq<char>>,
    at: int,
) -> bool {
    &&& !base.contains(master)
    &&& !begins(master, "cc"@)
    &&& exists|p: int| #[trigger] stands_at(order, master, p) && at < p
}

/// The plugin loads before its master `k`, and before none that its header names earlier.
pub open spec fn breaks_at(
    p: PluginView,
    base: Seq<Seq<char>>,
    order: Seq<Seq<char>>,
    k: int,
) -> bool {
    exists|at: int| #[trigger]
        stands_at(order, p.plugin, at) && 0 <= k < p.masters.len() && is_late(
            p.masters[k],
            base,
            order,
            at,
        ) && forall|j: int| 0 <= j < k ==> !is_late(#[trigger] p.masters[j], base, order, at)
}

pub open spec fn breaks(p: PluginView, base: Seq<Seq<char>>, order: Seq<Seq<char>>) -> bool {
    exists|k: int| breaks_at(p, base, order, k)
}

/// One report for every row whose plugin loads before a master, in the order of the rows.
pub open spec fn reports(
    census: CensusView,
    base: Seq<Seq<char>>,
    order: Seq<Seq<char>>,
    n: int,
) -> Seq<ViolationView>
    decreases n,
{
    if n <= 0 {
        Seq::empty()
    } else {
        let before = reports(census, base, order, n - 1);
        let (name, section, p) = census[n - 1];
        if breaks(p, base, order) {
            let k = choose|k: int| breaks_at(p, base, order, k);
            before.push(
                ViolationView { mod_name: name, plugin: p.plugin, master: p.masters[k], section },
            )
        } else {
            before
        }
    }
}

proof fn lemma_place(order: Seq<Seq<char>>, x: Seq<char>, i: int)
    requires
        0 <= i,
        forall|j: int| 0 <= j < i && j < order.len() ==> #[trigger] order[j] != x,
    ensures
        match place_from(order, x, i) {
            Some(k) => stands_at(order, x, k),
            None => forall|j: int| 0 <= j < order.len() ==> #[trigger] order[j] != x,
        },
    decreases order.len() - i,
{
    if i < order.len() && order[i] != x {
        lemma_place(order, x, i + 1);
    }
}

proof fn lemma_one_place(order: Seq<Seq<char>>, x: Seq<char>, a: int, b: int)
    requires
        stands_at(order, x, a),
        stands_at(order, x, b),
    ensures
        a == b,
{
    if a < b {
        assert(order[a] != x);
    } else if b < a {
        assert(order[b] != x);
    }
}

/// The place in the header of the `k`th master that counts.
proof fn lemma_loose(masters: Seq<Seq<char>>, base: Seq<Seq<char>>, order: Seq<Seq<char>>, at: int, n: int)
    requires
        0 <= n <= masters.len(),
    ensures
        ({
            let l = loose_masters(masters, base, n);
            match late_master(l, order, at, 0) {
                Some(k) => exists|j: int|
                    #![trigger masters[j]]
                    0 <= j < n && l[k] == masters[j] && is_late(masters[j], base, order, at) && (
                    forall|i: int| 0 <= i < j ==> !is_late(#[trigger] masters[i], base, order, at)),
                None => forall|i: int|
                    0 <= i < n ==> !is_late(#[trigger] masters[i], base, order, at),
            }
        }),
    decreases n,
{
    if n > 0 {
        lemma_loose(masters, base, order, at, n - 1);
        let a = loose_masters(masters, base, n - 1);
        let b = loose_masters(masters, base, n);
        let m = masters[n - 1];
        if b != a {
            assert(b == a.push(m));
            lemma_late_push(a, m, order, at, 0);
            lemma_late(m, order, at);
            lemma_late_bound(a, order, at, 0);
            match late_master(a, order, at, 0) {
                Some(k) => {
                    assert(b[k] == a[k]);
                },
                None => {
                    assert(b[a.len() as int] == masters[n - 1]);
                },
            }
        }
        if base.contains(m) || begins(m, "cc"@) {
            assert(!is_late(m, base, order, at));
        }
    }
}

proof fn lemma_late_bound(masters: Seq<Seq<char>>, order: Seq<Seq<char>>, at: int, i: int)
    requires
        0 <= i,
    ensures
        late_master(masters, order, at, i) matches Some(k) ==> 0 <= k < masters.len(),
    decreases masters.len() - i,
{
    if i < masters.len() {
        lemma_late_bound(masters, order, at, i + 1);
    }
}

proof fn lemma_late(m: Seq<char>, order: Seq<Seq<char>>, at: int)
    ensures
        (place_from(order, m, 0) matches Some(p) && p > at) == exists|p: int| #[trigger]
            stands_at(order, m, p) && at < p,
{
    lemma_place(order, m, 0);
    match place_from(order, m, 0) {
        Some(p) => {
            if exists|q: int| #[trigger] stands_at(order, m, q) && at < q {
                let q = choose|q: int| #[trigger] stands_at(order, m, q) && at < q;
                lemma_one_place(order, m, p, q);
            }
        },
        None => {
            if exists|q: int| #[trigger] stands_at(order, m, q) && at < q {
                let q = choose|q: int| #[trigger] stands_at(order, m, q) && at < q;
                assert(order[q] != m);
            }
        },
    }
}

proof fn lemma_late_push(
    a: Seq<Seq<char>>,
    m: Seq<char>,
    order: Seq<Seq<char>>,
    at: int,
    i: int,
)
    requires
        0 <= i <= a.len(),
    ensures
        late_master(a.push(m), order, at, i) == (match late_master(a, order, at, i) {
            Some(k) => Some(k),
            None => if place_from(order, m, 0) matches Some(p) && p > at {
                Some(a.len() as int)
            } else {
                None
            },
        }),
    decreases a.len() - i,
{
    let b = a.push(m);
    if i < a.len() {
        assert(b[i] == a[i]);
        lemma_late_push(a, m, order, at, i + 1);
    } else {
        assert(b[i] == m);
        assert(late_master(b, order, at, i + 1) is None);
        assert(late_master(a, order, at, i) is None);
    }
}

proof fn lemma_violation(
    row: (Seq<char>, Seq<char>, PluginView),
    base: Seq<Seq<char>>,
    order: Seq<Seq<char>>,
)
    ensures
        ({
            let (name, section, p) = row;
            let l = loose_masters(p.masters, base, p.masters.len() as int);
            violation(name, section, p.plugin, l, order) == (if breaks(p, base, order) {
                let k = choose|k: int| breaks_at(p, base, order, k);
                Some(
                    ViolationView {
                        mod_name: name,
                        plugin: p.plugin,
                        master: p.masters[k],
                        section,
                    },
                )
            } else {
                None
            })
        }),
{
    let (name, section, p) = row;
    let n = p.masters.len() as int;
    let l = loose_masters(p.masters, base, n);
    lemma_place(order, p.plugin, 0);
    match place_from(order, p.plugin, 0) {
        Some(at) => {
            lemma_loose(p.masters, base, order, at, n);
            match late_master(l, order, at, 0) {
                Some(k) => {
                    let j = choose|j: int|
                        #![trigger p.masters[j]]
                        0 <= j < n && l[k] == p.masters[j] && is_late(
                            p.masters[j],
                            base,
                            order,
                            at,
                        ) && (forall|i: int|
                            0 <= i < j ==> !is_late(#[trigger] p.masters[i], base, order, at));
                    assert(stands_at(order, p.plugin, at));
                    assert(breaks_at(p, base, order, j));
                    let h = choose|h: int| breaks_at(p, base, order, h);
                    let spot = choose|spot: int| #[trigger]
                        stands_at(order, p.plugin, spot) && 0 <= h < p.masters.len() && is_late(
                            p.masters[h],
                            base,
                            order,
                            spot,
                        ) && forall|i: int|
                            0 <= i < h ==> !is_late(#[trigger] p.masters[i], base, order, spot);
                    lemma_one_place(order, p.plugin, at, spot);
                    if h < j {
                        assert(!is_late(p.masters[h], base, order, at));
                    } else if j < h {
                        assert(!is_late(p.masters[j], base, order, at));
                    }
                },
                None => {
                    if breaks(p, base, order) {
                        let h = choose|h: int| breaks_at(p, base, order, h);
                        let spot = choose|spot: int| #[trigger]
                            stands_at(order, p.plugin, spot) && 0 <= h < p.masters.len()
                                && is_late(p.masters[h], base, order, spot) && forall|i: int|
                                0 <= i < h ==> !is_late(
                                    #[trigger] p.masters[i],
                                    base,
                                    order,
                                    spot,
                                );
                        lemma_one_place(order, p.plugin, at, spot);
                        assert(!is_late(p.masters[h], base, order, at));
                    }
                },
            }
        },
        None => {
            if breaks(p, base, order) {
                let h = choose|h: int| breaks_at(p, base, order, h);
                let spot = choose|spot: int| #[trigger]
                    stands_at(order, p.plugin, spot) && 0 <= h < p.masters.len() && is_late(
                        p.masters[h],
                        base,
                        order,
                        spot,
                    ) && forall|i: int|
                        0 <= i < h ==> !is_late(#[trigger] p.masters[i], base, order, spot);
                assert(order[spot] != p.plugin);
            }
        },
    }
}

proof fn lemma_reports(census: CensusView, base: Seq<Seq<char>>, order: Seq<Seq<char>>, n: int)
    requires
        0 <= n <= census.len(),
    ensures
        loose_violations_first(census, base, order, n) == reports(census, base, order, n),
    decreases n,
{
    if n > 0 {
        lemma_reports(census, base, order, n - 1);
        lemma_violation(census[n - 1], base, order);
    }
}

/// Every plugin that loads before a master of its own is reported once, with the first such
/// master in its header, in the order of the plugins; no other is. Masters of the game and
/// of the creation club, and plugins that the order does not hold, are no matter of order.
pub proof fn early_plugins_are_reported_once(
    census: CensusView,
    base: Seq<Seq<char>>,
    order: Seq<Seq<char>>,
)
    ensures
        loose_violations_first(census, base, order, census.len() as int) == reports(
            census,
            base,
            order,
            census.len() as int,
        ),
{
    lemma_reports(census, base, order, census.len() as int);
}

// ---- files ----

/// A name with something in front of its last dot and one of the three extensions behind
/// it, in whatever case.
pub open spec fn has_extension(name: Seq<char>, stem: Seq<char>, ext: Seq<char>) -> bool {
    &&& name == stem + seq!['.'] + ext
    &&& stem.len() > 0
    &&& !ext.contains('.')
    &&& ascii_lowered(ext) == "esp"@ || ascii_lowered(ext) == "esm"@ || ascii_lowered(ext)
        == "esl"@
}

proof fn lemma_dot_at(s: Seq<char>, i: int)
    ensures
        occurs_at(s, seq!['.'], i) == (0 <= i < s.len() && s[i] == '.'),
{
    if 0 <= i < s.len() {
        assert(s.subrange(i, i + 1) =~= seq![s[i]]);
        assert(seq![s[i]][0] == s[i]);
        assert(seq!['.'][0] == '.');
    }
}

/// A file is a plugin by its extension.
pub proof fn plugins_are_known_by_their_extension(name: Seq<char>)
    ensures
        is_plugin_name(name) == exists|stem: Seq<char>, ext: Seq<char>| has_extension(
            name,
            stem,
            ext,
        ),
{
    reveal_strlit(".");
    assert("."@ =~= seq!['.']);
    let p = seq!['.'];
    lemma_rfind(name, p, name.len() as int);
    if is_plugin_name(name) {
        let i = rfind_from(name, p, name.len() as int)->0;
        lemma_dot_at(name, i);
        let stem = name.take(i);
        let ext = name.skip(i + 1);
        assert(name =~= stem + p + ext);
        if ext.contains('.') {
            let j = choose|j: int| 0 <= j < ext.len() && ext[j] == '.';
            lemma_dot_at(name, i + 1 + j);
        }
        assert(has_extension(name, stem, ext));
    }
    if exists|stem: Seq<char>, ext: Seq<char>| has_extension(name, stem, ext) {
        let (stem, ext) = choose|stem: Seq<char>, ext: Seq<char>| has_extension(name, stem, ext);
        let k = stem.len() as int;
        assert(name[k] == '.');
        lemma_dot_at(name, k);
        let i = rfind_from(name, p, name.len() as int)->0;
        lemma_dot_at(name, i);
        if i > k {
            assert(ext[i - k - 1] == '.');
        }
        assert(name.take(i) =~= stem);
        assert(name.skip(i + 1) =~= ext);
    }
}

proof fn lemma_plugin_files(files: Seq<(Seq<char>, Seq<char>)>, n: int)
    requires
        0 <= n <= files.len(),
    ensures
        plugin_files(files, n) == files.take(n).filter(
            |f: (Seq<char>, Seq<char>)| is_plugin_name(f.0),
        ),
    decreases n,
{
    reveal(Seq::filter);
    let keep = |f: (Seq<char>, Seq<char>)| is_plugin_name(f.0);
    if n > 0 {
        lemma_plugin_files(files, n - 1);
        let b = files.take(n);
        assert(b.drop_last() =~= files.take(n - 1));
        assert(b.last() == files[n - 1]);
        assert(keep(files[n - 1]) == is_plugin_name(files[n - 1].0));
    } else {
        assert(files.take(0) =~= Seq::empty());
    }
}

/// Of the files of a mod the plugins are kept, all of them and in their order.
pub proof fn plugin_files_are_kept(files: Seq<(Seq<char>, Seq<char>)>)
    ensures
        plugin_files(files, files.len() as int) == files.filter(
            |f: (Seq<char>, Seq<char>)| is_plugin_name(f.0),
        ),
{
    lemma_plugin_files(files, files.len() as int);
    assert(files.take(files.len() as int) =~= files);
}

/// The mod owns the plugin under that path.
pub open spec fn owns(m: ModFilesView, o: OwnerView) -> bool {
    &&& o.mod_name == m.mod_name
    &&& o.section == m.section
    &&& exists|i: int|
        0 <= i < m.files.len() && is_plugin_name((#[trigger] m.files[i]).0) && o.plugin
            == ascii_lowered(m.files[i].0) && o.path == m.files[i].1
}

proof fn lemma_kept(files: Seq<(Seq<char>, Seq<char>)>, n: int, f: (Seq<char>, Seq<char>))
    requires
        0 <= n <= files.len(),
    ensures
        plugin_files(files, n).contains(f) == exists|i: int|
            0 <= i < n && #[trigger] files[i] == f && is_plugin_name(f.0),
    decreases n,
{
    if n > 0 {
        lemma_kept(files, n - 1, f);
        let before = plugin_files(files, n - 1);
        let all = plugin_files(files, n);
        if before.contains(f) {
            let i = choose|i: int| 0 <= i < before.len() && before[i] == f;
            assert(all[i] == f);
        }
        if is_plugin_name(files[n - 1].0) {
            assert(all == before.push(files[n - 1]));
            assert(all[before.len() as int] == files[n - 1]);
            if all.contains(f) && f != files[n - 1] {
                let i = choose|i: int| 0 <= i < all.len() && all[i] == f;
                assert(before[i] == f);
            }
        }
    }
}

proof fn lemma_owned(m: ModFilesView, o: OwnerView)
    ensures
        owned(m).contains(o) == owns(m, o),
{
    let files = plugin_files(m.files, m.files.len() as int);
    let all = owned(m);
    if all.contains(o) {
        let i = choose|i: int| 0 <= i < all.len() && all[i] == o;
        assert(files.contains(files[i]));
        lemma_kept(m.files, m.files.len() as int, files[i]);
    }
    if owns(m, o) {
        let i = choose|i: int|
            0 <= i < m.files.len() && is_plugin_name((#[trigger] m.files[i]).0) && o.plugin
                == ascii_lowered(m.files[i].0) && o.path == m.files[i].1;
        lemma_kept(m.files, m.files.len() as int, m.files[i]);
        let j = choose|j: int| 0 <= j < files.len() && files[j] == m.files[i];
        assert(all[j] == o);
    }
}

proof fn lemma_owners(mods: Seq<ModFilesView>, n: int, o: OwnerView)
    requires
        0 <= n <= mods.len(),
    ensures
        owners_first(mods, n).contains(o) == exists|i: int|
            0 <= i < n && owns(#[trigger] mods[i], o),
    decreases n,
{
    if n > 0 {
        lemma_owners(mods, n - 1, o);
        lemma_owned(mods[n - 1], o);
        let a = owners_first(mods, n - 1);
        let b = owned(mods[n - 1]);
        if a.contains(o) {
            let i = choose|i: int| 0 <= i < a.len() && a[i] == o;
            assert((a + b)[i] == o);
        }
        if b.contains(o) {
            let i = choose|i: int| 0 <= i < b.len() && b[i] == o;
            assert((a + b)[a.len() + i] == o);
        }
        if (a + b).contains(o) {
            let i = choose|i: int| 0 <= i < (a + b).len() && (a + b)[i] == o;
            if i < a.len() {
                assert(a[i] == o);
            } else {
                assert(b[i - a.len()] == o);
            }
        }
        if exists|i: int| 0 <= i < n - 1 && owns(#[trigger] mods[i], o) {
            let i = choose|i: int| 0 <= i < n - 1 && owns(#[trigger] mods[i], o);
            assert(owns(mods[i], o));
        }
    }
}

/// A mod owns a plugin exactly where the file is among its files.
pub proof fn owners_hold_their_plugins(mods: Seq<ModFilesView>, o: OwnerView)
    ensures
        owners_first(mods, mods.len() as int).contains(o) == exists|i: int|
            0 <= i < mods.len() && owns(#[trigger] mods[i], o),
{
    lemma_owners(mods, mods.len() as int, o);
}

} // verus!
