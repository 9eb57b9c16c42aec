//! What is made of the sort: the load indexes, the files that stand for the plugins, the
//! messages that are shown, and where a mod's category comes from.
use vstd::prelude::*;
#[allow(unused_imports)]
use crate::categories::{category_from, explicit_id, name_under, nexus_id, CategoriesView};
#[allow(unused_imports)]
use crate::comparison::{dirty_first, given_first, light_first, LoadedView};
#[allow(unused_imports)]
use crate::libloot_adapter::{game_files, indexed_first, kind_count, laid_over, language_place, moved_first, ordered_first, shown_message, upper_digits, Files, LootMessageView, MessageKind, OwnedView};
#[allow(unused_imports)]
use crate::map::{found, insert_then_get};
#[allow(unused_imports)]
use crate::plugins::is_plugin_name;
#[allow(unused_imports)]
use crate::text::{ascii_lowered, trimmed, zero_padded};

verus! {

// ---- load indexes ----

/// How many of the first `n` plugins are light.
pub open spec fn lights(sorted: Seq<Seq<char>>, light: Seq<Seq<char>>, n: int) -> nat
    decreases n,
{
    if n <= 0 {
        0
    } else {
        lights(sorted, light, n - 1) + (if light.contains(ascii_lowered(sorted[n - 1])) {
            1nat
        } else {
            0
        })
    }
}

/// No plugin stands twice, whatever the case.
pub open spec fn differ(names: Seq<Seq<char>>) -> bool {
    forall|i: int, j: int|
        0 <= i < j < names.len() ==> ascii_lowered(#[trigger] names[i]) != ascii_lowered(
            #[trigger] names[j],
        )
}

proof fn lemma_indexed(sorted: Seq<Seq<char>>, light: Seq<Seq<char>>, n: int)
    requires
        0 <= n <= sorted.len(),
    ensures
        indexed_first(sorted, light, n).light == lights(sorted, light, n),
        indexed_first(sorted, light, n).full == n - lights(sorted, light, n),
    decreases n,
{
    if n > 0 {
        lemma_indexed(sorted, light, n - 1);
    }
}

proof fn lemma_index(sorted: Seq<Seq<char>>, light: Seq<Seq<char>>, n: int, i: int)
    requires
        0 <= i < n <= sorted.len(),
        differ(sorted),
    ensures
        found(indexed_first(sorted, light, n).indexes, ascii_lowered(sorted[i])) == Some(
            if light.contains(ascii_lowered(sorted[i])) {
                "FE "@ + zero_padded(upper_digits(lights(sorted, light, i)), 3)
            } else {
                zero_padded(upper_digits((i - lights(sorted, light, i)) as nat), 2)
            },
        ),
    decreases n,
{
    let before = indexed_first(sorted, light, n - 1);
    let key = ascii_lowered(sorted[n - 1]);
    let put = if light.contains(key) {
        "FE "@ + zero_padded(upper_digits(before.light), 3)
    } else {
        zero_padded(upper_digits(before.full), 2)
    };
    lemma_indexed(sorted, light, n - 1);
    insert_then_get(before.indexes, key, put, ascii_lowered(sorted[i]));
    if i < n - 1 {
        assert(ascii_lowered(sorted[i]) != ascii_lowered(sorted[n - 1]));
        lemma_index(sorted, light, n - 1, i);
    }
}

/// A plugin's load index counts the plugins of its own sort before it: the light ones by
/// themselves, behind a mark, and the full ones by themselves.
pub proof fn load_indexes_count_their_own(sorted: Seq<Seq<char>>, light: Seq<Seq<char>>, i: int)
    requires
        0 <= i < sorted.len(),
        differ(sorted),
    ensures
        ({
            let r = indexed_first(sorted, light, sorted.len() as int);
            let before = lights(sorted, light, i);
            &&& found(r.indexes, ascii_lowered(sorted[i])) == Some(
                if light.contains(ascii_lowered(sorted[i])) {
                    "FE "@ + zero_padded(upper_digits(before), 3)
                } else {
                    zero_padded(upper_digits((i - before) as nat), 2)
                },
            )
            &&& r.light == lights(sorted, light, sorted.len() as int)
            &&& r.full + r.light == sorted.len()
        }),
{
    lemma_indexed(sorted, light, sorted.len() as int);
    lemma_index(sorted, light, sorted.len() as int, i);
}

// ---- files ----

/// The last of the first `n` mods whose folder and file are there has the plugin.
pub open spec fn last_holder(
    owners: Seq<OwnedView>,
    n: int,
    key: Seq<char>,
) -> Option<Seq<char>>
    decreases n,
{
    if n <= 0 {
        None
    } else {
        let o = owners[n - 1];
        if o.root_exists && o.file_exists && ascii_lowered(o.plugin) == key {
            Some(o.path)
        } else {
            last_holder(owners, n - 1, key)
        }
    }
}

/// The last of the first `n` files of the game that is a plugin of that name.
pub open spec fn last_of_game(files: Files, n: int, key: Seq<char>) -> Option<Seq<char>>
    decreases n,
{
    if n <= 0 {
        None
    } else if is_plugin_name(files[n - 1].0) && ascii_lowered(files[n - 1].0) == key {
        Some(files[n - 1].1)
    } else {
        last_of_game(files, n - 1, key)
    }
}

proof fn lemma_game(files: Files, n: int, key: Seq<char>)
    requires
        0 <= n <= files.len(),
    ensures
        found(game_files(files, n), key) == last_of_game(files, n, key),
    decreases n,
{
    if n > 0 {
        lemma_game(files, n - 1, key);
        insert_then_get(
            game_files(files, n - 1),
            ascii_lowered(files[n - 1].0),
            files[n - 1].1,
            key,
        );
    }
}

proof fn lemma_laid(files: Files, owners: Seq<OwnedView>, n: int, key: Seq<char>)
    requires
        0 <= n <= owners.len(),
    ensures
        found(laid_over(files, owners, n), key) == (match last_holder(owners, n, key) {
            Some(p) => Some(p),
            None => found(files, key),
        }),
    decreases n,
{
    if n > 0 {
        lemma_laid(files, owners, n - 1, key);
        let o = owners[n - 1];
        insert_then_get(
            laid_over(files, owners, n - 1),
            ascii_lowered(o.plugin),
            o.path,
            key,
        );
    }
}

/// The file of a plugin is that of the last mod which has it, or else the game's own.
pub proof fn later_mods_lay_over_earlier_ones(
    files: Files,
    owners: Seq<OwnedView>,
    key: Seq<char>,
)
    ensures
        found(
            laid_over(game_files(files, files.len() as int), owners, owners.len() as int),
            key,
        ) == (match last_holder(owners, owners.len() as int, key) {
            Some(p) => Some(p),
            None => last_of_game(files, files.len() as int, key),
        }),
{
    lemma_game(files, files.len() as int, key);
    lemma_laid(
        game_files(files, files.len() as int),
        owners,
        owners.len() as int,
        key,
    );
}

/// The plugin at `i` of the load order has a file, and stands there first.
pub open spec fn leads(files: Files, order: Seq<Seq<char>>, i: int) -> bool {
    &&& found(files, ascii_lowered(order[i])) is Some
    &&& forall|j: int| 0 <= j < i ==> ascii_lowered(#[trigger] order[j]) != ascii_lowered(order[i])
}

/// The files of those among the first `n`, in their order.
pub open spec fn led(files: Files, order: Seq<Seq<char>>, n: int) -> Seq<Seq<char>>
    decreases n,
{
    if n <= 0 {
        Seq::empty()
    } else if leads(files, order, n - 1) {
        led(files, order, n - 1).push(found(files, ascii_lowered(order[n - 1]))->0)
    } else {
        led(files, order, n - 1)
    }
}

proof fn lemma_ordered(files: Files, order: Seq<Seq<char>>, n: int, key: Seq<char>)
    requires
        0 <= n <= order.len(),
    ensures
        ordered_first(files, order, n).paths == led(files, order, n),
        ordered_first(files, order, n).seen.contains(key) == (found(files, key) is Some && exists|
            i: int,
        |
            0 <= i < n && ascii_lowered(#[trigger] order[i]) == key),
    decreases n,
{
    if n > 0 {
        let own = ascii_lowered(order[n - 1]);
        lemma_ordered(files, order, n - 1, own);
        lemma_ordered(files, order, n - 1, key);
        let before = ordered_first(files, order, n - 1);
        let all = ordered_first(files, order, n);
        if before.seen.contains(key) {
            let i = choose|i: int| 0 <= i < before.seen.len() && before.seen[i] == key;
            if all.seen != before.seen {
                assert(all.seen[i] == key);
            }
        }
        if all.seen == before.seen.push(own) {
            assert(all.seen[before.seen.len() as int] == own);
            if all.seen.contains(key) && key != own {
                let i = choose|i: int| 0 <= i < all.seen.len() && all.seen[i] == key;
                assert(before.seen[i] == key);
            }
        }
        if exists|i: int| 0 <= i < n - 1 && ascii_lowered(#[trigger] order[i]) == key {
            let i = choose|i: int| 0 <= i < n - 1 && ascii_lowered(#[trigger] order[i]) == key;
            assert(ascii_lowered(order[i]) == key);
        }
        assert(leads(files, order, n - 1) == (found(files, own) is Some && !before.seen.contains(
            own,
        )));
    }
}

/// The load order gives the files of its plugins, each once and where it first stands;
/// plugins without a file are passed over.
pub proof fn load_order_gives_each_file_once(files: Files, order: Seq<Seq<char>>)
    ensures
        ordered_first(files, order, order.len() as int).paths == led(
            files,
            order,
            order.len() as int,
        ),
{
    lemma_ordered(files, order, order.len() as int, Seq::empty());
}

/// How many of the first `n` places hold another plugin than before.
pub open spec fn shifted(a: Seq<Seq<char>>, b: Seq<Seq<char>>) -> Seq<int> {
    Seq::new(a.len(), |i: int| i).filter(
        |i: int| ascii_lowered(a[i]) != ascii_lowered(b[i]),
    )
}

proof fn lemma_moved(a: Seq<Seq<char>>, b: Seq<Seq<char>>, n: int)
    requires
        0 <= n <= a.len(),
    ensures
        moved_first(a, b, n) == Seq::new(a.len(), |i: int| i).take(n).filter(
            |i: int| ascii_lowered(a[i]) != ascii_lowered(b[i]),
        ).len(),
    decreases n,
{
    reveal(Seq::filter);
    let all = Seq::new(a.len(), |i: int| i);
    let keep = |i: int| ascii_lowered(a[i]) != ascii_lowered(b[i]);
    if n > 0 {
        lemma_moved(a, b, n - 1);
        let t = all.take(n);
        assert(t.drop_last() =~= all.take(n - 1));
        assert(t.last() == n - 1);
    } else {
        assert(all.take(0) =~= Seq::empty());
    }
}

/// The changed places are those that hold another plugin than before.
pub proof fn changed_places_are_counted(a: Seq<Seq<char>>, b: Seq<Seq<char>>)
    ensures
        moved_first(a, b, a.len() as int) == shifted(a, b).len(),
{
    lemma_moved(a, b, a.len() as int);
    let all = Seq::new(a.len(), |i: int| i);
    assert(all.take(a.len() as int) =~= all);
}

// ---- messages ----

/// The content at `i` is the first in that language.
pub open spec fn speaks_first(
    content: Seq<(Seq<char>, Seq<char>)>,
    language: Seq<char>,
    i: int,
) -> bool {
    &&& 0 <= i < content.len()
    &&& content[i].1 == language
    &&& forall|j: int| 0 <= j < i ==> (#[trigger] content[j]).1 != language
}

proof fn lemma_language(content: Seq<(Seq<char>, Seq<char>)>, language: Seq<char>, i: int)
    requires
        0 <= i,
        forall|j: int| 0 <= j < i && j < content.len() ==> (#[trigger] content[j]).1 != language,
    ensures
        match language_place(content, language, i) {
            Some(k) => speaks_first(content, language, k),
            None => forall|j: int| 0 <= j < content.len() ==> (#[trigger] content[j]).1 != language,
        },
    decreases content.len() - i,
{
    if i < content.len() && content[i].1 != language {
        lemma_language(content, language, i + 1);
    }
}

/// A message is shown with its text in English where it has one or has no other, trimmed
/// and with the level of its kind; one without any words is not shown.
pub proof fn messages_are_shown_in_english(
    kind: MessageKind,
    content: Seq<(Seq<char>, Seq<char>)>,
    i: int,
)
    requires
        0 <= i < content.len(),
        content.len() == 1 || speaks_first(content, "en"@, i),
    ensures
        shown_message(kind, content) == (if trimmed(content[i].0).len() == 0 {
            None
        } else {
            Some(
                LootMessageView {
                    level: match kind {
                        MessageKind::Say => crate::libloot_adapter::LootMessageLevel::Info,
                        MessageKind::Warn => crate::libloot_adapter::LootMessageLevel::Warning,
                        MessageKind::Error => crate::libloot_adapter::LootMessageLevel::Error,
                    },
                    text: trimmed(content[i].0),
                },
            )
        }),
{
    lemma_language(content, "en"@, 0);
    if content.len() != 1 {
        match language_place(content, "en"@, 0) {
            Some(k) => {
                if k < i {
                    assert(content[k].1 != "en"@);
                } else if i < k {
                    assert(content[i].1 != "en"@);
                }
            },
            None => {
                assert(content[i].1 != "en"@);
            },
        }
    }
}

proof fn lemma_kinds(kinds: Seq<MessageKind>, kind: MessageKind, n: int)
    requires
        0 <= n <= kinds.len(),
    ensures
        kind_count(kinds, kind, n) == kinds.take(n).filter(|k: MessageKind| k == kind).len(),
    decreases n,
{
    reveal(Seq::filter);
    if n > 0 {
        lemma_kinds(kinds, kind, n - 1);
        let t = kinds.take(n);
        assert(t.drop_last() =~= kinds.take(n - 1));
        assert(t.last() == kinds[n - 1]);
    } else {
        assert(kinds.take(0) =~= Seq::empty());
    }
}

/// The messages of a kind are counted, all of them.
pub proof fn messages_are_counted(kinds: Seq<MessageKind>, kind: MessageKind)
    ensures
        kind_count(kinds, kind, kinds.len() as int) == kinds.filter(
            |k: MessageKind| k == kind,
        ).len(),
{
    lemma_kinds(kinds, kind, kinds.len() as int);
    assert(kinds.take(kinds.len() as int) =~= kinds);
}

proof fn lemma_dirty(loaded: Seq<LoadedView>, n: int)
    requires
        0 <= n <= loaded.len(),
    ensures
        dirty_first(loaded, n) == loaded.take(n).filter(|p: LoadedView| p.dirty).len(),
        light_first(loaded, n) == loaded.take(n).filter(|p: LoadedView| p.light).map_values(
            |p: LoadedView| ascii_lowered(p.name),
        ),
    decreases n,
{
    reveal(Seq::filter);
    let low = |p: LoadedView| ascii_lowered(p.name);
    if n > 0 {
        lemma_dirty(loaded, n - 1);
        let t = loaded.take(n);
        assert(t.drop_last() =~= loaded.take(n - 1));
        assert(t.last() == loaded[n - 1]);
        let f = loaded.take(n - 1).filter(|p: LoadedView| p.light);
        if loaded[n - 1].light {
            assert(f.push(loaded[n - 1]).map_values(low) =~= f.map_values(low).push(
                low(loaded[n - 1]),
            ));
        }
    } else {
        assert(loaded.take(0) =~= Seq::empty());
        assert(light_first(loaded, 0) =~= loaded.take(0).filter(
            |p: LoadedView| p.light,
        ).map_values(low));
    }
}

/// The dirty plugins are counted, and the light ones are known by their names in lower
/// case.
pub proof fn dirty_and_light_plugins_are_told(loaded: Seq<LoadedView>)
    ensures
        dirty_first(loaded, loaded.len() as int) == loaded.filter(|p: LoadedView| p.dirty).len(),
        light_first(loaded, loaded.len() as int) == loaded.filter(
            |p: LoadedView| p.light,
        ).map_values(|p: LoadedView| ascii_lowered(p.name)),
{
    lemma_dirty(loaded, loaded.len() as int);
    assert(loaded.take(loaded.len() as int) =~= loaded);
}

// ---- memberships ----

/// The plugin keeps the group that the masterlist gives it: any but the default one.
pub open spec fn keeps_its_group(existing: Seq<Option<Seq<char>>>, i: int) -> bool {
    i < existing.len() && (existing[i] matches Some(g) && ascii_lowered(g) != ascii_lowered(
        "default"@,
    ))
}

proof fn lemma_given(
    memberships: Seq<(Seq<char>, Seq<char>)>,
    existing: Seq<Option<Seq<char>>>,
    n: int,
    x: (Seq<char>, Seq<char>),
)
    requires
        0 <= n <= memberships.len(),
    ensures
        given_first(memberships, existing, n).contains(x) == exists|i: int|
            0 <= i < n && #[trigger] memberships[i] == x && !keeps_its_group(existing, i),
    decreases n,
{
    if n > 0 {
        lemma_given(memberships, existing, n - 1, x);
        let before = given_first(memberships, existing, n - 1);
        let all = given_first(memberships, existing, n);
        if before.contains(x) {
            let i = choose|i: int| 0 <= i < before.len() && before[i] == x;
            assert(all[i] == x);
        }
        if !keeps_its_group(existing, n - 1) {
            assert(all == before.push(memberships[n - 1]));
            assert(all[before.len() as int] == memberships[n - 1]);
            if all.contains(x) && x != memberships[n - 1] {
                let i = choose|i: int| 0 <= i < all.len() && all[i] == x;
                assert(before[i] == x);
            }
        }
        if exists|i: int|
            0 <= i < n - 1 && #[trigger] memberships[i] == x && !keeps_its_group(existing, i) {
            let i = choose|i: int|
                0 <= i < n - 1 && #[trigger] memberships[i] == x && !keeps_its_group(existing, i);
            assert(memberships[i] == x);
        }
    }
}

/// A plugin is given the group of its separator unless the masterlist gives it one of its
/// own.
pub proof fn groups_of_the_masterlist_stay(
    memberships: Seq<(Seq<char>, Seq<char>)>,
    existing: Seq<Option<Seq<char>>>,
    x: (Seq<char>, Seq<char>),
)
    ensures
        given_first(memberships, existing, memberships.len() as int).contains(x) == exists|i: int|
            0 <= i < memberships.len() && #[trigger] memberships[i] == x && !keeps_its_group(
                existing,
                i,
            ),
{
    lemma_given(memberships, existing, memberships.len() as int, x);
}

// ---- categories ----

/// The first line that names a category of its own.
pub open spec fn names_first(lines: Seq<Seq<char>>, i: int) -> bool {
    &&& 0 <= i < lines.len()
    &&& explicit_id(lines[i]) is Some
    &&& forall|j: int| 0 <= j < i ==> explicit_id(#[trigger] lines[j]) is None
}

/// The last line that names a category of the site.
pub open spec fn names_last(lines: Seq<Seq<char>>, i: int) -> bool {
    &&& 0 <= i < lines.len()
    &&& nexus_id(lines[i]) is Some
    &&& forall|j: int| i < j < lines.len() ==> nexus_id(#[trigger] lines[j]) is None
}

proof fn lemma_category(c: CategoriesView, lines: Seq<Seq<char>>, i: int, nexus: Option<u32>)
    requires
        0 <= i <= lines.len(),
        forall|j: int| 0 <= j < i ==> explicit_id(#[trigger] lines[j]) is None,
    ensures
        (forall|k: int| #[trigger]
            names_first(lines, k) ==> category_from(c, lines, i, nexus) == Some(
                (explicit_id(lines[k])->0, name_under(c.names, explicit_id(lines[k])->0)),
            )),
        (forall|j: int| 0 <= j < lines.len() ==> explicit_id(#[trigger] lines[j]) is None) ==> {
            &&& (forall|k: int|
                i <= k && #[trigger] names_last(lines, k) ==> category_from(c, lines, i, nexus)
                    == local_category(c, nexus_id(lines[k])))
            &&& (forall|j: int| i <= j < lines.len() ==> nexus_id(#[trigger] lines[j]) is None)
                ==> category_from(c, lines, i, nexus) == local_category(c, nexus)
        },
    decreases lines.len() - i,
{
    if i < lines.len() {
        match explicit_id(lines[i]) {
            Some(id) => {
                assert forall|k: int| #[trigger] names_first(lines, k) implies k == i by {
                    if k < i {
                        assert(explicit_id(lines[k]) is None);
                    } else if i < k {
                        assert(explicit_id(lines[i]) is None);
                    }
                }
            },
            None => {
                let next = match nexus_id(lines[i]) {
                    Some(nid) => Some(nid),
                    None => nexus,
                };
                lemma_category(c, lines, i + 1, next);
                assert forall|k: int|
                    i <= k && #[trigger] names_last(lines, k) && (forall|j: int|
                        0 <= j < lines.len() ==> explicit_id(
                            #[trigger] lines[j],
                        ) is None) implies category_from(c, lines, i, nexus) == local_category(
                    c,
                    nexus_id(lines[k]),
                ) by {
                    if k == i {
                        assert forall|j: int| i + 1 <= j < lines.len() implies nexus_id(
                            #[trigger] lines[j],
                        ) is None by {}
                    }
                }
            },
        }
    } else {
        assert forall|k: int| #[trigger] names_first(lines, k) implies false by {
            assert(explicit_id(lines[k]) is None);
        }
    }
}

/// The local category that stands for one of the site, if the table has it.
pub open spec fn local_category(c: CategoriesView, nexus: Option<u32>) -> Option<(u32, Seq<char>)> {
    match nexus {
        Some(nid) => if c.locals.contains_key(nid) {
            Some((c.locals[nid], name_under(c.names, c.locals[nid])))
        } else {
            None
        },
        None => None,
    }
}

/// A mod's category is the first that its notes name; without one, that which stands for
/// the last category of the site that they name.
pub proof fn own_categories_come_first(c: CategoriesView, lines: Seq<Seq<char>>, k: int)
    ensures
        names_first(lines, k) ==> category_from(c, lines, 0, None) == Some(
            (explicit_id(lines[k])->0, name_under(c.names, explicit_id(lines[k])->0)),
        ),
        (forall|j: int| 0 <= j < lines.len() ==> explicit_id(#[trigger] lines[j]) is None)
            && names_last(lines, k) ==> category_from(c, lines, 0, None) == local_category(
            c,
            nexus_id(lines[k]),
        ),
{
    lemma_category(c, lines, 0, None);
}

} // verus!
