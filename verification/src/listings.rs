//! What the lists that are shown hold: every thing that belongs there, and nothing else.
use vstd::prelude::*;
#[allow(unused_imports)]
use crate::browser::{top_of, LayoutView};
#[allow(unused_imports)]
use crate::comparison::{grouped_first, last_owner};
#[allow(unused_imports)]
use crate::directives::sorted_lists_hold_each_once;
#[allow(unused_imports)]
use crate::keys::{squeezed, with_item};
#[allow(unused_imports)]
use crate::lessons::lemma_with_item;
#[allow(unused_imports)]
use crate::libloot_adapter::{in_order_once, is_terminal, roots_first, tag_texts, tags_first, tags_or_none, GroupNames, OwnedView, TagsView};
#[allow(unused_imports)]
use crate::map::{found, insert_then_get};
#[allow(unused_imports)]
use crate::masterlist::{hash_from, hex_in, is_hex_digit};
#[allow(unused_imports)]
use crate::plugin_order::indexes_first;
#[allow(unused_imports)]
use crate::plugins::{census_first, plugin_of_file, OwnerView, PluginFileView, PluginView};
#[allow(unused_imports)]
use crate::text::ascii_lowered;
#[allow(unused_imports)]
use crate::theme::{all_hex, hex_colors_from, hex_run};

verus! {

// ---- the top of a layout ----

/// The section at `i` shows a mod.
pub open spec fn shows_mods(sections: LayoutView, context: Seq<Seq<char>>, i: int) -> bool {
    !context.contains(sections[i].0) && sections[i].1.len() > 0
}

/// The top mod is the last mod of the last section that shows one; without such a section
/// there is none.
pub proof fn last_shown_mod_is_on_top(sections: LayoutView, context: Seq<Seq<char>>, n: int)
    requires
        0 <= n <= sections.len(),
    ensures
        match top_of(sections, context, n) {
            Some((name, label)) => exists|i: int|
                0 <= i < n && #[trigger] shows_mods(sections, context, i) && label == sections[i].0
                    && name == sections[i].1.last() && forall|j: int|
                    i < j < n ==> !#[trigger] shows_mods(sections, context, j),
            None => forall|j: int| 0 <= j < n ==> !#[trigger] shows_mods(sections, context, j),
        },
    decreases n,
{
    if n > 0 {
        if shows_mods(sections, context, n - 1) {
        } else {
            last_shown_mod_is_on_top(sections, context, n - 1);
        }
    }
}

// ---- tags and indexes by mod ----

/// One of the first `n` plugins of the mod has the tag.
pub open spec fn is_tagged(rows: Seq<TagsView>, n: int, name: Seq<char>, tag: Seq<char>) -> bool {
    exists|i: int|
        0 <= i < n && (#[trigger] rows[i]).mod_name == name && has_tag(rows[i], tag)
}

/// The plugin has the tag in its header, or the masterlist adds or takes one.
pub open spec fn has_tag(row: TagsView, tag: Seq<char>) -> bool {
    (exists|k: int| 0 <= k < row.header.len() && tag == "Header: "@ + (#[trigger] row.header[k]))
        || (exists|k: int|
        0 <= k < row.suggested.len() && tag == (if (#[trigger] row.suggested[k]).0 {
            "Add"@
        } else {
            "Remove"@
        }) + " "@ + row.suggested[k].1)
}

proof fn lemma_tag_texts(row: TagsView, tag: Seq<char>)
    ensures
        tag_texts(row).contains(tag) == has_tag(row, tag),
{
    let t = tag_texts(row);
    if t.contains(tag) {
        let i = choose|i: int| 0 <= i < t.len() && t[i] == tag;
        if i < row.header.len() {
            assert(tag == "Header: "@ + row.header[i]);
        } else {
            let k = i - row.header.len();
            assert(tag == (if row.suggested[k].0 {
                "Add"@
            } else {
                "Remove"@
            }) + " "@ + row.suggested[k].1);
        }
    }
    if exists|k: int| 0 <= k < row.header.len() && tag == "Header: "@ + (#[trigger] row.header[k]) {
        let k = choose|k: int|
            0 <= k < row.header.len() && tag == "Header: "@ + (#[trigger] row.header[k]);
        assert(t[k] == tag);
    }
    if exists|k: int|
        0 <= k < row.suggested.len() && tag == (if (#[trigger] row.suggested[k]).0 {
            "Add"@
        } else {
            "Remove"@
        }) + " "@ + row.suggested[k].1 {
        let k = choose|k: int|
            0 <= k < row.suggested.len() && tag == (if (#[trigger] row.suggested[k]).0 {
                "Add"@
            } else {
                "Remove"@
            }) + " "@ + row.suggested[k].1;
        assert(t[k + row.header.len()] == tag);
    }
}

proof fn lemma_joined(a: Seq<Seq<char>>, b: Seq<Seq<char>>, y: Seq<char>)
    ensures
        (a + b).contains(y) == (a.contains(y) || b.contains(y)),
{
    let s = a + b;
    if a.contains(y) {
        let i = choose|i: int| 0 <= i < a.len() && a[i] == y;
        assert(s[i] == y);
    }
    if b.contains(y) {
        let i = choose|i: int| 0 <= i < b.len() && b[i] == y;
        assert(s[i + a.len()] == y);
    }
    if s.contains(y) {
        let i = choose|i: int| 0 <= i < s.len() && s[i] == y;
        if i < a.len() {
            assert(a[i] == y);
        } else {
            assert(b[i - a.len()] == y);
        }
    }
}

/// A mod is shown with the tags of all its plugins, and with no other.
pub proof fn mods_show_the_tags_of_their_plugins(
    rows: Seq<TagsView>,
    n: int,
    name: Seq<char>,
    tag: Seq<char>,
)
    requires
        0 <= n <= rows.len(),
    ensures
        tags_or_none(found(tags_first(rows, n), name)).contains(tag) == is_tagged(
            rows,
            n,
            name,
            tag,
        ),
    decreases n,
{
    if n > 0 {
        mods_show_the_tags_of_their_plugins(rows, n - 1, name, tag);
        let before = tags_first(rows, n - 1);
        let r = rows[n - 1];
        let tags = in_order_once(tag_texts(r));
        sorted_lists_hold_each_once(tag_texts(r));
        lemma_tag_texts(r, tag);
        assert(tags.contains(tag) == has_tag(r, tag));
        let own = tags_or_none(found(before, r.mod_name));
        insert_then_get(before, r.mod_name, own + tags, name);
        lemma_joined(own, tags, tag);
        if is_tagged(rows, n - 1, name, tag) {
            let i = choose|i: int|
                0 <= i < n - 1 && (#[trigger] rows[i]).mod_name == name && has_tag(rows[i], tag);
            assert(rows[i].mod_name == name);
        }
        if r.mod_name == name && has_tag(r, tag) {
            assert(rows[n - 1].mod_name == name);
        }
    }
}

/// One of the first `n` plugins of the mod has the index.
pub open spec fn is_indexed(
    owners: Seq<OwnerView>,
    indexes: Seq<(Seq<char>, Seq<char>)>,
    n: int,
    name: Seq<char>,
    index: Seq<char>,
) -> bool {
    exists|i: int|
        0 <= i < n && (#[trigger] owners[i]).mod_name == name && found(indexes, owners[i].plugin)
            == Some(index)
}

/// A mod is shown with the load indexes of all its plugins, and with no other.
pub proof fn mods_show_the_indexes_of_their_plugins(
    owners: Seq<OwnerView>,
    indexes: Seq<(Seq<char>, Seq<char>)>,
    n: int,
    name: Seq<char>,
    index: Seq<char>,
)
    requires
        0 <= n <= owners.len(),
    ensures
        tags_or_none(found(indexes_first(owners, indexes, n), name)).contains(index) == is_indexed(
            owners,
            indexes,
            n,
            name,
            index,
        ),
    decreases n,
{
    if n > 0 {
        mods_show_the_indexes_of_their_plugins(owners, indexes, n - 1, name, index);
        let before = indexes_first(owners, indexes, n - 1);
        let o = owners[n - 1];
        match found(indexes, o.plugin) {
            Some(x) => {
                let own = tags_or_none(found(before, o.mod_name));
                insert_then_get(before, o.mod_name, own.push(x), name);
                lemma_joined(own, seq![x], index);
                assert(own.push(x) =~= own + seq![x]);
                assert(seq![x].contains(index) == (x == index)) by {
                    assert(seq![x][0] == x);
                }
            },
            None => {},
        }
        if is_indexed(owners, indexes, n - 1, name, index) {
            let i = choose|i: int|
                0 <= i < n - 1 && (#[trigger] owners[i]).mod_name == name && found(
                    indexes,
                    owners[i].plugin,
                ) == Some(index);
            assert(owners[i].mod_name == name);
        }
    }
}

// ---- the plugins of a layout ----

/// The owner at `i` is the one whose plugin counts under a key.
pub open spec fn owns_last(owners: Seq<OwnerView>, key: Seq<char>, i: int) -> bool {
    0 <= i < owners.len() && ascii_lowered(owners[i].plugin) == key && forall|j: int|
        i < j < owners.len() ==> ascii_lowered(#[trigger] owners[j].plugin) != key
}

proof fn lemma_last_owner(owners: Seq<OwnerView>, key: Seq<char>, n: int)
    requires
        0 <= n <= owners.len(),
        forall|j: int| n <= j < owners.len() ==> ascii_lowered(#[trigger] owners[j].plugin) != key,
    ensures
        match last_owner(owners, key, n) {
            Some(o) => exists|i: int| #[trigger] owns_last(owners, key, i) && owners[i] == o,
            None => forall|j: int|
                0 <= j < owners.len() ==> ascii_lowered(#[trigger] owners[j].plugin) != key,
        },
    decreases n,
{
    if n > 0 {
        if ascii_lowered(owners[n - 1].plugin) == key {
            assert(owns_last(owners, key, n - 1));
        } else {
            lemma_last_owner(owners, key, n - 1);
        }
    }
}

/// The key at `k` is that of a plugin whose last owner stands in a section with that group.
pub open spec fn is_grouped(
    active: Seq<Seq<char>>,
    owners: Seq<OwnerView>,
    names: GroupNames,
    k: int,
    plugin: Seq<char>,
    g: Seq<char>,
) -> bool {
    exists|i: int| #[trigger]
        owns_last(owners, active[k], i) && owners[i].plugin == plugin && !is_terminal(
            owners[i].section,
        ) && found(names, squeezed(owners[i].section)) == Some(g)
}

/// A plugin is put in the group of the section in which its mod stands. Where several mods
/// have it the last of them counts, and the end of the list gives no group.
pub proof fn plugins_get_the_group_of_their_section(
    active: Seq<Seq<char>>,
    owners: Seq<OwnerView>,
    names: GroupNames,
    n: int,
    plugin: Seq<char>,
    g: Seq<char>,
)
    requires
        0 <= n <= active.len(),
    ensures
        grouped_first(active, owners, names, n).contains((plugin, g)) == exists|k: int|
            0 <= k < n && #[trigger] is_grouped(active, owners, names, k, plugin, g),
    decreases n,
{
    let s = grouped_first(active, owners, names, n);
    if n > 0 {
        plugins_get_the_group_of_their_section(active, owners, names, n - 1, plugin, g);
        let before = grouped_first(active, owners, names, n - 1);
        lemma_last_owner(owners, active[n - 1], owners.len() as int);
        let o = last_owner(owners, active[n - 1], owners.len() as int);
        if before.contains((plugin, g)) {
            let i = choose|i: int| 0 <= i < before.len() && before[i] == (plugin, g);
            assert(s[i] == (plugin, g));
        }
        if is_grouped(active, owners, names, n - 1, plugin, g) {
            let i = choose|i: int| #[trigger]
                owns_last(owners, active[n - 1], i) && owners[i].plugin == plugin && !is_terminal(
                    owners[i].section,
                ) && found(names, squeezed(owners[i].section)) == Some(g);
            assert(o is Some);
            let j = choose|j: int| #[trigger]
                owns_last(owners, active[n - 1], j) && owners[j] == o->0;
            assert(i == j) by {
                if i < j {
                    assert(ascii_lowered(owners[j].plugin) != active[n - 1]);
                }
                if j < i {
                    assert(ascii_lowered(owners[i].plugin) != active[n - 1]);
                }
            }
            assert(s[before.len() as int] == (plugin, g));
        }
        if s.contains((plugin, g)) && !before.contains((plugin, g)) {
            let i = choose|i: int| 0 <= i < s.len() && s[i] == (plugin, g);
            if i < before.len() {
                assert(before[i] == (plugin, g));
            }
            let j = choose|j: int| #[trigger]
                owns_last(owners, active[n - 1], j) && owners[j] == o->0;
            assert(owns_last(owners, active[n - 1], j));
            assert(is_grouped(active, owners, names, n - 1, plugin, g));
        }
    }
}

/// The folders of the mods that exist are searched, each once, and no others.
pub proof fn existing_folders_are_searched_once(owners: Seq<OwnedView>, n: int, root: Seq<char>)
    requires
        0 <= n <= owners.len(),
    ensures
        roots_first(owners, n).no_duplicates(),
        roots_first(owners, n).contains(root) == exists|i: int|
            0 <= i < n && (#[trigger] owners[i]).root_exists && owners[i].root == root,
    decreases n,
{
    if n > 0 {
        existing_folders_are_searched_once(owners, n - 1, root);
        if owners[n - 1].root_exists {
            lemma_with_item(roots_first(owners, n - 1), owners[n - 1].root, root);
        }
        if exists|i: int|
            0 <= i < n - 1 && (#[trigger] owners[i]).root_exists && owners[i].root == root {
            let i = choose|i: int|
                0 <= i < n - 1 && (#[trigger] owners[i]).root_exists && owners[i].root == root;
            assert(owners[i].root_exists);
        }
    }
}

/// The file is a plugin that is read as `p`.
pub open spec fn reads_as(f: PluginFileView, p: PluginView) -> bool {
    plugin_of_file(f.bytes, f.name) == Some(p)
}

/// The census holds each file that is a plugin, with its mod and its section, and nothing
/// else.
pub proof fn every_plugin_is_in_the_census(
    files: Seq<PluginFileView>,
    n: int,
    name: Seq<char>,
    section: Seq<char>,
    p: PluginView,
)
    requires
        0 <= n <= files.len(),
    ensures
        census_first(files, n).contains((name, section, p)) == exists|i: int|
            0 <= i < n && #[trigger] reads_as(files[i], p) && files[i].mod_name == name
                && files[i].section == section,
    decreases n,
{
    let s = census_first(files, n);
    if n > 0 {
        every_plugin_is_in_the_census(files, n - 1, name, section, p);
        let before = census_first(files, n - 1);
        let row = (name, section, p);
        if before.contains(row) {
            let i = choose|i: int| 0 <= i < before.len() && before[i] == row;
            assert(s[i] == row);
        }
        if reads_as(files[n - 1], p) && files[n - 1].mod_name == name && files[n - 1].section
            == section {
            assert(s[before.len() as int] == row);
        }
        if s.contains(row) && !before.contains(row) {
            let i = choose|i: int| 0 <= i < s.len() && s[i] == row;
            if i < before.len() {
                assert(before[i] == row);
            }
            assert(reads_as(files[n - 1], p));
        }
    }
}

// ---- what is found in a text ----

/// A color stands at `i`: a hash sign with eight digits, or else with six.
pub open spec fn is_color_at(s: Seq<char>, i: int, color: Seq<char>) -> bool {
    s[i] == '#' && (if all_hex(s, i + 1, 8) {
        color == s.subrange(i, i + 9)
    } else {
        all_hex(s, i + 1, 6) && color == s.subrange(i, i + 7)
    })
}

/// The colors of a style sheet are those that it spells out, each once.
pub proof fn spelled_colors_are_found(s: Seq<char>, i: int, old_ones: Seq<Seq<char>>, c: Seq<char>)
    requires
        0 <= i,
        old_ones.no_duplicates(),
    ensures
        hex_colors_from(s, i, old_ones).no_duplicates(),
        hex_colors_from(s, i, old_ones).contains(c) == (old_ones.contains(c) || exists|j: int|
            i <= j < s.len() && #[trigger] is_color_at(s, j, c)),
    decreases s.len() - i,
{
    if i < s.len() {
        let k = hex_run(s, i + 1);
        if s[i] == '#' && k > 0 {
            let own = s.subrange(i, i + 1 + k);
            lemma_with_item(old_ones, own, c);
            spelled_colors_are_found(s, i + 1 + k, with_item(old_ones, own), c);
            assert forall|j: int| i < j < i + 1 + k implies !#[trigger] is_color_at(s, j, c) by {
                assert(s[j] != '#');
            }
            assert(is_color_at(s, i, c) == (own == c));
        } else {
            spelled_colors_are_found(s, i + 1, old_ones, c);
            assert(!is_color_at(s, i, c));
        }
    }
}

proof fn lemma_hex_in(s: Seq<char>, n: int)
    requires
        0 <= n <= s.len(),
        forall|i: int| 0 <= i < s.len() ==> is_hex_digit(#[trigger] s[i]),
    ensures
        hex_in(s, n) == s.take(n),
    decreases n,
{
    if n > 0 {
        lemma_hex_in(s, n - 1);
        assert(is_hex_digit(s[n - 1]));
        assert(s.take(n - 1).push(s[n - 1]) =~= s.take(n));
    } else {
        assert(s.take(0) =~= Seq::<char>::empty());
    }
}

/// The hash of a file is the first line of forty digits, whatever their case.
pub proof fn first_line_of_forty_digits_is_the_hash(lines: Seq<Seq<char>>, from: int, k: int)
    requires
        0 <= from <= k < lines.len(),
        lines[k].len() == 40,
        forall|i: int| 0 <= i < 40 ==> is_hex_digit(#[trigger] lines[k][i]),
        forall|j: int| from <= j < k ==> (#[trigger] lines[j]).len() < 40,
    ensures
        hash_from(lines, from) == Some(ascii_lowered(lines[k])),
    decreases k - from,
{
    if from < k {
        lemma_hex_len(lines[from], lines[from].len() as int);
        first_line_of_forty_digits_is_the_hash(lines, from + 1, k);
    } else {
        lemma_hex_in(lines[k], 40);
        assert(lines[k].take(40) =~= lines[k]);
    }
}

proof fn lemma_hex_len(s: Seq<char>, n: int)
    requires
        0 <= n <= s.len(),
    ensures
        hex_in(s, n).len() <= n,
    decreases n,
{
    if n > 0 {
        lemma_hex_len(s, n - 1);
    }
}

} // verus!
