//! What libloot is told of the active plugins, and the summary of what it answers.
use vstd::prelude::*;
use crate::libloot_adapter;
use crate::libloot_adapter::{Comparison, LootMessage, MessageKind, PluginTags, SeparatorGraph};
#[allow(unused_imports)]
use crate::libloot_adapter::{group_of_section, in_order_once, indexed_first, kind_count, moved_first, ordered_tags, shown_message, stays, tags_first, GroupNames, LootMessageView};
use crate::list;
use crate::map::TextMap;
#[allow(unused_imports)]
use crate::map::inserted;
use crate::masterlist::MasterlistStatus;
use crate::plugins::PluginOwner;
#[allow(unused_imports)]
use crate::plugins::OwnerView;
use crate::text;
#[allow(unused_imports)]
use crate::text::{ascii_lowered, decimal};

verus! {

pub open spec fn all_lowered(s: Seq<Seq<char>>) -> Seq<Seq<char>> {
    Seq::new(s.len(), |i: int| ascii_lowered(s[i]))
}

fn lower_all(v: &Vec<String>) -> (r: Vec<String>)
    ensures
        r.deep_view() == all_lowered(v.deep_view()),
{
    let ghost all = all_lowered(v.deep_view());
    let mut out: Vec<String> = list::none();
    let mut i: usize = 0;
    assert(all.take(0) =~= Seq::<Seq<char>>::empty());
    while i < v.len()
        invariant
            i <= v.len() == all.len(),
            all == all_lowered(v.deep_view()),
            out.deep_view() == all.take(i as int),
        decreases v.len() - i,
    {
        assert(v.deep_view()[i as int] == v@[i as int]@);
        list::put(&mut out, text::ascii_lower(v[i].as_str()));
        i = i + 1;
        assert(out.deep_view() =~= all.take(i as int));
    }
    assert(all.take(i as int) =~= all);
    out
}

// ---- the groups of the active plugins ----

/// The last of the first `n` owners of a plugin, whose key is its name in lower case.
pub open spec fn last_owner(owners: Seq<OwnerView>, key: Seq<char>, n: int) -> Option<OwnerView>
    decreases n,
{
    if n <= 0 {
        None
    } else if ascii_lowered(owners[n - 1].plugin) == key {
        Some(owners[n - 1])
    } else {
        last_owner(owners, key, n - 1)
    }
}

/// The plugin and the group of its separator, for the first `n` keys whose owner stands in
/// a section with a group.
pub open spec fn grouped_first(
    active: Seq<Seq<char>>,
    owners: Seq<OwnerView>,
    names: GroupNames,
    n: int,
) -> Seq<(Seq<char>, Seq<char>)>
    decreases n,
{
    if n <= 0 {
        Seq::empty()
    } else {
        let before = grouped_first(active, owners, names, n - 1);
        match last_owner(owners, active[n - 1], owners.len() as int) {
            Some(o) => match group_of_section(names, o.section) {
                Some(g) => before.push((o.plugin, g)),
                None => before,
            },
            None => before,
        }
    }
}

fn find_owner(owners: &Vec<PluginOwner>, key: &str) -> (r: Option<usize>)
    ensures
        match r {
            Some(i) => i < owners.len() && last_owner(
                owners.deep_view(),
                key@,
                owners.len() as int,
            ) == Some(owners@[i as int].deep_view()),
            None => last_owner(owners.deep_view(), key@, owners.len() as int) is None,
        },
{
    let ghost ov = owners.deep_view();
    let mut i: usize = owners.len();
    while i > 0
        invariant
            i <= owners.len(),
            ov == owners.deep_view(),
            last_owner(ov, key@, owners.len() as int) == last_owner(ov, key@, i as int),
        decreases i,
    {
        i = i - 1;
        assert(ov[i as int] == owners@[i as int].deep_view());
        let k = text::ascii_lower(owners[i].plugin.as_str());
        if text::same(k.as_str(), key) {
            return Some(i);
        }
    }
    None
}

/// The group that each active plugin would stand in, by the separator of the mod that
/// provides it. `files` are the names of the active plugin files.
pub fn separator_memberships(
    files: &Vec<String>,
    owners: &Vec<PluginOwner>,
    graph: &SeparatorGraph,
) -> (r: Vec<(String, String)>)
    ensures
        ({
            let active = in_order_once(all_lowered(files.deep_view()));
            r.deep_view() == grouped_first(
                active,
                owners.deep_view(),
                graph.group_for_section.deep_view(),
                active.len() as int,
            )
        }),
{
    let active = libloot_adapter::put_in_order(lower_all(files));
    let ghost av = active.deep_view();
    let ghost ov = owners.deep_view();
    let ghost nv = graph.group_for_section.deep_view();
    let mut out: Vec<(String, String)> = list::none();
    let mut i: usize = 0;
    while i < active.len()
        invariant
            i <= active.len(),
            av == active.deep_view(),
            ov == owners.deep_view(),
            nv == graph.group_for_section.deep_view(),
            out.deep_view() == grouped_first(av, ov, nv, i as int),
        decreases active.len() - i,
    {
        assert(av[i as int] == active@[i as int]@);
        if let Some(o) = find_owner(owners, active[i].as_str()) {
            if let Some(g) = libloot_adapter::section_group(graph, owners[o].section.as_str()) {
                list::put(&mut out, (owners[o].plugin.clone(), g));
            }
        }
        i = i + 1;
    }
    out
}

/// The memberships that are given to libloot, and how many plugins keep the group that the
/// masterlist gives them.
pub struct Settled {
    pub given: Vec<(String, String)>,
    pub kept: usize,
}

pub open spec fn keeps_at(existing: Seq<Option<Seq<char>>>, i: int) -> bool {
    i < existing.len() && stays(existing[i])
}

pub open spec fn given_first(
    memberships: Seq<(Seq<char>, Seq<char>)>,
    existing: Seq<Option<Seq<char>>>,
    n: int,
) -> Seq<(Seq<char>, Seq<char>)>
    decreases n,
{
    if n <= 0 {
        Seq::empty()
    } else if keeps_at(existing, n - 1) {
        given_first(memberships, existing, n - 1)
    } else {
        given_first(memberships, existing, n - 1).push(memberships[n - 1])
    }
}

/// A group of the masterlist other than the default one stays; every other plugin gets the
/// group of its separator. `existing` holds the masterlist's group of each membership.
pub fn settle(memberships: &Vec<(String, String)>, existing: &Vec<Option<String>>) -> (r: Settled)
    ensures
        r.given.deep_view() == given_first(
            memberships.deep_view(),
            existing.deep_view(),
            memberships.len() as int,
        ),
        r.kept + r.given.len() == memberships.len(),
{
    let ghost mv = memberships.deep_view();
    let ghost ev = existing.deep_view();
    let mut given: Vec<(String, String)> = list::none();
    let mut kept: usize = 0;
    let mut i: usize = 0;
    while i < memberships.len()
        invariant
            i <= memberships.len(),
            mv == memberships.deep_view(),
            ev == existing.deep_view(),
            given.deep_view() == given_first(mv, ev, i as int),
            kept + given.len() == i,
        decreases memberships.len() - i,
    {
        let keeps = if i < existing.len() {
            assert(ev[i as int] == existing@[i as int].deep_view());
            match &existing[i] {
                Some(g) => libloot_adapter::keeps_group(Some(g.as_str())),
                None => false,
            }
        } else {
            false
        };
        assert(keeps == keeps_at(ev, i as int));
        if keeps {
            kept = kept + 1;
        } else {
            let m = &memberships[i];
            assert(mv[i as int] == m.deep_view());
            list::put(&mut given, (m.0.clone(), m.1.clone()));
        }
        i = i + 1;
    }
    Settled { given, kept }
}

// ---- the summary ----

/// What libloot says of one loaded plugin.
pub struct LoadedPlugin {
    pub name: String,
    pub masters: Vec<String>,
    pub light: bool,
    pub dirty: bool,
    pub messages: Vec<MessageKind>,
}

#[verifier::ext_equal]
pub struct LoadedView {
    pub name: Seq<char>,
    pub masters: Seq<Seq<char>>,
    pub light: bool,
    pub dirty: bool,
    pub messages: Seq<MessageKind>,
}

impl DeepView for LoadedPlugin {
    type V = LoadedView;

    open spec fn deep_view(&self) -> LoadedView {
        LoadedView {
            name: self.name@,
            masters: self.masters.deep_view(),
            light: self.light,
            dirty: self.dirty,
            messages: self.messages@,
        }
    }
}

/// A message that is about no plugin: its kind, and its text in each language.
pub struct GeneralMessage {
    pub kind: MessageKind,
    pub content: Vec<(String, String)>,
}

#[verifier::ext_equal]
pub struct GeneralView {
    pub kind: MessageKind,
    pub content: Seq<(Seq<char>, Seq<char>)>,
}

impl DeepView for GeneralMessage {
    type V = GeneralView;

    open spec fn deep_view(&self) -> GeneralView {
        GeneralView { kind: self.kind, content: self.content.deep_view() }
    }
}

/// What is known beside the plugins: the game, the masterlist, the plugin files before and
/// after the sort, and the counts of the separator graph.
pub struct Solve {
    pub game_name: String,
    pub game_path_source: String,
    pub masterlist: String,
    pub masterlist_status: MasterlistStatus,
    pub input: Vec<String>,
    pub sorted: Vec<String>,
    pub groups: usize,
    pub memberships: usize,
    pub kept: usize,
}

/// The light plugins among the first `n`, in lower case.
pub open spec fn light_first(loaded: Seq<LoadedView>, n: int) -> Seq<Seq<char>>
    decreases n,
{
    if n <= 0 {
        Seq::empty()
    } else if loaded[n - 1].light {
        light_first(loaded, n - 1).push(ascii_lowered(loaded[n - 1].name))
    } else {
        light_first(loaded, n - 1)
    }
}

pub open spec fn dirty_first(loaded: Seq<LoadedView>, n: int) -> nat
    decreases n,
{
    if n <= 0 {
        0
    } else {
        dirty_first(loaded, n - 1) + (if loaded[n - 1].dirty {
            1nat
        } else {
            0
        })
    }
}

/// The kinds of the messages of the first `n` plugins.
pub open spec fn kinds_first(loaded: Seq<LoadedView>, n: int) -> Seq<MessageKind>
    decreases n,
{
    if n <= 0 {
        Seq::empty()
    } else {
        kinds_first(loaded, n - 1) + loaded[n - 1].messages
    }
}

/// The kinds of all messages.
pub open spec fn all_kinds(loaded: Seq<LoadedView>, general: Seq<GeneralView>) -> Seq<
    MessageKind,
> {
    kinds_first(loaded, loaded.len() as int) + Seq::new(
        general.len(),
        |i: int| general[i].kind,
    )
}

/// Those of the first `n` general messages that are shown.
pub open spec fn shown_first(general: Seq<GeneralView>, n: int) -> Seq<LootMessageView>
    decreases n,
{
    if n <= 0 {
        Seq::empty()
    } else {
        match shown_message(general[n - 1].kind, general[n - 1].content) {
            Some(m) => shown_first(general, n - 1).push(m),
            None => shown_first(general, n - 1),
        }
    }
}

/// The masters of each of the first `n` plugins, in lower case.
pub open spec fn masters_first(loaded: Seq<LoadedView>, n: int) -> Seq<
    (Seq<char>, Seq<Seq<char>>),
>
    decreases n,
{
    if n <= 0 {
        Seq::empty()
    } else {
        inserted(
            masters_first(loaded, n - 1),
            ascii_lowered(loaded[n - 1].name),
            all_lowered(loaded[n - 1].masters),
        )
    }
}

struct Facts {
    light: Vec<String>,
    dirty: usize,
    kinds: Vec<MessageKind>,
    masters: TextMap<Vec<String>>,
}

fn read_plugins(loaded: &Vec<LoadedPlugin>) -> (r: Facts)
    ensures
        r.light.deep_view() == light_first(loaded.deep_view(), loaded.len() as int),
        r.light.len() <= loaded.len(),
        r.dirty == dirty_first(loaded.deep_view(), loaded.len() as int),
        r.kinds@ == kinds_first(loaded.deep_view(), loaded.len() as int),
        r.masters.deep_view() == masters_first(loaded.deep_view(), loaded.len() as int),
{
    let ghost lv = loaded.deep_view();
    let mut light: Vec<String> = list::none();
    let mut dirty: usize = 0;
    let mut kinds: Vec<MessageKind> = Vec::new();
    let mut masters: TextMap<Vec<String>> = TextMap::new();
    let mut i: usize = 0;
    while i < loaded.len()
        invariant
            i <= loaded.len(),
            lv == loaded.deep_view(),
            light.deep_view() == light_first(lv, i as int),
            light.len() <= i,
            dirty <= i,
            dirty == dirty_first(lv, i as int),
            kinds@ == kinds_first(lv, i as int),
            masters.deep_view() == masters_first(lv, i as int),
        decreases loaded.len() - i,
    {
        let p = &loaded[i];
        assert(lv[i as int] == p.deep_view());
        if p.light {
            list::put(&mut light, text::ascii_lower(p.name.as_str()));
        }
        if p.dirty {
            dirty = dirty + 1;
        }
        let ghost before = kinds@;
        let mut k: usize = 0;
        assert(before + p.messages@.take(0) =~= before);
        while k < p.messages.len()
            invariant
                k <= p.messages.len(),
                kinds@ == before + p.messages@.take(k as int),
            decreases p.messages.len() - k,
        {
            kinds.push(p.messages[k]);
            k = k + 1;
            assert(kinds@ =~= before + p.messages@.take(k as int));
        }
        assert(p.messages@.take(k as int) =~= p.messages@);
        masters.insert(text::ascii_lower(p.name.as_str()), lower_all(&p.masters));
        i = i + 1;
    }
    Facts { light, dirty, kinds, masters }
}

fn show_general(general: &Vec<GeneralMessage>) -> (r: Vec<LootMessage>)
    ensures
        r.deep_view() == shown_first(general.deep_view(), general.len() as int),
{
    let ghost gv = general.deep_view();
    let mut out: Vec<LootMessage> = list::none();
    let mut i: usize = 0;
    while i < general.len()
        invariant
            i <= general.len(),
            gv == general.deep_view(),
            out.deep_view() == shown_first(gv, i as int),
        decreases general.len() - i,
    {
        assert(gv[i as int] == general@[i as int].deep_view());
        let shown = libloot_adapter::visible_message(general[i].kind, &general[i].content);
        if let Some(m) = shown {
            list::put(&mut out, m);
        }
        i = i + 1;
    }
    out
}

/// The summary of a sort: the counts over the loaded plugins and all messages, the general
/// messages that are shown, the tags by mod, the load indexes and the masters.
pub fn summarize(
    solve: Solve,
    loaded: &Vec<LoadedPlugin>,
    general: &Vec<GeneralMessage>,
    tags: &Vec<PluginTags>,
) -> (r: Comparison)
    ensures
        ({
            let lv = loaded.deep_view();
            let light = light_first(lv, lv.len() as int);
            let kinds = all_kinds(lv, general.deep_view());
            let owned = tags_first(tags.deep_view(), tags.len() as int);
            let before = solve.input.deep_view();
            let after = solve.sorted.deep_view();
            &&& r.game_name@ == solve.game_name@
            &&& r.game_path_source@ == solve.game_path_source@
            &&& r.masterlist@ == solve.masterlist@
            &&& r.masterlist_status == solve.masterlist_status
            &&& r.separator_groups == solve.groups
            &&& r.separator_memberships == solve.memberships
            &&& r.retained_loot_groups == solve.kept
            &&& r.plugin_count == after.len()
            &&& r.active_light_plugins == light.len()
            &&& r.active_full_plugins == lv.len() - light.len()
            &&& r.dirty_plugins == dirty_first(lv, lv.len() as int)
            &&& r.total_messages == kinds.len()
            &&& r.warning_count == kind_count(kinds, MessageKind::Warn, kinds.len() as int)
            &&& r.error_count == kind_count(kinds, MessageKind::Error, kinds.len() as int)
            &&& r.general_messages.deep_view() == shown_first(
                general.deep_view(),
                general.len() as int,
            )
            &&& r.bash_tags_by_owner.deep_view() == ordered_tags(owned, owned.len() as int)
            &&& r.plugin_indexes.deep_view() == indexed_first(
                after,
                light,
                after.len() as int,
            ).indexes
            &&& r.changed_positions == moved_first(
                before,
                after,
                if before.len() <= after.len() {
                    before.len() as int
                } else {
                    after.len() as int
                },
            )
            &&& r.sorted_plugins.deep_view() == all_lowered(after)
            &&& r.plugin_masters.deep_view() == masters_first(lv, lv.len() as int)
        }),
{
    let ghost lv = loaded.deep_view();
    let ghost gv = general.deep_view();
    let facts = read_plugins(loaded);
    assert(facts.light.deep_view().len() == facts.light.len());
    let mut kinds = facts.kinds;
    let ghost before = kinds@;
    let ghost own = Seq::new(gv.len(), |i: int| gv[i].kind);
    let mut i: usize = 0;
    assert(before + own.take(0) =~= before);
    while i < general.len()
        invariant
            i <= general.len() == own.len(),
            gv == general.deep_view(),
            own == Seq::new(gv.len(), |i: int| gv[i].kind),
            kinds@ == before + own.take(i as int),
        decreases general.len() - i,
    {
        assert(gv[i as int] == general@[i as int].deep_view());
        kinds.push(general[i].kind);
        i = i + 1;
        assert(kinds@ =~= before + own.take(i as int));
    }
    assert(own.take(i as int) =~= own);
    Comparison {
        plugin_count: solve.sorted.len(),
        active_full_plugins: loaded.len() - facts.light.len(),
        active_light_plugins: facts.light.len(),
        dirty_plugins: facts.dirty,
        warning_count: libloot_adapter::count_kind(&kinds, MessageKind::Warn),
        error_count: libloot_adapter::count_kind(&kinds, MessageKind::Error),
        total_messages: kinds.len(),
        general_messages: show_general(general),
        bash_tags_by_owner: libloot_adapter::bash_tags_by_owner(tags),
        plugin_indexes: libloot_adapter::plugin_indexes(&solve.sorted, &facts.light),
        changed_positions: libloot_adapter::changed_positions(&solve.input, &solve.sorted),
        sorted_plugins: lower_all(&solve.sorted),
        plugin_masters: facts.masters,
        game_name: solve.game_name,
        game_path_source: solve.game_path_source,
        masterlist: solve.masterlist,
        masterlist_status: solve.masterlist_status,
        separator_groups: solve.groups,
        separator_memberships: solve.memberships,
        retained_loot_groups: solve.kept,
    }
}

// ---- the log ----

/// What the log says of a sort: of `ranks` mods that got a rank, `links` between mods by
/// their masters, and `owners` plugin files.
pub open spec fn engine_text(c: Comparison, ranks: usize, links: usize, owners: usize) -> Seq<
    char,
> {
    "\n--- libloot engine (authoritative plugin projection) ---\n  game: "@
        + c.game_name@
        + " ("@
        + c.game_path_source@
        + ")\n  masterlist: "@
        + c.masterlist@
        + "\n  LOOT facts: "@
        + decimal(c.active_full_plugins as nat)
        + " full + "@
        + decimal(c.active_light_plugins as nat)
        + " light active plugin(s), "@
        + decimal(c.dirty_plugins as nat)
        + " dirty, "@
        + decimal(c.warning_count as nat)
        + " warning(s), "@
        + decimal(c.error_count as nat)
        + " error(s), "@
        + decimal(c.total_messages as nat)
        + " total message(s)\n  separator graph: "@
        + decimal(c.separator_groups as nat)
        + " fluid node(s), "@
        + decimal(c.separator_memberships as nat)
        + " membership/memberships injected; "@
        + decimal(c.retained_loot_groups as nat)
        + " existing LOOT group(s) retained\n  plugin order: "@
        + decimal(c.plugin_count as nat)
        + " active file(s), "@
        + decimal(c.changed_positions as nat)
        + " position(s) differ from the active MO2 baseline\n  projected "@
        + decimal(ranks as nat)
        + " owning mod rank(s) and "@
        + decimal(links as nat)
        + " declared-master mod link(s) from "@
        + decimal(owners as nat)
        + " cheap filename ownership record(s)\n  plugin contents were not extracted; pluginless mods use names, keywords, roadmaps, and user knowledge\n  no plugins.txt, modlist.txt, or LOOT metadata changes were made by libloot"@
}

fn append_count(r: &mut String, n: usize)
    ensures
        final(r)@ == old(r)@ + decimal(n as nat),
{
    let d = text::dec(n as u128);
    r.append(d.as_str());
}

pub fn engine_note(c: &Comparison, ranks: usize, links: usize, owners: usize) -> (r: String)
    ensures
        r@ == engine_text(*c, ranks, links, owners),
{
    let mut r = "\n--- libloot engine (authoritative plugin projection) ---\n  game: ".to_string();
    r.append(c.game_name.as_str());
    r.append(" (");
    r.append(c.game_path_source.as_str());
    r.append(")\n  masterlist: ");
    r.append(c.masterlist.as_str());
    r.append("\n  LOOT facts: ");
    append_count(&mut r, c.active_full_plugins);
    r.append(" full + ");
    append_count(&mut r, c.active_light_plugins);
    r.append(" light active plugin(s), ");
    append_count(&mut r, c.dirty_plugins);
    r.append(" dirty, ");
    append_count(&mut r, c.warning_count);
    r.append(" warning(s), ");
    append_count(&mut r, c.error_count);
    r.append(" error(s), ");
    append_count(&mut r, c.total_messages);
    r.append(" total message(s)\n  separator graph: ");
    append_count(&mut r, c.separator_groups);
    r.append(" fluid node(s), ");
    append_count(&mut r, c.separator_memberships);
    r.append(" membership/memberships injected; ");
    append_count(&mut r, c.retained_loot_groups);
    r.append(" existing LOOT group(s) retained\n  plugin order: ");
    append_count(&mut r, c.plugin_count);
    r.append(" active file(s), ");
    append_count(&mut r, c.changed_positions);
    r.append(" position(s) differ from the active MO2 baseline\n  projected ");
    append_count(&mut r, ranks);
    r.append(" owning mod rank(s) and ");
    append_count(&mut r, links);
    r.append(" declared-master mod link(s) from ");
    append_count(&mut r, owners);
    r.append(" cheap filename ownership record(s)\n  plugin contents were not extracted; pluginless mods use names, keywords, roadmaps, and user knowledge\n  no plugins.txt, modlist.txt, or LOOT metadata changes were made by libloot");
    r
}

} // verus!
