//! The masterlist of the load-order tool.
//!
//! Of a masterlist the sorter reads literal `after` and `before` rules of plugins, the
//! group of each plugin, and the `after` rules of groups. Rules with patterns or
//! conditions stay out: a missed edge is safer than a wrong one.
use vstd::prelude::*;
use crate::list;
use crate::map::TextMap;
#[allow(unused_imports)]
use crate::map::{found, inserted};
use crate::sort;
#[allow(unused_imports)]
use crate::sort::{deduped, sorted};
use crate::text;
#[allow(unused_imports)]
use crate::text::{after_prefix, ascii_lowered, begins, find_from, indent_of, lines_of, rfind_from, set_trimmed, split_on, trimmed, without_prefixes, word_end};

verus! {

// ---- names ----

/// Without white space around it, and without quotes inside that.
pub open spec fn unquoted(s: Seq<char>) -> Seq<char> {
    set_trimmed(trimmed(s), "'\""@)
}

pub fn unquote(s: &str) -> (r: String)
    ensures
        r@ == unquoted(s@),
{
    let t = text::trim(s);
    text::trim_of(t.as_str(), "'\"")
}

/// Whether a name is a pattern.
pub open spec fn is_pattern(s: Seq<char>) -> bool {
    exists|i: int| 0 <= i < s.len() && "*?()[]\\|^$+"@.contains(#[trigger] s[i])
}

pub fn is_regex_name(s: &str) -> (r: bool)
    ensures
        r == is_pattern(s@),
{
    let v = text::chars_of(s);
    let marks = text::chars_of("*?()[]\\|^$+");
    let mut i: usize = 0;
    while i < v.len()
        invariant
            i <= v.len(),
            v@ == s@,
            marks@ == "*?()[]\\|^$+"@,
            forall|j: int| 0 <= j < i ==> !"*?()[]\\|^$+"@.contains(#[trigger] s@[j]),
        decreases v.len() - i,
    {
        if text::in_set(&marks, v[i]) {
            return true;
        }
        i = i + 1;
    }
    false
}

/// The items of a rule line: those between brackets, or the one behind a dash. A line
/// whose last closing bracket stands before its first opening one has none to give.
pub open spec fn items(line: Seq<char>) -> Option<Seq<Seq<char>>> {
    match find_from(line, "["@, 0) {
        Some(left) => {
            let right = match rfind_from(line, "]"@, line.len() as int) {
                Some(r) => r,
                None => line.len() as int,
            };
            if right < left {
                None
            } else {
                Some(split_on(line.subrange(left + 1, right), ","@))
            }
        },
        None => match after_prefix(line, "- "@) {
            Some(item) => Some(seq![item]),
            None => Some(Seq::empty()),
        },
    }
}

/// An item without a leading `name:`.
pub open spec fn item_name(item: Seq<char>) -> Seq<char> {
    let t = trimmed(item);
    match after_prefix(t, "name:"@) {
        Some(rest) => rest,
        None => t,
    }
}

pub open spec fn plugin_target(item: Seq<char>) -> Option<Seq<char>> {
    let t = ascii_lowered(unquoted(item_name(item)));
    if t.len() > 0 && !begins(t, "*"@) && !is_pattern(t) {
        Some(t)
    } else {
        None
    }
}

pub open spec fn plugin_targets(items: Seq<Seq<char>>, n: int) -> Seq<Seq<char>>
    decreases n,
{
    if n <= 0 {
        Seq::empty()
    } else {
        match plugin_target(items[n - 1]) {
            Some(t) => plugin_targets(items, n - 1).push(t),
            None => plugin_targets(items, n - 1),
        }
    }
}

pub type Names = Seq<(Seq<char>, Seq<char>)>;

pub type Edges = Seq<(Seq<char>, Seq<Seq<char>>)>;

pub open spec fn group_target(item: Seq<char>, aliases: Names) -> Option<Seq<char>> {
    let t = ascii_lowered(trimmed(unquoted(item_name(item))));
    match after_prefix(t, "*"@) {
        Some(alias) => found(aliases, alias),
        None => if t.len() > 0 {
            Some(t)
        } else {
            None
        },
    }
}

pub open spec fn group_targets_of(items: Seq<Seq<char>>, aliases: Names, n: int) -> Seq<Seq<char>>
    decreases n,
{
    if n <= 0 {
        Seq::empty()
    } else {
        match group_target(items[n - 1], aliases) {
            Some(t) => group_targets_of(items, aliases, n - 1).push(t),
            None => group_targets_of(items, aliases, n - 1),
        }
    }
}

/// The anchor and the display name of a group that is introduced as `&anchor name`.
pub open spec fn anchored(value: Seq<char>) -> Option<(Seq<char>, Seq<char>)> {
    let v = trimmed(unquoted(value));
    match after_prefix(v, "&"@) {
        Some(rest) => {
            let k = word_end(rest, 0);
            if k < rest.len() {
                Some((ascii_lowered(rest.take(k)), ascii_lowered(trimmed(rest.skip(k + 1)))))
            } else {
                None
            }
        },
        None => None,
    }
}

pub open spec fn group_name_of(value: Seq<char>) -> Seq<char> {
    match anchored(value) {
        Some((_, display)) => display,
        None => ascii_lowered(trimmed(unquoted(value))),
    }
}

fn items_of(line: &str) -> (r: Option<Vec<String>>)
    ensures
        r.deep_view() == items(line@),
{
    let v = text::chars_of(line);
    match text::find(line, "[") {
        Some(left) => {
            proof {
                text::lemma_find(line@, "["@, 0);
                text::lemma_rfind(line@, "]"@, line@.len() as int);
                reveal_strlit("[");
                reveal_strlit("]");
            }
            let right: usize = match text::rfind(line, "]") {
                Some(r) => r,
                None => v.len(),
            };
            if right < left {
                return None;
            }
            assert(right != left) by {
                if right == left {
                    assert(line@.subrange(left as int, left + 1)[0] == '[');
                    assert(line@.subrange(left as int, left + 1)[0] == ']');
                }
            }
            let inner = text::part(&v, left + 1, right);
            Some(text::split(inner.as_str(), ","))
        },
        None => {
            let mut out: Vec<String> = list::none();
            match text::strip_prefix(line, "- ") {
                Some(item) => {
                    list::put(&mut out, item);
                    assert(out.deep_view() =~= seq![item@]);
                },
                None => {},
            }
            Some(out)
        },
    }
}

fn name_in(item: &str) -> (r: String)
    ensures
        r@ == item_name(item@),
{
    let t = text::trim(item);
    match text::strip_prefix(t.as_str(), "name:") {
        Some(rest) => rest,
        None => t,
    }
}

fn add_targets(items: &Vec<String>, out: &mut Vec<String>)
    ensures
        final(out).deep_view() == old(out).deep_view() + plugin_targets(
            items.deep_view(),
            items.len() as int,
        ),
{
    let ghost before = out.deep_view();
    let mut i: usize = 0;
    assert(before + plugin_targets(items.deep_view(), 0) =~= before);
    while i < items.len()
        invariant
            i <= items.len(),
            out.deep_view() == before + plugin_targets(items.deep_view(), i as int),
        decreases items.len() - i,
    {
        assert(items.deep_view()[i as int] == items@[i as int]@);
        let name = name_in(items[i].as_str());
        let bare = unquote(name.as_str());
        let t = text::ascii_lower(bare.as_str());
        let ghost so_far = out.deep_view();
        if !t.as_str().is_empty() && !text::starts_with(t.as_str(), "*") && !is_regex_name(
            t.as_str(),
        ) {
            list::put(out, t);
        }
        i = i + 1;
        assert(out.deep_view() =~= before + plugin_targets(items.deep_view(), i as int));
    }
}

fn add_group_targets(items: &Vec<String>, aliases: &TextMap<String>, out: &mut Vec<String>)
    ensures
        final(out).deep_view() == old(out).deep_view() + group_targets_of(
            items.deep_view(),
            aliases.deep_view(),
            items.len() as int,
        ),
{
    let ghost before = out.deep_view();
    let ghost names = aliases.deep_view();
    let mut i: usize = 0;
    assert(before + group_targets_of(items.deep_view(), names, 0) =~= before);
    while i < items.len()
        invariant
            i <= items.len(),
            names == aliases.deep_view(),
            out.deep_view() == before + group_targets_of(items.deep_view(), names, i as int),
        decreases items.len() - i,
    {
        assert(items.deep_view()[i as int] == items@[i as int]@);
        let name = name_in(items[i].as_str());
        let bare = unquote(name.as_str());
        let tidy = text::trim(bare.as_str());
        let t = text::ascii_lower(tidy.as_str());
        match text::strip_prefix(t.as_str(), "*") {
            Some(alias) => {
                if let Some(group) = aliases.get(alias.as_str()) {
                    list::put(out, group.clone());
                }
            },
            None => {
                if !t.as_str().is_empty() {
                    list::put(out, t);
                }
            },
        }
        i = i + 1;
        assert(out.deep_view() =~= before + group_targets_of(items.deep_view(), names, i as int));
    }
}

// ---- the walk over a masterlist ----

#[derive(Clone, Copy, PartialEq, Eq, Structural)]
pub enum Scope {
    Other,
    Groups,
    Plugins,
}

#[derive(Clone, Copy, PartialEq, Eq, Structural)]
pub enum Listing {
    Nothing,
    GroupAfter,
    PluginAfter,
    PluginBefore,
}

pub struct MasterlistRules {
    /// Plugin to the plugins that it loads after, all in lower case.
    pub after: TextMap<Vec<String>>,
    /// Plugin to its group.
    pub groups: TextMap<String>,
    /// Group to the groups that it loads after.
    pub group_after: TextMap<Vec<String>>,
    /// The groups in the order in which they are declared.
    pub group_order: Vec<String>,
}

#[verifier::ext_equal]
pub struct RulesView {
    pub after: Edges,
    pub groups: Names,
    pub group_after: Edges,
    pub group_order: Seq<Seq<char>>,
}

impl DeepView for MasterlistRules {
    type V = RulesView;

    open spec fn deep_view(&self) -> RulesView {
        RulesView {
            after: self.after.deep_view(),
            groups: self.groups.deep_view(),
            group_after: self.group_after.deep_view(),
            group_order: self.group_order.deep_view(),
        }
    }
}

struct Walk {
    rules: MasterlistRules,
    scope: Scope,
    list: Listing,
    group: Option<String>,
    group_edges: Vec<String>,
    group_conditional: bool,
    plugin: Option<String>,
    plugin_group: Option<String>,
    after: Vec<String>,
    before: Vec<String>,
    plugin_conditional: bool,
    aliases: TextMap<String>,
}

#[verifier::ext_equal]
pub struct WalkView {
    pub rules: RulesView,
    pub scope: Scope,
    pub list: Listing,
    pub group: Option<Seq<char>>,
    pub group_edges: Seq<Seq<char>>,
    pub group_conditional: bool,
    pub plugin: Option<Seq<char>>,
    pub plugin_group: Option<Seq<char>>,
    pub after: Seq<Seq<char>>,
    pub before: Seq<Seq<char>>,
    pub plugin_conditional: bool,
    pub aliases: Names,
}

impl DeepView for Walk {
    type V = WalkView;

    closed spec fn deep_view(&self) -> WalkView {
        WalkView {
            rules: self.rules.deep_view(),
            scope: self.scope,
            list: self.list,
            group: self.group.deep_view(),
            group_edges: self.group_edges.deep_view(),
            group_conditional: self.group_conditional,
            plugin: self.plugin.deep_view(),
            plugin_group: self.plugin_group.deep_view(),
            after: self.after.deep_view(),
            before: self.before.deep_view(),
            plugin_conditional: self.plugin_conditional,
            aliases: self.aliases.deep_view(),
        }
    }
}

pub open spec fn no_rules() -> RulesView {
    RulesView {
        after: Seq::empty(),
        groups: Seq::empty(),
        group_after: Seq::empty(),
        group_order: Seq::empty(),
    }
}

pub open spec fn start() -> WalkView {
    WalkView {
        rules: no_rules(),
        scope: Scope::Other,
        list: Listing::Nothing,
        group: None,
        group_edges: Seq::empty(),
        group_conditional: false,
        plugin: None,
        plugin_group: None,
        after: Seq::empty(),
        before: Seq::empty(),
        plugin_conditional: false,
        aliases: Seq::empty(),
    }
}

/// The edges once `k` also has those in `more`.
pub open spec fn with_edges(m: Edges, k: Seq<char>, more: Seq<Seq<char>>) -> Edges {
    match found(m, k) {
        Some(v) => inserted(m, k, v + more),
        None => inserted(m, k, more),
    }
}

/// The edges once each of the first `n` targets also has `name`.
pub open spec fn with_befores(m: Edges, targets: Seq<Seq<char>>, name: Seq<char>, n: int) -> Edges
    decreases n,
{
    if n <= 0 {
        m
    } else {
        with_edges(with_befores(m, targets, name, n - 1), targets[n - 1], seq![name])
    }
}

/// The walk once the group at hand is done.
pub open spec fn group_done(w: WalkView) -> WalkView {
    let rules = match w.group {
        Some(name) => if !w.group_conditional && w.group_edges.len() > 0 {
            RulesView {
                group_after: with_edges(w.rules.group_after, name, w.group_edges),
                ..w.rules
            }
        } else {
            w.rules
        },
        None => w.rules,
    };
    WalkView { rules, group: None, group_edges: Seq::empty(), group_conditional: false, ..w }
}

/// The rules once the literal plugin `name` is done.
pub open spec fn plugin_rules(w: WalkView, name: Seq<char>) -> RulesView {
    let groups = match w.plugin_group {
        Some(g) => inserted(w.rules.groups, name, g),
        None => w.rules.groups,
    };
    let after = if w.after.len() > 0 {
        with_edges(w.rules.after, name, w.after)
    } else {
        w.rules.after
    };
    RulesView { groups, after: with_befores(after, w.before, name, w.before.len() as int), ..w.rules }
}

/// The walk once the plugin at hand is done.
pub open spec fn plugin_done(w: WalkView) -> WalkView {
    let rules = match w.plugin {
        Some(name) => if !w.plugin_conditional && !is_pattern(name) {
            plugin_rules(w, name)
        } else {
            w.rules
        },
        None => w.rules,
    };
    WalkView {
        rules,
        plugin: None,
        plugin_group: None,
        after: Seq::empty(),
        before: Seq::empty(),
        plugin_conditional: false,
        ..w
    }
}

pub open spec fn scope_of(line: Seq<char>) -> Scope {
    if line == "groups:"@ {
        Scope::Groups
    } else if line == "plugins:"@ {
        Scope::Plugins
    } else {
        Scope::Other
    }
}

pub open spec fn group_begun(w: WalkView, line: Seq<char>) -> WalkView {
    let d = group_done(w);
    let value = without_prefixes(line, "- name:"@);
    let name = group_name_of(value);
    let order = d.rules.group_order;
    WalkView {
        rules: RulesView {
            group_order: if order.contains(name) {
                order
            } else {
                order.push(name)
            },
            ..d.rules
        },
        aliases: match anchored(value) {
            Some((anchor, display)) => inserted(d.aliases, anchor, display),
            None => d.aliases,
        },
        group: Some(name),
        list: Listing::Nothing,
        ..d
    }
}

pub open spec fn group_edges_read(w: WalkView, line: Seq<char>) -> Option<WalkView> {
    match items(line) {
        Some(list) => Some(
            WalkView {
                group_edges: w.group_edges + group_targets_of(list, w.aliases, list.len() as int),
                ..w
            },
        ),
        None => None,
    }
}

pub open spec fn after_read(w: WalkView, line: Seq<char>) -> Option<WalkView> {
    match items(line) {
        Some(list) => Some(
            WalkView { after: w.after + plugin_targets(list, list.len() as int), ..w },
        ),
        None => None,
    }
}

pub open spec fn before_read(w: WalkView, line: Seq<char>) -> Option<WalkView> {
    match items(line) {
        Some(list) => Some(
            WalkView { before: w.before + plugin_targets(list, list.len() as int), ..w },
        ),
        None => None,
    }
}

/// A line inside `groups:`.
pub open spec fn group_line(w: WalkView, indent: int, line: Seq<char>) -> Option<WalkView> {
    if indent == 2 && begins(line, "- name:"@) {
        Some(group_begun(w, line))
    } else if w.group is Some && indent == 4 {
        if begins(line, "condition:"@) {
            Some(WalkView { group_conditional: true, list: Listing::Nothing, ..w })
        } else if begins(line, "after:"@) {
            group_edges_read(WalkView { list: Listing::GroupAfter, ..w }, line)
        } else {
            Some(WalkView { list: Listing::Nothing, ..w })
        }
    } else if w.list == Listing::GroupAfter && indent >= 6 && begins(line, "- "@) {
        group_edges_read(w, line)
    } else if w.list == Listing::GroupAfter && indent >= 8 && begins(line, "condition:"@) {
        Some(WalkView { group_conditional: true, ..w })
    } else {
        Some(w)
    }
}

pub open spec fn plugin_group_of(value: Seq<char>, aliases: Names) -> Option<Seq<char>> {
    let raw = ascii_lowered(trimmed(unquoted(value)));
    match after_prefix(raw, "*"@) {
        Some(alias) => match found(aliases, alias) {
            Some(g) => Some(g),
            None => Some(raw),
        },
        None => if raw.len() > 0 {
            Some(raw)
        } else {
            None
        },
    }
}

/// A line inside `plugins:`.
pub open spec fn plugin_line(w: WalkView, indent: int, line: Seq<char>) -> Option<WalkView> {
    if indent == 2 && begins(line, "- name:"@) {
        Some(
            WalkView {
                plugin: Some(ascii_lowered(unquoted(without_prefixes(line, "- name:"@)))),
                list: Listing::Nothing,
                ..plugin_done(w)
            },
        )
    } else if w.plugin is Some && indent == 4 {
        if begins(line, "condition:"@) {
            Some(WalkView { plugin_conditional: true, list: Listing::Nothing, ..w })
        } else if begins(line, "group:"@) {
            Some(
                WalkView {
                    plugin_group: plugin_group_of(line.skip("group:"@.len() as int), w.aliases),
                    list: Listing::Nothing,
                    ..w
                },
            )
        } else if begins(line, "after:"@) {
            after_read(WalkView { list: Listing::PluginAfter, ..w }, line)
        } else if begins(line, "before:"@) {
            before_read(WalkView { list: Listing::PluginBefore, ..w }, line)
        } else {
            Some(WalkView { list: Listing::Nothing, ..w })
        }
    } else if w.list == Listing::PluginAfter && indent >= 6 && begins(line, "- "@) {
        after_read(w, line)
    } else if w.list == Listing::PluginBefore && indent >= 6 && begins(line, "- "@) {
        before_read(w, line)
    } else if (w.list == Listing::PluginAfter || w.list == Listing::PluginBefore) && indent >= 8
        && begins(line, "condition:"@) {
        Some(WalkView { plugin_conditional: true, ..w })
    } else {
        Some(w)
    }
}

/// The walk past one line; a rule line with its brackets the wrong way round ends it.
pub open spec fn step(w: WalkView, raw: Seq<char>) -> Option<WalkView> {
    let indent = indent_of(raw);
    let line = trimmed(raw);
    if line.len() == 0 || begins(line, "#"@) {
        Some(w)
    } else if indent == 0 {
        Some(
            WalkView {
                scope: scope_of(line),
                list: Listing::Nothing,
                ..plugin_done(group_done(w))
            },
        )
    } else {
        match w.scope {
            Scope::Groups => group_line(w, indent, line),
            Scope::Plugins => plugin_line(w, indent, line),
            Scope::Other => Some(w),
        }
    }
}

pub open spec fn walk_first(lines: Seq<Seq<char>>, n: int) -> Option<WalkView>
    decreases n,
{
    if n <= 0 {
        Some(start())
    } else {
        match walk_first(lines, n - 1) {
            Some(w) => step(w, lines[n - 1]),
            None => None,
        }
    }
}

/// Every list of edges in order, each edge once.
pub open spec fn tidy_edges(m: Edges) -> Edges {
    Seq::new(m.len(), |i: int| (m[i].0, deduped(sorted::<String>(m[i].1))))
}

/// The rules of a masterlist, unless a rule line has its brackets the wrong way round.
pub open spec fn masterlist_rules(text: Seq<char>) -> Option<RulesView> {
    match walk_first(lines_of(text), lines_of(text).len() as int) {
        Some(w) => {
            let r = plugin_done(group_done(w)).rules;
            Some(
                RulesView {
                    after: tidy_edges(r.after),
                    group_after: tidy_edges(r.group_after),
                    ..r
                },
            )
        },
        None => None,
    }
}

fn add_edges(m: &mut TextMap<Vec<String>>, k: &str, more: Vec<String>)
    ensures
        final(m).deep_view() == with_edges(old(m).deep_view(), k@, more.deep_view()),
{
    let ghost before = m.deep_view();
    match m.place(k) {
        Some(i) => {
            proof {
                crate::map::lemma_key_from(before, k@, 0);
            }
            let ghost held = before[i as int].1;
            let mut v: Vec<String> = list::none();
            m.swap_at(i, &mut v);
            list::put_all(&mut v, more);
            m.swap_at(i, &mut v);
            assert(m.deep_view() =~= before.update(i as int, (k@, held + more.deep_view())));
        },
        None => m.insert(k.to_string(), more),
    }
}

fn tidy_map(m: &mut TextMap<Vec<String>>)
    ensures
        final(m).deep_view() == tidy_edges(old(m).deep_view()),
{
    let ghost before = m.deep_view();
    let ghost goal = tidy_edges(before);
    let mut i: usize = 0;
    while i < m.len()
        invariant
            i <= before.len(),
            m.deep_view().len() == before.len(),
            goal == tidy_edges(before),
            forall|j: int| 0 <= j < i ==> m.deep_view()[j] == goal[j],
            forall|j: int| i <= j < before.len() ==> m.deep_view()[j] == before[j],
        decreases before.len() - i,
    {
        let mut v: Vec<String> = list::none();
        m.swap_at(i, &mut v);
        let s = sort::sort(v);
        let mut d = sort::dedup(&s);
        m.swap_at(i, &mut d);
        i = i + 1;
    }
    assert(m.deep_view() =~= goal);
}

impl MasterlistRules {
    fn empty() -> (r: MasterlistRules)
        ensures
            r.deep_view() == no_rules(),
    {
        MasterlistRules {
            after: TextMap::new(),
            groups: TextMap::new(),
            group_after: TextMap::new(),
            group_order: list::none(),
        }
    }
}

impl Walk {
    fn end_group(&mut self)
        ensures
            final(self).deep_view() == group_done(old(self).deep_view()),
    {
        let mut edges: Vec<String> = list::none();
        std::mem::swap(&mut edges, &mut self.group_edges);
        let name = self.group.take();
        assert(edges.deep_view().len() == edges.len());
        if let Some(name) = name {
            if !self.group_conditional && edges.len() > 0 {
                add_edges(&mut self.rules.group_after, name.as_str(), edges);
            }
        }
        self.group_conditional = false;
    }

    fn end_plugin(&mut self)
        ensures
            final(self).deep_view() == plugin_done(old(self).deep_view()),
    {
        let ghost w = self.deep_view();
        let name = self.plugin.take();
        let group = self.plugin_group.take();
        let mut after: Vec<String> = list::none();
        std::mem::swap(&mut after, &mut self.after);
        let mut before: Vec<String> = list::none();
        std::mem::swap(&mut before, &mut self.before);
        assert(after.deep_view().len() == after.len());
        let conditional = self.plugin_conditional;
        self.plugin_conditional = false;
        if let Some(name) = name {
            if !conditional && !is_regex_name(name.as_str()) {
                if let Some(g) = group {
                    self.rules.groups.insert(name.clone(), g);
                }
                if after.len() > 0 {
                    add_edges(&mut self.rules.after, name.as_str(), after);
                }
                let ghost m = self.rules.after.deep_view();
                let ghost rules = self.rules.deep_view();
                let ghost rest = self.deep_view();
                let mut i: usize = 0;
                while i < before.len()
                    invariant
                        i <= before.len(),
                        self.deep_view() == (WalkView {
                            rules: RulesView {
                                after: with_befores(m, before.deep_view(), name@, i as int),
                                ..rules
                            },
                            ..rest
                        }),
                    decreases before.len() - i,
                {
                    assert(before.deep_view()[i as int] == before@[i as int]@);
                    let mut one: Vec<String> = list::none();
                    list::put(&mut one, name.clone());
                    assert(one.deep_view() =~= seq![name@]);
                    add_edges(&mut self.rules.after, before[i].as_str(), one);
                    i = i + 1;
                }
            }
        }
    }

    fn begin_group(&mut self, line: &str)
        ensures
            final(self).deep_view() == group_begun(old(self).deep_view(), line@),
    {
        self.end_group();
        let value = text::trim_prefixes(line, "- name:");
        let bare = unquote(value.as_str());
        let v = text::trim(bare.as_str());
        let mut name = text::ascii_lower(v.as_str());
        if let Some(rest) = text::strip_prefix(v.as_str(), "&") {
            if let Some((anchor, display)) = text::split_white(rest.as_str()) {
                let tidy = text::trim(display.as_str());
                let shown = text::ascii_lower(tidy.as_str());
                self.aliases.insert(text::ascii_lower(anchor.as_str()), shown.clone());
                name = shown;
            }
        }
        assert(name@ == group_name_of(value@));
        if !list::holds(&self.rules.group_order, name.as_str()) {
            list::put(&mut self.rules.group_order, name.clone());
        }
        self.group = Some(name);
        self.list = Listing::Nothing;
    }

    fn read_group_edges(&mut self, line: &str) -> (ok: bool)
        ensures
            match group_edges_read(old(self).deep_view(), line@) {
                Some(w) => ok && final(self).deep_view() == w,
                None => !ok,
            },
    {
        match items_of(line) {
            Some(items) => {
                assert(items.deep_view().len() == items.len());
                add_group_targets(&items, &self.aliases, &mut self.group_edges);
                true
            },
            None => false,
        }
    }

    fn read_after(&mut self, line: &str) -> (ok: bool)
        ensures
            match after_read(old(self).deep_view(), line@) {
                Some(w) => ok && final(self).deep_view() == w,
                None => !ok,
            },
    {
        match items_of(line) {
            Some(items) => {
                assert(items.deep_view().len() == items.len());
                add_targets(&items, &mut self.after);
                true
            },
            None => false,
        }
    }

    fn read_before(&mut self, line: &str) -> (ok: bool)
        ensures
            match before_read(old(self).deep_view(), line@) {
                Some(w) => ok && final(self).deep_view() == w,
                None => !ok,
            },
    {
        match items_of(line) {
            Some(items) => {
                assert(items.deep_view().len() == items.len());
                add_targets(&items, &mut self.before);
                true
            },
            None => false,
        }
    }

    fn read_group_line(&mut self, indent: u128, line: &str) -> (ok: bool)
        ensures
            match group_line(old(self).deep_view(), indent as int, line@) {
                Some(w) => ok && final(self).deep_view() == w,
                None => !ok,
            },
    {
        if indent == 2 && text::starts_with(line, "- name:") {
            self.begin_group(line);
            true
        } else if self.group.is_some() && indent == 4 {
            if text::starts_with(line, "condition:") {
                self.group_conditional = true;
                self.list = Listing::Nothing;
                true
            } else if text::starts_with(line, "after:") {
                self.list = Listing::GroupAfter;
                self.read_group_edges(line)
            } else {
                self.list = Listing::Nothing;
                true
            }
        } else if self.list == Listing::GroupAfter && indent >= 6 && text::starts_with(line, "- ") {
            self.read_group_edges(line)
        } else if self.list == Listing::GroupAfter && indent >= 8 && text::starts_with(
            line,
            "condition:",
        ) {
            self.group_conditional = true;
            true
        } else {
            true
        }
    }

    fn begin_plugin(&mut self, line: &str)
        ensures
            final(self).deep_view() == (WalkView {
                plugin: Some(ascii_lowered(unquoted(without_prefixes(line@, "- name:"@)))),
                list: Listing::Nothing,
                ..plugin_done(old(self).deep_view())
            }),
    {
        self.end_plugin();
        let value = text::trim_prefixes(line, "- name:");
        let bare = unquote(value.as_str());
        self.plugin = Some(text::ascii_lower(bare.as_str()));
        self.list = Listing::Nothing;
    }

    fn group_in(&self, value: &str) -> (r: Option<String>)
        ensures
            r.deep_view() == plugin_group_of(value@, self.deep_view().aliases),
    {
        let bare = unquote(value);
        let tidy = text::trim(bare.as_str());
        let raw = text::ascii_lower(tidy.as_str());
        match text::strip_prefix(raw.as_str(), "*") {
            Some(alias) => match self.aliases.get(alias.as_str()) {
                Some(g) => Some(g.clone()),
                None => Some(raw),
            },
            None => if !raw.as_str().is_empty() {
                Some(raw)
            } else {
                None
            },
        }
    }

    fn read_plugin_line(&mut self, indent: u128, line: &str) -> (ok: bool)
        ensures
            match plugin_line(old(self).deep_view(), indent as int, line@) {
                Some(w) => ok && final(self).deep_view() == w,
                None => !ok,
            },
    {
        if indent == 2 && text::starts_with(line, "- name:") {
            self.begin_plugin(line);
            true
        } else if self.plugin.is_some() && indent == 4 {
            if text::starts_with(line, "condition:") {
                self.plugin_conditional = true;
                self.list = Listing::Nothing;
                true
            } else if let Some(value) = text::strip_prefix(line, "group:") {
                self.plugin_group = self.group_in(value.as_str());
                self.list = Listing::Nothing;
                true
            } else if text::starts_with(line, "after:") {
                self.list = Listing::PluginAfter;
                self.read_after(line)
            } else if text::starts_with(line, "before:") {
                self.list = Listing::PluginBefore;
                self.read_before(line)
            } else {
                self.list = Listing::Nothing;
                true
            }
        } else if self.list == Listing::PluginAfter && indent >= 6 && text::starts_with(line, "- ") {
            self.read_after(line)
        } else if self.list == Listing::PluginBefore && indent >= 6 && text::starts_with(
            line,
            "- ",
        ) {
            self.read_before(line)
        } else if (self.list == Listing::PluginAfter || self.list == Listing::PluginBefore)
            && indent >= 8 && text::starts_with(line, "condition:") {
            self.plugin_conditional = true;
            true
        } else {
            true
        }
    }

    fn read_line(&mut self, raw: &str) -> (ok: bool)
        ensures
            match step(old(self).deep_view(), raw@) {
                Some(w) => ok && final(self).deep_view() == w,
                None => !ok,
            },
    {
        let indent = text::indent(raw);
        let trimmed_line = text::trim(raw);
        let line = trimmed_line.as_str();
        if line.is_empty() || text::starts_with(line, "#") {
            return true;
        }
        if indent == 0 {
            self.end_group();
            self.end_plugin();
            self.scope = if text::same(line, "groups:") {
                Scope::Groups
            } else if text::same(line, "plugins:") {
                Scope::Plugins
            } else {
                Scope::Other
            };
            self.list = Listing::Nothing;
            return true;
        }
        match self.scope {
            Scope::Groups => self.read_group_line(indent, line),
            Scope::Plugins => self.read_plugin_line(indent, line),
            Scope::Other => true,
        }
    }
}

proof fn lemma_walk_stopped(lines: Seq<Seq<char>>, n: int, m: int)
    requires
        n <= m,
        walk_first(lines, n) is None,
    ensures
        walk_first(lines, m) is None,
    decreases m,
{
    if n < m {
        lemma_walk_stopped(lines, n, m - 1);
    }
}

/// The rules of a masterlist, or none where a rule line has its brackets the wrong way
/// round.
pub fn read_masterlist(text: &str) -> (r: Option<MasterlistRules>)
    ensures
        r.deep_view() == masterlist_rules(text@),
{
    let lines = text::lines(text);
    let ghost all = lines.deep_view();
    let mut w = Walk {
        rules: MasterlistRules::empty(),
        scope: Scope::Other,
        list: Listing::Nothing,
        group: None,
        group_edges: list::none(),
        group_conditional: false,
        plugin: None,
        plugin_group: None,
        after: list::none(),
        before: list::none(),
        plugin_conditional: false,
        aliases: TextMap::new(),
    };
    let mut i: usize = 0;
    while i < lines.len()
        invariant
            i <= lines.len(),
            all == lines.deep_view(),
            all == lines_of(text@),
            walk_first(all, i as int) == Some(w.deep_view()),
        decreases lines.len() - i,
    {
        assert(all[i as int] == lines@[i as int]@);
        if !w.read_line(lines[i].as_str()) {
            proof {
                lemma_walk_stopped(all, i + 1, all.len() as int);
            }
            return None;
        }
        i = i + 1;
    }
    w.end_group();
    w.end_plugin();
    let mut rules = w.rules;
    tidy_map(&mut rules.after);
    tidy_map(&mut rules.group_after);
    Some(rules)
}

/// The rules of a masterlist whose rule lines have their brackets the right way round.
pub fn parse_masterlist(text: &str) -> (r: MasterlistRules)
    requires
        masterlist_rules(text@) is Some,
    ensures
        Some(r.deep_view()) == masterlist_rules(text@),
{
    match read_masterlist(text) {
        Some(r) => r,
        None => MasterlistRules::empty(),
    }
}

// ---- ordering data ----

pub struct LootData {
    pub after: TextMap<Vec<String>>,
    pub groups: TextMap<String>,
    pub group_after: TextMap<Vec<String>>,
    pub group_order: Vec<String>,
    /// Where the masterlist was read.
    pub path: String,
}

#[verifier::ext_equal]
pub struct LootView {
    pub after: Edges,
    pub groups: Names,
    pub group_after: Edges,
    pub group_order: Seq<Seq<char>>,
    pub path: Seq<char>,
}

impl DeepView for LootData {
    type V = LootView;

    open spec fn deep_view(&self) -> LootView {
        LootView {
            after: self.after.deep_view(),
            groups: self.groups.deep_view(),
            group_after: self.group_after.deep_view(),
            group_order: self.group_order.deep_view(),
            path: self.path@,
        }
    }
}

/// The ordering data that a masterlist at `path` holds, or none where it cannot be
/// read as one.
pub fn loot_data(text: &str, path: String) -> (r: Option<LootData>)
    ensures
        match r {
            Some(d) => masterlist_rules(text@) == Some(
                RulesView {
                    after: d.deep_view().after,
                    groups: d.deep_view().groups,
                    group_after: d.deep_view().group_after,
                    group_order: d.deep_view().group_order,
                },
            ) && d.deep_view().path == path@,
            None => masterlist_rules(text@) is None,
        },
{
    match read_masterlist(text) {
        Some(r) => Some(
            LootData {
                after: r.after,
                groups: r.groups,
                group_after: r.group_after,
                group_order: r.group_order,
                path,
            },
        ),
        None => None,
    }
}

pub open spec fn with_node(nodes: Seq<Seq<char>>, n: Seq<char>) -> Seq<Seq<char>> {
    if nodes.contains(n) {
        nodes
    } else {
        nodes.push(n)
    }
}

pub open spec fn with_nodes(nodes: Seq<Seq<char>>, more: Seq<Seq<char>>, n: int) -> Seq<Seq<char>>
    decreases n,
{
    if n <= 0 {
        nodes
    } else {
        with_node(with_nodes(nodes, more, n - 1), more[n - 1])
    }
}

pub open spec fn with_members(nodes: Seq<Seq<char>>, groups: Names, n: int) -> Seq<Seq<char>>
    decreases n,
{
    if n <= 0 {
        nodes
    } else {
        with_node(with_members(nodes, groups, n - 1), groups[n - 1].1)
    }
}

pub open spec fn with_heads(nodes: Seq<Seq<char>>, edges: Edges, n: int) -> Seq<Seq<char>>
    decreases n,
{
    if n <= 0 {
        nodes
    } else {
        with_node(with_heads(nodes, edges, n - 1), edges[n - 1].0)
    }
}

pub open spec fn with_tails(nodes: Seq<Seq<char>>, edges: Edges, n: int) -> Seq<Seq<char>>
    decreases n,
{
    if n <= 0 {
        nodes
    } else {
        with_nodes(
            with_tails(nodes, edges, n - 1),
            edges[n - 1].1,
            edges[n - 1].1.len() as int,
        )
    }
}

/// Every group that the data names: the declared ones first, in their order.
pub open spec fn group_nodes(d: LootView) -> Seq<Seq<char>> {
    let a = with_members(d.group_order, d.groups, d.groups.len() as int);
    let b = with_heads(a, d.group_after, d.group_after.len() as int);
    with_tails(b, d.group_after, d.group_after.len() as int)
}

/// Whether every group that `g` loads after is among those in `done`.
pub open spec fn group_ready(edges: Edges, done: Seq<Seq<char>>, g: Seq<char>) -> bool {
    match found(edges, g) {
        Some(parents) => forall|i: int|
            0 <= i < parents.len() ==> (parents[i] == g || done.contains(#[trigger] parents[i])),
        None => true,
    }
}

pub open spec fn occurs_from(nodes: Seq<Seq<char>>, g: Seq<char>, i: int) -> bool {
    exists|j: int| i <= j < nodes.len() && nodes[j] == g
}

/// A group may come next at place `i`: it is not yet done, it stands here for the last
/// time, and it is ready.
pub open spec fn next_at(
    nodes: Seq<Seq<char>>,
    edges: Edges,
    done: Seq<Seq<char>>,
    i: int,
) -> bool {
    !done.contains(nodes[i]) && !occurs_from(nodes, nodes[i], i + 1) && group_ready(
        edges,
        done,
        nodes[i],
    )
}

/// The first place from `i` on whose group may come next.
pub open spec fn next_from(
    nodes: Seq<Seq<char>>,
    edges: Edges,
    done: Seq<Seq<char>>,
    i: int,
) -> Option<int>
    decreases nodes.len() - i,
{
    if i < 0 || i >= nodes.len() {
        None
    } else if next_at(nodes, edges, done, i) {
        Some(i)
    } else {
        next_from(nodes, edges, done, i + 1)
    }
}

/// The groups in an order that their edges allow: again and again the first group that
/// may come next, for at most `fuel` times.
pub open spec fn drawn(
    nodes: Seq<Seq<char>>,
    edges: Edges,
    done: Seq<Seq<char>>,
    fuel: nat,
) -> Seq<Seq<char>>
    decreases fuel,
{
    if fuel == 0 {
        done
    } else {
        match next_from(nodes, edges, done, 0) {
            Some(i) => drawn(nodes, edges, done.push(nodes[i]), (fuel - 1) as nat),
            None => done,
        }
    }
}

/// The groups from first to last: as their edges allow, and those in a cycle at the end.
pub open spec fn group_sequence(d: LootView) -> Seq<Seq<char>> {
    let nodes = group_nodes(d);
    let free = drawn(nodes, d.group_after, Seq::empty(), nodes.len());
    with_nodes(free, nodes, nodes.len() as int)
}

/// Each name with its place; the last place of a name that occurs again.
pub open spec fn places_first(names: Seq<Seq<char>>, n: int) -> Seq<(Seq<char>, usize)>
    decreases n,
{
    if n <= 0 {
        Seq::empty()
    } else {
        inserted(places_first(names, n - 1), names[n - 1], (n - 1) as usize)
    }
}

pub open spec fn group_places(d: LootView) -> Seq<(Seq<char>, usize)> {
    places_first(group_sequence(d), group_sequence(d).len() as int)
}

fn add_node(nodes: &mut Vec<String>, n: &str)
    ensures
        final(nodes).deep_view() == with_node(old(nodes).deep_view(), n@),
{
    if !list::holds(nodes, n) {
        list::put(nodes, n.to_string());
    }
}

fn add_nodes(nodes: &mut Vec<String>, more: &Vec<String>)
    ensures
        final(nodes).deep_view() == with_nodes(
            old(nodes).deep_view(),
            more.deep_view(),
            more.len() as int,
        ),
{
    let ghost before = nodes.deep_view();
    let mut i: usize = 0;
    while i < more.len()
        invariant
            i <= more.len(),
            nodes.deep_view() == with_nodes(before, more.deep_view(), i as int),
        decreases more.len() - i,
    {
        assert(more.deep_view()[i as int] == more@[i as int]@);
        add_node(nodes, more[i].as_str());
        i = i + 1;
    }
}

fn nodes_of(d: &LootData) -> (nodes: Vec<String>)
    ensures
        nodes.deep_view() == group_nodes(d.deep_view()),
{
    let mut nodes = list::copy(&d.group_order);
    let ghost n0 = nodes.deep_view();
    let ghost gs = d.groups.deep_view();
    let ghost es = d.group_after.deep_view();
    let mut i: usize = 0;
    while i < d.groups.len()
        invariant
            i <= gs.len(),
            gs == d.groups.deep_view(),
            nodes.deep_view() == with_members(n0, gs, i as int),
        decreases gs.len() - i,
    {
        let e = d.groups.at(i);
        add_node(&mut nodes, e.1.as_str());
        i = i + 1;
    }
    let ghost n1 = nodes.deep_view();
    let mut i: usize = 0;
    while i < d.group_after.len()
        invariant
            i <= es.len(),
            es == d.group_after.deep_view(),
            nodes.deep_view() == with_heads(n1, es, i as int),
        decreases es.len() - i,
    {
        let e = d.group_after.at(i);
        add_node(&mut nodes, e.0.as_str());
        i = i + 1;
    }
    let ghost n2 = nodes.deep_view();
    let mut i: usize = 0;
    while i < d.group_after.len()
        invariant
            i <= es.len(),
            es == d.group_after.deep_view(),
            nodes.deep_view() == with_tails(n2, es, i as int),
        decreases es.len() - i,
    {
        let e = d.group_after.at(i);
        assert(e.1.deep_view().len() == e.1.len());
        add_nodes(&mut nodes, &e.1);
        i = i + 1;
    }
    nodes
}

fn is_ready(edges: &TextMap<Vec<String>>, done: &Vec<String>, g: &str) -> (r: bool)
    ensures
        r == group_ready(edges.deep_view(), done.deep_view(), g@),
{
    match edges.get(g) {
        Some(parents) => {
            let ghost ps = parents.deep_view();
            let mut i: usize = 0;
            while i < parents.len()
                invariant
                    i <= parents.len(),
                    ps == parents.deep_view(),
                    found(edges.deep_view(), g@) == Some(ps),
                    forall|j: int|
                        0 <= j < i ==> (ps[j] == g@ || done.deep_view().contains(#[trigger] ps[j])),
                decreases parents.len() - i,
            {
                assert(ps[i as int] == parents@[i as int]@);
                if !text::same(parents[i].as_str(), g) && !list::holds(done, parents[i].as_str()) {
                    assert(i < ps.len());
                    assert(!group_ready(edges.deep_view(), done.deep_view(), g@)) by {
                        let held = found(edges.deep_view(), g@)->0;
                        assert(held == ps);
                        assert(!done.deep_view().contains(held[i as int]));
                        assert(held[i as int] != g@);
                    }
                    return false;
                }
                i = i + 1;
            }
            true
        },
        None => true,
    }
}

fn stands_later(nodes: &Vec<String>, g: &str, from: usize) -> (r: bool)
    ensures
        r == occurs_from(nodes.deep_view(), g@, from as int),
{
    let key = g.to_string();
    let mut i: usize = from;
    while i < nodes.len()
        invariant
            from <= i,
            key@ == g@,
            forall|j: int| from <= j < i && j < nodes.len() ==> nodes.deep_view()[j] != g@,
        decreases nodes.len() - i,
    {
        if nodes[i] == key {
            assert(nodes.deep_view()[i as int] == g@);
            return true;
        }
        i = i + 1;
    }
    false
}

fn next_group(nodes: &Vec<String>, edges: &TextMap<Vec<String>>, done: &Vec<String>) -> (r: Option<
    usize,
>)
    ensures
        match r {
            Some(i) => next_from(nodes.deep_view(), edges.deep_view(), done.deep_view(), 0) == Some(
                i as int,
            ) && i < nodes.len(),
            None => next_from(nodes.deep_view(), edges.deep_view(), done.deep_view(), 0) is None,
        },
{
    let ghost ns = nodes.deep_view();
    let mut i: usize = 0;
    while i < nodes.len()
        invariant
            i <= nodes.len(),
            ns == nodes.deep_view(),
            next_from(ns, edges.deep_view(), done.deep_view(), i as int) == next_from(
                ns,
                edges.deep_view(),
                done.deep_view(),
                0,
            ),
        decreases nodes.len() - i,
    {
        assert(ns[i as int] == nodes@[i as int]@);
        let g = nodes[i].as_str();
        if !list::holds(done, g) && !stands_later(nodes, g, i + 1) && is_ready(edges, done, g) {
            return Some(i);
        }
        i = i + 1;
    }
    None
}

/// Stable ranks of the groups, low to high: edges between groups decide, declaration
/// order decides between groups that no edge relates, and groups in a cycle come last.
pub fn group_ranks(data: &LootData) -> (r: TextMap<usize>)
    ensures
        r.deep_view() == group_places(data.deep_view()),
{
    let nodes = nodes_of(data);
    let ghost ns = nodes.deep_view();
    let ghost es = data.group_after.deep_view();
    let mut done: Vec<String> = list::none();
    let mut fuel: usize = nodes.len();
    let mut going = true;
    while going && fuel > 0
        invariant
            ns == nodes.deep_view(),
            es == data.group_after.deep_view(),
            going ==> drawn(ns, es, done.deep_view(), fuel as nat) == drawn(
                ns,
                es,
                Seq::empty(),
                ns.len(),
            ),
            !going ==> done.deep_view() == drawn(ns, es, Seq::empty(), ns.len()),
        decreases
            fuel,
            if going {
                1int
            } else {
                0
            },
    {
        match next_group(&nodes, &data.group_after, &done) {
            Some(i) => {
                assert(ns[i as int] == nodes@[i as int]@);
                list::put(&mut done, nodes[i].clone());
                fuel = fuel - 1;
            },
            None => {
                going = false;
            },
        }
    }
    add_nodes(&mut done, &nodes);
    assert(ns.len() == nodes.len());
    let mut ranks: TextMap<usize> = TextMap::new();
    let ghost seq = done.deep_view();
    let mut i: usize = 0;
    while i < done.len()
        invariant
            i <= done.len(),
            seq == done.deep_view(),
            ranks.deep_view() == places_first(seq, i as int),
        decreases done.len() - i,
    {
        assert(seq[i as int] == done@[i as int]@);
        ranks.insert(done[i].clone(), i);
        i = i + 1;
    }
    assert(seq.len() == done.len());
    ranks
}

/// Each group stands behind the groups that it loads after.
pub open spec fn respects(edges: Edges, order: Seq<Seq<char>>) -> bool {
    forall|i: int|
        0 <= i < order.len() ==> group_ready(edges, order.take(i), #[trigger] order[i])
}

proof fn lemma_next(nodes: Seq<Seq<char>>, edges: Edges, done: Seq<Seq<char>>, i: int)
    requires
        0 <= i,
    ensures
        match next_from(nodes, edges, done, i) {
            Some(k) => i <= k < nodes.len() && next_at(nodes, edges, done, k),
            None => true,
        },
    decreases nodes.len() - i,
{
    if i < nodes.len() && !next_at(nodes, edges, done, i) {
        lemma_next(nodes, edges, done, i + 1);
    }
}

proof fn lemma_drawn(nodes: Seq<Seq<char>>, edges: Edges, done: Seq<Seq<char>>, fuel: nat)
    requires
        respects(edges, done),
    ensures
        respects(edges, drawn(nodes, edges, done, fuel)),
    decreases fuel,
{
    if fuel > 0 {
        lemma_next(nodes, edges, done, 0);
        match next_from(nodes, edges, done, 0) {
            Some(k) => {
                let next = done.push(nodes[k]);
                assert forall|i: int| 0 <= i < next.len() implies group_ready(
                    edges,
                    next.take(i),
                    #[trigger] next[i],
                ) by {
                    if i < done.len() {
                        assert(next.take(i) =~= done.take(i));
                        assert(next[i] == done[i]);
                    } else {
                        assert(next.take(i) =~= done);
                    }
                }
                lemma_drawn(nodes, edges, next, (fuel - 1) as nat);
            },
            None => {},
        }
    }
}

/// Group ranks follow the edges: but for groups that a cycle holds up, which come at the
/// end, each group stands behind all the groups that it loads after.
pub proof fn ranks_follow_edges(d: LootView)
    ensures
        ({
            let nodes = group_nodes(d);
            let free = drawn(nodes, d.group_after, Seq::empty(), nodes.len());
            &&& respects(d.group_after, free)
            &&& group_sequence(d).len() >= free.len()
            &&& group_sequence(d).take(free.len() as int) == free
        }),
{
    let nodes = group_nodes(d);
    let free = drawn(nodes, d.group_after, Seq::empty(), nodes.len());
    lemma_drawn(nodes, d.group_after, Seq::empty(), nodes.len());
    lemma_with_nodes_extends(free, nodes, nodes.len() as int);
}

proof fn lemma_with_nodes_extends(nodes: Seq<Seq<char>>, more: Seq<Seq<char>>, n: int)
    ensures
        with_nodes(nodes, more, n).len() >= nodes.len(),
        with_nodes(nodes, more, n).take(nodes.len() as int) == nodes,
    decreases n,
{
    if n > 0 {
        lemma_with_nodes_extends(nodes, more, n - 1);
        let b = with_nodes(nodes, more, n - 1);
        let a = with_nodes(nodes, more, n);
        assert(a.take(nodes.len() as int) =~= b.take(nodes.len() as int));
    } else {
        assert(nodes.take(nodes.len() as int) =~= nodes);
    }
}

} // verus!
