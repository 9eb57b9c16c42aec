//! What a masterlist tells: whoever writes one out of groups and plugins finds again in
//! what is read which plugin loads after which, and the group of each.
use vstd::prelude::*;
#[allow(unused_imports)]
use crate::caches::joined_parts_are_split;
#[allow(unused_imports)]
use crate::loot::{anchored, group_begun, group_done, group_name_of, group_target, group_targets_of, is_pattern, item_name, items, masterlist_rules, no_rules, plugin_done, plugin_group_of, plugin_target, plugin_targets, scope_of, start, step, tidy_edges, unquoted, walk_first, with_befores, with_edges, Edges, Listing, Names, RulesView, Scope, WalkView};
#[allow(unused_imports)]
use crate::map::{distinct_keys, found, insert_then_get, inserted, key_from, lemma_key_from};
#[allow(unused_imports)]
use crate::readback::{all_white, lemma_trim_padded, lemma_trim_tight, tight};
#[allow(unused_imports)]
use crate::sort::{deduped, deduped_first, in_order, sorted, sorting_orders_and_keeps, Ranked};
#[allow(unused_imports)]
use crate::text::{after_prefix, ascii_lowered, before, before_set, begins, ended, find_from, indent_of, is_line, is_white, joined, joined_first, lemma_find, lemma_lines_read_back, lemma_rfind, lower_char, occurs_at, past_set, rfind_from, set_trimmed_end, set_trimmed_start, split_on, trimmed, white_width, without_prefixes, word_end};

verus! {

// ---- how a masterlist is written ----

/// A name behind `after` or `before`, between quotes or bare, with or without `name:` in
/// front, and perhaps under a condition.
pub struct Item {
    pub name: Seq<char>,
    pub quote: Seq<char>,
    pub named: bool,
    pub condition: Option<Seq<char>>,
}

/// A line under a plugin, or a list of them. A list stands between brackets or, where it
/// is `dashed`, in lines of its own.
pub enum Detail {
    Group { name: Seq<char>, quote: Seq<char> },
    Condition(Seq<char>),
    After { items: Seq<Item>, dashed: bool },
    Before { items: Seq<Item>, dashed: bool },
}

/// A group, which may carry an anchor by which others call it.
pub struct Group {
    pub name: Seq<char>,
    pub quote: Seq<char>,
    pub anchor: Option<Seq<char>>,
    pub details: Seq<Detail>,
}

pub struct Plugin {
    pub name: Seq<char>,
    pub quote: Seq<char>,
    pub details: Seq<Detail>,
}

pub open spec fn line(indent: nat, s: Seq<char>) -> Seq<char> {
    Seq::new(indent, |i: int| ' ') + s
}

pub open spec fn spelled(name: Seq<char>, quote: Seq<char>) -> Seq<char> {
    quote + name + quote
}

/// The items of a list between brackets, each but the first behind a space.
pub open spec fn parts(items: Seq<Item>) -> Seq<Seq<char>> {
    Seq::new(
        items.len(),
        |i: int|
            if i == 0 {
                spelled(items[i].name, items[i].quote)
            } else {
                seq![' '] + spelled(items[i].name, items[i].quote)
            },
    )
}

pub open spec fn item_lines(item: Item) -> Seq<Seq<char>> {
    seq![
        line(
            6,
            "- "@ + (if item.named {
                "name: "@
            } else {
                Seq::empty()
            }) + spelled(item.name, item.quote),
        ),
    ] + (match item.condition {
        Some(c) => seq![line(8, "condition: "@ + c)],
        None => Seq::empty(),
    })
}

pub open spec fn items_lines(items: Seq<Item>, n: int) -> Seq<Seq<char>>
    decreases n,
{
    if n <= 0 {
        Seq::empty()
    } else {
        items_lines(items, n - 1) + item_lines(items[n - 1])
    }
}

pub open spec fn list_lines(word: Seq<char>, items: Seq<Item>, dashed: bool) -> Seq<Seq<char>> {
    if dashed {
        seq![line(4, word)] + items_lines(items, items.len() as int)
    } else {
        seq![line(4, word + " ["@ + joined(parts(items), seq![',']) + "]"@)]
    }
}

pub open spec fn detail_lines(d: Detail) -> Seq<Seq<char>> {
    match d {
        Detail::Group { name, quote } => seq![line(4, "group: "@ + spelled(name, quote))],
        Detail::Condition(c) => seq![line(4, "condition: "@ + c)],
        Detail::After { items, dashed } => list_lines("after:"@, items, dashed),
        Detail::Before { items, dashed } => list_lines("before:"@, items, dashed),
    }
}

pub open spec fn details_lines(details: Seq<Detail>, n: int) -> Seq<Seq<char>>
    decreases n,
{
    if n <= 0 {
        Seq::empty()
    } else {
        details_lines(details, n - 1) + detail_lines(details[n - 1])
    }
}

pub open spec fn plugin_lines(p: Plugin) -> Seq<Seq<char>> {
    seq![line(2, "- name: "@ + spelled(p.name, p.quote))] + details_lines(
        p.details,
        p.details.len() as int,
    )
}

pub open spec fn plugins_lines(plugins: Seq<Plugin>, n: int) -> Seq<Seq<char>>
    decreases n,
{
    if n <= 0 {
        Seq::empty()
    } else {
        plugins_lines(plugins, n - 1) + plugin_lines(plugins[n - 1])
    }
}

pub open spec fn group_lines(g: Group) -> Seq<Seq<char>> {
    seq![
        line(
            2,
            "- name: "@ + (match g.anchor {
                Some(a) => seq!['&'] + a + seq![' '] + g.name,
                None => spelled(g.name, g.quote),
            }),
        ),
    ] + details_lines(g.details, g.details.len() as int)
}

pub open spec fn groups_lines(groups: Seq<Group>, n: int) -> Seq<Seq<char>>
    decreases n,
{
    if n <= 0 {
        Seq::empty()
    } else {
        groups_lines(groups, n - 1) + group_lines(groups[n - 1])
    }
}

// ---- what can be written ----

pub open spec fn is_quote(q: Seq<char>) -> bool {
    q == Seq::<char>::empty() || q == seq!['\''] || q == seq!['"']
}

/// A text that can stand at the end of a line.
pub open spec fn is_text(s: Seq<char>) -> bool {
    s.len() > 0 && tight(s) && !s.contains('\n')
}

/// A name without quotes in it.
pub open spec fn is_name(s: Seq<char>) -> bool {
    is_text(s) && !s.contains('\'') && !s.contains('"')
}

/// A name that can stand in a list: no comma, no bracket, and no `name:` in front.
pub open spec fn listable(s: Seq<char>) -> bool {
    is_name(s) && !s.contains(',') && !s.contains('[') && !s.contains(']') && !begins(s, "name:"@)
}

pub open spec fn item_sound(item: Item, dashed: bool) -> bool {
    &&& listable(item.name)
    &&& is_quote(item.quote)
    &&& item.condition matches Some(c) ==> dashed && is_text(c)
}

pub open spec fn items_sound(items: Seq<Item>, dashed: bool) -> bool {
    forall|i: int| 0 <= i < items.len() ==> item_sound(#[trigger] items[i], dashed)
}

pub open spec fn detail_sound(d: Detail) -> bool {
    match d {
        Detail::Group { name, quote } => is_name(name) && is_quote(quote),
        Detail::Condition(c) => is_text(c),
        Detail::After { items, dashed } => items_sound(items, dashed),
        Detail::Before { items, dashed } => items_sound(items, dashed),
    }
}

pub open spec fn plugin_sound(p: Plugin) -> bool {
    &&& is_name(p.name)
    &&& is_quote(p.quote)
    &&& forall|i: int| 0 <= i < p.details.len() ==> detail_sound(#[trigger] p.details[i])
}

/// Without white space in it.
pub open spec fn one_word(s: Seq<char>) -> bool {
    forall|i: int| 0 <= i < s.len() ==> !is_white(#[trigger] s[i])
}

pub open spec fn group_sound(g: Group) -> bool {
    &&& is_name(g.name)
    &&& is_quote(g.quote)
    &&& match g.anchor {
        Some(a) => is_name(a) && one_word(a),
        None => g.name[0] != '&',
    }
    &&& forall|i: int|
        0 <= i < g.details.len() ==> detail_sound(#[trigger] g.details[i]) && (g.details[i] is After
            || g.details[i] is Condition)
}

// ---- what is meant ----

/// A name that stands for itself alone, and is no pattern.
pub open spec fn literal(name: Seq<char>) -> bool {
    forall|i: int|
        0 <= i < name.len() ==> {
            let c = #[trigger] name[i];
            !(c == '*' || c == '?' || c == '(' || c == ')' || c == '[' || c == ']' || c == '\\'
                || c == '|' || c == '^' || c == '$' || c == '+')
        }
}

/// The literal names among the first `n` items, in lower case.
pub open spec fn meant(items: Seq<Item>, n: int) -> Seq<Seq<char>>
    decreases n,
{
    if n <= 0 {
        Seq::empty()
    } else if literal(items[n - 1].name) {
        meant(items, n - 1).push(ascii_lowered(items[n - 1].name))
    } else {
        meant(items, n - 1)
    }
}

pub open spec fn afters(details: Seq<Detail>, n: int) -> Seq<Seq<char>>
    decreases n,
{
    if n <= 0 {
        Seq::empty()
    } else {
        afters(details, n - 1) + (match details[n - 1] {
            Detail::After { items, .. } => meant(items, items.len() as int),
            _ => Seq::empty(),
        })
    }
}

pub open spec fn befores(details: Seq<Detail>, n: int) -> Seq<Seq<char>>
    decreases n,
{
    if n <= 0 {
        Seq::empty()
    } else {
        befores(details, n - 1) + (match details[n - 1] {
            Detail::Before { items, .. } => meant(items, items.len() as int),
            _ => Seq::empty(),
        })
    }
}

pub open spec fn any_condition(items: Seq<Item>) -> bool {
    exists|i: int| 0 <= i < items.len() && (#[trigger] items[i]).condition is Some
}

pub open spec fn conditional(details: Seq<Detail>, n: int) -> bool
    decreases n,
{
    n > 0 && (conditional(details, n - 1) || match details[n - 1] {
        Detail::Group { .. } => false,
        Detail::Condition(_) => true,
        Detail::After { items, .. } => any_condition(items),
        Detail::Before { items, .. } => any_condition(items),
    })
}

/// The last of the first `n` groups that carries that anchor, all in lower case.
pub open spec fn anchored_by(groups: Seq<Group>, n: int, anchor: Seq<char>) -> Option<Seq<char>>
    decreases n,
{
    if n <= 0 {
        None
    } else {
        match groups[n - 1].anchor {
            Some(a) => if ascii_lowered(a) == anchor {
                Some(ascii_lowered(groups[n - 1].name))
            } else {
                anchored_by(groups, n - 1, anchor)
            },
            None => anchored_by(groups, n - 1, anchor),
        }
    }
}

/// The group that a plugin names: itself, or behind a star the one with that anchor. An
/// anchor that no group carries stays as it is.
pub open spec fn group_called(name: Seq<char>, groups: Seq<Group>) -> Seq<char> {
    if name[0] == '*' {
        match anchored_by(groups, groups.len() as int, ascii_lowered(name.skip(1))) {
            Some(g) => g,
            None => ascii_lowered(name),
        }
    } else {
        ascii_lowered(name)
    }
}

/// The last group that the details name.
pub open spec fn group_named(
    details: Seq<Detail>,
    n: int,
    groups: Seq<Group>,
) -> Option<Seq<char>>
    decreases n,
{
    if n <= 0 {
        None
    } else {
        match details[n - 1] {
            Detail::Group { name, .. } => Some(group_called(name, groups)),
            _ => group_named(details, n - 1, groups),
        }
    }
}

/// The groups that the first `n` items name, where the first `k` groups are known: an
/// anchor that none of them carries names nothing.
pub open spec fn groups_meant(
    items: Seq<Item>,
    n: int,
    groups: Seq<Group>,
    k: int,
) -> Seq<Seq<char>>
    decreases n,
{
    if n <= 0 {
        Seq::empty()
    } else {
        let name = items[n - 1].name;
        let rest = groups_meant(items, n - 1, groups, k);
        if name[0] == '*' {
            match anchored_by(groups, k, ascii_lowered(name.skip(1))) {
                Some(g) => rest.push(g),
                None => rest,
            }
        } else {
            rest.push(ascii_lowered(name))
        }
    }
}

pub open spec fn group_afters(
    details: Seq<Detail>,
    n: int,
    groups: Seq<Group>,
    k: int,
) -> Seq<Seq<char>>
    decreases n,
{
    if n <= 0 {
        Seq::empty()
    } else {
        group_afters(details, n - 1, groups, k) + (match details[n - 1] {
            Detail::After { items, .. } => groups_meant(items, items.len() as int, groups, k),
            _ => Seq::empty(),
        })
    }
}

/// The group at `i` asks to load after `y`; it knows the groups up to itself.
pub open spec fn group_asks(groups: Seq<Group>, i: int, x: Seq<char>, y: Seq<char>) -> bool {
    let g = groups[i];
    let n = g.details.len() as int;
    &&& !conditional(g.details, n)
    &&& ascii_lowered(g.name) == x
    &&& group_afters(g.details, n, groups, i + 1).contains(y)
}

pub open spec fn group_asked(groups: Seq<Group>, n: int, x: Seq<char>, y: Seq<char>) -> bool {
    exists|i: int| 0 <= i < n && #[trigger] group_asks(groups, i, x, y)
}

/// The names of the first `n` groups in their order, each once.
pub open spec fn group_names(groups: Seq<Group>, n: int) -> Seq<Seq<char>>
    decreases n,
{
    if n <= 0 {
        Seq::empty()
    } else {
        let rest = group_names(groups, n - 1);
        let name = ascii_lowered(groups[n - 1].name);
        if exists|i: int| 0 <= i < n - 1 && #[trigger] ascii_lowered(groups[i].name) == name {
            rest
        } else {
            rest.push(name)
        }
    }
}

pub open spec fn after_of(p: Plugin) -> Seq<Seq<char>> {
    afters(p.details, p.details.len() as int)
}

pub open spec fn before_of(p: Plugin) -> Seq<Seq<char>> {
    befores(p.details, p.details.len() as int)
}

pub open spec fn group_of(p: Plugin, groups: Seq<Group>) -> Option<Seq<char>> {
    group_named(p.details, p.details.len() as int, groups)
}

/// The rules of a plugin count: its name is literal, and nothing in it is under a
/// condition.
pub open spec fn counts(p: Plugin) -> bool {
    literal(p.name) && !conditional(p.details, p.details.len() as int)
}

/// The plugin asks that `x` loads after `y`: of itself, or of a plugin it is to precede.
pub open spec fn asks(p: Plugin, x: Seq<char>, y: Seq<char>) -> bool {
    counts(p) && {
        ||| ascii_lowered(p.name) == x && after_of(p).contains(y)
        ||| ascii_lowered(p.name) == y && before_of(p).contains(x)
    }
}

pub open spec fn asked(plugins: Seq<Plugin>, x: Seq<char>, y: Seq<char>) -> bool {
    exists|i: int| 0 <= i < plugins.len() && asks(#[trigger] plugins[i], x, y)
}

/// The group that the last plugin of that name with a group says.
pub open spec fn group_told(
    plugins: Seq<Plugin>,
    groups: Seq<Group>,
    n: int,
    x: Seq<char>,
) -> Option<Seq<char>>
    decreases n,
{
    if n <= 0 {
        None
    } else {
        let p = plugins[n - 1];
        if counts(p) && ascii_lowered(p.name) == x && group_of(p, groups) is Some {
            group_of(p, groups)
        } else {
            group_told(plugins, groups, n - 1, x)
        }
    }
}

/// `x` loads after `y`.
pub open spec fn loads_after(m: Edges, x: Seq<char>, y: Seq<char>) -> bool {
    found(m, x) matches Some(l) && l.contains(y)
}

/// In order, and nothing twice.
pub open spec fn rising(l: Seq<Seq<char>>) -> bool {
    forall|i: int, j: int| 0 <= i < j < l.len() ==> before(#[trigger] l[i], #[trigger] l[j])
}

// ---- texts ----

proof fn lemma_words()
    ensures
        "- name: "@ == seq!['-', ' ', 'n', 'a', 'm', 'e', ':', ' '],
        "- name:"@ == seq!['-', ' ', 'n', 'a', 'm', 'e', ':'],
        "name: "@ == seq!['n', 'a', 'm', 'e', ':', ' '],
        "name:"@ == seq!['n', 'a', 'm', 'e', ':'],
        "- "@ == seq!['-', ' '],
        "condition: "@ == seq!['c', 'o', 'n', 'd', 'i', 't', 'i', 'o', 'n', ':', ' '],
        "condition:"@ == seq!['c', 'o', 'n', 'd', 'i', 't', 'i', 'o', 'n', ':'],
        "group: "@ == seq!['g', 'r', 'o', 'u', 'p', ':', ' '],
        "group:"@ == seq!['g', 'r', 'o', 'u', 'p', ':'],
        "after:"@ == seq!['a', 'f', 't', 'e', 'r', ':'],
        "before:"@ == seq!['b', 'e', 'f', 'o', 'r', 'e', ':'],
        " ["@ == seq![' ', '['],
        "["@ == seq!['['],
        "]"@ == seq![']'],
        ","@ == seq![','],
        "#"@ == seq!['#'],
        "*"@ == seq!['*'],
        "'\""@ == seq!['\'', '"'],
        "*?()[]\\|^$+"@ == seq!['*', '?', '(', ')', '[', ']', '\\', '|', '^', '$', '+'],
{
    reveal_strlit("- name: ");
    reveal_strlit("- name:");
    reveal_strlit("name: ");
    reveal_strlit("name:");
    reveal_strlit("- ");
    reveal_strlit("condition: ");
    reveal_strlit("condition:");
    reveal_strlit("group: ");
    reveal_strlit("group:");
    reveal_strlit("after:");
    reveal_strlit("before:");
    reveal_strlit(" [");
    reveal_strlit("[");
    reveal_strlit("]");
    reveal_strlit(",");
    reveal_strlit("#");
    reveal_strlit("*");
    reveal_strlit("'\"");
    reveal_strlit("*?()[]\\|^$+");
    assert("- name: "@ =~= seq!['-', ' ', 'n', 'a', 'm', 'e', ':', ' ']);
    assert("- name:"@ =~= seq!['-', ' ', 'n', 'a', 'm', 'e', ':']);
    assert("name: "@ =~= seq!['n', 'a', 'm', 'e', ':', ' ']);
    assert("name:"@ =~= seq!['n', 'a', 'm', 'e', ':']);
    assert("- "@ =~= seq!['-', ' ']);
    assert("condition: "@ =~= seq!['c', 'o', 'n', 'd', 'i', 't', 'i', 'o', 'n', ':', ' ']);
    assert("condition:"@ =~= seq!['c', 'o', 'n', 'd', 'i', 't', 'i', 'o', 'n', ':']);
    assert("group: "@ =~= seq!['g', 'r', 'o', 'u', 'p', ':', ' ']);
    assert("group:"@ =~= seq!['g', 'r', 'o', 'u', 'p', ':']);
    assert("after:"@ =~= seq!['a', 'f', 't', 'e', 'r', ':']);
    assert("before:"@ =~= seq!['b', 'e', 'f', 'o', 'r', 'e', ':']);
    assert(" ["@ =~= seq![' ', '[']);
    assert("["@ =~= seq!['[']);
    assert("]"@ =~= seq![']']);
    assert(","@ =~= seq![',']);
    assert("#"@ =~= seq!['#']);
    assert("*"@ =~= seq!['*']);
    assert("'\""@ =~= seq!['\'', '"']);
    assert("*?()[]\\|^$+"@ =~= seq!['*', '?', '(', ')', '[', ']', '\\', '|', '^', '$', '+']);
}

proof fn lemma_begins(p: Seq<char>, rest: Seq<char>)
    ensures
        begins(p + rest, p),
        (p + rest).skip(p.len() as int) == rest,
        after_prefix(p + rest, p) == Some(rest),
{
    assert((p + rest).take(p.len() as int) =~= p);
    assert((p + rest).skip(p.len() as int) =~= rest);
}

proof fn lemma_not_begins(s: Seq<char>, p: Seq<char>)
    requires
        p.len() > 0,
        s.len() > 0 ==> s[0] != p[0],
    ensures
        !begins(s, p),
{
    if begins(s, p) {
        assert(s.take(p.len() as int)[0] == s[0]);
    }
}

proof fn lemma_spaces(s: Seq<char>, i: int, k: int)
    requires
        0 <= i <= k <= s.len(),
        forall|j: int| i <= j < k ==> s[j] == ' ',
        k < s.len() ==> !is_white(s[k]),
    ensures
        white_width(s, i) == k - i,
    decreases k - i,
{
    if i < k {
        assert(s[i] == ' ');
        lemma_spaces(s, i + 1, k);
    }
}

/// An indented text is read as its indent and itself.
proof fn lemma_line(indent: nat, s: Seq<char>)
    requires
        is_text(s),
    ensures
        indent_of(line(indent, s)) == indent,
        trimmed(line(indent, s)) == s,
        is_line(line(indent, s)),
{
    let pad = Seq::new(indent, |i: int| ' ');
    let whole = line(indent, s);
    assert(all_white(pad));
    let none = Seq::<char>::empty();
    lemma_trim_padded(pad, s, none);
    assert(pad + s + none =~= whole);
    assert(whole[indent as int] == s[0]);
    lemma_spaces(whole, 0, indent as int);
    assert(whole.last() == s.last());
    assert(!is_white(s.last()));
    assert(is_white('\r'));
    if whole.contains('\n') {
        let i = choose|i: int| 0 <= i < whole.len() && whole[i] == '\n';
        if i >= indent {
            assert(s[i - indent] == '\n');
        }
    }
}

proof fn lemma_past_quotes(s: Seq<char>, set: Seq<char>, i: int, k: int)
    requires
        0 <= i <= k < s.len(),
        forall|j: int| i <= j < k ==> set.contains(#[trigger] s[j]),
        !set.contains(s[k]),
    ensures
        past_set(s, set, i) == k,
    decreases k - i,
{
    if i < k {
        assert(set.contains(s[i]));
        lemma_past_quotes(s, set, i + 1, k);
    }
}

proof fn lemma_before_quotes(s: Seq<char>, set: Seq<char>, n: int, k: int)
    requires
        0 < k <= n <= s.len(),
        forall|j: int| k <= j < n ==> set.contains(#[trigger] s[j]),
        !set.contains(s[k - 1]),
    ensures
        before_set(s, set, n) == k,
    decreases n - k,
{
    if k < n {
        assert(set.contains(s[n - 1]));
        lemma_before_quotes(s, set, n - 1, k);
    }
}

/// Quotes are taken off, and white space in front of them.
proof fn lemma_spelled(pad: Seq<char>, name: Seq<char>, quote: Seq<char>)
    requires
        is_name(name),
        is_quote(quote),
        all_white(pad),
    ensures
        is_text(spelled(name, quote)),
        trimmed(pad + spelled(name, quote)) == spelled(name, quote),
        unquoted(pad + spelled(name, quote)) == name,
{
    lemma_words();
    let s = spelled(name, quote);
    let set = "'\""@;
    let n = quote.len() as int;
    assert(set[0] == '\'' && set[1] == '"');
    assert(set.contains('\'') && set.contains('"'));
    assert forall|i: int| 0 <= i < name.len() implies !set.contains(#[trigger] name[i]) by {
        assert(name.contains(name[i]));
    }
    assert(s[n] == name[0]);
    assert(s[n + name.len() - 1] == name.last());
    assert(s.last() == if n > 0 {
        quote[0]
    } else {
        name.last()
    });
    assert(s[0] == if n > 0 {
        quote[0]
    } else {
        name[0]
    });
    assert(tight(s));
    if s.contains('\n') {
        let i = choose|i: int| 0 <= i < s.len() && s[i] == '\n';
        if n <= i < n + name.len() {
            assert(name[i - n] == '\n');
        }
    }
    let none = Seq::<char>::empty();
    lemma_trim_padded(pad, s, none);
    assert(pad + s + none =~= pad + s);
    assert(set.contains(s[0]) || n == 0);
    lemma_past_quotes(s, set, 0, n);
    let t = set_trimmed_start(s, set);
    assert(t =~= name + quote);
    assert(t[name.len() - 1] == name.last());
    assert forall|j: int| name.len() <= j < t.len() implies set.contains(#[trigger] t[j]) by {
        assert(t[j] == quote[j - name.len()]);
    }
    lemma_before_quotes(t, set, t.len() as int, name.len() as int);
    assert(set_trimmed_end(t, set) =~= name);
}

proof fn lemma_mark(c: char)
    ensures
        "*?()[]\\|^$+"@.contains(lower_char(c)) == (c == '*' || c == '?' || c == '(' || c == ')'
            || c == '[' || c == ']' || c == '\\' || c == '|' || c == '^' || c == '$' || c == '+'),
{
    lemma_words();
    let m = "*?()[]\\|^$+"@;
    assert(m[0] == '*' && m[1] == '?' && m[2] == '(' && m[3] == ')' && m[4] == '[' && m[5] == ']');
    assert(m[6] == '\\' && m[7] == '|' && m[8] == '^' && m[9] == '$' && m[10] == '+');
}

proof fn lemma_literal(name: Seq<char>)
    ensures
        is_pattern(ascii_lowered(name)) == !literal(name),
{
    let t = ascii_lowered(name);
    if literal(name) {
        assert forall|i: int| 0 <= i < t.len() implies !"*?()[]\\|^$+"@.contains(
            #[trigger] t[i],
        ) by {
            let c = name[i];
            lemma_mark(c);
        }
    } else {
        let i = choose|i: int|
            0 <= i < name.len() && {
                let c = #[trigger] name[i];
                (c == '*' || c == '?' || c == '(' || c == ')' || c == '[' || c == ']' || c == '\\'
                    || c == '|' || c == '^' || c == '$' || c == '+')
            };
        lemma_mark(name[i]);
        assert("*?()[]\\|^$+"@.contains(t[i]));
    }
}

/// What an item means, however it is spelled.
proof fn lemma_target(pad: Seq<char>, item: Item, dashed: bool, with_word: bool)
    requires
        item_sound(item, dashed),
        all_white(pad),
    ensures
        plugin_target(
            pad + (if with_word {
                "name: "@
            } else {
                Seq::empty()
            }) + spelled(item.name, item.quote),
        ) == (if literal(item.name) {
            Some(ascii_lowered(item.name))
        } else {
            None
        }),
{
    lemma_words();
    let name = item.name;
    let s = spelled(name, item.quote);
    lemma_spelled(pad, name, item.quote);
    lemma_literal(name);
    let t = ascii_lowered(name);
    if begins(t, "*"@) {
        assert(t.take(1)[0] == t[0]);
        lemma_mark(name[0]);
        assert(lower_char(name[0]) == '*');
        assert(!literal(name)) by {
            let c = name[0];
            assert("*?()[]\\|^$+"@[0] == '*');
            assert("*?()[]\\|^$+"@.contains('*'));
        }
    }
    if with_word {
        let one = seq![' '];
        assert(all_white(one));
        lemma_spelled(one, name, item.quote);
        let u = "name: "@ + s;
        assert(u =~= "name:"@ + (one + s));
        lemma_begins("name:"@, one + s);
        assert(tight(u)) by {
            assert(u[0] == 'n');
            assert(u.last() == s.last());
        }
        let none = Seq::<char>::empty();
        lemma_trim_padded(pad, u, none);
        assert(pad + u + none =~= pad + "name: "@ + s);
        assert(item_name(pad + "name: "@ + s) == one + s);
    } else {
        assert(pad + Seq::<char>::empty() + s =~= pad + s);
        assert(!begins(s, "name:"@)) by {
            if item.quote.len() > 0 {
                assert(s[0] == item.quote[0]);
                lemma_not_begins(s, "name:"@);
            } else {
                assert(s =~= name);
            }
        }
        assert(item_name(pad + s) == s);
        let none = Seq::<char>::empty();
        lemma_spelled(none, name, item.quote);
        assert(none + s =~= s);
    }
}

// ---- lists ----

proof fn lemma_char_at(s: Seq<char>, c: char, i: int)
    ensures
        occurs_at(s, seq![c], i) == (0 <= i < s.len() && s[i] == c),
{
    if 0 <= i < s.len() {
        assert(s.subrange(i, i + 1) =~= seq![s[i]]);
        assert(seq![s[i]][0] == s[i]);
        assert(seq![c][0] == c);
    }
}

proof fn lemma_joined_without(parts: Seq<Seq<char>>, c: char, n: int)
    requires
        0 <= n <= parts.len(),
        c != ',',
        forall|i: int| 0 <= i < parts.len() ==> !(#[trigger] parts[i]).contains(c),
    ensures
        !joined_first(parts, seq![','], n).contains(c),
    decreases n,
{
    if n >= 1 {
        assert(!parts[n - 1].contains(c));
    }
    if n > 1 {
        lemma_joined_without(parts, c, n - 1);
        let a = joined_first(parts, seq![','], n - 1);
        let b = parts[n - 1];
        let s = a + seq![','] + b;
        if s.contains(c) {
            let i = choose|i: int| 0 <= i < s.len() && s[i] == c;
            if i < a.len() {
                assert(a[i] == c);
            } else if i > a.len() {
                assert(b[i - a.len() - 1] == c);
            }
        }
    }
}

proof fn lemma_part(items: Seq<Item>, i: int, c: char)
    requires
        items_sound(items, false),
        0 <= i < items.len(),
        c == ',' || c == '[' || c == ']' || c == '\n',
    ensures
        !parts(items)[i].contains(c),
{
    assert(item_sound(items[i], false));
    let name = items[i].name;
    let quote = items[i].quote;
    let s = parts(items)[i];
    let n: int = s.len() - 2 * quote.len() - name.len();
    if s.contains(c) {
        let j = choose|j: int| 0 <= j < s.len() && s[j] == c;
        if n + quote.len() <= j < n + quote.len() + name.len() {
            assert(name[j - n - quote.len()] == c);
        }
    }
}

/// What the items mean, by the parts that stand for them.
proof fn lemma_targets(ps: Seq<Seq<char>>, items: Seq<Item>, n: int)
    requires
        0 <= n <= items.len(),
        ps == parts(items),
        items_sound(items, false),
    ensures
        plugin_targets(ps, n) == meant(items, n),
    decreases n,
{
    if n > 0 {
        lemma_targets(ps, items, n - 1);
        let item = items[n - 1];
        assert(item_sound(items[n - 1], false));
        let none = Seq::<char>::empty();
        let one = seq![' '];
        let s = spelled(item.name, item.quote);
        if n == 1 {
            lemma_target(none, item, false, false);
            assert(none + none + s =~= ps[0]);
        } else {
            assert(all_white(one));
            lemma_target(one, item, false, false);
            assert(one + none + s =~= ps[n - 1]);
        }
    }
}

/// The items of a list between brackets.
proof fn lemma_inline(word: Seq<char>, list: Seq<Item>)
    requires
        word == "after:"@ || word == "before:"@,
        items_sound(list, false),
    ensures
        ({
            let s = word + " ["@ + joined(parts(list), seq![',']) + "]"@;
            &&& is_text(s)
            &&& s[0] == word[0]
            &&& begins(s, word)
            &&& items(s) == Some(
                if list.len() > 0 {
                    parts(list)
                } else {
                    seq![Seq::<char>::empty()]
                },
            )
        }),
{
    lemma_words();
    let ps = parts(list);
    let body = joined(ps, seq![',']);
    let s = word + " ["@ + body + "]"@;
    let k = word.len() as int + 1;
    assert forall|i: int| 0 <= i < ps.len() implies !(#[trigger] ps[i]).contains('[') by {
        lemma_part(list, i, '[');
    }
    lemma_joined_without(ps, '[', ps.len() as int);
    assert forall|i: int| 0 <= i < ps.len() implies !(#[trigger] ps[i]).contains('\n') by {
        lemma_part(list, i, '\n');
    }
    lemma_joined_without(ps, '\n', ps.len() as int);
    assert forall|i: int| 0 <= i < ps.len() implies !(#[trigger] ps[i]).contains(',') by {
        lemma_part(list, i, ',');
    }
    assert(s[k] == '[');
    assert(s.last() == ']');
    assert(s[0] == word[0]);
    assert(!s.contains('\n')) by {
        if s.contains('\n') {
            let i = choose|i: int| 0 <= i < s.len() && s[i] == '\n';
            if i < word.len() {
                assert(word[i] == '\n');
            } else if k < i < s.len() - 1 {
                assert(body[i - k - 1] == '\n');
            }
        }
    }
    lemma_begins(word, " ["@ + body + "]"@);
    assert(word + (" ["@ + body + "]"@) =~= s);
    lemma_find(s, "["@, 0);
    lemma_char_at(s, '[', k);
    let left = find_from(s, "["@, 0)->0;
    lemma_char_at(s, '[', left);
    if left < word.len() {
        assert(word[left] == '[');
    }
    assert(left == k);
    lemma_rfind(s, "]"@, s.len() as int);
    lemma_char_at(s, ']', s.len() - 1);
    let right = rfind_from(s, "]"@, s.len() as int)->0;
    lemma_char_at(s, ']', right);
    assert(right == s.len() - 1);
    assert(s.subrange(left + 1, right) =~= body);
    if list.len() > 0 {
        joined_parts_are_split(ps, ',');
    } else {
        let none = Seq::<char>::empty();
        assert(body =~= none);
        lemma_find(none, seq![','], 0);
        if find_from(none, seq![','], 0) is Some {
            lemma_char_at(none, ',', find_from(none, seq![','], 0)->0);
        }
        assert(split_on(body, ","@) == seq![none]);
    }
}

/// What the items of a list between brackets mean.
proof fn lemma_inline_targets(list: Seq<Item>)
    requires
        items_sound(list, false),
    ensures
        ({
            let l = if list.len() > 0 {
                parts(list)
            } else {
                seq![Seq::<char>::empty()]
            };
            plugin_targets(l, l.len() as int) == meant(list, list.len() as int)
        }),
{
    lemma_words();
    if list.len() > 0 {
        lemma_targets(parts(list), list, list.len() as int);
    } else {
        let none = Seq::<char>::empty();
        let l = seq![none];
        lemma_trim_tight(none);
        lemma_not_begins(none, "name:"@);
        assert(item_name(none) == none);
        assert(unquoted(none) =~= none);
        assert(plugin_target(none) is None);
        assert(plugin_targets(l, 0) =~= Seq::empty());
        assert(plugin_targets(l, 1) == plugin_targets(l, 0));
    }
}

/// A word alone has no items.
proof fn lemma_bare(word: Seq<char>)
    requires
        word == "after:"@ || word == "before:"@,
    ensures
        is_text(word),
        begins(word, word),
        items(word) == Some(Seq::<Seq<char>>::empty()),
{
    lemma_words();
    assert(word.take(word.len() as int) =~= word);
    lemma_find(word, "["@, 0);
    if find_from(word, "["@, 0) is Some {
        let i = find_from(word, "["@, 0)->0;
        lemma_char_at(word, '[', i);
    }
    lemma_not_begins(word, "- "@);
    assert(!word.contains('\n'));
}

/// The item behind a dash.
proof fn lemma_dash(item: Item)
    requires
        item_sound(item, true),
    ensures
        ({
            let s = "- "@ + (if item.named {
                "name: "@
            } else {
                Seq::empty()
            }) + spelled(item.name, item.quote);
            &&& is_text(s)
            &&& s[0] == '-'
            &&& begins(s, "- "@)
            &&& items(s) == Some(
                seq![
                    (if item.named {
                        "name: "@
                    } else {
                        Seq::empty()
                    }) + spelled(item.name, item.quote),
                ],
            )
        }),
{
    lemma_words();
    let none = Seq::<char>::empty();
    let word = if item.named {
        "name: "@
    } else {
        none
    };
    let t = spelled(item.name, item.quote);
    let s = "- "@ + word + t;
    lemma_spelled(none, item.name, item.quote);
    lemma_begins("- "@, word + t);
    assert("- "@ + (word + t) =~= s);
    assert(s[0] == '-');
    assert(s.last() == t.last());
    assert(!s.contains('\n')) by {
        if s.contains('\n') {
            let i = choose|i: int| 0 <= i < s.len() && s[i] == '\n';
            if i >= 2 + word.len() {
                assert(t[i - 2 - word.len()] == '\n');
            }
        }
    }
    lemma_find(s, "["@, 0);
    if find_from(s, "["@, 0) is Some {
        let i = find_from(s, "["@, 0)->0;
        lemma_char_at(s, '[', i);
        let j = i - 2 - word.len() - item.quote.len();
        if 0 <= j < item.name.len() {
            assert(item.name[j] == '[');
        }
        assert(false);
    }
}

proof fn lemma_dash_target(item: Item)
    requires
        item_sound(item, true),
    ensures
        ({
            let l = seq![
                (if item.named {
                    "name: "@
                } else {
                    Seq::empty()
                }) + spelled(item.name, item.quote),
            ];
            plugin_targets(l, 1) == (if literal(item.name) {
                seq![ascii_lowered(item.name)]
            } else {
                Seq::empty()
            })
        }),
{
    let none = Seq::<char>::empty();
    let word = if item.named {
        "name: "@
    } else {
        none
    };
    let t = spelled(item.name, item.quote);
    lemma_target(none, item, true, item.named);
    assert(none + word + t =~= word + t);
    let l = seq![word + t];
    assert(plugin_targets(l, 0) =~= Seq::empty());
    assert(plugin_targets(l, 1) =~= if literal(item.name) {
        seq![ascii_lowered(item.name)]
    } else {
        Seq::empty()
    });
}

// ---- the walk ----

spec fn read_on(w: WalkView, lines: Seq<Seq<char>>, n: int) -> Option<WalkView>
    decreases n,
{
    if n <= 0 {
        Some(w)
    } else {
        match read_on(w, lines, n - 1) {
            Some(v) => step(v, lines[n - 1]),
            None => None,
        }
    }
}

spec fn read(w: WalkView, lines: Seq<Seq<char>>) -> Option<WalkView> {
    read_on(w, lines, lines.len() as int)
}

proof fn lemma_read_more(w: WalkView, a: Seq<Seq<char>>, b: Seq<Seq<char>>, n: int)
    requires
        0 <= n <= b.len(),
        read(w, a) is Some,
    ensures
        read_on(w, a + b, a.len() + n) == read_on(read(w, a)->0, b, n),
    decreases n,
{
    if n > 0 {
        lemma_read_more(w, a, b, n - 1);
        assert((a + b)[a.len() + n - 1] == b[n - 1]);
    } else {
        lemma_read_prefix(w, a, b, a.len() as int);
    }
}

proof fn lemma_read_prefix(w: WalkView, a: Seq<Seq<char>>, b: Seq<Seq<char>>, n: int)
    requires
        0 <= n <= a.len(),
    ensures
        read_on(w, a + b, n) == read_on(w, a, n),
    decreases n,
{
    if n > 0 {
        lemma_read_prefix(w, a, b, n - 1);
        assert((a + b)[n - 1] == a[n - 1]);
    }
}

proof fn lemma_read_both(w: WalkView, a: Seq<Seq<char>>, b: Seq<Seq<char>>)
    requires
        read(w, a) is Some,
    ensures
        read(w, a + b) == read(read(w, a)->0, b),
{
    lemma_read_more(w, a, b, b.len() as int);
}

proof fn lemma_read_one(w: WalkView, line: Seq<char>)
    ensures
        read(w, seq![line]) == step(w, line),
{
    let l = seq![line];
    assert(read_on(w, l, 0) == Some(w));
    assert(l[0] == line);
}

proof fn lemma_read_none(w: WalkView)
    ensures
        read(w, Seq::empty()) == Some(w),
{
}

proof fn lemma_walk_is_read(lines: Seq<Seq<char>>, n: int)
    ensures
        walk_first(lines, n) == read_on(start(), lines, n),
    decreases n,
{
    if n > 0 {
        lemma_walk_is_read(lines, n - 1);
    }
}

/// The walk stands in a plugin, with that much of it read.
spec fn stands(
    w: WalkView,
    r: RulesView,
    aliases: Names,
    name: Seq<char>,
    after: Seq<Seq<char>>,
    befores: Seq<Seq<char>>,
    group: Option<Seq<char>>,
    cond: bool,
) -> bool {
    &&& w.scope == Scope::Plugins
    &&& w.rules == r
    &&& w.aliases == aliases
    &&& w.group is None
    &&& w.plugin == Some(ascii_lowered(name))
    &&& w.after == after
    &&& w.before == befores
    &&& w.plugin_group == group
    &&& w.plugin_conditional == cond
}

/// A text behind `condition:` is one.
proof fn lemma_condition_text(c: Seq<char>)
    requires
        is_text(c),
    ensures
        ({
            let t = "condition: "@ + c;
            &&& is_text(t)
            &&& t[0] == 'c'
            &&& begins(t, "condition:"@)
        }),
{
    lemma_words();
    let t = "condition: "@ + c;
    assert(t[0] == 'c');
    assert(t.last() == c.last());
    if t.contains('\n') {
        let i = choose|i: int| 0 <= i < t.len() && t[i] == '\n';
        assert(c[i - 11] == '\n');
    }
    assert(t =~= "condition:"@ + (seq![' '] + c));
    lemma_begins("condition:"@, seq![' '] + c);
}

/// One item in lines of its own.
proof fn lemma_dashed_item(v: WalkView, item: Item)
    requires
        item_sound(item, true),
        v.scope == Scope::Plugins,
        v.plugin is Some,
        v.list == Listing::PluginAfter || v.list == Listing::PluginBefore,
    ensures
        ({
            let more = if literal(item.name) {
                seq![ascii_lowered(item.name)]
            } else {
                Seq::empty()
            };
            let cond = v.plugin_conditional || item.condition is Some;
            read(v, item_lines(item)) == Some(
                if v.list == Listing::PluginAfter {
                    WalkView { after: v.after + more, plugin_conditional: cond, ..v }
                } else {
                    WalkView { before: v.before + more, plugin_conditional: cond, ..v }
                },
            )
        }),
{
    lemma_words();
    lemma_dash(item);
    lemma_dash_target(item);
    let s = "- "@ + (if item.named {
        "name: "@
    } else {
        Seq::empty()
    }) + spelled(item.name, item.quote);
    lemma_line(6, s);
    lemma_not_begins(s, "#"@);
    let first = seq![line(6, s)];
    lemma_read_one(v, line(6, s));
    let l = items(s)->0;
    let u = if v.list == Listing::PluginAfter {
        WalkView { after: v.after + plugin_targets(l, 1), ..v }
    } else {
        WalkView { before: v.before + plugin_targets(l, 1), ..v }
    };
    assert(step(v, line(6, s)) == Some(u));
    match item.condition {
        Some(c) => {
            let t = "condition: "@ + c;
            lemma_condition_text(c);
            lemma_line(8, t);
            lemma_not_begins(t, "#"@);
            lemma_not_begins(t, "- "@);
            lemma_not_begins(t, "- name:"@);
            lemma_read_one(u, line(8, t));
            assert(step(u, line(8, t)) == Some(WalkView { plugin_conditional: true, ..u }));
            lemma_read_both(v, first, seq![line(8, t)]);
            assert(item_lines(item) =~= first + seq![line(8, t)]);
        },
        None => {
            assert(item_lines(item) =~= first);
        },
    }
}

proof fn lemma_any_condition(list: Seq<Item>, n: int)
    requires
        0 < n <= list.len(),
    ensures
        any_condition(list.take(n)) == (any_condition(list.take(n - 1)) || list[n - 1].condition
            is Some),
{
    let a = list.take(n - 1);
    let b = list.take(n);
    if any_condition(a) {
        let i = choose|i: int| 0 <= i < a.len() && (#[trigger] a[i]).condition is Some;
        assert(b[i] == a[i]);
    }
    assert(b[n - 1] == list[n - 1]);
    if any_condition(b) {
        let i = choose|i: int| 0 <= i < b.len() && (#[trigger] b[i]).condition is Some;
        if i < n - 1 {
            assert(a[i] == b[i]);
        }
    }
}

/// The first `n` items of a list, each in lines of its own.
proof fn lemma_dashed(w: WalkView, list: Seq<Item>, n: int)
    requires
        0 <= n <= list.len(),
        items_sound(list, true),
        w.scope == Scope::Plugins,
        w.plugin is Some,
        w.list == Listing::PluginAfter || w.list == Listing::PluginBefore,
    ensures
        ({
            let cond = w.plugin_conditional || any_condition(list.take(n));
            read(w, items_lines(list, n)) == Some(
                if w.list == Listing::PluginAfter {
                    WalkView { after: w.after + meant(list, n), plugin_conditional: cond, ..w }
                } else {
                    WalkView { before: w.before + meant(list, n), plugin_conditional: cond, ..w }
                },
            )
        }),
    decreases n,
{
    if n == 0 {
        lemma_read_none(w);
        assert(w.after + meant(list, 0) =~= w.after);
        assert(w.before + meant(list, 0) =~= w.before);
        assert(list.take(0).len() == 0);
    } else {
        lemma_dashed(w, list, n - 1);
        let v = read(w, items_lines(list, n - 1))->0;
        let item = list[n - 1];
        assert(item_sound(list[n - 1], true));
        lemma_dashed_item(v, item);
        lemma_any_condition(list, n);
        let more = if literal(item.name) {
            seq![ascii_lowered(item.name)]
        } else {
            Seq::empty()
        };
        assert(w.after + meant(list, n - 1) + more =~= w.after + meant(list, n));
        assert(w.before + meant(list, n - 1) + more =~= w.before + meant(list, n));
        lemma_read_both(w, items_lines(list, n - 1), item_lines(item));
    }
}

/// A list behind `after:` or `before:`, in either form.
proof fn lemma_list(w: WalkView, after: bool, list: Seq<Item>, dashed: bool)
    requires
        items_sound(list, dashed),
        w.scope == Scope::Plugins,
        w.plugin is Some,
    ensures
        ({
            let word = if after {
                "after:"@
            } else {
                "before:"@
            };
            let n = list.len() as int;
            let cond = w.plugin_conditional || any_condition(list);
            &&& read(w, list_lines(word, list, dashed)) matches Some(v) && v == (if after {
                WalkView {
                    list: Listing::PluginAfter,
                    after: w.after + meant(list, n),
                    plugin_conditional: cond,
                    ..w
                }
            } else {
                WalkView {
                    list: Listing::PluginBefore,
                    before: w.before + meant(list, n),
                    plugin_conditional: cond,
                    ..w
                }
            })
        }),
{
    lemma_words();
    let word = if after {
        "after:"@
    } else {
        "before:"@
    };
    let n = list.len() as int;
    let u = if after {
        WalkView { list: Listing::PluginAfter, ..w }
    } else {
        WalkView { list: Listing::PluginBefore, ..w }
    };
    if dashed {
        lemma_bare(word);
        lemma_line(4, word);
        lemma_not_begins(word, "#"@);
        lemma_not_begins(word, "- name:"@);
        lemma_not_begins(word, "condition:"@);
        lemma_not_begins(word, "group:"@);
        if !after {
            lemma_not_begins(word, "after:"@);
        }
        lemma_read_one(w, line(4, word));
        let none = Seq::<Seq<char>>::empty();
        assert(plugin_targets(none, 0) =~= none);
        assert(w.after + none =~= w.after);
        assert(w.before + none =~= w.before);
        assert(step(w, line(4, word)) == Some(u));
        lemma_dashed(u, list, n);
        lemma_read_both(w, seq![line(4, word)], items_lines(list, n));
        assert(list.take(n) =~= list);
    } else {
        lemma_inline(word, list);
        lemma_inline_targets(list);
        let s = word + " ["@ + joined(parts(list), seq![',']) + "]"@;
        lemma_line(4, s);
        lemma_not_begins(s, "#"@);
        lemma_not_begins(s, "- name:"@);
        lemma_not_begins(s, "condition:"@);
        lemma_not_begins(s, "group:"@);
        if !after {
            lemma_not_begins(s, "after:"@);
        }
        lemma_read_one(w, line(4, s));
        assert(!any_condition(list)) by {
            if any_condition(list) {
                let i = choose|i: int| 0 <= i < list.len() && (#[trigger] list[i]).condition is Some;
                assert(item_sound(list[i], dashed));
            }
        }
    }
}

proof fn lemma_condition(w: WalkView, c: Seq<char>)
    requires
        is_text(c),
        w.scope == Scope::Plugins,
        w.plugin is Some,
    ensures
        step(w, line(4, "condition: "@ + c)) == Some(
            WalkView { plugin_conditional: true, list: Listing::Nothing, ..w },
        ),
{
    lemma_words();
    let t = "condition: "@ + c;
    lemma_condition_text(c);
    lemma_line(4, t);
    lemma_not_begins(t, "#"@);
    lemma_not_begins(t, "- name:"@);
}

proof fn lemma_lower_char(c: char)
    ensures
        is_white(lower_char(c)) == is_white(c),
        lower_char(c) == '*' <==> c == '*',
{
}

/// The aliases are the anchors of the first `n` groups.
spec fn knows(aliases: Names, groups: Seq<Group>, n: int) -> bool {
    forall|a: Seq<char>| #[trigger] found(aliases, a) == anchored_by(groups, n, a)
}

/// The group that a plugin line names.
proof fn lemma_group(w: WalkView, name: Seq<char>, quote: Seq<char>, groups: Seq<Group>)
    requires
        is_name(name),
        knows(w.aliases, groups, groups.len() as int),
        is_quote(quote),
        w.scope == Scope::Plugins,
        w.plugin is Some,
    ensures
        step(w, line(4, "group: "@ + spelled(name, quote))) == Some(
            WalkView {
                plugin_group: Some(group_called(name, groups)),
                list: Listing::Nothing,
                ..w
            },
        ),
{
    lemma_words();
    let one = seq![' '];
    assert(all_white(one));
    lemma_spelled(one, name, quote);
    let s = spelled(name, quote);
    let t = "group: "@ + s;
    assert(is_text(t)) by {
        assert(t[0] == 'g');
        assert(t.last() == s.last());
        if t.contains('\n') {
            let i = choose|i: int| 0 <= i < t.len() && t[i] == '\n';
            assert(s[i - 7] == '\n');
        }
    }
    lemma_line(4, t);
    assert(t =~= "group:"@ + (one + s));
    lemma_begins("group:"@, one + s);
    lemma_not_begins(t, "#"@);
    lemma_not_begins(t, "- name:"@);
    lemma_not_begins(t, "condition:"@);
    lemma_trim_tight(name);
    let raw = ascii_lowered(name);
    lemma_lower_char(name[0]);
    assert(t.skip("group:"@.len() as int) == one + s);
    if name[0] == '*' {
        let alias = ascii_lowered(name.skip(1));
        assert(raw =~= "*"@ + alias);
        lemma_begins("*"@, alias);
        assert(found(w.aliases, alias) == anchored_by(groups, groups.len() as int, alias));
    } else {
        lemma_not_begins(raw, "*"@);
    }
    assert(plugin_group_of(one + s, w.aliases) == Some(group_called(name, groups)));
}

proof fn lemma_detail(
    w: WalkView,
    r: RulesView,
    aliases: Names,
    name: Seq<char>,
    details: Seq<Detail>,
    n: int,
    groups: Seq<Group>,
)
    requires
        0 < n <= details.len(),
        detail_sound(details[n - 1]),
        knows(aliases, groups, groups.len() as int),
        stands(
            w,
            r,
            aliases,
            name,
            afters(details, n - 1),
            befores(details, n - 1),
            group_named(details, n - 1, groups),
            conditional(details, n - 1),
        ),
    ensures
        read(w, detail_lines(details[n - 1])) matches Some(v) && stands(
            v,
            r,
            aliases,
            name,
            afters(details, n),
            befores(details, n),
            group_named(details, n, groups),
            conditional(details, n),
        ),
{
    let d = details[n - 1];
    let none = Seq::<Seq<char>>::empty();
    assert(afters(details, n - 1) + none =~= afters(details, n - 1));
    assert(befores(details, n - 1) + none =~= befores(details, n - 1));
    match d {
        Detail::Group { name: g, quote } => {
            lemma_group(w, g, quote, groups);
            lemma_read_one(w, line(4, "group: "@ + spelled(g, quote)));
        },
        Detail::Condition(c) => {
            lemma_condition(w, c);
            lemma_read_one(w, line(4, "condition: "@ + c));
        },
        Detail::After { items, dashed } => {
            lemma_list(w, true, items, dashed);
        },
        Detail::Before { items, dashed } => {
            lemma_list(w, false, items, dashed);
        },
    }
}

proof fn lemma_details(
    w: WalkView,
    r: RulesView,
    aliases: Names,
    name: Seq<char>,
    details: Seq<Detail>,
    n: int,
    groups: Seq<Group>,
)
    requires
        0 <= n <= details.len(),
        knows(aliases, groups, groups.len() as int),
        forall|i: int| 0 <= i < details.len() ==> detail_sound(#[trigger] details[i]),
        stands(w, r, aliases, name, Seq::empty(), Seq::empty(), None, false),
    ensures
        read(w, details_lines(details, n)) matches Some(v) && stands(
            v,
            r,
            aliases,
            name,
            afters(details, n),
            befores(details, n),
            group_named(details, n, groups),
            conditional(details, n),
        ),
    decreases n,
{
    if n == 0 {
        lemma_read_none(w);
    } else {
        lemma_details(w, r, aliases, name, details, n - 1, groups);
        assert(detail_sound(details[n - 1]));
        let v = read(w, details_lines(details, n - 1))->0;
        lemma_detail(v, r, aliases, name, details, n, groups);
        lemma_read_both(w, details_lines(details, n - 1), detail_lines(details[n - 1]));
    }
}

/// The rules once one more plugin is written.
spec fn with_plugin(r: RulesView, p: Plugin, groups: Seq<Group>) -> RulesView {
    let name = ascii_lowered(p.name);
    if counts(p) {
        RulesView {
            groups: match group_of(p, groups) {
                Some(g) => inserted(r.groups, name, g),
                None => r.groups,
            },
            after: with_befores(
                if after_of(p).len() > 0 {
                    with_edges(r.after, name, after_of(p))
                } else {
                    r.after
                },
                before_of(p),
                name,
                before_of(p).len() as int,
            ),
            ..r
        }
    } else {
        r
    }
}

/// The walk stands between two plugins or in the last one, with these rules once it is
/// done.
spec fn between(w: WalkView, r: RulesView, aliases: Names) -> bool {
    &&& w.scope == Scope::Plugins
    &&& w.aliases == aliases
    &&& w.group is None
    &&& plugin_done(w).rules == r
}

proof fn lemma_plugin(
    w: WalkView,
    r: RulesView,
    aliases: Names,
    p: Plugin,
    groups: Seq<Group>,
)
    requires
        knows(aliases, groups, groups.len() as int),
        between(w, r, aliases),
        plugin_sound(p),
    ensures
        read(w, plugin_lines(p)) matches Some(v) && between(
            v,
            with_plugin(r, p, groups),
            aliases,
        ),
{
    lemma_words();
    let one = seq![' '];
    assert(all_white(one));
    lemma_spelled(one, p.name, p.quote);
    let s = spelled(p.name, p.quote);
    let t = "- name: "@ + s;
    assert(is_text(t)) by {
        assert(t[0] == '-');
        assert(t.last() == s.last());
        if t.contains('\n') {
            let i = choose|i: int| 0 <= i < t.len() && t[i] == '\n';
            assert(s[i - 8] == '\n');
        }
    }
    lemma_line(2, t);
    assert(t =~= "- name:"@ + (one + s));
    lemma_begins("- name:"@, one + s);
    lemma_not_begins(t, "#"@);
    lemma_not_begins(one + s, "- name:"@);
    assert(without_prefixes(t, "- name:"@) == without_prefixes(one + s, "- name:"@));
    assert(without_prefixes(one + s, "- name:"@) == one + s);
    let v = WalkView {
        plugin: Some(ascii_lowered(p.name)),
        list: Listing::Nothing,
        ..plugin_done(w)
    };
    assert(step(w, line(2, t)) == Some(v));
    lemma_read_one(w, line(2, t));
    let n = p.details.len() as int;
    lemma_details(v, r, aliases, p.name, p.details, n, groups);
    lemma_read_both(w, seq![line(2, t)], details_lines(p.details, n));
    lemma_literal(p.name);
}

spec fn with_plugins(
    r: RulesView,
    plugins: Seq<Plugin>,
    n: int,
    groups: Seq<Group>,
) -> RulesView
    decreases n,
{
    if n <= 0 {
        r
    } else {
        with_plugin(with_plugins(r, plugins, n - 1, groups), plugins[n - 1], groups)
    }
}

proof fn lemma_plugins(
    w: WalkView,
    r: RulesView,
    aliases: Names,
    plugins: Seq<Plugin>,
    n: int,
    groups: Seq<Group>,
)
    requires
        knows(aliases, groups, groups.len() as int),
        0 <= n <= plugins.len(),
        between(w, r, aliases),
        forall|i: int| 0 <= i < plugins.len() ==> plugin_sound(#[trigger] plugins[i]),
    ensures
        read(w, plugins_lines(plugins, n)) matches Some(v) && between(
            v,
            with_plugins(r, plugins, n, groups),
            aliases,
        ),
    decreases n,
{
    if n == 0 {
        lemma_read_none(w);
    } else {
        lemma_plugins(w, r, aliases, plugins, n - 1, groups);
        assert(plugin_sound(plugins[n - 1]));
        let v = read(w, plugins_lines(plugins, n - 1))->0;
        lemma_plugin(
            v,
            with_plugins(r, plugins, n - 1, groups),
            aliases,
            plugins[n - 1],
            groups,
        );
        lemma_read_both(w, plugins_lines(plugins, n - 1), plugin_lines(plugins[n - 1]));
    }
}

// ---- edges ----

/// Every key once, and nothing under it that is empty.
spec fn solid(m: Edges) -> bool {
    &&& distinct_keys(m)
    &&& forall|k: Seq<char>| #[trigger] found(m, k) matches Some(l) ==> l.len() > 0
}

proof fn lemma_with_edges(m: Edges, k: Seq<char>, more: Seq<Seq<char>>, x: Seq<char>, y: Seq<char>)
    requires
        solid(m),
        more.len() > 0,
    ensures
        solid(with_edges(m, k, more)),
        loads_after(with_edges(m, k, more), x, y) == (loads_after(m, x, y) || (x == k
            && more.contains(y))),
{
    let t = with_edges(m, k, more);
    let put = match found(m, k) {
        Some(v) => v + more,
        None => more,
    };
    insert_then_get(m, k, put, x);
    assert forall|q: Seq<char>| (#[trigger] found(t, q)) is Some implies (found(t, q)->0).len()
        > 0 by {
        insert_then_get(m, k, put, q);
    }
    if found(m, k) is Some {
        let v = found(m, k)->0;
        assert((v + more).contains(y) == (v.contains(y) || more.contains(y))) by {
            if v.contains(y) {
                let i = choose|i: int| 0 <= i < v.len() && v[i] == y;
                assert((v + more)[i] == y);
            }
            if more.contains(y) {
                let i = choose|i: int| 0 <= i < more.len() && more[i] == y;
                assert((v + more)[v.len() + i] == y);
            }
        }
    }
}

proof fn lemma_with_befores(
    m: Edges,
    targets: Seq<Seq<char>>,
    name: Seq<char>,
    n: int,
    x: Seq<char>,
    y: Seq<char>,
)
    requires
        solid(m),
        0 <= n <= targets.len(),
    ensures
        solid(with_befores(m, targets, name, n)),
        loads_after(with_befores(m, targets, name, n), x, y) == (loads_after(m, x, y) || (y == name
            && targets.take(n).contains(x))),
    decreases n,
{
    if n > 0 {
        lemma_with_befores(m, targets, name, n - 1, x, y);
        let l = seq![name];
        lemma_with_edges(with_befores(m, targets, name, n - 1), targets[n - 1], l, x, y);
        assert(l.contains(y) == (y == name)) by {
            assert(l[0] == name);
        }
        let a = targets.take(n - 1);
        let b = targets.take(n);
        if a.contains(x) {
            let i = choose|i: int| 0 <= i < a.len() && a[i] == x;
            assert(b[i] == x);
        }
        assert(b[n - 1] == targets[n - 1]);
        if b.contains(x) {
            let i = choose|i: int| 0 <= i < b.len() && b[i] == x;
            if i < n - 1 {
                assert(a[i] == x);
            }
        }
    }
}

proof fn lemma_with_plugin(
    r: RulesView,
    p: Plugin,
    groups: Seq<Group>,
    x: Seq<char>,
    y: Seq<char>,
)
    requires
        solid(r.after),
    ensures
        solid(with_plugin(r, p, groups).after),
        loads_after(with_plugin(r, p, groups).after, x, y) == (loads_after(r.after, x, y) || asks(p, x, y)),
{
    if counts(p) {
        let name = ascii_lowered(p.name);
        let mid = if after_of(p).len() > 0 {
            with_edges(r.after, name, after_of(p))
        } else {
            r.after
        };
        if after_of(p).len() > 0 {
            lemma_with_edges(r.after, name, after_of(p), x, y);
        }
        let b = before_of(p);
        lemma_with_befores(mid, b, name, b.len() as int, x, y);
        assert(b.take(b.len() as int) =~= b);
    }
}

proof fn lemma_with_plugins(
    r: RulesView,
    plugins: Seq<Plugin>,
    groups: Seq<Group>,
    n: int,
    x: Seq<char>,
    y: Seq<char>,
)
    requires
        0 <= n <= plugins.len(),
        r.after == Edges::empty(),
        r.groups == Names::empty(),
    ensures
        ({
            let t = with_plugins(r, plugins, n, groups);
            &&& solid(t.after)
            &&& loads_after(t.after, x, y) == asked(plugins.take(n), x, y)
            &&& found(t.groups, x) == group_told(plugins, groups, n, x)
            &&& t.group_after == r.group_after
            &&& t.group_order == r.group_order
        }),
    decreases n,
{
    if n > 0 {
        lemma_with_plugins(r, plugins, groups, n - 1, x, y);
        let t = with_plugins(r, plugins, n - 1, groups);
        let p = plugins[n - 1];
        lemma_with_plugin(t, p, groups, x, y);
        if group_of(p, groups) is Some {
            insert_then_get(t.groups, ascii_lowered(p.name), group_of(p, groups)->0, x);
        }
        let a = plugins.take(n - 1);
        let b = plugins.take(n);
        if asked(a, x, y) {
            let i = choose|i: int| 0 <= i < a.len() && asks(#[trigger] a[i], x, y);
            assert(b[i] == a[i]);
        }
        assert(b[n - 1] == p);
        if asked(b, x, y) {
            let i = choose|i: int| 0 <= i < b.len() && asks(#[trigger] b[i], x, y);
            if i < n - 1 {
                assert(a[i] == b[i]);
            }
        }
    }
}

// ---- order ----

proof fn lemma_deduped(l: Seq<Seq<char>>, n: int)
    requires
        0 <= n <= l.len(),
        in_order::<String>(l),
    ensures
        rising(deduped_first(l, n)),
        n > 0 ==> deduped_first(l, n).len() > 0 && deduped_first(l, n).last() == l[n - 1],
        forall|y: Seq<char>|
            #[trigger] deduped_first(l, n).contains(y) == l.take(n).contains(y),
    decreases n,
{
    let d = deduped_first(l, n);
    if n > 0 {
        lemma_deduped(l, n - 1);
        let e = deduped_first(l, n - 1);
        let a = l.take(n - 1);
        let b = l.take(n);
        assert(b =~= a.push(l[n - 1]));
        if n >= 2 && l[n - 1] == l[n - 2] {
            assert forall|y: Seq<char>| #[trigger] d.contains(y) == b.contains(y) by {
                assert(e.contains(y) == a.contains(y));
                if b.contains(y) {
                    let i = choose|i: int| 0 <= i < b.len() && b[i] == y;
                    if i < n - 1 {
                        assert(a[i] == y);
                    } else {
                        assert(a[n - 2] == y);
                    }
                }
                if a.contains(y) {
                    let i = choose|i: int| 0 <= i < a.len() && a[i] == y;
                    assert(b[i] == y);
                }
            }
        } else {
            assert forall|y: Seq<char>| #[trigger] d.contains(y) == b.contains(y) by {
                assert(e.contains(y) == a.contains(y));
                if d.contains(y) {
                    let i = choose|i: int| 0 <= i < d.len() && d[i] == y;
                    if i < e.len() {
                        assert(e[i] == y);
                        let j = choose|j: int| 0 <= j < a.len() && a[j] == y;
                        assert(b[j] == y);
                    } else {
                        assert(b[n - 1] == y);
                    }
                }
                if b.contains(y) {
                    let i = choose|i: int| 0 <= i < b.len() && b[i] == y;
                    if i < n - 1 {
                        assert(a[i] == y);
                        let j = choose|j: int| 0 <= j < e.len() && e[j] == y;
                        assert(d[j] == y);
                    } else {
                        assert(d[e.len() as int] == y);
                    }
                }
            }
            assert forall|i: int, j: int| 0 <= i < j < d.len() implies before(
                #[trigger] d[i],
                #[trigger] d[j],
            ) by {
                if j < e.len() {
                    assert(before(e[i], e[j]));
                } else {
                    let last = e.last();
                    assert(last == l[n - 2]);
                    assert(<String as Ranked>::precedes(l[n - 2], l[n - 1]));
                    assert(l[n - 2].take(0) =~= l[n - 1].take(0));
                    crate::text::lemma_before_total(l[n - 2], l[n - 1], 0);
                    assert(before(last, d[j]));
                    if i < e.len() - 1 {
                        assert(before(e[i], e[e.len() - 1]));
                        crate::text::lemma_before_transitive(e[i], last, d[j], 0);
                    }
                }
            }
        }
    } else {
        assert(d =~= Seq::empty());
        assert(l.take(0) =~= Seq::empty());
    }
}

/// Texts that are put in order and then rid of neighbours that are equal stand in order,
/// each that was there, and each once.
pub proof fn sorted_lists_hold_each_once(l: Seq<Seq<char>>)
    ensures
        rising(deduped(sorted::<String>(l))),
        forall|y: Seq<char>| #[trigger] deduped(sorted::<String>(l)).contains(y) == l.contains(y),
{
    let s = sorted::<String>(l);
    sorting_orders_and_keeps::<String>(l);
    lemma_deduped(s, s.len() as int);
    assert(s.take(s.len() as int) =~= s);
    assert forall|y: Seq<char>| #[trigger] deduped(s).contains(y) == l.contains(y) by {
        broadcast use vstd::seq_lib::group_to_multiset_ensures;

        assert(deduped_first(s, s.len() as int).contains(y) == s.contains(y));
        assert(s.contains(y) == (s.to_multiset().count(y) > 0));
        assert(l.contains(y) == (l.to_multiset().count(y) > 0));
    }
}

proof fn lemma_tidy_key(m: Edges, k: Seq<char>, i: int)
    requires
        0 <= i,
    ensures
        key_from(tidy_edges(m), k, i) == key_from(m, k, i),
    decreases m.len() - i,
{
    if i < m.len() && m[i].0 != k {
        lemma_tidy_key(m, k, i + 1);
    }
}

proof fn lemma_tidy(m: Edges, x: Seq<char>, y: Seq<char>)
    requires
        solid(m),
    ensures
        loads_after(tidy_edges(m), x, y) == loads_after(m, x, y),
        found(tidy_edges(m), x) matches Some(l) ==> l.len() > 0 && rising(l),
        found(tidy_edges(m), x) is Some == found(m, x) is Some,
{
    lemma_tidy_key(m, x, 0);
    lemma_key_from(m, x, 0);
    if found(m, x) is Some {
        let l = found(m, x)->0;
        sorted_lists_hold_each_once(l);
        let d = deduped(sorted::<String>(l));
        assert(l.contains(l[0]));
        assert(d.contains(l[0]));
        assert(d.contains(y) == l.contains(y));
    }
}

// ---- groups ----

/// The group that an item names, however it is spelled.
spec fn one_group(name: Seq<char>, groups: Seq<Group>, k: int) -> Option<Seq<char>> {
    if name[0] == '*' {
        anchored_by(groups, k, ascii_lowered(name.skip(1)))
    } else {
        Some(ascii_lowered(name))
    }
}

proof fn lemma_group_target(
    pad: Seq<char>,
    item: Item,
    dashed: bool,
    with_word: bool,
    aliases: Names,
    groups: Seq<Group>,
    k: int,
)
    requires
        item_sound(item, dashed),
        all_white(pad),
        knows(aliases, groups, k),
    ensures
        group_target(
            pad + (if with_word {
                "name: "@
            } else {
                Seq::empty()
            }) + spelled(item.name, item.quote),
            aliases,
        ) == one_group(item.name, groups, k),
{
    lemma_words();
    let name = item.name;
    let s = spelled(name, item.quote);
    let none = Seq::<char>::empty();
    lemma_spelled(pad, name, item.quote);
    lemma_trim_tight(name);
    let t = ascii_lowered(name);
    lemma_lower_char(name[0]);
    if name[0] == '*' {
        let alias = ascii_lowered(name.skip(1));
        assert(t =~= "*"@ + alias);
        lemma_begins("*"@, alias);
        assert(found(aliases, alias) == anchored_by(groups, k, alias));
    } else {
        lemma_not_begins(t, "*"@);
    }
    if with_word {
        let one = seq![' '];
        assert(all_white(one));
        lemma_spelled(one, name, item.quote);
        let u = "name: "@ + s;
        assert(u =~= "name:"@ + (one + s));
        lemma_begins("name:"@, one + s);
        assert(tight(u)) by {
            assert(u[0] == 'n');
            assert(u.last() == s.last());
        }
        lemma_trim_padded(pad, u, none);
        assert(pad + u + none =~= pad + "name: "@ + s);
        assert(item_name(pad + "name: "@ + s) == one + s);
    } else {
        assert(pad + none + s =~= pad + s);
        assert(!begins(s, "name:"@)) by {
            if item.quote.len() > 0 {
                assert(s[0] == item.quote[0]);
                lemma_not_begins(s, "name:"@);
            } else {
                assert(s =~= name);
            }
        }
        assert(item_name(pad + s) == s);
        lemma_spelled(none, name, item.quote);
        assert(none + s =~= s);
    }
}

proof fn lemma_group_targets(
    ps: Seq<Seq<char>>,
    items: Seq<Item>,
    n: int,
    aliases: Names,
    groups: Seq<Group>,
    k: int,
)
    requires
        0 <= n <= items.len(),
        ps == parts(items),
        items_sound(items, false),
        knows(aliases, groups, k),
    ensures
        group_targets_of(ps, aliases, n) == groups_meant(items, n, groups, k),
    decreases n,
{
    if n > 0 {
        lemma_group_targets(ps, items, n - 1, aliases, groups, k);
        let item = items[n - 1];
        assert(item_sound(items[n - 1], false));
        let none = Seq::<char>::empty();
        let one = seq![' '];
        let s = spelled(item.name, item.quote);
        if n == 1 {
            lemma_group_target(none, item, false, false, aliases, groups, k);
            assert(none + none + s =~= ps[0]);
        } else {
            assert(all_white(one));
            lemma_group_target(one, item, false, false, aliases, groups, k);
            assert(one + none + s =~= ps[n - 1]);
        }
    }
}

proof fn lemma_inline_groups(list: Seq<Item>, aliases: Names, groups: Seq<Group>, k: int)
    requires
        items_sound(list, false),
        knows(aliases, groups, k),
    ensures
        ({
            let l = if list.len() > 0 {
                parts(list)
            } else {
                seq![Seq::<char>::empty()]
            };
            group_targets_of(l, aliases, l.len() as int) == groups_meant(
                list,
                list.len() as int,
                groups,
                k,
            )
        }),
{
    lemma_words();
    if list.len() > 0 {
        lemma_group_targets(parts(list), list, list.len() as int, aliases, groups, k);
    } else {
        let none = Seq::<char>::empty();
        let l = seq![none];
        lemma_trim_tight(none);
        lemma_not_begins(none, "name:"@);
        lemma_not_begins(none, "*"@);
        assert(item_name(none) == none);
        assert(unquoted(none) =~= none);
        assert(ascii_lowered(none) =~= none);
        assert(group_target(none, aliases) is None);
        assert(group_targets_of(l, aliases, 0) =~= Seq::empty());
        assert(group_targets_of(l, aliases, 1) == group_targets_of(l, aliases, 0));
    }
}

/// One item of a group's list in lines of its own.
proof fn lemma_dashed_group(v: WalkView, item: Item, groups: Seq<Group>, k: int)
    requires
        item_sound(item, true),
        v.scope == Scope::Groups,
        v.group is Some,
        v.list == Listing::GroupAfter,
        knows(v.aliases, groups, k),
    ensures
        ({
            let more = match one_group(item.name, groups, k) {
                Some(g) => seq![g],
                None => Seq::empty(),
            };
            let cond = v.group_conditional || item.condition is Some;
            read(v, item_lines(item)) == Some(
                WalkView { group_edges: v.group_edges + more, group_conditional: cond, ..v },
            )
        }),
{
    lemma_words();
    lemma_dash(item);
    let none = Seq::<char>::empty();
    let word = if item.named {
        "name: "@
    } else {
        none
    };
    let t = spelled(item.name, item.quote);
    let s = "- "@ + word + t;
    lemma_group_target(none, item, true, item.named, v.aliases, groups, k);
    assert(none + word + t =~= word + t);
    let l = seq![word + t];
    assert(items(s) == Some(l));
    assert(group_targets_of(l, v.aliases, 0) =~= Seq::empty());
    let more = match one_group(item.name, groups, k) {
        Some(g) => seq![g],
        None => Seq::empty(),
    };
    assert(group_targets_of(l, v.aliases, 1) =~= more);
    lemma_line(6, s);
    lemma_not_begins(s, "#"@);
    let first = seq![line(6, s)];
    lemma_read_one(v, line(6, s));
    let u = WalkView { group_edges: v.group_edges + more, ..v };
    assert(step(v, line(6, s)) == Some(u));
    match item.condition {
        Some(c) => {
            let t = "condition: "@ + c;
            lemma_condition_text(c);
            lemma_line(8, t);
            lemma_not_begins(t, "#"@);
            lemma_not_begins(t, "- "@);
            lemma_not_begins(t, "- name:"@);
            lemma_read_one(u, line(8, t));
            assert(step(u, line(8, t)) == Some(WalkView { group_conditional: true, ..u }));
            lemma_read_both(v, first, seq![line(8, t)]);
            assert(item_lines(item) =~= first + seq![line(8, t)]);
        },
        None => {
            assert(item_lines(item) =~= first);
        },
    }
}

proof fn lemma_dashed_groups(w: WalkView, list: Seq<Item>, n: int, groups: Seq<Group>, k: int)
    requires
        0 <= n <= list.len(),
        items_sound(list, true),
        w.scope == Scope::Groups,
        w.group is Some,
        w.list == Listing::GroupAfter,
        knows(w.aliases, groups, k),
    ensures
        ({
            let cond = w.group_conditional || any_condition(list.take(n));
            read(w, items_lines(list, n)) == Some(
                WalkView {
                    group_edges: w.group_edges + groups_meant(list, n, groups, k),
                    group_conditional: cond,
                    ..w
                },
            )
        }),
    decreases n,
{
    if n == 0 {
        lemma_read_none(w);
        assert(w.group_edges + groups_meant(list, 0, groups, k) =~= w.group_edges);
        assert(list.take(0).len() == 0);
    } else {
        lemma_dashed_groups(w, list, n - 1, groups, k);
        let v = read(w, items_lines(list, n - 1))->0;
        let item = list[n - 1];
        assert(item_sound(list[n - 1], true));
        lemma_dashed_group(v, item, groups, k);
        lemma_any_condition(list, n);
        let more = match one_group(item.name, groups, k) {
            Some(g) => seq![g],
            None => Seq::empty(),
        };
        assert(w.group_edges + groups_meant(list, n - 1, groups, k) + more =~= w.group_edges
            + groups_meant(list, n, groups, k));
        lemma_read_both(w, items_lines(list, n - 1), item_lines(item));
    }
}

/// A list behind `after:` under a group, in either form.
proof fn lemma_group_list(w: WalkView, list: Seq<Item>, dashed: bool, groups: Seq<Group>, k: int)
    requires
        items_sound(list, dashed),
        w.scope == Scope::Groups,
        w.group is Some,
        knows(w.aliases, groups, k),
    ensures
        read(w, list_lines("after:"@, list, dashed)) == Some(
            WalkView {
                list: Listing::GroupAfter,
                group_edges: w.group_edges + groups_meant(list, list.len() as int, groups, k),
                group_conditional: w.group_conditional || any_condition(list),
                ..w
            },
        ),
{
    lemma_words();
    let word = "after:"@;
    let n = list.len() as int;
    let u = WalkView { list: Listing::GroupAfter, ..w };
    if dashed {
        lemma_bare(word);
        lemma_line(4, word);
        lemma_not_begins(word, "#"@);
        lemma_not_begins(word, "- name:"@);
        lemma_not_begins(word, "condition:"@);
        lemma_read_one(w, line(4, word));
        let none = Seq::<Seq<char>>::empty();
        assert(group_targets_of(none, w.aliases, 0) =~= none);
        assert(w.group_edges + none =~= w.group_edges);
        assert(step(w, line(4, word)) == Some(u));
        lemma_dashed_groups(u, list, n, groups, k);
        lemma_read_both(w, seq![line(4, word)], items_lines(list, n));
        assert(list.take(n) =~= list);
    } else {
        lemma_inline(word, list);
        lemma_inline_groups(list, w.aliases, groups, k);
        let s = word + " ["@ + joined(parts(list), seq![',']) + "]"@;
        lemma_line(4, s);
        lemma_not_begins(s, "#"@);
        lemma_not_begins(s, "- name:"@);
        lemma_not_begins(s, "condition:"@);
        lemma_read_one(w, line(4, s));
        assert(!any_condition(list)) by {
            if any_condition(list) {
                let i = choose|i: int| 0 <= i < list.len() && (#[trigger] list[i]).condition is Some;
                assert(item_sound(list[i], dashed));
            }
        }
    }
}

proof fn lemma_group_details(w: WalkView, details: Seq<Detail>, n: int, groups: Seq<Group>, k: int)
    requires
        0 <= n <= details.len(),
        forall|i: int|
            0 <= i < details.len() ==> detail_sound(#[trigger] details[i]) && (details[i] is After
                || details[i] is Condition),
        w.scope == Scope::Groups,
        w.group is Some,
        w.group_edges == Seq::<Seq<char>>::empty(),
        !w.group_conditional,
        knows(w.aliases, groups, k),
    ensures
        read(w, details_lines(details, n)) matches Some(v) && v == (WalkView {
            list: v.list,
            group_edges: group_afters(details, n, groups, k),
            group_conditional: conditional(details, n),
            ..w
        }),
    decreases n,
{
    if n == 0 {
        lemma_read_none(w);
    } else {
        lemma_group_details(w, details, n - 1, groups, k);
        let v = read(w, details_lines(details, n - 1))->0;
        let d = details[n - 1];
        assert(detail_sound(details[n - 1]));
        match d {
            Detail::After { items, dashed } => {
                lemma_group_list(v, items, dashed, groups, k);
            },
            Detail::Condition(c) => {
                lemma_words();
                let t = "condition: "@ + c;
                lemma_condition_text(c);
                lemma_line(4, t);
                lemma_not_begins(t, "#"@);
                lemma_not_begins(t, "- name:"@);
                lemma_read_one(v, line(4, t));
                let none = Seq::<Seq<char>>::empty();
                assert(group_afters(details, n - 1, groups, k) + none =~= group_afters(
                    details,
                    n - 1,
                    groups,
                    k,
                ));
            },
            _ => {},
        }
        lemma_read_both(w, details_lines(details, n - 1), detail_lines(d));
    }
}

proof fn lemma_word_end(s: Seq<char>, i: int, k: int)
    requires
        0 <= i <= k < s.len(),
        forall|j: int| i <= j < k ==> !is_white(#[trigger] s[j]),
        is_white(s[k]),
    ensures
        word_end(s, i) == k,
    decreases k - i,
{
    if i < k {
        assert(!is_white(s[i]));
        lemma_word_end(s, i + 1, k);
    }
}

/// What a group's line says of its name and its anchor.
proof fn lemma_group_value(g: Group)
    requires
        group_sound(g),
    ensures
        ({
            let body = match g.anchor {
                Some(a) => seq!['&'] + a + seq![' '] + g.name,
                None => spelled(g.name, g.quote),
            };
            let value = seq![' '] + body;
            &&& is_text(body)
            &&& group_name_of(value) == ascii_lowered(g.name)
            &&& anchored(value) == (match g.anchor {
                Some(a) => Some((ascii_lowered(a), ascii_lowered(g.name))),
                None => None,
            })
        }),
{
    lemma_words();
    reveal_strlit("&");
    assert("&"@ =~= seq!['&']);
    let one = seq![' '];
    let none = Seq::<char>::empty();
    assert(all_white(one));
    match g.anchor {
        Some(a) => {
            let body = seq!['&'] + a + one + g.name;
            let rest = a + one + g.name;
            let set = "'\""@;
            assert(body =~= "&"@ + rest);
            assert(body[0] == '&');
            assert(body.last() == g.name.last());
            assert(g.name.contains(g.name.last()));
            assert(!set.contains('&'));
            assert(!set.contains(g.name.last()));
            assert(tight(body));
            assert(!body.contains('\n')) by {
                if body.contains('\n') {
                    let i = choose|i: int| 0 <= i < body.len() && body[i] == '\n';
                    if 1 <= i < 1 + a.len() {
                        assert(a[i - 1] == '\n');
                    } else if i > 1 + a.len() {
                        assert(g.name[i - 2 - a.len()] == '\n');
                    }
                }
            }
            lemma_trim_padded(one, body, none);
            assert(one + body + none =~= one + body);
            lemma_past_quotes(body, set, 0, 0);
            assert(set_trimmed_start(body, set) =~= body);
            lemma_before_quotes(body, set, body.len() as int, body.len() as int);
            assert(set_trimmed_end(body, set) =~= body);
            assert(unquoted(one + body) == body);
            lemma_trim_tight(body);
            lemma_begins("&"@, rest);
            let k = a.len() as int;
            assert forall|j: int| 0 <= j < k implies !is_white(#[trigger] rest[j]) by {
                assert(rest[j] == a[j]);
            }
            assert(rest[k] == ' ');
            lemma_word_end(rest, 0, k);
            assert(rest.take(k) =~= a);
            assert(rest.skip(k + 1) =~= g.name);
            lemma_trim_tight(g.name);
        },
        None => {
            lemma_spelled(one, g.name, g.quote);
            lemma_trim_tight(g.name);
            lemma_not_begins(g.name, "&"@);
        },
    }
}

/// The rules once one more group is written.
spec fn with_group(r: RulesView, groups: Seq<Group>, i: int) -> RulesView {
    let g = groups[i];
    let n = g.details.len() as int;
    let name = ascii_lowered(g.name);
    let edges = group_afters(g.details, n, groups, i + 1);
    RulesView {
        group_order: if r.group_order.contains(name) {
            r.group_order
        } else {
            r.group_order.push(name)
        },
        group_after: if !conditional(g.details, n) && edges.len() > 0 {
            with_edges(r.group_after, name, edges)
        } else {
            r.group_after
        },
        ..r
    }
}

spec fn with_groups(r: RulesView, groups: Seq<Group>, n: int) -> RulesView
    decreases n,
{
    if n <= 0 {
        r
    } else {
        with_group(with_groups(r, groups, n - 1), groups, n - 1)
    }
}

/// The walk stands among the groups, with these rules once the one at hand is done.
spec fn among(w: WalkView, r: RulesView, groups: Seq<Group>, n: int) -> bool {
    &&& w.scope == Scope::Groups
    &&& w.plugin is None
    &&& w.plugin_group is None
    &&& w.after == Seq::<Seq<char>>::empty()
    &&& w.before == Seq::<Seq<char>>::empty()
    &&& !w.plugin_conditional
    &&& knows(w.aliases, groups, n)
    &&& group_done(w).rules == r
}

proof fn lemma_one_group(w: WalkView, r: RulesView, groups: Seq<Group>, n: int)
    requires
        0 < n <= groups.len(),
        among(w, r, groups, n - 1),
        group_sound(groups[n - 1]),
    ensures
        read(w, group_lines(groups[n - 1])) matches Some(v) && among(
            v,
            with_group(r, groups, n - 1),
            groups,
            n,
        ),
{
    lemma_words();
    let g = groups[n - 1];
    let one = seq![' '];
    let body = match g.anchor {
        Some(a) => seq!['&'] + a + seq![' '] + g.name,
        None => spelled(g.name, g.quote),
    };
    let t = "- name: "@ + body;
    lemma_group_value(g);
    assert(is_text(t)) by {
        assert(t[0] == '-');
        assert(t.last() == body.last());
        if t.contains('\n') {
            let i = choose|i: int| 0 <= i < t.len() && t[i] == '\n';
            assert(body[i - 8] == '\n');
        }
    }
    lemma_line(2, t);
    assert(t =~= "- name:"@ + (one + body));
    lemma_begins("- name:"@, one + body);
    lemma_not_begins(t, "#"@);
    lemma_not_begins(one + body, "- name:"@);
    assert(without_prefixes(t, "- name:"@) == without_prefixes(one + body, "- name:"@));
    assert(without_prefixes(one + body, "- name:"@) == one + body);
    let v = group_begun(w, t);
    assert(step(w, line(2, t)) == Some(v));
    lemma_read_one(w, line(2, t));
    assert(knows(v.aliases, groups, n)) by {
        assert forall|a: Seq<char>| #[trigger] found(v.aliases, a) == anchored_by(groups, n, a) by {
            assert(found(w.aliases, a) == anchored_by(groups, n - 1, a));
            if g.anchor is Some {
                insert_then_get(
                    w.aliases,
                    ascii_lowered(g.anchor->0),
                    ascii_lowered(g.name),
                    a,
                );
            }
        }
    }
    let m = g.details.len() as int;
    lemma_group_details(v, g.details, m, groups, n);
    lemma_read_both(w, seq![line(2, t)], details_lines(g.details, m));
    let u = read(v, details_lines(g.details, m))->0;
    assert(group_done(u).rules == with_group(r, groups, n - 1));
}

proof fn lemma_groups(w: WalkView, r: RulesView, groups: Seq<Group>, n: int)
    requires
        0 <= n <= groups.len(),
        among(w, r, groups, 0),
        forall|i: int| 0 <= i < groups.len() ==> group_sound(#[trigger] groups[i]),
    ensures
        read(w, groups_lines(groups, n)) matches Some(v) && among(
            v,
            with_groups(r, groups, n),
            groups,
            n,
        ),
    decreases n,
{
    if n == 0 {
        lemma_read_none(w);
    } else {
        lemma_groups(w, r, groups, n - 1);
        assert(group_sound(groups[n - 1]));
        let v = read(w, groups_lines(groups, n - 1))->0;
        lemma_one_group(v, with_groups(r, groups, n - 1), groups, n);
        lemma_read_both(w, groups_lines(groups, n - 1), group_lines(groups[n - 1]));
    }
}

proof fn lemma_group_names(groups: Seq<Group>, n: int, x: Seq<char>)
    requires
        0 <= n <= groups.len(),
    ensures
        group_names(groups, n).contains(x) == exists|i: int|
            0 <= i < n && #[trigger] ascii_lowered(groups[i].name) == x,
    decreases n,
{
    if n > 0 {
        lemma_group_names(groups, n - 1, x);
        let rest = group_names(groups, n - 1);
        let name = ascii_lowered(groups[n - 1].name);
        let all = group_names(groups, n);
        if rest.contains(x) {
            let i = choose|i: int| 0 <= i < rest.len() && rest[i] == x;
            assert(all[i] == x);
        }
        if all == rest.push(name) {
            assert(all[rest.len() as int] == name);
            if all.contains(x) && x != name {
                let i = choose|i: int| 0 <= i < all.len() && all[i] == x;
                assert(rest[i] == x);
            }
        } else {
            lemma_group_names(groups, n - 1, name);
        }
        if x == name {
            assert(ascii_lowered(groups[n - 1].name) == x);
        }
    } else {
        assert(group_names(groups, 0) =~= Seq::empty());
    }
}

proof fn lemma_with_groups(
    r: RulesView,
    groups: Seq<Group>,
    n: int,
    x: Seq<char>,
    y: Seq<char>,
)
    requires
        0 <= n <= groups.len(),
        r == no_rules(),
    ensures
        ({
            let t = with_groups(r, groups, n);
            &&& solid(t.group_after)
            &&& loads_after(t.group_after, x, y) == group_asked(groups, n, x, y)
            &&& t.group_order == group_names(groups, n)
            &&& t.after == r.after
            &&& t.groups == r.groups
        }),
    decreases n,
{
    if n > 0 {
        lemma_with_groups(r, groups, n - 1, x, y);
        let t = with_groups(r, groups, n - 1);
        let g = groups[n - 1];
        let m = g.details.len() as int;
        let name = ascii_lowered(g.name);
        let edges = group_afters(g.details, m, groups, n);
        if edges.len() > 0 {
            lemma_with_edges(t.group_after, name, edges, x, y);
        }
        lemma_group_names(groups, n - 1, name);
        if group_asked(groups, n - 1, x, y) {
            let i = choose|i: int| 0 <= i < n - 1 && #[trigger] group_asks(groups, i, x, y);
            assert(group_asks(groups, i, x, y));
        }
        assert(group_asks(groups, n - 1, x, y) == (!conditional(g.details, m) && name == x
            && edges.contains(y)));
    } else {
        assert(group_names(groups, 0) =~= r.group_order);
    }
}

// ---- lines ----

spec fn all_lines(lines: Seq<Seq<char>>) -> bool {
    forall|i: int| 0 <= i < lines.len() ==> is_line(#[trigger] lines[i])
}

proof fn lemma_all_lines_both(a: Seq<Seq<char>>, b: Seq<Seq<char>>)
    requires
        all_lines(a),
        all_lines(b),
    ensures
        all_lines(a + b),
{
    assert forall|i: int| 0 <= i < (a + b).len() implies is_line(#[trigger] (a + b)[i]) by {
        if i < a.len() {
            assert((a + b)[i] == a[i]);
        } else {
            assert((a + b)[i] == b[i - a.len()]);
        }
    }
}

proof fn lemma_one_line(indent: nat, s: Seq<char>)
    requires
        is_text(s),
    ensures
        all_lines(seq![line(indent, s)]),
{
    lemma_line(indent, s);
    let l = seq![line(indent, s)];
    assert forall|i: int| 0 <= i < l.len() implies is_line(#[trigger] l[i]) by {
        assert(l[i] == line(indent, s));
    }
}

proof fn lemma_items_lines(list: Seq<Item>, n: int)
    requires
        0 <= n <= list.len(),
        items_sound(list, true),
    ensures
        all_lines(items_lines(list, n)),
    decreases n,
{
    if n > 0 {
        lemma_items_lines(list, n - 1);
        let item = list[n - 1];
        assert(item_sound(list[n - 1], true));
        lemma_dash(item);
        let s = "- "@ + (if item.named {
            "name: "@
        } else {
            Seq::empty()
        }) + spelled(item.name, item.quote);
        lemma_one_line(6, s);
        match item.condition {
            Some(c) => {
                lemma_condition_text(c);
                lemma_one_line(8, "condition: "@ + c);
                lemma_all_lines_both(seq![line(6, s)], seq![line(8, "condition: "@ + c)]);
            },
            None => {
                assert(item_lines(item) =~= seq![line(6, s)]);
            },
        }
        lemma_all_lines_both(items_lines(list, n - 1), item_lines(item));
    }
}

proof fn lemma_list_lines(word: Seq<char>, list: Seq<Item>, dashed: bool)
    requires
        word == "after:"@ || word == "before:"@,
        items_sound(list, dashed),
    ensures
        all_lines(list_lines(word, list, dashed)),
{
    if dashed {
        lemma_bare(word);
        lemma_one_line(4, word);
        lemma_items_lines(list, list.len() as int);
        lemma_all_lines_both(seq![line(4, word)], items_lines(list, list.len() as int));
    } else {
        lemma_inline(word, list);
        lemma_one_line(4, word + " ["@ + joined(parts(list), seq![',']) + "]"@);
    }
}

proof fn lemma_behind(word: Seq<char>, s: Seq<char>)
    requires
        is_text(s),
        word.len() > 0,
        !is_white(word[0]),
        !word.contains('\n'),
    ensures
        is_text(word + s),
{
    let t = word + s;
    assert(t[0] == word[0]);
    assert(t.last() == s.last());
    if t.contains('\n') {
        let i = choose|i: int| 0 <= i < t.len() && t[i] == '\n';
        if i < word.len() {
            assert(word[i] == '\n');
        } else {
            assert(s[i - word.len()] == '\n');
        }
    }
}

proof fn lemma_details_lines(details: Seq<Detail>, n: int)
    requires
        0 <= n <= details.len(),
        forall|i: int| 0 <= i < details.len() ==> detail_sound(#[trigger] details[i]),
    ensures
        all_lines(details_lines(details, n)),
    decreases n,
{
    if n > 0 {
        lemma_details_lines(details, n - 1);
        lemma_words();
        let d = details[n - 1];
        assert(detail_sound(details[n - 1]));
        match d {
            Detail::Group { name, quote } => {
                lemma_spelled(Seq::empty(), name, quote);
                lemma_behind("group: "@, spelled(name, quote));
                lemma_one_line(4, "group: "@ + spelled(name, quote));
            },
            Detail::Condition(c) => {
                lemma_behind("condition: "@, c);
                lemma_one_line(4, "condition: "@ + c);
            },
            Detail::After { items, dashed } => {
                lemma_list_lines("after:"@, items, dashed);
            },
            Detail::Before { items, dashed } => {
                lemma_list_lines("before:"@, items, dashed);
            },
        }
        lemma_all_lines_both(details_lines(details, n - 1), detail_lines(d));
    }
}

proof fn lemma_plugins_lines(plugins: Seq<Plugin>, n: int)
    requires
        0 <= n <= plugins.len(),
        forall|i: int| 0 <= i < plugins.len() ==> plugin_sound(#[trigger] plugins[i]),
    ensures
        all_lines(plugins_lines(plugins, n)),
    decreases n,
{
    if n > 0 {
        lemma_plugins_lines(plugins, n - 1);
        lemma_words();
        let p = plugins[n - 1];
        assert(plugin_sound(plugins[n - 1]));
        let s = spelled(p.name, p.quote);
        lemma_spelled(Seq::empty(), p.name, p.quote);
        lemma_behind("- name: "@, s);
        lemma_one_line(2, "- name: "@ + s);
        let m = p.details.len() as int;
        lemma_details_lines(p.details, m);
        lemma_all_lines_both(seq![line(2, "- name: "@ + s)], details_lines(p.details, m));
        lemma_all_lines_both(plugins_lines(plugins, n - 1), plugin_lines(p));
    }
}

proof fn lemma_groups_lines(groups: Seq<Group>, n: int)
    requires
        0 <= n <= groups.len(),
        forall|i: int| 0 <= i < groups.len() ==> group_sound(#[trigger] groups[i]),
    ensures
        all_lines(groups_lines(groups, n)),
    decreases n,
{
    if n > 0 {
        lemma_groups_lines(groups, n - 1);
        lemma_words();
        let g = groups[n - 1];
        assert(group_sound(groups[n - 1]));
        let body = match g.anchor {
            Some(a) => seq!['&'] + a + seq![' '] + g.name,
            None => spelled(g.name, g.quote),
        };
        lemma_group_value(g);
        lemma_behind("- name: "@, body);
        lemma_one_line(2, "- name: "@ + body);
        let m = g.details.len() as int;
        lemma_details_lines(g.details, m);
        lemma_all_lines_both(seq![line(2, "- name: "@ + body)], details_lines(g.details, m));
        lemma_all_lines_both(groups_lines(groups, n - 1), group_lines(g));
    }
}

// ---- the whole list ----

/// A masterlist: the groups, if it has that part, and the plugins.
pub open spec fn masterlist_lines(groups: Seq<Group>, plugins: Seq<Plugin>) -> Seq<Seq<char>> {
    (if groups.len() > 0 {
        seq!["groups:"@] + groups_lines(groups, groups.len() as int)
    } else {
        Seq::empty()
    }) + seq!["plugins:"@] + plugins_lines(plugins, plugins.len() as int)
}

/// What is read tells who loads after whom, the group of each plugin, and the order of
/// the groups.
pub open spec fn tells(r: RulesView, groups: Seq<Group>, plugins: Seq<Plugin>) -> bool {
    &&& forall|x: Seq<char>, y: Seq<char>| #[trigger]
        loads_after(r.after, x, y) == asked(plugins, x, y)
    &&& forall|x: Seq<char>| #[trigger] found(r.after, x) matches Some(l) ==> l.len() > 0 && rising(
        l,
    )
    &&& forall|x: Seq<char>| #[trigger]
        found(r.groups, x) == group_told(plugins, groups, plugins.len() as int, x)
    &&& forall|x: Seq<char>, y: Seq<char>| #[trigger]
        loads_after(r.group_after, x, y) == group_asked(groups, groups.len() as int, x, y)
    &&& forall|x: Seq<char>| #[trigger] found(r.group_after, x) matches Some(l) ==> l.len() > 0
        && rising(l)
    &&& r.group_order == group_names(groups, groups.len() as int)
}

proof fn lemma_tells(groups: Seq<Group>, plugins: Seq<Plugin>)
    ensures
        ({
            let r = with_groups(no_rules(), groups, groups.len() as int);
            let t = with_plugins(r, plugins, plugins.len() as int, groups);
            tells(
                RulesView {
                    after: tidy_edges(t.after),
                    group_after: tidy_edges(t.group_after),
                    ..t
                },
                groups,
                plugins,
            )
        }),
{
    let k = groups.len() as int;
    let n = plugins.len() as int;
    let r = with_groups(no_rules(), groups, k);
    let t = with_plugins(r, plugins, n, groups);
    let none = Seq::<char>::empty();
    lemma_with_groups(no_rules(), groups, k, none, none);
    lemma_with_plugins(r, plugins, groups, n, none, none);
    assert(plugins.take(n) =~= plugins);
    assert forall|x: Seq<char>, y: Seq<char>| #[trigger]
        loads_after(tidy_edges(t.after), x, y) == asked(plugins, x, y) by {
        lemma_with_plugins(r, plugins, groups, n, x, y);
        lemma_tidy(t.after, x, y);
    }
    assert forall|x: Seq<char>| (#[trigger] found(tidy_edges(t.after), x)) is Some implies {
        let l = found(tidy_edges(t.after), x)->0;
        l.len() > 0 && rising(l)
    } by {
        lemma_tidy(t.after, x, x);
    }
    assert forall|x: Seq<char>| #[trigger]
        found(t.groups, x) == group_told(plugins, groups, n, x) by {
        lemma_with_plugins(r, plugins, groups, n, x, x);
    }
    assert forall|x: Seq<char>, y: Seq<char>| #[trigger]
        loads_after(tidy_edges(t.group_after), x, y) == group_asked(groups, k, x, y) by {
        lemma_with_groups(no_rules(), groups, k, x, y);
        lemma_tidy(t.group_after, x, y);
    }
    assert forall|x: Seq<char>| (#[trigger] found(tidy_edges(t.group_after), x)) is Some implies {
        let l = found(tidy_edges(t.group_after), x)->0;
        l.len() > 0 && rising(l)
    } by {
        lemma_tidy(t.group_after, x, x);
    }
}

proof fn lemma_heading(word: Seq<char>)
    requires
        word == "groups:"@ || word == "plugins:"@,
    ensures
        is_line(word),
        trimmed(word) == word,
        indent_of(word) == 0,
        word.len() > 0,
        !begins(word, "#"@),
        scope_of(word) == (if word == "groups:"@ {
            Scope::Groups
        } else {
            Scope::Plugins
        }),
{
    lemma_words();
    reveal_strlit("groups:");
    reveal_strlit("plugins:");
    assert("groups:"@ =~= seq!['g', 'r', 'o', 'u', 'p', 's', ':']);
    assert("plugins:"@ =~= seq!['p', 'l', 'u', 'g', 'i', 'n', 's', ':']);
    assert(word[0] == 'g' || word[0] == 'p');
    assert(word.last() == ':');
    assert(!word.contains('\n'));
    lemma_trim_tight(word);
    lemma_spaces(word, 0, 0);
    lemma_not_begins(word, "#"@);
}

/// The walk past the groups, and past the heading behind them.
proof fn lemma_to_plugins(groups: Seq<Group>)
    requires
        forall|i: int| 0 <= i < groups.len() ==> group_sound(#[trigger] groups[i]),
    ensures
        ({
            let k = groups.len() as int;
            let head = (if k > 0 {
                seq!["groups:"@] + groups_lines(groups, k)
            } else {
                Seq::empty()
            }) + seq!["plugins:"@];
            read(start(), head) matches Some(v) && between(
                v,
                with_groups(no_rules(), groups, k),
                v.aliases,
            ) && knows(v.aliases, groups, k)
        }),
{
    let k = groups.len() as int;
    let w = start();
    lemma_heading("groups:"@);
    lemma_heading("plugins:"@);
    reveal_strlit("groups:");
    reveal_strlit("plugins:");
    assert("groups:"@.len() != "plugins:"@.len());
    let front = if k > 0 {
        seq!["groups:"@] + groups_lines(groups, k)
    } else {
        Seq::empty()
    };
    let none = Seq::<char>::empty();
    if k > 0 {
        let v = WalkView { scope: Scope::Groups, ..w };
        assert(step(w, "groups:"@) == Some(v));
        lemma_read_one(w, "groups:"@);
        assert(among(v, no_rules(), groups, 0));
        lemma_groups(v, no_rules(), groups, k);
        lemma_read_both(w, seq!["groups:"@], groups_lines(groups, k));
    } else {
        lemma_read_none(w);
    }
    let u = read(w, front)->0;
    assert(knows(u.aliases, groups, k));
    lemma_read_one(u, "plugins:"@);
    lemma_read_both(w, front, seq!["plugins:"@]);
}

/// The rules of a masterlist that is written, and how they come about.
proof fn lemma_masterlist(groups: Seq<Group>, plugins: Seq<Plugin>)
    requires
        forall|i: int| 0 <= i < groups.len() ==> group_sound(#[trigger] groups[i]),
        forall|i: int| 0 <= i < plugins.len() ==> plugin_sound(#[trigger] plugins[i]),
    ensures
        ({
            let r = with_groups(no_rules(), groups, groups.len() as int);
            let t = with_plugins(r, plugins, plugins.len() as int, groups);
            masterlist_rules(ended(masterlist_lines(groups, plugins))) == Some(
                RulesView {
                    after: tidy_edges(t.after),
                    group_after: tidy_edges(t.group_after),
                    ..t
                },
            )
        }),
{
    let k = groups.len() as int;
    let n = plugins.len() as int;
    let lines = masterlist_lines(groups, plugins);
    let front = if k > 0 {
        seq!["groups:"@] + groups_lines(groups, k)
    } else {
        Seq::empty()
    };
    let head = front + seq!["plugins:"@];
    lemma_heading("groups:"@);
    lemma_heading("plugins:"@);
    lemma_groups_lines(groups, k);
    lemma_plugins_lines(plugins, n);
    assert(all_lines(seq!["groups:"@])) by {
        assert(seq!["groups:"@][0] == "groups:"@);
    }
    assert(all_lines(seq!["plugins:"@])) by {
        assert(seq!["plugins:"@][0] == "plugins:"@);
    }
    if k > 0 {
        lemma_all_lines_both(seq!["groups:"@], groups_lines(groups, k));
    }
    lemma_all_lines_both(front, seq!["plugins:"@]);
    lemma_all_lines_both(head, plugins_lines(plugins, n));
    lemma_lines_read_back(lines);
    lemma_walk_is_read(lines, lines.len() as int);
    lemma_to_plugins(groups);
    let v = read(start(), head)->0;
    let r = with_groups(no_rules(), groups, k);
    lemma_plugins(v, r, v.aliases, plugins, n, groups);
    lemma_read_both(start(), head, plugins_lines(plugins, n));
    let u = read(v, plugins_lines(plugins, n))->0;
    assert(group_done(u).rules == u.rules);
    assert(plugin_done(group_done(u)).rules == plugin_done(u).rules);
}

/// Of a masterlist, what is read is what was written. A plugin loads after another exactly
/// where one of the two asks for it, the one by `after` or the other by `before`, with a
/// literal name and under no condition; each such list stands in order and holds nothing
/// twice. A plugin has the group that it names last, by the name or by the anchor of the
/// group. Groups load after each other where they ask for it, and stand in the order in
/// which they are first written.
pub proof fn masterlists_are_read_as_written(groups: Seq<Group>, plugins: Seq<Plugin>)
    requires
        forall|i: int| 0 <= i < groups.len() ==> group_sound(#[trigger] groups[i]),
        forall|i: int| 0 <= i < plugins.len() ==> plugin_sound(#[trigger] plugins[i]),
    ensures
        masterlist_rules(ended(masterlist_lines(groups, plugins))) matches Some(r) && tells(
            r,
            groups,
            plugins,
        ),
{
    lemma_masterlist(groups, plugins);
    lemma_tells(groups, plugins);
}

/// The same plugin but for how its lists are written: between brackets or in lines of
/// their own, in quotes or bare.
pub open spec fn same_rules(p: Plugin, q: Plugin, groups: Seq<Group>) -> bool {
    &&& ascii_lowered(p.name) == ascii_lowered(q.name)
    &&& counts(p) == counts(q)
    &&& after_of(p) == after_of(q)
    &&& before_of(p) == before_of(q)
    &&& group_of(p, groups) == group_of(q, groups)
}

proof fn lemma_same_rules(
    r: RulesView,
    a: Seq<Plugin>,
    b: Seq<Plugin>,
    n: int,
    groups: Seq<Group>,
)
    requires
        a.len() == b.len(),
        0 <= n <= a.len(),
        forall|i: int| 0 <= i < a.len() ==> same_rules(#[trigger] a[i], b[i], groups),
    ensures
        with_plugins(r, a, n, groups) == with_plugins(r, b, n, groups),
    decreases n,
{
    if n > 0 {
        lemma_same_rules(r, a, b, n - 1, groups);
        assert(same_rules(a[n - 1], b[n - 1], groups));
    }
}

/// Masterlists that say the same in another form give the same rules.
pub proof fn the_form_of_a_rule_does_not_matter(
    groups: Seq<Group>,
    a: Seq<Plugin>,
    b: Seq<Plugin>,
)
    requires
        forall|i: int| 0 <= i < groups.len() ==> group_sound(#[trigger] groups[i]),
        forall|i: int| 0 <= i < a.len() ==> plugin_sound(#[trigger] a[i]),
        forall|i: int| 0 <= i < b.len() ==> plugin_sound(#[trigger] b[i]),
        a.len() == b.len(),
        forall|i: int| 0 <= i < a.len() ==> same_rules(#[trigger] a[i], b[i], groups),
    ensures
        masterlist_rules(ended(masterlist_lines(groups, a))) == masterlist_rules(
            ended(masterlist_lines(groups, b)),
        ),
{
    lemma_masterlist(groups, a);
    lemma_masterlist(groups, b);
    let r = with_groups(no_rules(), groups, groups.len() as int);
    lemma_same_rules(r, a, b, a.len() as int, groups);
}

} // verus!
