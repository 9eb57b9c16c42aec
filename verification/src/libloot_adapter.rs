//! The bridge to libloot: what it is told of the separators, and what is made of its answers.
use vstd::prelude::*;
use crate::game::{Game, GameInfo};
use crate::keys;
#[allow(unused_imports)]
use crate::keys::{squeezed, with_item};
use crate::list;
use crate::map::TextMap;
#[allow(unused_imports)]
use crate::map::{found, inserted};
use crate::masterlist::MasterlistStatus;
use crate::plugins;
use crate::sort;
#[allow(unused_imports)]
use crate::sort::{deduped, sorted};
use crate::text;
#[allow(unused_imports)]
use crate::text::{after_prefix, ascii_lowered, before_suffix, decimal, lines_of, replaced, set_trimmed, set_trimmed_start, split_first, trimmed, upper_digit, zero_padded};

verus! {

// ---- messages ----

#[derive(Clone, Copy, PartialEq, Eq, Debug, Structural)]
pub enum LootMessageLevel {
    Info,
    Warning,
    Error,
}

/// How a message is meant.
#[derive(Clone, Copy, PartialEq, Eq, Debug, Structural)]
pub enum MessageKind {
    Say,
    Warn,
    Error,
}

pub struct LootMessage {
    pub level: LootMessageLevel,
    pub text: String,
}

#[verifier::ext_equal]
pub struct LootMessageView {
    pub level: LootMessageLevel,
    pub text: Seq<char>,
}

impl DeepView for LootMessage {
    type V = LootMessageView;

    open spec fn deep_view(&self) -> LootMessageView {
        LootMessageView { level: self.level, text: self.text@ }
    }
}

pub open spec fn level_of(kind: MessageKind) -> LootMessageLevel {
    match kind {
        MessageKind::Say => LootMessageLevel::Info,
        MessageKind::Warn => LootMessageLevel::Warning,
        MessageKind::Error => LootMessageLevel::Error,
    }
}

pub fn message_level(level: MessageKind) -> (r: LootMessageLevel)
    ensures
        r == level_of(level),
{
    match level {
        MessageKind::Say => LootMessageLevel::Info,
        MessageKind::Warn => LootMessageLevel::Warning,
        MessageKind::Error => LootMessageLevel::Error,
    }
}

/// The first content from `i` on in exactly that language.
pub open spec fn language_place(
    content: Seq<(Seq<char>, Seq<char>)>,
    language: Seq<char>,
    i: int,
) -> Option<int>
    decreases content.len() - i,
{
    if i < 0 || i >= content.len() {
        None
    } else if content[i].1 == language {
        Some(i)
    } else {
        language_place(content, language, i + 1)
    }
}

/// Whether a content's language is the wanted one but for a country: the wanted one names
/// a country and the content none, or the other way round.
pub open spec fn is_kin(language: Seq<char>, wanted: Seq<char>) -> bool {
    match split_first(wanted, "_"@) {
        Some((code, _)) => language == code,
        None => split_first(language, "_"@) matches Some((code, _)) && code == wanted,
    }
}

/// The first content from `i` on whose language is the wanted one but for a country.
pub open spec fn kin_place(
    content: Seq<(Seq<char>, Seq<char>)>,
    wanted: Seq<char>,
    i: int,
) -> Option<int>
    decreases content.len() - i,
{
    if i < 0 || i >= content.len() {
        None
    } else if is_kin(content[i].1, wanted) {
        Some(i)
    } else {
        kin_place(content, wanted, i + 1)
    }
}

/// The last of the first `n` contents in exactly that language.
pub open spec fn last_language_place(
    content: Seq<(Seq<char>, Seq<char>)>,
    language: Seq<char>,
    n: int,
) -> Option<int>
    decreases n,
{
    if n <= 0 {
        None
    } else if content[n - 1].1 == language {
        Some(n - 1)
    } else {
        last_language_place(content, language, n - 1)
    }
}

/// The text in a language: the only content there is, or the first in that language, or
/// the first that differs from it by a country, or the last in English.
pub open spec fn selected(content: Seq<(Seq<char>, Seq<char>)>, language: Seq<char>) -> Option<
    Seq<char>,
> {
    if content.len() == 1 {
        Some(content[0].0)
    } else {
        match language_place(content, language, 0) {
            Some(i) => Some(content[i].0),
            None => match kin_place(content, language, 0) {
                Some(i) => Some(content[i].0),
                None => match last_language_place(content, "en"@, content.len() as int) {
                    Some(i) => Some(content[i].0),
                    None => None,
                },
            },
        }
    }
}

/// `libloot::metadata::select_message_content`, on contents given as text and language: a
/// single content is taken as it is; of several, the first in the language, or else the
/// first whose language differs from it only by what follows an underscore, or else the
/// last in `en`.
#[verifier::external_body]
fn select_content(content: &Vec<(String, String)>, language: &str) -> (r: Option<String>)
    ensures
        r.deep_view() == selected(content.deep_view(), language@),
{
    let contents: Vec<libloot::metadata::MessageContent> = content.iter().map(
        |c| libloot::metadata::MessageContent::new(c.0.clone()).with_language(c.1.clone()),
    ).collect();
    let chosen = libloot::metadata::select_message_content(&contents, language);
    chosen.map(|c| c.text().to_string())
}

/// The message that is shown: the English text, unless there is none.
pub open spec fn shown_message(kind: MessageKind, content: Seq<(Seq<char>, Seq<char>)>) -> Option<
    LootMessageView,
> {
    match selected(content, "en"@) {
        Some(t) => if trimmed(t).len() == 0 {
            None
        } else {
            Some(LootMessageView { level: level_of(kind), text: trimmed(t) })
        },
        None => None,
    }
}

/// The message that is shown of contents given as text and language.
pub fn visible_message(level: MessageKind, content: &Vec<(String, String)>) -> (r: Option<
    LootMessage,
>)
    ensures
        r.deep_view() == shown_message(level, content.deep_view()),
{
    match select_content(content, "en") {
        Some(t) => {
            let text = text::trim(t.as_str());
            let chars = text::chars_of(text.as_str());
            if chars.len() == 0 {
                None
            } else {
                Some(LootMessage { level: message_level(level), text })
            }
        },
        None => None,
    }
}

/// How many of the first `n` messages are of a kind.
pub open spec fn kind_count(kinds: Seq<MessageKind>, kind: MessageKind, n: int) -> nat
    decreases n,
{
    if n <= 0 {
        0
    } else {
        kind_count(kinds, kind, n - 1) + (if kinds[n - 1] == kind {
            1nat
        } else {
            0
        })
    }
}

/// The number of messages of a kind.
pub fn count_kind(kinds: &Vec<MessageKind>, kind: MessageKind) -> (n: usize)
    ensures
        n == kind_count(kinds@, kind, kinds.len() as int),
{
    let mut n: usize = 0;
    let mut i: usize = 0;
    while i < kinds.len()
        invariant
            n <= i <= kinds.len(),
            n == kind_count(kinds@, kind, i as int),
        decreases kinds.len() - i,
    {
        if kinds[i] == kind {
            n = n + 1;
        }
        i = i + 1;
    }
    n
}

// ---- the separator graph ----

/// A group of plugins: the mods of one separator.
pub struct SectionGroup {
    pub name: String,
    pub description: String,
    /// The groups that load before it.
    pub after: Vec<String>,
}

#[verifier::ext_equal]
pub struct SectionGroupView {
    pub name: Seq<char>,
    pub description: Seq<char>,
    pub after: Seq<Seq<char>>,
}

impl DeepView for SectionGroup {
    type V = SectionGroupView;

    open spec fn deep_view(&self) -> SectionGroupView {
        SectionGroupView {
            name: self.name@,
            description: self.description@,
            after: self.after.deep_view(),
        }
    }
}

pub struct SeparatorGraph {
    pub groups: Vec<SectionGroup>,
    /// The name of a separator's group, by the letters and digits of its label.
    pub group_for_section: TextMap<String>,
}

pub type GroupNames = Seq<(Seq<char>, Seq<char>)>;

pub fn section_key(label: &str) -> (r: String)
    ensures
        r@ == squeezed(label@),
{
    keys::squeeze(label)
}

pub open spec fn is_terminal(label: Seq<char>) -> bool {
    squeezed(label) == "endoflist"@ || squeezed(label) == "eol"@
}

pub fn is_terminal_section(label: &str) -> (r: bool)
    ensures
        r == is_terminal(label@),
{
    let k = keys::squeeze(label);
    text::same(k.as_str(), "endoflist") || text::same(k.as_str(), "eol")
}

pub open spec fn group_name(n: nat) -> Seq<char> {
    "modslut-separator-"@ + zero_padded(decimal(n), 3)
}

/// The groups of the first `n` labels, numbered in their order; a label that says the same
/// as an earlier one shares its group.
pub open spec fn names_first(labels: Seq<Seq<char>>, n: int) -> GroupNames
    decreases n,
{
    if n <= 0 {
        Seq::empty()
    } else {
        let before = names_first(labels, n - 1);
        let key = squeezed(labels[n - 1]);
        if key.len() == 0 || found(before, key) is Some {
            before
        } else {
            inserted(before, key, group_name(before.len()))
        }
    }
}

pub open spec fn names_of(labels: Seq<Seq<char>>) -> GroupNames {
    names_first(labels, labels.len() as int)
}

/// The groups that the first `n` links put before the group of `key`.
pub open spec fn links_first(
    after: Seq<Seq<char>>,
    names: GroupNames,
    links: Seq<(Seq<char>, Seq<char>)>,
    key: Seq<char>,
    n: int,
) -> Seq<Seq<char>>
    decreases n,
{
    if n <= 0 {
        after
    } else {
        let before = links_first(after, names, links, key, n - 1);
        if squeezed(links[n - 1].0) != key {
            before
        } else {
            match found(names, squeezed(links[n - 1].1)) {
                Some(g) => with_item(before, g),
                None => before,
            }
        }
    }
}

/// The group of the separator just before, if it has one.
pub open spec fn previous_group(labels: Seq<Seq<char>>, names: GroupNames, i: int) -> Seq<Seq<char>> {
    if i <= 0 {
        Seq::empty()
    } else {
        match found(names, squeezed(labels[i - 1])) {
            Some(g) => seq![g],
            None => Seq::empty(),
        }
    }
}

pub open spec fn group_at(
    labels: Seq<Seq<char>>,
    names: GroupNames,
    links: Seq<(Seq<char>, Seq<char>)>,
    i: int,
    name: Seq<char>,
) -> SectionGroupView {
    SectionGroupView {
        name,
        description: labels[i],
        after: links_first(
            previous_group(labels, names, i),
            names,
            links,
            squeezed(labels[i]),
            links.len() as int,
        ),
    }
}

/// The first group from `i` on with that name.
pub open spec fn group_place(groups: Seq<SectionGroupView>, name: Seq<char>, i: int) -> Option<int>
    decreases groups.len() - i,
{
    if i < 0 || i >= groups.len() {
        None
    } else if groups[i].name == name {
        Some(i)
    } else {
        group_place(groups, name, i + 1)
    }
}

pub open spec fn groups_first(
    labels: Seq<Seq<char>>,
    names: GroupNames,
    links: Seq<(Seq<char>, Seq<char>)>,
    n: int,
) -> Seq<SectionGroupView>
    decreases n,
{
    if n <= 0 {
        Seq::empty()
    } else {
        let before = groups_first(labels, names, links, n - 1);
        match found(names, squeezed(labels[n - 1])) {
            Some(name) => if group_place(before, name, 0) is Some {
                before
            } else {
                before.push(group_at(labels, names, links, n - 1, name))
            },
            None => before,
        }
    }
}

fn find_group(groups: &Vec<SectionGroup>, name: &str) -> (r: bool)
    ensures
        r == (group_place(groups.deep_view(), name@, 0) is Some),
{
    let ghost gv = groups.deep_view();
    let mut i: usize = 0;
    while i < groups.len()
        invariant
            i <= groups.len(),
            gv == groups.deep_view(),
            group_place(gv, name@, i as int) == group_place(gv, name@, 0),
        decreases groups.len() - i,
    {
        assert(gv[i as int] == groups@[i as int].deep_view());
        if text::same(groups[i].name.as_str(), name) {
            return true;
        }
        i = i + 1;
    }
    false
}

fn name_groups(labels: &[String]) -> (r: TextMap<String>)
    ensures
        r.deep_view() == names_of(labels.deep_view()),
{
    let ghost lv = labels.deep_view();
    let mut out: TextMap<String> = TextMap::new();
    let mut i: usize = 0;
    while i < labels.len()
        invariant
            i <= labels.len(),
            lv == labels.deep_view(),
            out.deep_view() == names_first(lv, i as int),
        decreases labels.len() - i,
    {
        assert(lv[i as int] == labels@[i as int]@);
        let key = keys::squeeze(labels[i].as_str());
        let chars = text::chars_of(key.as_str());
        if chars.len() > 0 && !out.contains_key(key.as_str()) {
            let number = text::zero_pad(text::dec(out.len() as u128), 3);
            out.insert(key, text::cat("modslut-separator-", number.as_str()));
        }
        i = i + 1;
    }
    assert(lv.len() == labels.len());
    out
}

fn add_links(
    after: &mut Vec<String>,
    names: &TextMap<String>,
    links: &Vec<(String, String)>,
    key: &str,
)
    ensures
        final(after).deep_view() == links_first(
            old(after).deep_view(),
            names.deep_view(),
            links.deep_view(),
            key@,
            links.len() as int,
        ),
{
    let ghost start = after.deep_view();
    let ghost ev = links.deep_view();
    let mut i: usize = 0;
    while i < links.len()
        invariant
            i <= links.len(),
            ev == links.deep_view(),
            after.deep_view() == links_first(start, names.deep_view(), ev, key@, i as int),
        decreases links.len() - i,
    {
        assert(ev[i as int] == links@[i as int].deep_view());
        let later = keys::squeeze(links[i].0.as_str());
        if text::same(later.as_str(), key) {
            let earlier = keys::squeeze(links[i].1.as_str());
            if let Some(g) = names.get(earlier.as_str()) {
                keys::add_item(after, g.clone());
            }
        }
        i = i + 1;
    }
}

/// The groups of a profile: one for each separator, which loads after the one before it,
/// and after those that the links name.
pub fn separator_graph(labels: &[String], extra_edges: &Vec<(String, String)>) -> (r: SeparatorGraph)
    ensures
        r.group_for_section.deep_view() == names_of(labels.deep_view()),
        r.groups.deep_view() == groups_first(
            labels.deep_view(),
            names_of(labels.deep_view()),
            extra_edges.deep_view(),
            labels.len() as int,
        ),
{
    let ghost lv = labels.deep_view();
    let ghost ev = extra_edges.deep_view();
    assert(ev.len() == extra_edges.len());
    let names = name_groups(labels);
    let ghost nv = names.deep_view();
    let mut groups: Vec<SectionGroup> = list::none();
    let mut i: usize = 0;
    while i < labels.len()
        invariant
            i <= labels.len(),
            lv == labels.deep_view(),
            ev == extra_edges.deep_view(),
            ev.len() == extra_edges.len(),
            nv == names.deep_view(),
            groups.deep_view() == groups_first(lv, nv, ev, i as int),
        decreases labels.len() - i,
    {
        assert(lv[i as int] == labels@[i as int]@);
        let key = keys::squeeze(labels[i].as_str());
        if let Some(name) = names.get(key.as_str()) {
            if !find_group(&groups, name.as_str()) {
                let mut after: Vec<String> = list::none();
                if i > 0 {
                    assert(lv[i - 1] == labels@[i - 1]@);
                    let k = keys::squeeze(labels[i - 1].as_str());
                    if let Some(g) = names.get(k.as_str()) {
                        list::put(&mut after, g.clone());
                    }
                }
                assert(after.deep_view() =~= previous_group(lv, nv, i as int));
                add_links(&mut after, &names, extra_edges, key.as_str());
                list::put(
                    &mut groups,
                    SectionGroup { name: name.clone(), description: labels[i].clone(), after },
                );
            }
        }
        i = i + 1;
    }
    SeparatorGraph { groups, group_for_section: names }
}

/// The group of a plugin whose mod stands in a section. The end of the list has none.
pub open spec fn group_of_section(names: GroupNames, section: Seq<char>) -> Option<Seq<char>> {
    if is_terminal(section) {
        None
    } else {
        found(names, squeezed(section))
    }
}

pub fn section_group(graph: &SeparatorGraph, section: &str) -> (r: Option<String>)
    ensures
        r.deep_view() == group_of_section(graph.group_for_section.deep_view(), section@),
{
    if is_terminal_section(section) {
        return None;
    }
    let k = keys::squeeze(section);
    match graph.group_for_section.get(k.as_str()) {
        Some(g) => Some(g.clone()),
        None => None,
    }
}

/// Whether the group that the masterlist gives a plugin stays: any but the default one.
pub open spec fn stays(existing: Option<Seq<char>>) -> bool {
    match existing {
        Some(g) => ascii_lowered(g) != ascii_lowered("default"@),
        None => false,
    }
}

pub fn keeps_group(existing: Option<&str>) -> (r: bool)
    ensures
        r == stays(existing.deep_view()),
{
    match existing {
        Some(g) => !text::same_ignoring_case(g, "default"),
        None => false,
    }
}

// ---- the game ----

/// The games that libloot knows.
#[derive(Clone, Copy, PartialEq, Eq, Debug, Structural)]
pub enum LootGame {
    Skyrim,
    SkyrimSE,
    SkyrimVR,
    Fallout4,
    Fallout4VR,
    Starfield,
    Oblivion,
    OblivionRemastered,
    Fallout3,
    FalloutNV,
    Morrowind,
    OpenMW,
}

pub open spec fn loot_game(game: Game) -> Option<LootGame> {
    match game {
        Game::Skyrim => Some(LootGame::Skyrim),
        Game::SkyrimSe => Some(LootGame::SkyrimSE),
        Game::SkyrimVr => Some(LootGame::SkyrimVR),
        Game::Fallout4 => Some(LootGame::Fallout4),
        Game::Fallout4Vr => Some(LootGame::Fallout4VR),
        Game::Starfield => Some(LootGame::Starfield),
        Game::Oblivion => Some(LootGame::Oblivion),
        Game::OblivionRemastered => Some(LootGame::OblivionRemastered),
        Game::Fallout3 => Some(LootGame::Fallout3),
        Game::FalloutNv => Some(LootGame::FalloutNV),
        Game::Morrowind => Some(LootGame::Morrowind),
        Game::OpenMw => Some(LootGame::OpenMW),
        Game::Enderal => Some(LootGame::SkyrimSE),
        Game::Unknown => None,
    }
}

/// The game as libloot knows it. Enderal has the plugins and the metadata of Skyrim SE.
pub fn game_type(info: &GameInfo) -> (r: Option<LootGame>)
    ensures
        r == loot_game(info.game),
{
    match info.game {
        Game::Skyrim => Some(LootGame::Skyrim),
        Game::SkyrimSe => Some(LootGame::SkyrimSE),
        Game::SkyrimVr => Some(LootGame::SkyrimVR),
        Game::Fallout4 => Some(LootGame::Fallout4),
        Game::Fallout4Vr => Some(LootGame::Fallout4VR),
        Game::Starfield => Some(LootGame::Starfield),
        Game::Oblivion => Some(LootGame::Oblivion),
        Game::OblivionRemastered => Some(LootGame::OblivionRemastered),
        Game::Fallout3 => Some(LootGame::Fallout3),
        Game::FalloutNv => Some(LootGame::FalloutNV),
        Game::Morrowind => Some(LootGame::Morrowind),
        Game::OpenMw => Some(LootGame::OpenMW),
        Game::Enderal => Some(LootGame::SkyrimSE),
        Game::Unknown => None,
    }
}

pub open spec fn data_folders(kind: LootGame) -> Seq<Seq<char>> {
    match kind {
        LootGame::Morrowind => seq!["Data Files"@],
        LootGame::OpenMW => seq!["resources"@, "vfs"@],
        LootGame::OblivionRemastered => seq![
            "OblivionRemastered"@,
            "Content"@,
            "Dev"@,
            "ObvData"@,
            "Data"@,
        ],
        _ => seq!["Data"@],
    }
}

/// The folders that lead from a game to its plugins.
pub fn game_data_path(kind: LootGame) -> (r: Vec<String>)
    ensures
        r.deep_view() == data_folders(kind),
{
    let mut out: Vec<String> = list::none();
    match kind {
        LootGame::Morrowind => {
            list::put(&mut out, "Data Files".to_string());
        },
        LootGame::OpenMW => {
            list::put(&mut out, "resources".to_string());
            list::put(&mut out, "vfs".to_string());
        },
        LootGame::OblivionRemastered => {
            list::put(&mut out, "OblivionRemastered".to_string());
            list::put(&mut out, "Content".to_string());
            list::put(&mut out, "Dev".to_string());
            list::put(&mut out, "ObvData".to_string());
            list::put(&mut out, "Data".to_string());
        },
        _ => {
            list::put(&mut out, "Data".to_string());
        },
    }
    assert(out.deep_view() =~= data_folders(kind));
    out
}

/// The path in a `gamePath` line of the organizer's settings.
pub open spec fn path_of(line: Seq<char>) -> Option<Seq<char>> {
    match after_prefix(line, "gamePath"@) {
        Some(rest) => {
            let value = trimmed(set_trimmed_start(rest, "= "@));
            let inner = match after_prefix(value, "@ByteArray("@) {
                Some(v) => match before_suffix(v, ")"@) {
                    Some(w) => w,
                    None => value,
                },
                None => value,
            };
            Some(replaced(set_trimmed(inner, "\""@), "\\\\"@, "\\"@))
        },
        None => None,
    }
}

pub open spec fn paths_first(lines: Seq<Seq<char>>, n: int) -> Seq<Seq<char>>
    decreases n,
{
    if n <= 0 {
        Seq::empty()
    } else {
        let before = paths_first(lines, n - 1);
        match path_of(trimmed(lines[n - 1])) {
            Some(p) => before.push(p),
            None => before,
        }
    }
}

fn read_path(line: &str) -> (r: Option<String>)
    ensures
        r.deep_view() == path_of(line@),
{
    match text::strip_prefix(line, "gamePath") {
        Some(rest) => {
            let value = text::trim_start_of(rest.as_str(), "= ");
            let value = text::trim(value.as_str());
            let inner = match text::strip_prefix(value.as_str(), "@ByteArray(") {
                Some(v) => match text::strip_suffix(v.as_str(), ")") {
                    Some(w) => w,
                    None => value,
                },
                None => value,
            };
            let inner = text::trim_of(inner.as_str(), "\"");
            Some(text::replace(inner.as_str(), "\\\\", "\\"))
        },
        None => None,
    }
}

/// The game paths that the organizer's settings name, in their order.
pub fn mo2_game_path(settings: &str) -> (r: Vec<String>)
    ensures
        r.deep_view() == paths_first(lines_of(settings@), lines_of(settings@).len() as int),
{
    let lines = text::lines(settings);
    let ghost lv = lines.deep_view();
    let mut out: Vec<String> = list::none();
    let mut i: usize = 0;
    while i < lines.len()
        invariant
            i <= lines.len(),
            lv == lines.deep_view(),
            out.deep_view() == paths_first(lv, i as int),
        decreases lines.len() - i,
    {
        assert(lv[i as int] == lines@[i as int]@);
        let line = text::trim(lines[i].as_str());
        if let Some(p) = read_path(line.as_str()) {
            list::put(&mut out, p);
        }
        i = i + 1;
    }
    assert(lv.len() == lines.len());
    out
}

/// The game's path, and where it was found.
pub fn choose_game_path(from_loot: Option<String>, from_mo2: Option<String>) -> (r: Result<
    (String, String),
    String,
>)
    ensures
        match (from_loot, from_mo2) {
            (Some(p), _) => r matches Ok((q, s)) && q@ == p@ && s@ == "LOOT settings"@,
            (None, Some(p)) => r matches Ok((q, s)) && q@ == p@ && s@ == "MO2 ModOrganizer.ini"@,
            (None, None) => r matches Err(e) && e@
                == "no usable game install path in LOOT or MO2 - libloot compare skipped"@,
        },
{
    match from_loot {
        Some(p) => Ok((p, "LOOT settings".to_string())),
        None => match from_mo2 {
            Some(p) => Ok((p, "MO2 ModOrganizer.ini".to_string())),
            None => Err(
                "no usable game install path in LOOT or MO2 - libloot compare skipped".to_string(),
            ),
        },
    }
}

// ---- plugin files ----

/// A plugin of a mod as the disk has it.
pub struct OwnedFile {
    pub plugin: String,
    pub path: String,
    /// The folder of the mod.
    pub root: String,
    pub root_exists: bool,
    pub file_exists: bool,
}

#[verifier::ext_equal]
pub struct OwnedView {
    pub plugin: Seq<char>,
    pub path: Seq<char>,
    pub root: Seq<char>,
    pub root_exists: bool,
    pub file_exists: bool,
}

impl DeepView for OwnedFile {
    type V = OwnedView;

    open spec fn deep_view(&self) -> OwnedView {
        OwnedView {
            plugin: self.plugin@,
            path: self.path@,
            root: self.root@,
            root_exists: self.root_exists,
            file_exists: self.file_exists,
        }
    }
}

pub type Files = Seq<(Seq<char>, Seq<char>)>;

/// The plugins among the first `n` files of the game, by name.
pub open spec fn game_files(files: Files, n: int) -> Files
    decreases n,
{
    if n <= 0 {
        Seq::empty()
    } else {
        let before = game_files(files, n - 1);
        if plugins::is_plugin_name(files[n - 1].0) {
            inserted(before, ascii_lowered(files[n - 1].0), files[n - 1].1)
        } else {
            before
        }
    }
}

/// The files once those of the first `n` mods are laid over them: a later mod wins.
pub open spec fn laid_over(files: Files, owners: Seq<OwnedView>, n: int) -> Files
    decreases n,
{
    if n <= 0 {
        files
    } else {
        let before = laid_over(files, owners, n - 1);
        let o = owners[n - 1];
        if o.root_exists && o.file_exists {
            inserted(before, ascii_lowered(o.plugin), o.path)
        } else {
            before
        }
    }
}

/// The folders of the first `n` mods, each once.
pub open spec fn roots_first(owners: Seq<OwnedView>, n: int) -> Seq<Seq<char>>
    decreases n,
{
    if n <= 0 {
        Seq::empty()
    } else {
        let before = roots_first(owners, n - 1);
        if owners[n - 1].root_exists {
            with_item(before, owners[n - 1].root)
        } else {
            before
        }
    }
}

pub struct Ordered {
    pub paths: Seq<Seq<char>>,
    pub seen: Seq<Seq<char>>,
}

/// The files of the first `n` plugins of the load order, each once.
pub open spec fn ordered_first(files: Files, order: Seq<Seq<char>>, n: int) -> Ordered
    decreases n,
{
    if n <= 0 {
        Ordered { paths: Seq::empty(), seen: Seq::empty() }
    } else {
        let before = ordered_first(files, order, n - 1);
        let key = ascii_lowered(order[n - 1]);
        match found(files, key) {
            Some(path) => if before.seen.contains(key) {
                before
            } else {
                Ordered { paths: before.paths.push(path), seen: before.seen.push(key) }
            },
            None => before,
        }
    }
}

/// The files of the active plugins in load order, and the folders that hold mods.
pub fn plugin_paths(
    data_files: &Vec<(String, String)>,
    owners: &Vec<OwnedFile>,
    current_order: &Vec<String>,
) -> (r: (Vec<String>, Vec<String>))
    ensures
        ({
            let files = laid_over(
                game_files(data_files.deep_view(), data_files.len() as int),
                owners.deep_view(),
                owners.len() as int,
            );
            &&& r.0.deep_view() == ordered_first(
                files,
                current_order.deep_view(),
                current_order.len() as int,
            ).paths
            &&& r.1.deep_view() == roots_first(owners.deep_view(), owners.len() as int)
        }),
{
    let ghost dv = data_files.deep_view();
    let ghost ov = owners.deep_view();
    let ghost cv = current_order.deep_view();
    let mut files: TextMap<String> = TextMap::new();
    let mut i: usize = 0;
    while i < data_files.len()
        invariant
            i <= data_files.len(),
            dv == data_files.deep_view(),
            files.deep_view() == game_files(dv, i as int),
        decreases data_files.len() - i,
    {
        let f = &data_files[i];
        assert(dv[i as int] == f.deep_view());
        if plugins::plugin_name(f.0.as_str()) {
            files.insert(text::ascii_lower(f.0.as_str()), f.1.clone());
        }
        i = i + 1;
    }
    let ghost base = files.deep_view();
    let mut roots: Vec<String> = list::none();
    let mut i: usize = 0;
    while i < owners.len()
        invariant
            i <= owners.len(),
            ov == owners.deep_view(),
            files.deep_view() == laid_over(base, ov, i as int),
            roots.deep_view() == roots_first(ov, i as int),
        decreases owners.len() - i,
    {
        let o = &owners[i];
        assert(ov[i as int] == o.deep_view());
        if o.root_exists {
            keys::add_item(&mut roots, o.root.clone());
            if o.file_exists {
                files.insert(text::ascii_lower(o.plugin.as_str()), o.path.clone());
            }
        }
        i = i + 1;
    }
    let ghost all = files.deep_view();
    let mut paths: Vec<String> = list::none();
    let mut seen: Vec<String> = list::none();
    let mut i: usize = 0;
    while i < current_order.len()
        invariant
            i <= current_order.len(),
            cv == current_order.deep_view(),
            all == files.deep_view(),
            ordered_first(all, cv, i as int) == (Ordered {
                paths: paths.deep_view(),
                seen: seen.deep_view(),
            }),
        decreases current_order.len() - i,
    {
        assert(cv[i as int] == current_order@[i as int]@);
        let key = text::ascii_lower(current_order[i].as_str());
        if let Some(path) = files.get(key.as_str()) {
            if !list::holds(&seen, key.as_str()) {
                list::put(&mut paths, path.clone());
                list::put(&mut seen, key);
            }
        }
        i = i + 1;
    }
    (paths, roots)
}

// ---- what the sort shows ----

/// The hexadecimal digits of `n` in upper case, without leading zeros.
pub open spec fn upper_digits(n: nat) -> Seq<char>
    decreases n,
{
    if n < 16 {
        seq![upper_digit(n as int)]
    } else {
        upper_digits(n / 16).push(upper_digit((n % 16) as int))
    }
}

fn upper_hex(n: usize) -> (r: String)
    ensures
        r@ == upper_digits(n as nat),
    decreases n,
{
    if n < 16 {
        let mut r = String::new();
        r.push(text::digit_char(n as u8, true));
        assert(r@ =~= seq![upper_digit(n as int)]);
        r
    } else {
        let mut r = upper_hex(n / 16);
        r.push(text::digit_char((n % 16) as u8, true));
        r
    }
}

pub struct Indexed {
    pub indexes: Seq<(Seq<char>, Seq<char>)>,
    pub full: nat,
    pub light: nat,
}

/// The load indexes of the first `n` plugins; light ones are counted by themselves.
pub open spec fn indexed_first(sorted: Seq<Seq<char>>, light: Seq<Seq<char>>, n: int) -> Indexed
    decreases n,
{
    if n <= 0 {
        Indexed { indexes: Seq::empty(), full: 0, light: 0 }
    } else {
        let before = indexed_first(sorted, light, n - 1);
        let key = ascii_lowered(sorted[n - 1]);
        if light.contains(key) {
            Indexed {
                indexes: inserted(
                    before.indexes,
                    key,
                    "FE "@ + zero_padded(upper_digits(before.light), 3),
                ),
                light: before.light + 1,
                ..before
            }
        } else {
            Indexed {
                indexes: inserted(before.indexes, key, zero_padded(upper_digits(before.full), 2)),
                full: before.full + 1,
                ..before
            }
        }
    }
}

/// The load index of each plugin. `light` holds the light plugins in lower case.
pub fn plugin_indexes(sorted: &Vec<String>, light: &Vec<String>) -> (r: TextMap<String>)
    ensures
        r.deep_view() == indexed_first(
            sorted.deep_view(),
            light.deep_view(),
            sorted.len() as int,
        ).indexes,
{
    let ghost sv = sorted.deep_view();
    let ghost lv = light.deep_view();
    let mut out: TextMap<String> = TextMap::new();
    let mut full: usize = 0;
    let mut small: usize = 0;
    let mut i: usize = 0;
    while i < sorted.len()
        invariant
            i <= sorted.len(),
            sv == sorted.deep_view(),
            lv == light.deep_view(),
            full + small == i,
            indexed_first(sv, lv, i as int) == (Indexed {
                indexes: out.deep_view(),
                full: full as nat,
                light: small as nat,
            }),
        decreases sorted.len() - i,
    {
        assert(sv[i as int] == sorted@[i as int]@);
        let key = text::ascii_lower(sorted[i].as_str());
        if list::holds(light, key.as_str()) {
            let n = text::zero_pad(upper_hex(small), 3);
            out.insert(key, text::cat("FE ", n.as_str()));
            small = small + 1;
        } else {
            let n = text::zero_pad(upper_hex(full), 2);
            out.insert(key, n);
            full = full + 1;
        }
        i = i + 1;
    }
    out
}

/// How many of the first `n` places hold another plugin than before.
pub open spec fn moved_first(a: Seq<Seq<char>>, b: Seq<Seq<char>>, n: int) -> nat
    decreases n,
{
    if n <= 0 {
        0
    } else {
        moved_first(a, b, n - 1) + (if ascii_lowered(a[n - 1]) != ascii_lowered(b[n - 1]) {
            1nat
        } else {
            0
        })
    }
}

/// How many places hold another plugin than before.
pub fn changed_positions(input: &Vec<String>, sorted: &Vec<String>) -> (r: usize)
    ensures
        r == moved_first(
            input.deep_view(),
            sorted.deep_view(),
            if input.len() <= sorted.len() {
                input.len() as int
            } else {
                sorted.len() as int
            },
        ),
{
    let ghost a = input.deep_view();
    let ghost b = sorted.deep_view();
    let mut n: usize = 0;
    let mut i: usize = 0;
    while i < input.len() && i < sorted.len()
        invariant
            n <= i <= input.len(),
            i <= sorted.len(),
            a == input.deep_view(),
            b == sorted.deep_view(),
            n == moved_first(a, b, i as int),
        decreases input.len() - i,
    {
        assert(a[i as int] == input@[i as int]@ && b[i as int] == sorted@[i as int]@);
        if !text::same_ignoring_case(input[i].as_str(), sorted[i].as_str()) {
            n = n + 1;
        }
        i = i + 1;
    }
    n
}

// ---- tags ----

/// The tags of one plugin: those of its header, and those that the masterlist would add
/// or remove.
pub struct PluginTags {
    pub mod_name: String,
    pub header: Vec<String>,
    pub suggested: Vec<(bool, String)>,
}

#[verifier::ext_equal]
pub struct TagsView {
    pub mod_name: Seq<char>,
    pub header: Seq<Seq<char>>,
    pub suggested: Seq<(bool, Seq<char>)>,
}

impl DeepView for PluginTags {
    type V = TagsView;

    open spec fn deep_view(&self) -> TagsView {
        TagsView {
            mod_name: self.mod_name@,
            header: self.header.deep_view(),
            suggested: self.suggested.deep_view(),
        }
    }
}

pub open spec fn tag_texts(t: TagsView) -> Seq<Seq<char>> {
    Seq::new(t.header.len(), |i: int| "Header: "@ + t.header[i]) + Seq::new(
        t.suggested.len(),
        |i: int|
            (if t.suggested[i].0 {
                "Add"@
            } else {
                "Remove"@
            }) + " "@ + t.suggested[i].1,
    )
}

pub open spec fn in_order_once(s: Seq<Seq<char>>) -> Seq<Seq<char>> {
    deduped(sorted::<String>(s))
}

pub open spec fn tags_or_none(t: Option<Seq<Seq<char>>>) -> Seq<Seq<char>> {
    match t {
        Some(s) => s,
        None => Seq::empty(),
    }
}

/// The tags of the first `n` plugins, by mod.
pub open spec fn tags_first(rows: Seq<TagsView>, n: int) -> Seq<(Seq<char>, Seq<Seq<char>>)>
    decreases n,
{
    if n <= 0 {
        Seq::empty()
    } else {
        let before = tags_first(rows, n - 1);
        let r = rows[n - 1];
        let tags = in_order_once(tag_texts(r));
        if tags.len() == 0 {
            before
        } else {
            inserted(before, r.mod_name, tags_or_none(found(before, r.mod_name)) + tags)
        }
    }
}

/// The first `n` entries with their tags in order, each once.
pub open spec fn ordered_tags(m: Seq<(Seq<char>, Seq<Seq<char>>)>, n: int) -> Seq<
    (Seq<char>, Seq<Seq<char>>),
>
    decreases n,
{
    if n <= 0 {
        Seq::empty()
    } else {
        inserted(ordered_tags(m, n - 1), m[n - 1].0, in_order_once(m[n - 1].1))
    }
}

pub(crate) fn put_in_order(v: Vec<String>) -> (r: Vec<String>)
    ensures
        r.deep_view() == in_order_once(v.deep_view()),
{
    let s = sort::sort(v);
    sort::dedup(&s)
}

fn show_tags(t: &PluginTags) -> (r: Vec<String>)
    ensures
        r.deep_view() == tag_texts(t.deep_view()),
{
    let ghost tv = t.deep_view();
    let ghost all = tag_texts(tv);
    let mut out: Vec<String> = list::none();
    let mut i: usize = 0;
    assert(all.take(0) =~= Seq::<Seq<char>>::empty());
    while i < t.header.len()
        invariant
            i <= t.header.len() == tv.header.len(),
            tv == t.deep_view(),
            all == tag_texts(tv),
            out.deep_view() == all.take(i as int),
        decreases t.header.len() - i,
    {
        assert(tv.header[i as int] == t.header@[i as int]@);
        list::put(&mut out, text::cat("Header: ", t.header[i].as_str()));
        i = i + 1;
        assert(out.deep_view() =~= all.take(i as int));
    }
    let mut k: usize = 0;
    while k < t.suggested.len()
        invariant
            k <= t.suggested.len() == tv.suggested.len(),
            tv == t.deep_view(),
            all == tag_texts(tv),
            out.deep_view() == all.take(tv.header.len() + k),
        decreases t.suggested.len() - k,
    {
        let s = &t.suggested[k];
        assert(tv.suggested[k as int] == s.deep_view());
        list::put(
            &mut out,
            text::cat3(
                if s.0 {
                    "Add"
                } else {
                    "Remove"
                },
                " ",
                s.1.as_str(),
            ),
        );
        k = k + 1;
        assert(out.deep_view() =~= all.take(tv.header.len() + k));
    }
    assert(all.take(tv.header.len() + k) =~= all);
    out
}

/// The tags of each mod's plugins, in order and each once.
pub fn bash_tags_by_owner(rows: &Vec<PluginTags>) -> (r: TextMap<Vec<String>>)
    ensures
        ({
            let m = tags_first(rows.deep_view(), rows.len() as int);
            r.deep_view() == ordered_tags(m, m.len() as int)
        }),
{
    let ghost rv = rows.deep_view();
    let mut m: TextMap<Vec<String>> = TextMap::new();
    let mut i: usize = 0;
    while i < rows.len()
        invariant
            i <= rows.len(),
            rv == rows.deep_view(),
            m.deep_view() == tags_first(rv, i as int),
        decreases rows.len() - i,
    {
        let row = &rows[i];
        assert(rv[i as int] == row.deep_view());
        let tags = put_in_order(show_tags(row));
        assert(tags.deep_view().len() == tags.len());
        if tags.len() > 0 {
            let mut here = match m.get(row.mod_name.as_str()) {
                Some(v) => list::copy(v),
                None => list::none(),
            };
            list::put_all(&mut here, tags);
            m.insert(row.mod_name.clone(), here);
        }
        i = i + 1;
    }
    let ghost mv = m.deep_view();
    let mut out: TextMap<Vec<String>> = TextMap::new();
    let mut i: usize = 0;
    while i < m.len()
        invariant
            i <= mv.len(),
            mv == m.deep_view(),
            out.deep_view() == ordered_tags(mv, i as int),
        decreases mv.len() - i,
    {
        let e = m.at(i);
        out.insert(e.0.clone(), put_in_order(list::copy(&e.1)));
        i = i + 1;
    }
    out
}

/// What libloot says of a profile.
pub struct Comparison {
    pub game_name: String,
    pub game_path_source: String,
    pub plugin_count: usize,
    pub active_full_plugins: usize,
    pub active_light_plugins: usize,
    pub dirty_plugins: usize,
    pub warning_count: usize,
    pub error_count: usize,
    pub total_messages: usize,
    pub general_messages: Vec<LootMessage>,
    pub bash_tags_by_owner: TextMap<Vec<String>>,
    pub plugin_indexes: TextMap<String>,
    pub changed_positions: usize,
    pub masterlist: String,
    pub masterlist_status: MasterlistStatus,
    /// The solved plugin order, in lower case.
    pub sorted_plugins: Vec<String>,
    pub plugin_masters: TextMap<Vec<String>>,
    pub separator_groups: usize,
    pub separator_memberships: usize,
    pub retained_loot_groups: usize,
}

} // verus!
