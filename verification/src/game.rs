//! The games that the sorter knows: their root masters, and how the load-order
//! tool names them.
use vstd::prelude::*;
use crate::text;
#[allow(unused_imports)]
use crate::text::{ascii_lowered, begins, lower_char};

verus! {

#[derive(Clone, Copy, PartialEq, Eq, Debug, Structural)]
pub enum Game {
    Oblivion,
    OblivionRemastered,
    Skyrim,
    SkyrimSe,
    SkyrimVr,
    Enderal,
    Fallout3,
    FalloutNv,
    Fallout4,
    Fallout4Vr,
    Morrowind,
    OpenMw,
    Starfield,
    Unknown,
}

#[derive(Clone, Copy, Debug)]
pub struct GameInfo {
    pub game: Game,
    pub name: &'static str,
    /// Root masters, in lower case: they never count as parents.
    pub base_masters: &'static [&'static str],
    /// Folder names, most preferred first.
    pub loot_folders: &'static [&'static str],
    /// `type` values in the tool's settings.
    pub loot_types: &'static [&'static str],
    pub loot_scan_key: &'static str,
}

#[verifier::ext_equal]
pub struct GameInfoView {
    pub game: Game,
    pub name: Seq<char>,
    pub base_masters: Seq<Seq<char>>,
    pub loot_folders: Seq<Seq<char>>,
    pub loot_types: Seq<Seq<char>>,
    pub loot_scan_key: Seq<char>,
}

impl DeepView for GameInfo {
    type V = GameInfoView;

    open spec fn deep_view(&self) -> GameInfoView {
        GameInfoView {
            game: self.game,
            name: self.name@,
            base_masters: self.base_masters.deep_view(),
            loot_folders: self.loot_folders.deep_view(),
            loot_types: self.loot_types.deep_view(),
            loot_scan_key: self.loot_scan_key@,
        }
    }
}

pub const CATALOG: [Game; 13] = [
    Game::Oblivion,
    Game::OblivionRemastered,
    Game::Skyrim,
    Game::SkyrimSe,
    Game::SkyrimVr,
    Game::Enderal,
    Game::Fallout3,
    Game::FalloutNv,
    Game::Fallout4,
    Game::Fallout4Vr,
    Game::Morrowind,
    Game::OpenMw,
    Game::Starfield,
];

/// The game whose entry describes `game`: an unknown game counts as Skyrim Special
/// Edition.
pub open spec fn listed(game: Game) -> Game {
    if game == Game::Unknown {
        Game::SkyrimSe
    } else {
        game
    }
}

pub open spec fn info_of(game: Game) -> GameInfoView {
    match listed(game) {
        Game::Oblivion => GameInfoView {
            game: Game::Oblivion,
            name: "The Elder Scrolls IV: Oblivion"@,
            base_masters: seq!["oblivion.esm"@, "knights.esp"@],
            loot_folders: seq!["Oblivion"@],
            loot_types: seq!["Oblivion"@],
            loot_scan_key: "oblivion"@,
        },
        Game::OblivionRemastered => GameInfoView {
            game: Game::OblivionRemastered,
            name: "The Elder Scrolls IV: Oblivion Remastered"@,
            base_masters: seq!["oblivion.esm"@, "knights.esp"@],
            loot_folders: seq!["Oblivion Remastered"@],
            loot_types: seq!["OblivionRemastered"@],
            loot_scan_key: "oblivionremastered"@,
        },
        Game::Skyrim => GameInfoView {
            game: Game::Skyrim,
            name: "The Elder Scrolls V: Skyrim"@,
            base_masters: seq!["skyrim.esm"@, "update.esm"@, "dawnguard.esm"@, "hearthfires.esm"@, "dragonborn.esm"@],
            loot_folders: seq!["Skyrim"@],
            loot_types: seq!["Skyrim"@],
            loot_scan_key: "skyrim"@,
        },
        Game::SkyrimSe => GameInfoView {
            game: Game::SkyrimSe,
            name: "The Elder Scrolls V: Skyrim Special Edition"@,
            base_masters: seq!["skyrim.esm"@, "update.esm"@, "dawnguard.esm"@, "hearthfires.esm"@, "dragonborn.esm"@],
            loot_folders: seq!["Skyrim Special Edition"@],
            loot_types: seq!["SkyrimSE"@],
            loot_scan_key: "skyrimse"@,
        },
        Game::SkyrimVr => GameInfoView {
            game: Game::SkyrimVr,
            name: "The Elder Scrolls V: Skyrim VR"@,
            base_masters: seq!["skyrimvr.esm"@, "update.esm"@, "dawnguard.esm"@, "hearthfires.esm"@, "dragonborn.esm"@],
            loot_folders: seq!["Skyrim VR"@],
            loot_types: seq!["SkyrimVR"@],
            loot_scan_key: "skyrimvr"@,
        },
        Game::Enderal => GameInfoView {
            game: Game::Enderal,
            name: "Enderal"@,
            base_masters: seq!["skyrim.esm"@, "update.esm"@, "enderal - forgotten stories.esm"@, "enderal - forgotten stories (special edition).esm"@],
            loot_folders: seq!["Enderal Special Edition"@, "Enderal"@],
            loot_types: seq!["Enderal"@, "EnderalSE"@],
            loot_scan_key: "enderal"@,
        },
        Game::Fallout3 => GameInfoView {
            game: Game::Fallout3,
            name: "Fallout 3"@,
            base_masters: seq!["fallout3.esm"@],
            loot_folders: seq!["Fallout3"@],
            loot_types: seq!["Fallout3"@],
            loot_scan_key: "fallout3"@,
        },
        Game::FalloutNv => GameInfoView {
            game: Game::FalloutNv,
            name: "Fallout: New Vegas"@,
            base_masters: seq!["falloutnv.esm"@, "deadmoney.esm"@, "honesthearts.esm"@, "oldworldblues.esm"@, "lonesomeroad.esm"@, "gunrunnersarsenal.esm"@],
            loot_folders: seq!["FalloutNV"@],
            loot_types: seq!["FalloutNV"@],
            loot_scan_key: "falloutnv"@,
        },
        Game::Fallout4 => GameInfoView {
            game: Game::Fallout4,
            name: "Fallout 4"@,
            base_masters: seq!["fallout4.esm"@, "dlcrobot.esm"@, "dlcworkshop01.esm"@, "dlccoast.esm"@, "dlcworkshop02.esm"@, "dlcworkshop03.esm"@, "dlcnukaworld.esm"@],
            loot_folders: seq!["Fallout4"@],
            loot_types: seq!["Fallout4"@],
            loot_scan_key: "fallout4"@,
        },
        Game::Fallout4Vr => GameInfoView {
            game: Game::Fallout4Vr,
            name: "Fallout 4 VR"@,
            base_masters: seq!["fallout4vr.esm"@, "dlcrobot.esm"@, "dlcworkshop01.esm"@, "dlccoast.esm"@, "dlcworkshop02.esm"@, "dlcworkshop03.esm"@, "dlcnukaworld.esm"@],
            loot_folders: seq!["Fallout4VR"@],
            loot_types: seq!["Fallout4VR"@],
            loot_scan_key: "fallout4vr"@,
        },
        Game::Morrowind => GameInfoView {
            game: Game::Morrowind,
            name: "The Elder Scrolls III: Morrowind"@,
            base_masters: seq!["morrowind.esm"@, "tribunal.esm"@, "bloodmoon.esm"@],
            loot_folders: seq!["Morrowind"@],
            loot_types: seq!["Morrowind"@],
            loot_scan_key: "morrowind"@,
        },
        Game::OpenMw => GameInfoView {
            game: Game::OpenMw,
            name: "OpenMW"@,
            base_masters: seq!["morrowind.esm"@, "tribunal.esm"@, "bloodmoon.esm"@],
            loot_folders: seq!["OpenMW"@],
            loot_types: seq!["OpenMW"@],
            loot_scan_key: "openmw"@,
        },
        Game::Starfield => GameInfoView {
            game: Game::Starfield,
            name: "Starfield"@,
            base_masters: seq!["starfield.esm"@, "blueprintships-starfield.esm"@, "sfbgs003.esm"@, "sfbgs004.esm"@],
            loot_folders: seq!["Starfield"@],
            loot_types: seq!["Starfield"@],
            loot_scan_key: "starfield"@,
        },
        Game::Unknown => GameInfoView {
            game: Game::SkyrimSe,
            name: "The Elder Scrolls V: Skyrim Special Edition"@,
            base_masters: seq!["skyrim.esm"@, "update.esm"@, "dawnguard.esm"@, "hearthfires.esm"@, "dragonborn.esm"@],
            loot_folders: seq!["Skyrim Special Edition"@],
            loot_types: seq!["SkyrimSE"@],
            loot_scan_key: "skyrimse"@,
        },
    }
}

fn entry(
    game: Game,
    name: &'static str,
    base_masters: &'static [&'static str],
    loot_folders: &'static [&'static str],
    loot_types: &'static [&'static str],
    loot_scan_key: &'static str,
) -> (r: GameInfo)
    ensures
        r.deep_view() == (GameInfoView {
            game,
            name: name@,
            base_masters: base_masters.deep_view(),
            loot_folders: loot_folders.deep_view(),
            loot_types: loot_types.deep_view(),
            loot_scan_key: loot_scan_key@,
        }),
{
    GameInfo { game, name, base_masters, loot_folders, loot_types, loot_scan_key }
}

pub fn info(game: Game) -> (r: GameInfo)
    ensures
        r.deep_view() == info_of(game),
{
    match game {
        Game::Oblivion => {
            let masters: &'static [&'static str] = &["oblivion.esm", "knights.esp"];
            let folders: &'static [&'static str] = &["Oblivion"];
            let types: &'static [&'static str] = &["Oblivion"];
            assert(masters.deep_view() =~= info_of(game).base_masters);
            assert(folders.deep_view() =~= info_of(game).loot_folders);
            assert(types.deep_view() =~= info_of(game).loot_types);
            entry(Game::Oblivion, "The Elder Scrolls IV: Oblivion", masters, folders, types, "oblivion")
        },
        Game::OblivionRemastered => {
            let masters: &'static [&'static str] = &["oblivion.esm", "knights.esp"];
            let folders: &'static [&'static str] = &["Oblivion Remastered"];
            let types: &'static [&'static str] = &["OblivionRemastered"];
            assert(masters.deep_view() =~= info_of(game).base_masters);
            assert(folders.deep_view() =~= info_of(game).loot_folders);
            assert(types.deep_view() =~= info_of(game).loot_types);
            entry(Game::OblivionRemastered, "The Elder Scrolls IV: Oblivion Remastered", masters, folders, types, "oblivionremastered")
        },
        Game::Skyrim => {
            let masters: &'static [&'static str] = &["skyrim.esm", "update.esm", "dawnguard.esm", "hearthfires.esm", "dragonborn.esm"];
            let folders: &'static [&'static str] = &["Skyrim"];
            let types: &'static [&'static str] = &["Skyrim"];
            assert(masters.deep_view() =~= info_of(game).base_masters);
            assert(folders.deep_view() =~= info_of(game).loot_folders);
            assert(types.deep_view() =~= info_of(game).loot_types);
            entry(Game::Skyrim, "The Elder Scrolls V: Skyrim", masters, folders, types, "skyrim")
        },
        Game::SkyrimVr => {
            let masters: &'static [&'static str] = &["skyrimvr.esm", "update.esm", "dawnguard.esm", "hearthfires.esm", "dragonborn.esm"];
            let folders: &'static [&'static str] = &["Skyrim VR"];
            let types: &'static [&'static str] = &["SkyrimVR"];
            assert(masters.deep_view() =~= info_of(game).base_masters);
            assert(folders.deep_view() =~= info_of(game).loot_folders);
            assert(types.deep_view() =~= info_of(game).loot_types);
            entry(Game::SkyrimVr, "The Elder Scrolls V: Skyrim VR", masters, folders, types, "skyrimvr")
        },
        Game::Enderal => {
            let masters: &'static [&'static str] = &["skyrim.esm", "update.esm", "enderal - forgotten stories.esm", "enderal - forgotten stories (special edition).esm"];
            let folders: &'static [&'static str] = &["Enderal Special Edition", "Enderal"];
            let types: &'static [&'static str] = &["Enderal", "EnderalSE"];
            assert(masters.deep_view() =~= info_of(game).base_masters);
            assert(folders.deep_view() =~= info_of(game).loot_folders);
            assert(types.deep_view() =~= info_of(game).loot_types);
            entry(Game::Enderal, "Enderal", masters, folders, types, "enderal")
        },
        Game::Fallout3 => {
            let masters: &'static [&'static str] = &["fallout3.esm"];
            let folders: &'static [&'static str] = &["Fallout3"];
            let types: &'static [&'static str] = &["Fallout3"];
            assert(masters.deep_view() =~= info_of(game).base_masters);
            assert(folders.deep_view() =~= info_of(game).loot_folders);
            assert(types.deep_view() =~= info_of(game).loot_types);
            entry(Game::Fallout3, "Fallout 3", masters, folders, types, "fallout3")
        },
        Game::FalloutNv => {
            let masters: &'static [&'static str] = &["falloutnv.esm", "deadmoney.esm", "honesthearts.esm", "oldworldblues.esm", "lonesomeroad.esm", "gunrunnersarsenal.esm"];
            let folders: &'static [&'static str] = &["FalloutNV"];
            let types: &'static [&'static str] = &["FalloutNV"];
            assert(masters.deep_view() =~= info_of(game).base_masters);
            assert(folders.deep_view() =~= info_of(game).loot_folders);
            assert(types.deep_view() =~= info_of(game).loot_types);
            entry(Game::FalloutNv, "Fallout: New Vegas", masters, folders, types, "falloutnv")
        },
        Game::Fallout4 => {
            let masters: &'static [&'static str] = &["fallout4.esm", "dlcrobot.esm", "dlcworkshop01.esm", "dlccoast.esm", "dlcworkshop02.esm", "dlcworkshop03.esm", "dlcnukaworld.esm"];
            let folders: &'static [&'static str] = &["Fallout4"];
            let types: &'static [&'static str] = &["Fallout4"];
            assert(masters.deep_view() =~= info_of(game).base_masters);
            assert(folders.deep_view() =~= info_of(game).loot_folders);
            assert(types.deep_view() =~= info_of(game).loot_types);
            entry(Game::Fallout4, "Fallout 4", masters, folders, types, "fallout4")
        },
        Game::Fallout4Vr => {
            let masters: &'static [&'static str] = &["fallout4vr.esm", "dlcrobot.esm", "dlcworkshop01.esm", "dlccoast.esm", "dlcworkshop02.esm", "dlcworkshop03.esm", "dlcnukaworld.esm"];
            let folders: &'static [&'static str] = &["Fallout4VR"];
            let types: &'static [&'static str] = &["Fallout4VR"];
            assert(masters.deep_view() =~= info_of(game).base_masters);
            assert(folders.deep_view() =~= info_of(game).loot_folders);
            assert(types.deep_view() =~= info_of(game).loot_types);
            entry(Game::Fallout4Vr, "Fallout 4 VR", masters, folders, types, "fallout4vr")
        },
        Game::Morrowind => {
            let masters: &'static [&'static str] = &["morrowind.esm", "tribunal.esm", "bloodmoon.esm"];
            let folders: &'static [&'static str] = &["Morrowind"];
            let types: &'static [&'static str] = &["Morrowind"];
            assert(masters.deep_view() =~= info_of(game).base_masters);
            assert(folders.deep_view() =~= info_of(game).loot_folders);
            assert(types.deep_view() =~= info_of(game).loot_types);
            entry(Game::Morrowind, "The Elder Scrolls III: Morrowind", masters, folders, types, "morrowind")
        },
        Game::OpenMw => {
            let masters: &'static [&'static str] = &["morrowind.esm", "tribunal.esm", "bloodmoon.esm"];
            let folders: &'static [&'static str] = &["OpenMW"];
            let types: &'static [&'static str] = &["OpenMW"];
            assert(masters.deep_view() =~= info_of(game).base_masters);
            assert(folders.deep_view() =~= info_of(game).loot_folders);
            assert(types.deep_view() =~= info_of(game).loot_types);
            entry(Game::OpenMw, "OpenMW", masters, folders, types, "openmw")
        },
        Game::Starfield => {
            let masters: &'static [&'static str] = &["starfield.esm", "blueprintships-starfield.esm", "sfbgs003.esm", "sfbgs004.esm"];
            let folders: &'static [&'static str] = &["Starfield"];
            let types: &'static [&'static str] = &["Starfield"];
            assert(masters.deep_view() =~= info_of(game).base_masters);
            assert(folders.deep_view() =~= info_of(game).loot_folders);
            assert(types.deep_view() =~= info_of(game).loot_types);
            entry(Game::Starfield, "Starfield", masters, folders, types, "starfield")
        },
        Game::SkyrimSe | Game::Unknown => {
            let masters: &'static [&'static str] = &["skyrim.esm", "update.esm", "dawnguard.esm", "hearthfires.esm", "dragonborn.esm"];
            let folders: &'static [&'static str] = &["Skyrim Special Edition"];
            let types: &'static [&'static str] = &["SkyrimSE"];
            assert(masters.deep_view() =~= info_of(game).base_masters);
            assert(folders.deep_view() =~= info_of(game).loot_folders);
            assert(types.deep_view() =~= info_of(game).loot_types);
            entry(Game::SkyrimSe, "The Elder Scrolls V: Skyrim Special Edition", masters, folders, types, "skyrimse")
        },
    }
}

/// The name under which a choice of game is stored.
pub open spec fn key_of(game: Game) -> Seq<char> {
    if game == Game::Unknown {
        "auto"@
    } else {
        info_of(game).loot_types[0]
    }
}

pub fn key(game: Game) -> (r: &'static str)
    ensures
        r@ == key_of(game),
{
    if game == Game::Unknown {
        return "auto";
    }
    let i = info(game);
    assert(i.loot_types.deep_view() == info_of(game).loot_types);
    assert(i.loot_types.deep_view().len() > 0);
    assert(i.loot_types.deep_view()[0] == i.loot_types@[0]@);
    i.loot_types[0]
}

/// The first game of the catalog from index `i` on that is stored under `value`,
/// whatever its case.
pub open spec fn keyed_from(value: Seq<char>, i: int) -> Option<Game>
    decreases 13 - i,
{
    if i < 0 || i >= 13 {
        None
    } else if ascii_lowered(key_of(CATALOG@[i])) == ascii_lowered(value) {
        Some(CATALOG@[i])
    } else {
        keyed_from(value, i + 1)
    }
}

/// The game stored under `value`; `auto` names none.
pub open spec fn keyed(value: Seq<char>) -> Option<Game> {
    if ascii_lowered(value) == ascii_lowered("auto"@) {
        None
    } else {
        keyed_from(value, 0)
    }
}

pub fn from_key(value: &str) -> (r: Option<Game>)
    ensures
        r == keyed(value@),
{
    if text::same_ignoring_case(value, "auto") {
        return None;
    }
    let mut i: usize = 0;
    while i < 13
        invariant
            i <= 13,
            keyed_from(value@, i as int) == keyed_from(value@, 0),
            ascii_lowered(value@) != ascii_lowered("auto"@),
        decreases 13 - i,
    {
        let game = CATALOG[i];
        if text::same_ignoring_case(key(game), value) {
            return Some(game);
        }
        i = i + 1;
    }
    None
}

/// Whether a plugin of that name is there, whatever its case.
pub open spec fn present(plugins: Seq<Seq<char>>, name: Seq<char>) -> bool {
    exists|i: int| 0 <= i < plugins.len() && ascii_lowered(#[trigger] plugins[i]) == ascii_lowered(name)
}

pub open spec fn enderal_present(plugins: Seq<Seq<char>>) -> bool {
    exists|i: int| 0 <= i < plugins.len() && begins(ascii_lowered(#[trigger] plugins[i]), "enderal"@)
}

/// The game that the root masters among the plugins show.
pub open spec fn detected(plugins: Seq<Seq<char>>) -> Game {
    if present(plugins, "skyrimvr.esm"@) {
        Game::SkyrimVr
    } else if present(plugins, "skyrim.esm"@) {
        if enderal_present(plugins) {
            Game::Enderal
        } else {
            Game::SkyrimSe
        }
    } else if present(plugins, "fallout4vr.esm"@) {
        Game::Fallout4Vr
    } else if present(plugins, "fallout4.esm"@) {
        Game::Fallout4
    } else if present(plugins, "starfield.esm"@) {
        Game::Starfield
    } else if present(plugins, "morrowind.esm"@) {
        Game::Morrowind
    } else if present(plugins, "oblivion.esm"@) {
        Game::Oblivion
    } else if present(plugins, "falloutnv.esm"@) {
        Game::FalloutNv
    } else if present(plugins, "fallout3.esm"@) {
        Game::Fallout3
    } else {
        Game::Unknown
    }
}

fn has_plugin(plugins: &[String], name: &str) -> (r: bool)
    ensures
        r == present(plugins.deep_view(), name@),
{
    let mut i: usize = 0;
    while i < plugins.len()
        invariant
            i <= plugins.len(),
            forall|j: int|
                0 <= j < i ==> ascii_lowered(#[trigger] plugins.deep_view()[j]) != ascii_lowered(name@),
        decreases plugins.len() - i,
    {
        assert(plugins.deep_view()[i as int] == plugins@[i as int]@);
        if text::same_ignoring_case(plugins[i].as_str(), name) {
            return true;
        }
        i = i + 1;
    }
    false
}

fn has_enderal(plugins: &[String]) -> (r: bool)
    ensures
        r == enderal_present(plugins.deep_view()),
{
    let mut i: usize = 0;
    while i < plugins.len()
        invariant
            i <= plugins.len(),
            forall|j: int|
                0 <= j < i ==> !begins(ascii_lowered(#[trigger] plugins.deep_view()[j]), "enderal"@),
        decreases plugins.len() - i,
    {
        assert(plugins.deep_view()[i as int] == plugins@[i as int]@);
        let lower = text::ascii_lower(plugins[i].as_str());
        if text::starts_with(lower.as_str(), "enderal") {
            return true;
        }
        i = i + 1;
    }
    false
}

/// Root masters tell the games apart, but for classic Skyrim and its special
/// edition, and for Oblivion and its remaster.
pub fn detect_from_plugins(plugins: &[String]) -> (r: Game)
    ensures
        r == detected(plugins.deep_view()),
{
    if has_plugin(plugins, "skyrimvr.esm") {
        return Game::SkyrimVr;
    }
    if has_plugin(plugins, "skyrim.esm") {
        if has_enderal(plugins) {
            return Game::Enderal;
        }
        return Game::SkyrimSe;
    }
    if has_plugin(plugins, "fallout4vr.esm") {
        return Game::Fallout4Vr;
    }
    if has_plugin(plugins, "fallout4.esm") {
        return Game::Fallout4;
    }
    if has_plugin(plugins, "starfield.esm") {
        return Game::Starfield;
    }
    if has_plugin(plugins, "morrowind.esm") {
        return Game::Morrowind;
    }
    if has_plugin(plugins, "oblivion.esm") {
        return Game::Oblivion;
    }
    if has_plugin(plugins, "falloutnv.esm") {
        return Game::FalloutNv;
    }
    if has_plugin(plugins, "fallout3.esm") {
        return Game::Fallout3;
    }
    Game::Unknown
}

/// The game to sort for. A preference decides where the plugins show no game, and
/// between the two games that share a root master; it never overrides what is shown.
pub open spec fn selected(plugins: Seq<Seq<char>>, preference: Option<Game>) -> Game {
    match (detected(plugins), preference) {
        (Game::Unknown, Some(game)) => game,
        (Game::Unknown, None) => Game::SkyrimSe,
        (Game::SkyrimSe, Some(Game::Skyrim)) => Game::Skyrim,
        (Game::Oblivion, Some(Game::OblivionRemastered)) => Game::OblivionRemastered,
        (known, _) => known,
    }
}

pub fn detect_with_default(plugins: &[String], default_game: Option<Game>) -> (r: GameInfo)
    ensures
        r.deep_view() == info_of(selected(plugins.deep_view(), default_game)),
{
    let choice = match (detect_from_plugins(plugins), default_game) {
        (Game::Unknown, Some(game)) => game,
        (Game::Unknown, None) => Game::SkyrimSe,
        (Game::SkyrimSe, Some(Game::Skyrim)) => Game::Skyrim,
        (Game::Oblivion, Some(Game::OblivionRemastered)) => Game::OblivionRemastered,
        (known, _) => known,
    };
    info(choice)
}

pub fn detect_or_skyrim(plugins: &[String]) -> (r: GameInfo)
    ensures
        r.deep_view() == info_of(selected(plugins.deep_view(), None)),
{
    detect_with_default(plugins, None)
}

/// A preference never overrides a game that the plugins show, but for the two pairs
/// that share a root master.
pub proof fn preference_only_fills_gaps(plugins: Seq<Seq<char>>, preference: Option<Game>)
    requires
        detected(plugins) != Game::Unknown,
    ensures
        selected(plugins, preference) == detected(plugins) || (detected(plugins) == Game::SkyrimSe
            && selected(plugins, preference) == Game::Skyrim) || (detected(plugins) == Game::Oblivion
            && selected(plugins, preference) == Game::OblivionRemastered),
{
}

/// The length, the first and the last character, whatever their case.
pub open spec fn outline(s: Seq<char>) -> (nat, char, char) {
    (s.len(), lower_char(s[0]), lower_char(s.last()))
}

proof fn lemma_outlines()
    ensures
        outline(key_of(CATALOG@[0])) == (8nat, 'o', 'n'),
        outline(key_of(CATALOG@[1])) == (18nat, 'o', 'd'),
        outline(key_of(CATALOG@[2])) == (6nat, 's', 'm'),
        outline(key_of(CATALOG@[3])) == (8nat, 's', 'e'),
        outline(key_of(CATALOG@[4])) == (8nat, 's', 'r'),
        outline(key_of(CATALOG@[5])) == (7nat, 'e', 'l'),
        outline(key_of(CATALOG@[6])) == (8nat, 'f', '3'),
        outline(key_of(CATALOG@[7])) == (9nat, 'f', 'v'),
        outline(key_of(CATALOG@[8])) == (8nat, 'f', '4'),
        outline(key_of(CATALOG@[9])) == (10nat, 'f', 'r'),
        outline(key_of(CATALOG@[10])) == (9nat, 'm', 'd'),
        outline(key_of(CATALOG@[11])) == (6nat, 'o', 'w'),
        outline(key_of(CATALOG@[12])) == (9nat, 's', 'd'),
        "auto"@.len() == 4,
{
    reveal_strlit("Oblivion");
    reveal_strlit("OblivionRemastered");
    reveal_strlit("Skyrim");
    reveal_strlit("SkyrimSE");
    reveal_strlit("SkyrimVR");
    reveal_strlit("Enderal");
    reveal_strlit("Fallout3");
    reveal_strlit("FalloutNV");
    reveal_strlit("Fallout4");
    reveal_strlit("Fallout4VR");
    reveal_strlit("Morrowind");
    reveal_strlit("OpenMW");
    reveal_strlit("Starfield");
    reveal_strlit("auto");
}

/// Texts that are the same but for their case have the same outline.
proof fn lemma_same_outline(a: Seq<char>, b: Seq<char>)
    requires
        ascii_lowered(a) == ascii_lowered(b),
        a.len() > 0,
    ensures
        outline(a) == outline(b),
{
    assert(ascii_lowered(a).len() == a.len() && ascii_lowered(b).len() == b.len());
    assert(ascii_lowered(a)[0] == lower_char(a[0]));
    assert(ascii_lowered(b)[0] == lower_char(b[0]));
    assert(ascii_lowered(a)[a.len() - 1] == lower_char(a.last()));
    assert(ascii_lowered(b)[b.len() - 1] == lower_char(b.last()));
}

proof fn lemma_keyed(i: int, j: int)
    requires
        0 <= j <= i < 13,
    ensures
        keyed_from(key_of(CATALOG@[i]), j) == Some(CATALOG@[i]),
    decreases i - j,
{
    lemma_outlines();
    if j < i {
        lemma_keyed(i, j + 1);
        if ascii_lowered(key_of(CATALOG@[j])) == ascii_lowered(key_of(CATALOG@[i])) {
            lemma_same_outline(key_of(CATALOG@[j]), key_of(CATALOG@[i]));
        }
    }
}

/// A game of the catalog is found under the name that it is stored under.
pub proof fn stored_game_is_found(i: int)
    requires
        0 <= i < 13,
    ensures
        keyed(key_of(CATALOG@[i])) == Some(CATALOG@[i]),
{
    lemma_outlines();
    lemma_keyed(i, 0);
    let k = key_of(CATALOG@[i]);
    assert(ascii_lowered(k).len() == k.len());
    assert(ascii_lowered("auto"@).len() == "auto"@.len());
}

} // verus!
