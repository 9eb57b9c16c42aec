use modslut::categories::Categories;
use modslut::content_index;
use modslut::game::{self, Game};
use modslut::groups;
use modslut::keys::{find_alike, find_like, fold, safe_name, slug};
use modslut::keywords::Keywords;
use modslut::learning::{self, LearningIndex};
use modslut::loot::{is_regex_name, unquote};
use modslut::map::TextMap;
use modslut::masterlist::{masterlist_folders, quoted_value};
use modslut::matching::{
    fuzzy_match_scored, junk_category, label_has_concept, patch_flavored, resolve_concept, shared_stem, tokens,
};
use modslut::metadata;
use modslut::modlist::{entry_from, parse, strip_flag};
use modslut::plan::Why;
use modslut::plugins::{census_cache_path, keyword_key, plugins_in_mod, u32le, PluginInfo};
use modslut::priority_manifest;
use modslut::profile::{legacy_name, profile_key};
use modslut::record_keywords::RecordKeywords;
use modslut::reference;
use modslut::rules::{parse_rules_into, Rules};
use modslut::section_map;
use modslut::suggest::{parent_depth, suggest_by_category, suggest_explained, suggest_section, suggest_sep_renames};
use modslut::text::{
    dec, hex, indent, join, less, parse_number, replace, rsplit_once, split, split_white, trim_of, trim_prefixes,
    trim_suffixes, words, zero_pad,
};
use modslut::theme::{load_theme_pack, sort_packs};

fn v(items: &[&str]) -> Vec<String> {
    items.iter().map(|s| s.to_string()).collect()
}

fn rules(text: &str) -> Rules {
    let mut r = Rules::empty();
    parse_rules_into(text, &mut r);
    r
}

#[test]
fn every_tier_says_why() {
    let ml = parse("# h\n+A\n+Weapons_separator\n+Landscape and Environment_separator\n+Armor_separator\n");
    let r = rules("!Pinned = Armor\n@armour = Armor\nsword = Weapons\n");
    let why = |name: &str, cat: Option<&str>| {
        let (want, why) = suggest_explained(&entry_from(&format!("+{name}")), &r, cat, &ml.sections);
        (want, why.describe())
    };
    assert_eq!(why("Output - X", Some("Armour")), (None, "guard: generated output, never moves".to_string()));
    assert_eq!(why("Pinned", None), (Some("Armor".to_string()), "T1 exact name rule".to_string()));
    assert_eq!(why("X", Some("Armour")), (Some("Armor".to_string()), "T2 @category rule [Armour]".to_string()));
    assert_eq!(why("X", Some("Weapons")), (Some("Weapons".to_string()), "T2 category==separator [Weapons]".to_string()));
    assert_eq!(
        why("X", Some("Landscape")),
        (
            Some("Landscape and Environment".to_string()),
            "T2 category~separator fuzzy [Landscape] shared=landscape".to_string()
        )
    );
    assert_eq!(why("Great Sword", None), (Some("Weapons".to_string()), "T3 keyword [sword]".to_string()));
    assert_eq!(why("X", None), (None, "T4 no rule, category, or keyword matched".to_string()));
    assert_eq!(Why::FollowParent("P".to_string()).describe(), "family: follows master [P]");
    assert_eq!(suggest_section(&entry_from("+Pinned"), &r, None, &ml.sections), Some("Armor".to_string()));
    assert_eq!(suggest_by_category("Armour", &r, &ml.sections), Some("Armor".to_string()));
    assert_eq!(suggest_by_category("Nothing", &r, &ml.sections), None);
}

#[test]
fn words_that_match() {
    assert_eq!(tokens("The NPCs of Bug Fixes - glass"), v(&["npc", "bug", "fixe", "glass"]));
    assert!(patch_flavored("some mod - patch") && patch_flavored("x addon") && !patch_flavored("plain mod"));
    assert!(junk_category("miscellaneous") && !junk_category("weapons"));
    assert!(label_has_concept("Lux (Lighting)", "Lighting") && !label_has_concept("Bodyslide", "Body"));
    assert!(shared_stem("Skin & Body", "Body, Face, and Hair", 3) && !shared_stem("Armor", "Magic", 3));
    let ml = parse("# h\n+Special Load After Lighting Mods_separator\n+Lux (Lighting)_separator\n+Male Body Additions_separator\n");
    assert_eq!(resolve_concept("Lighting", &ml.sections).unwrap().0, "Lux (Lighting)");
    assert!(resolve_concept("Vehicles", &ml.sections).is_none());
    assert!(fuzzy_match_scored("Body, Face, and Hair", &ml.sections, true).is_none());
}

#[test]
fn depths_of_patches() {
    let others = vec![entry_from("+Immersive Armors"), entry_from("+Short")];
    assert_eq!(parent_depth(&entry_from("+Immersive Armors - Patch"), &others), 2);
    assert_eq!(parent_depth(&entry_from("+Immersive Armors"), &others), 0);
    assert_eq!(parent_depth(&entry_from("+Short - Patch Hub"), &others), 0);
}

#[test]
fn dominant_categories_name_a_separator() {
    let mut metas: TextMap<String> = TextMap::new();
    for name in ["A", "B", "C", "D"] {
        metas.insert(name.to_string(), "category=3\n".to_string());
    }
    let cats = Categories::from_texts("3|Vampires|0|0\n", None, metas).unwrap();
    let ml = parse("# h\n+A\n+B\n+C\n+D\n+Night Folk_separator\n+A\n+B\n+C\n+Few_separator\n");
    let mut trace = String::new();
    assert_eq!(suggest_sep_renames(&ml, Some(&cats), &mut trace), vec![(0, "Night Folk - Vampires".to_string())]);
    assert!(trace.contains("[Night Folk] + '- Vampires' (4/4 categorized mods, runner-up 0)"));
}

#[test]
fn keywords_give_canonical_names() {
    let mut kw = Keywords::default();
    Keywords::parse_into(
        "[strip]\nnoise = se, vr\n[alias]\nUnofficial Patch = USSEP\n[never]\nLux = Lux Orbis\n",
        &mut kw,
    );
    assert_eq!(kw.tnorm("USSEP - SE"), "ussep");
    assert_eq!(kw.canonical("USSEP"), "unofficial patch");
    assert_eq!(kw.canonical("USSEP - Thing Patch"), "unofficial patch thing patch");
    assert_eq!(kw.cnorm("USSEP VR"), "unofficialpatch");
    assert!(kw.is_never("Lux", "Lux Orbis") && kw.is_never("Lux Orbis", "Lux") && !kw.is_never("Lux", "Other"));
}

#[test]
fn plugin_details() {
    let info = |groups: Vec<(String, u32)>, records: Vec<(String, u32)>| PluginInfo {
        plugin: "a.esp".into(),
        masters: Vec::new(),
        is_esm: false,
        is_esl: false,
        record_count: 0,
        groups,
        records,
        keywords: Vec::new(),
    };
    let weapons = vec![("WEAP".to_string(), 5), ("NPC_".to_string(), 12)];
    assert_eq!(info(Vec::new(), weapons.clone()).census_line(), "WEAP:5 NPC_:12");
    assert_eq!(info(weapons, Vec::new()).census_line(), "WEAP:5 NPC_:12");
    assert_eq!(keyword_key(0x0106_BBD2, &v(&["skyrim.esm", "update.esm"])), "update.esm|0006bbd2");
    assert_eq!(keyword_key(0x0206_BBD2, &v(&["skyrim.esm", "update.esm"])), "self|0006bbd2");
    assert_eq!(u32le(&[0, 0x78, 0x56, 0x34, 0x12], 1), 0x1234_5678);
    let files = vec![("A.esp".to_string(), "/m/A.esp".to_string()), ("b.txt".to_string(), "/m/b.txt".to_string())];
    assert_eq!(plugins_in_mod(&files).len(), 1);
}

#[test]
fn record_keywords_are_looked_up() {
    let kw = RecordKeywords::load(None);
    let heavy = &kw.lookup("skyrim.esm|0006bbd2").unwrap()[0];
    assert_eq!((heavy.concept.as_str(), heavy.confidence), ("equipment-armor-heavy", 96));
    assert!(kw.lookup("skyrim.esm|00000000").is_none());
    let own = RecordKeywords::load(Some("filterByKeywords=a.esm|00000001:concept=x:confidence=50\n"));
    assert_ne!(own.fingerprint(), kw.fingerprint());
}

#[test]
fn games_are_told_apart() {
    assert!(game::detect_from_plugins(&v(&["SkyrimVR.esm", "Skyrim.esm"])) == Game::SkyrimVr);
    assert!(game::detect_from_plugins(&v(&["Skyrim.esm", "Enderal - X.esm"])) == Game::Enderal);
    assert!(game::detect_or_skyrim(&Vec::new()).game == Game::SkyrimSe);
    assert!(game::detect_with_default(&v(&["Fallout4.esm"]), Some(Game::Skyrim)).game == Game::Fallout4);
    assert!(game::detect_with_default(&v(&["Skyrim.esm"]), Some(Game::Skyrim)).game == Game::Skyrim);
}

#[test]
fn roadmaps_are_counted() {
    let map = section_map::parse_roadmap(
        "[map]\narmor-heavy = Heavy Armor\npatch = Patches A\npatch = Patches B\n[protected]\nOutputs\n[terminal]\nEnd\n",
    );
    assert_eq!(map.mapping_count(), 1);
    assert_eq!(map.reviewed_mappings(), vec![("armor-heavy".to_string(), "Heavy Armor".to_string())]);
    assert!(map.is_protected("outputs") && map.is_terminal("END") && !map.is_context("End"));
    assert!(!map.is_automatic_destination("Outputs") && !map.is_automatic_destination("WACCF Stack"));
    assert!(map.is_automatic_destination("Heavy Armor"));
    let multi = section_map::save_multi_destination("[map]\npatch = A\n", "Patch");
    let map = section_map::parse_roadmap(&multi);
    assert_eq!(map.multi_destination_concepts(), v(&["patch"]));
}

#[test]
fn every_shelf_can_be_learned() {
    let sections = vec![("Armor".to_string(), v(&["Steel"])), ("Outputs".to_string(), v(&["Bodies"]))];
    let (n, text) = learning::learn_all(None, &sections);
    assert_eq!(n, 1);
    let index = LearningIndex::observe(Some(&text), None, "");
    assert_eq!(index.destination("steel", &v(&["Armor"])), Some("Armor".to_string()));
    assert_eq!(index.destination("bodies", &v(&["Outputs"])), None);
}

#[test]
fn files_of_a_profile() {
    assert_eq!(groups::path_for("/p"), "/p/groups.ini");
    assert_eq!(metadata::path_for("/p"), "/p/human_metadata.tsv");
    assert_eq!(priority_manifest::path_for("/p"), "/p/priority_manifest.ini");
    assert_eq!(reference::path_for("/p"), "/p/private_reference.ini");
    assert_eq!(section_map::path_for("/p"), "/p/section_map.ini");
    assert_eq!(census_cache_path("/p"), "/p/plugin_census.cache");
    assert!(content_index::cache_path("/p").starts_with("/p/"));
    assert_eq!(learning::homes_path("/p").rsplit('/').count(), 3);
    assert_eq!(legacy_name("a_", "My Profile", ".ini"), format!("a_{}.ini", profile_key("My Profile")));
}

#[test]
fn masterlist_values() {
    assert_eq!(quoted_value("folder = 'Skyrim VR'", "folder").as_deref(), Some("Skyrim VR"));
    assert_eq!(quoted_value("name = 'x'", "folder"), None);
    assert_eq!(unquote(" 'a.esp' "), "a.esp");
    assert!(is_regex_name(r"a.*\.esp") && !is_regex_name("plain.esp"));
    let known = masterlist_folders(None, &game::info(Game::SkyrimVr), &v(&["My Skyrim VR", "Fallout4"]));
    assert!(!known.contains(&"Fallout4".to_string()));
}

#[test]
fn keys_of_names() {
    assert_eq!(slug("Armor & Clothing"), "armor-clothing");
    assert_eq!(fold("  A b "), "a b");
    assert_eq!(find_like(&v(&["Armor", "MAGIC"]), "magic"), Some(1));
    assert_eq!(find_alike(&v(&["Core Files"]), "core-files"), Some(0));
    assert!(!safe_name("a/b:c").contains('/'));
    assert_eq!(strip_flag("+-*Name"), "Name");
}

#[test]
fn texts_are_cut_and_joined() {
    assert_eq!(split("a|b||", "|"), v(&["a", "b", "", ""]));
    assert_eq!(words("  a \t b\n"), v(&["a", "b"]));
    assert_eq!(join(&v(&["a", "b"]), ", "), "a, b");
    assert_eq!(rsplit_once("a:b:c", ":"), Some(("a:b".to_string(), "c".to_string())));
    assert_eq!(split_white("a  b c").map(|p| p.0), Some("a".to_string()));
    assert_eq!(trim_of("\"x\"", "\""), "x");
    assert_eq!(trim_suffixes("x_s_s", "_s"), "x");
    assert_eq!(trim_prefixes("--x", "-"), "x");
    assert_eq!(replace("aXbXc", "X", "--"), "a--b--c");
    assert_eq!(indent("   x"), 3);
    assert_eq!((dec(0), dec(1207), hex(0xBEEF, 8)), ("0".to_string(), "1207".to_string(), "0000beef".to_string()));
    assert_eq!(zero_pad("7".to_string(), 3), "007");
    assert_eq!((parse_number("42", 50), parse_number("51", 50), parse_number("x", 50)), (Some(42), None, None));
    assert!(less("a", "b") && less("a", "ab") && !less("b", "a"));
}

#[test]
fn packs_are_sorted_by_name() {
    let pack = |name: &str| load_theme_pack(&format!("name = \"{name}\"\n")).unwrap();
    let sorted = sort_packs(vec![pack("beta"), pack("Alpha"), pack("gamma")]);
    assert_eq!(sorted.iter().map(|p| p.name.as_str()).collect::<Vec<_>>(), vec!["Alpha", "beta", "gamma"]);
}
