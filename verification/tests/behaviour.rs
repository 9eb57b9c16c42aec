use std::io::Write;

use modslut::browser::{
    arrange_by_priority, candidates, change_map, enabled, kind_tag, layout, message_pieces, metadata_card,
    mo2_priority_view, mod_card, parked_names, plugin_card, preview_status, search_terms, section_matches, shown_mods,
    source_from_meta, top_mod, Notes, Piece,
};
use modslut::categories::Categories;
use modslut::cli::{census_from_log, command, confirms, option_value, Command};
use modslut::comparison::{
    engine_note, separator_memberships, settle, summarize, GeneralMessage, LoadedPlugin, Solve,
};
use modslut::conflicts::{file_key, ConflictIndex};
use modslut::content_index;
use modslut::edits::{append_user_rule, clear_rules, disable_mod, ordering_rule, pending};
use modslut::game::{self, Game};
use modslut::groups;
use modslut::learning::{self, LearningIndex};
use modslut::libloot_adapter::{
    choose_game_path, game_data_path, game_type, is_terminal_section, keeps_group, mo2_game_path, plugin_paths,
    section_key, separator_graph, visible_message, LootGame, LootMessageLevel, MessageKind, OwnedFile, PluginTags,
};
use modslut::loot::{parse_masterlist, read_masterlist};
use modslut::map::TextMap;
use modslut::masterlist::{
    check_source, game_install_path, masterlist_status, sha1_from_certutil, today_utc, update_masterlist,
    MasterlistStatus,
};
use modslut::metadata::{self, HumanMetadata, Kind};
use modslut::modlist::{active_mods, parse, serialize};
use modslut::plan::{Change, ChangeKind};
use modslut::platform::{kind_of_library, platform_scan, warning_change, ModFile, PlatKind, ScannedMod};
use modslut::plugin_order::{
    indexes_by_owner, mod_dependencies, mod_ranks, owner_of_plugin, plugin_order, plugin_order_preview, plugin_rows,
    row_matches,
};
use modslut::plugins::{
    census_fingerprint, load_census, master_violations, parse_plugin, parse_plugin_bytes, plugin_name, plugin_owners, record_keyword_ids, save_census,
    violations_from_census, ModFiles, PluginFile, PluginInfo, PluginOwner,
};
use modslut::priority_manifest;
use modslut::record_keywords::RecordKeywords;
use modslut::reference::{self, ReferenceIndex};
use modslut::report::category_report;
use modslut::rules::{load_rules_for, Rules};
use modslut::section_map;
use modslut::settings;
use modslut::sorter::{run, try_run};
use modslut::keywords::Keywords;
use modslut::text::alnum_words;
use modslut::theme::{
    active_style, blend_theme_color, import_mo2_qss, load_theme_pack, mirror_name, qss_background, qss_hex_colours,
    qss_property_colours, qss_theme_pack, theme_color, theme_config, Color,
};

fn v(items: &[&str]) -> Vec<String> {
    items.iter().map(|s| s.to_string()).collect()
}

fn pairs(items: &[(&str, &str)]) -> Vec<(String, String)> {
    items.iter().map(|(a, b)| (a.to_string(), b.to_string())).collect()
}

fn rules(text: &str) -> Rules {
    load_rules_for(Some(text), "", false, &Vec::new())
}

fn sorted(list: &str, rule_text: &str) -> String {
    let mut ml = parse(list);
    let (mut log, mut out, mut trace) = (String::new(), Vec::new(), String::new());
    run(
        &mut ml,
        &rules(rule_text),
        &mut log,
        &mut out,
        None,
        None,
        None,
        &Keywords::default(),
        None,
        false,
        &mut trace,
    );
    serialize(&ml)
}

fn owner(mod_name: &str, section: &str, plugin: &str) -> PluginOwner {
    PluginOwner {
        mod_name: mod_name.to_string(),
        section: section.to_string(),
        plugin: plugin.to_string(),
        path: format!("/mods/{mod_name}/{plugin}"),
    }
}

fn plugin(name: &str, masters: &[&str]) -> PluginInfo {
    PluginInfo {
        plugin: name.to_string(),
        masters: v(masters),
        is_esm: name.ends_with(".esm"),
        is_esl: false,
        record_count: 7,
        groups: vec![("WEAP".to_string(), 2)],
        records: vec![("WEAP".to_string(), 3), ("NPC_".to_string(), 1)],
        keywords: vec![("skyrim.esm|0006bbd2".to_string(), 4)],
    }
}

// ---- lists ----

#[test]
fn a_list_is_written_as_it_was_read() {
    let text = "# head\n+A\n-B\n+First_separator\n*C\n+Second_separator\n+tail\n";
    assert_eq!(serialize(&parse(text)), text);
}

#[test]
fn blank_lines_and_missing_separators() {
    assert_eq!(serialize(&parse("# head\n\n+A  \n\n+S_separator")), "# head\n+A\n+S_separator\n");
    let ml = parse("# head\n+A\n+B\n");
    assert_eq!(ml.parking, v(&["+A", "+B"]));
    assert!(ml.sections.is_empty());
    assert_eq!(serialize(&parse("")), "\n");
}

#[test]
fn mods_are_named_in_list_order() {
    assert_eq!(active_mods(&parse("# h\n+A\n-B\n+S_separator\n*C\n+T_separator\n")), v(&["A", "B", "C"]));
    assert_eq!(active_mods(&parse("# h\n+X\n# note\n*Y\n")), v(&["X", "Y"]));
}

#[test]
fn lowercase_goes_by_unicode() {
    let ml = parse("# h\n+ÉTOILE\n+S_separator\n");
    assert_eq!(ml.sections[0].mods[0].lower, "étoile");
    assert_eq!(alnum_words("café-bar ÷ x"), v(&["café", "bar", "x"]));
}

// ---- sorting ----

#[test]
fn exact_rule_moves_and_keeps_the_flag() {
    let got = sorted("# h\n-Stray\n+Mods_separator\n+Home_separator\n", "!Stray = Home\n");
    assert_eq!(got, "# h\n+Mods_separator\n-Stray\n+Home_separator\n");
}

#[test]
fn every_mod_is_kept() {
    let list = "# h\n+Armor Pack\n+Sword Thing\n+Odd One\n+Inbox_separator\n+Armor_separator\n+Weapons_separator\n";
    let got = sorted(list, "armor = Armor\nsword = Weapons\n");
    let mut before: Vec<&str> = list.lines().collect();
    let mut after: Vec<&str> = got.lines().collect();
    before.sort();
    after.sort();
    assert_eq!(before, after);
    assert_eq!(
        got,
        "# h\n+Odd One\n+Inbox_separator\n+Armor Pack\n+Armor_separator\n+Sword Thing\n+Weapons_separator\n"
    );
}

#[test]
fn nothing_moves_into_a_waiting_room() {
    let list = "# h\n+Sword\n+Weapons_separator\n+Other\n+End of List_separator\n";
    assert_eq!(sorted(list, "!dump = End of List\n!Sword = End of List\n"), list);
}

fn sorted_alone(list: &str, rule_text: &str, conflicts: &ConflictIndex) -> (String, usize) {
    let mut ml = parse(list);
    let (mut log, mut out, mut trace) = (String::new(), Vec::new(), String::new());
    let census = vec![
        ("Base Thing - Patch".to_string(), "S".to_string(), plugin("patch.esp", &["master.esm"])),
        ("Zulu".to_string(), "T".to_string(), plugin("master.esm", &[])),
    ];
    let n = run(
        &mut ml,
        &rules(rule_text),
        &mut log,
        &mut out,
        None,
        Some(conflicts),
        Some(&census),
        &Keywords::default(),
        None,
        true,
        &mut trace,
    );
    (serialize(&ml), n)
}

#[test]
fn alone_the_rules_change_only_what_they_name() {
    let list = "# h\n+Parked\n+P_separator\n+Base Thing\n+Base Thing - Patch\n+S_separator\n+Zulu\n+T_separator\n";
    let conflicts = ConflictIndex::load("Base Thing > Base Thing - Patch = 9\n");
    assert_eq!(sorted_alone(list, "", &conflicts), (list.to_string(), 0));
    assert_eq!(sorted_alone(list, "!Zulu = T\n>Base Thing = Base Thing - Patch\n", &conflicts), (list.to_string(), 0));
    assert_eq!(
        sorted_alone(list, "<Base Thing - Patch = S\n^Base Thing = S\n<Zulu\n", &conflicts),
        (list.to_string(), 0)
    );
    let (sunk, n) = sorted_alone(list, "<Base Thing = S\n", &conflicts);
    assert_eq!((sunk.contains("+Base Thing - Patch\n+Base Thing\n+S_separator"), n), (true, 3));
    let (moved, n) = sorted_alone(list, "!Parked = T\n", &conflicts);
    assert_eq!(n, 1);
    assert_eq!(
        moved,
        "# h\n+P_separator\n+Base Thing\n+Base Thing - Patch\n+S_separator\n+Zulu\n+Parked\n+T_separator\n"
    );
}

#[test]
fn separators_are_renamed_behind_their_names() {
    let list = "# h\n+SexLab Framework\n+OStim Standalone\n+Ya Filthy Animal_separator\n";
    let mut ml = parse(list);
    let (mut log, mut out, mut trace) = (String::new(), Vec::new(), String::new());
    run(
        &mut ml,
        &rules("!rename-separators\n"),
        &mut log,
        &mut out,
        None,
        None,
        None,
        &Keywords::default(),
        None,
        false,
        &mut trace,
    );
    assert!(ml.sections[0].label.starts_with("Ya Filthy Animal - "));
    assert!(out[0].kind == ChangeKind::Rename);
}

#[test]
fn proven_only_holds_guesses_back() {
    let list = "# h\n+Sword Thing\n+Inbox_separator\n+Weapons_separator\n";
    assert_ne!(sorted(list, "sword = Weapons\n"), list);
    assert_eq!(sorted(list, "!proven-only\nsword = Weapons\n"), list);
}

#[test]
fn generated_output_stays() {
    let list = "# h\n+Output - Bodies\n+Here_separator\n+There_separator\n";
    assert_eq!(sorted(list, "!Output - Bodies = There\n"), list);
}

#[test]
fn a_promoted_mod_loads_after_the_other() {
    let list = "# h\n+Loser\n+Winner\n+S_separator\n";
    assert_eq!(sorted(list, ">Winner = Loser\n"), "# h\n+Winner\n+Loser\n+S_separator\n");
}

#[test]
fn sunk_and_floated_mods_go_to_the_ends() {
    let mut ml = parse("# h\n+A\n+B\n+C\n-S_separator\n");
    let mut r = Rules::empty();
    r.sink.push(("A".to_string(), "S".to_string()));
    r.float.push(("C".to_string(), "S".to_string()));
    let (mut log, mut out, mut trace) = (String::new(), Vec::new(), String::new());
    run(&mut ml, &r, &mut log, &mut out, None, None, None, &Keywords::default(), None, false, &mut trace);
    let names: Vec<&str> = ml.sections[0].mods.iter().map(|m| m.name.as_str()).collect();
    assert_eq!(names, ["C", "B", "A"]);
    assert!(out.iter().any(|c| c.kind == ChangeKind::Sink && c.name == "A"));
    assert!(out.iter().any(|c| c.kind == ChangeKind::Float && c.name == "C"));
    let again = serialize(&ml);
    assert_eq!(sorted(&again, "<A = S\n^C = S\n"), again);
}

#[test]
fn a_rule_for_an_end_files_no_mod() {
    let list = "# h\n+A\n+P_separator\n+B\n+C\n+S_separator\n";
    assert_eq!(sorted(list, "<A = S\n^A = S\n"), list);
}

#[test]
fn a_framework_ends_last_wherever_it_stands() {
    let list = "# h\n+Frame\n+B\n+C\n+S_separator\n";
    assert_eq!(sorted(list, "<Frame\n"), "# h\n+B\n+C\n+Frame\n+S_separator\n");
}

#[test]
fn an_exact_rule_keeps_its_slot_beside_the_ends() {
    let list = "# h\n+A\n+B\n+C\n+D\n+S_separator\n";
    assert_eq!(sorted(list, "!D = S\n<A = S\n"), "# h\n+B\n+C\n+A\n+D\n+S_separator\n");
    assert_eq!(sorted(list, "!A = S\n<A = S\n"), list);
}

#[test]
fn a_base_that_loads_after_its_patch_is_reported() {
    let audited = |list: &str| {
        let mut ml = parse(list);
        let conflicts = ConflictIndex::load("Immersive Armors > Immersive Armors - Patch = 9\n");
        let pins = rules("!Immersive Armors = S\n!Immersive Armors - Patch = S\n");
        let (mut log, mut out, mut trace) = (String::new(), Vec::new(), String::new());
        run(&mut ml, &pins, &mut log, &mut out, None, Some(&conflicts), None, &Keywords::default(), None, false, &mut trace);
        assert_eq!(serialize(&ml), list);
        log
    };
    let line = "WARN  Immersive Armors loads after its patch Immersive Armors - Patch on 9 shared files - needs a manual look\n";
    assert!(audited("# h\n+Immersive Armors\n+Immersive Armors - Patch\n+S_separator\n").contains(line));
    assert!(!audited("# h\n+Immersive Armors - Patch\n+Immersive Armors\n+S_separator\n").contains("WARN"));
}

#[test]
fn siblings_of_one_name_are_not_reported() {
    let audited = |list: &str| {
        let mut ml = parse(list);
        let mut kw = Keywords::default();
        Keywords::parse_into("[family]\nGreat Armors Patch = Great Armors Patch SE, Great Armors Patch VR\n", &mut kw);
        let conflicts = ConflictIndex::load("Great Armors Patch SE > Great Armors Patch VR = 9\n");
        let pins = rules("!Great Armors Patch SE = S\n!Great Armors Patch VR = S\n");
        let (mut log, mut out, mut trace) = (String::new(), Vec::new(), String::new());
        run(&mut ml, &pins, &mut log, &mut out, None, Some(&conflicts), None, &kw, None, false, &mut trace);
        assert_eq!(kw.canonical("Great Armors Patch SE"), kw.canonical("Great Armors Patch VR"));
        log
    };
    assert!(!audited("# h\n+Great Armors Patch SE\n+Great Armors Patch VR\n+S_separator\n").contains("WARN"));
    assert!(!audited("# h\n+Great Armors Patch VR\n+Great Armors Patch SE\n+S_separator\n").contains("WARN"));
}

#[test]
fn no_row_of_a_pinned_name_is_lost() {
    let got = sorted("# h\n+A\n+B\n-A\n+C\n+S_separator\n", "!A = S\n");
    let mut rows: Vec<&str> = got.lines().collect();
    rows.sort();
    assert_eq!(rows, ["# h", "+A", "+B", "+C", "+S_separator", "-A"]);
}

#[test]
fn constraints_hold_together_at_rest() {
    let mut ml = parse("# h\n+Master File\n+Child\n+Great Armors\n+Great Armors - Patch\n+Other\n+S_separator\n");
    let conflicts = ConflictIndex::load("Great Armors > Great Armors - Patch = 9\n");
    let census = vec![
        ("Master File".to_string(), "S".to_string(), plugin("master.esm", &[])),
        ("Child".to_string(), "S".to_string(), plugin("child.esp", &["master.esm", "other.esp"])),
        ("Other".to_string(), "S".to_string(), plugin("other.esp", &[])),
    ];
    let (mut log, mut out, mut trace) = (String::new(), Vec::new(), String::new());
    run(
        &mut ml,
        &Rules::empty(),
        &mut log,
        &mut out,
        None,
        Some(&conflicts),
        Some(&census),
        &Keywords::default(),
        None,
        false,
        &mut trace,
    );
    let at = |name: &str| ml.sections[0].mods.iter().position(|m| m.name == name).unwrap();
    assert!(at("Child") < at("Other") && at("Other") < at("Master File"));
    assert!(at("Great Armors - Patch") < at("Great Armors") && at("Great Armors") < at("Master File"));
    assert!(!out.iter().any(|c| c.kind == ChangeKind::Warn));
}

#[test]
fn a_mod_that_loads_before_a_master_is_warned_of() {
    let mut ml = parse("# h\n+Master\n+Child\n+Plain\n+S_separator\n");
    let pins = rules("!Master = S\n!Child = S\n!Plain = S\n");
    let census = vec![
        ("Child".to_string(), "S".to_string(), plugin("child.esp", &["skyrim.esm", "master.esm"])),
        ("Master".to_string(), "S".to_string(), plugin("master.esm", &[])),
        ("Plain".to_string(), "S".to_string(), plugin("plain.esp", &["skyrim.esm"])),
    ];
    let (mut log, mut out, mut trace) = (String::new(), Vec::new(), String::new());
    run(
        &mut ml,
        &pins,
        &mut log,
        &mut out,
        None,
        None,
        Some(&census),
        &Keywords::default(),
        None,
        false,
        &mut trace,
    );
    let warned: Vec<(&str, bool)> = out
        .iter()
        .filter(|c| c.kind == ChangeKind::Warn)
        .map(|c| (c.name.as_str(), c.detail.starts_with("[master order]")))
        .collect();
    assert_eq!(warned, [("Child", true), ("Plain", false)]);
}

#[test]
fn patches_follow_their_parents() {
    let list = "# h\n+Immersive Armors\n+Immersive Armors - Patch\n+S_separator\n";
    assert_eq!(sorted(list, ""), "# h\n+Immersive Armors - Patch\n+Immersive Armors\n+S_separator\n");
}

#[test]
fn a_hidden_section_leaves_no_plan() {
    let mut ml = parse("# h\n+A\n+Twin_separator\n+B\n+Twin_separator\n+Home_separator\n");
    let before = serialize(&ml);
    let (mut log, mut out, mut trace) = (String::new(), Vec::new(), String::new());
    let n = try_run(
        &mut ml,
        &rules("!B = Home\n"),
        &mut log,
        &mut out,
        None,
        None,
        None,
        &Keywords::default(),
        None,
        false,
        &mut trace,
    );
    assert_eq!(n, None);
    assert_eq!(serialize(&ml), before);
    assert!(log.is_empty() && out.is_empty() && trace.is_empty());
}

#[test]
fn user_rules_come_before_the_built_in_ones() {
    let r = load_rules_for(None, "!A = Base\narmor = Base\n", false, &v(&["!A = Mine\n"]));
    assert_eq!(r.exact, pairs(&[("A", "Mine"), ("A", "Base")]));
    let solo = load_rules_for(None, "!A = Base\n", true, &v(&["!A = Mine\n"]));
    assert_eq!(solo.exact, pairs(&[("A", "Mine")]));
    let named = load_rules_for(Some("!B = Named\n"), "!A = Base\n", true, &Vec::new());
    assert_eq!(named.exact, pairs(&[("B", "Named")]));
}

#[test]
fn rule_lines_of_every_kind() {
    let r = rules("# note\n!A = S\n@Armour = S\nsteel !plate !iron = S\n>W = L\n<Base = S\n<Frame\n^Top = S\n!dump = End\n!proven-only\n!rename-separators\n");
    assert_eq!(r.exact, pairs(&[("A", "S")]));
    assert_eq!(r.category, pairs(&[("armour", "S")]));
    assert_eq!(r.keyword, vec![("steel".to_string(), v(&["plate", "iron"]), "S".to_string())]);
    assert_eq!(r.promote, pairs(&[("W", "L")]));
    assert_eq!(r.sink, pairs(&[("Base", "S")]));
    assert_eq!(r.sink_any, v(&["Frame"]));
    assert_eq!(r.float, pairs(&[("Top", "S")]));
    assert_eq!(r.dump, v(&["End"]));
    assert!(r.proven_only && r.rename_separators);
}

// ---- categories ----

#[test]
fn categories_of_mods() {
    let mut metas: TextMap<String> = TextMap::new();
    metas.insert("Own".into(), "[General]\ncategory=\"5,\"\ncategory=2,3\n".into());
    metas.insert("Nexus".into(), "[General]\nnexusCategory=77\n".into());
    metas.insert("Lost".into(), "category=9\n".into());
    let c = Categories::from_texts("2|Armour|1|0\n4|Body|1|0\n", Some("4|Body|77\n"), metas).unwrap();
    assert_eq!(c.category_detail_of("Own"), Some((2, "Armour".to_string())));
    assert_eq!(c.category_of("Nexus"), Some("Body".to_string()));
    assert_eq!(c.category_of("Lost"), Some("<unknown id 9>".to_string()));
    assert_eq!(c.category_of("Absent"), None);
    assert!(Categories::from_texts("no rows here\n", None, TextMap::new()).is_none());
    let ml = parse("# h\n+Own\n+Armour_separator\n");
    let report = category_report(&ml, &c, &rules(""));
    assert!(report.contains("Armour"));
}

#[test]
fn the_report_goes_by_the_bridge_of_the_sort() {
    let mut metas: TextMap<String> = TextMap::new();
    metas.insert("A".into(), "category=2\n".into());
    metas.insert("B".into(), "category=3\n".into());
    metas.insert("C".into(), "category=4\n".into());
    let c = Categories::from_texts("2|Armour|1|0\n3|Miscellaneous|1|0\n4|Cheats|1|0\n", None, metas).unwrap();
    let ml = parse("# h\n+A\n+B\n+C\n+Inbox_separator\n+Armour_separator\n+Miscellaneous Items_separator\n");
    let report = category_report(&ml, &c, &rules("@Cheats = Inbox\n"));
    let target = |name: &str| report.lines().find(|l| l.starts_with(name)).unwrap()[49..].to_string();
    assert_eq!(target("Armour"), "Armour");
    assert_eq!(target("Miscellaneous"), "- no matching separator (add an @ rule)");
    assert_eq!(target("Cheats"), "@ Inbox");
}

// ---- conflicts ----

#[test]
fn conflicts_round_trip() {
    let files = |names: &[&str]| names.iter().filter_map(|n| file_key(n)).collect::<Vec<String>>();
    let active = v(&["Top", "Mid", "Low"]);
    let mods = vec![
        (0usize, files(&["Meshes\\A.nif", "b.dds", "c.dds", "meta.ini"])),
        (1usize, files(&["meshes/a.nif", "B.dds", "c.DDS"])),
        (2usize, files(&["meshes/a.nif"])),
    ];
    let c = ConflictIndex::build(&active, &mods);
    assert_eq!(c.files_indexed, 7);
    assert_eq!(c.mods_scanned, 3);
    assert_eq!(c.shared("Mid", "Top"), Some(("Top", 3)));
    assert_eq!(c.shared("Low", "Top"), Some(("Top", 1)));
    assert_eq!(c.count(), 2);
    let saved = c.save();
    assert!(saved.ends_with("Top > Mid = 3\n"));
    let again = ConflictIndex::load(&saved);
    assert_eq!(again.shared("Top", "Mid"), Some(("Top", 3)));
    assert_eq!(again.shared("Top", "Low"), None);
    assert_eq!(file_key("Meta.ini"), None);
    assert!(ConflictIndex::try_build(&active, &mods).is_some());
    assert!(ConflictIndex::try_build(&active, &vec![(3usize, files(&["a.nif"]))]).is_none());
}

#[test]
fn a_search_leaves_sections_and_mods() {
    let shelf = vec![("Armor".to_string(), v(&["Steel", "Iron"]))];
    let terms = search_terms(&shelf, &v(&["Loose Steel"]));
    assert_eq!(shown_mods("Armor", &shelf[0].1, &terms, ""), v(&["Steel", "Iron"]));
    assert_eq!(shown_mods("Armor", &shelf[0].1, &terms, "armor"), v(&["Steel", "Iron"]));
    assert_eq!(shown_mods("Armor", &shelf[0].1, &terms, "iro"), v(&["Iron"]));
    assert!(shown_mods("Armor", &shelf[0].1, &terms, "none").is_empty());
    assert_eq!(shown_mods("parking lot", &v(&["Loose Steel"]), &terms, "steel"), v(&["Loose Steel"]));
}

#[test]
fn a_stored_index_goes_stale() {
    assert!(ConflictIndex::is_fresh(Some(5), Some(5), Some(4)));
    assert!(ConflictIndex::is_fresh(Some(5), None, None));
    assert!(!ConflictIndex::is_fresh(Some(5), Some(6), Some(4)));
    assert!(!ConflictIndex::is_fresh(Some(5), Some(4), Some(6)));
    assert!(!ConflictIndex::is_fresh(None, Some(1), Some(1)));
}

// ---- command line ----

#[test]
fn commands() {
    assert!(command(&v(&[])) == (Command::Window, 0));
    assert!(command(&v(&["rules"])).0 == Command::Rules);
    assert!(command(&v(&["check", "a.txt"])) == (Command::Check, 1));
    assert!(command(&v(&["categories", "a.txt"])) == (Command::Categories, 1));
    assert!(command(&v(&["sort", "a.txt"])) == (Command::Sort, 1));
    assert!(command(&v(&["a.txt"])) == (Command::Sort, 0));
    assert_eq!(option_value(&v(&["sort", "a", "-o", "b"]), "-o"), Some("b".to_string()));
    assert_eq!(option_value(&v(&["sort", "-o"]), "-o"), None);
    assert!(confirms(" Y\n") && confirms("YES") && !confirms("n") && !confirms(""));
}

#[test]
fn a_census_is_replayed_from_a_log() {
    let log = "noise\n  a.esp (My Mod) esm esl | masters: x.esm, y.esp | WEAP:1\n  b.esp (Other) | masters: - | -\n";
    let c = census_from_log(log).unwrap();
    assert_eq!(c.len(), 2);
    assert_eq!(c[0].0, "My Mod");
    assert_eq!(c[0].2.plugin, "a.esp");
    assert_eq!(c[0].2.masters, v(&["x.esm", "y.esp"]));
    assert!(c[0].2.is_esm && c[0].2.is_esl);
    assert!(c[1].2.masters.is_empty());
    assert!(census_from_log("nothing\n").is_none());
}

// ---- plugins ----

#[test]
fn the_census_cache_round_trips() {
    let enabled = pairs(&[("Alpha", "S"), ("Beta", "T")]);
    let fp = census_fingerprint(&enabled);
    assert_eq!(fp, census_fingerprint(&pairs(&[("Beta", "X"), ("Alpha", "Y")])));
    assert_ne!(fp, census_fingerprint(&pairs(&[("Alpha", "S")])));
    let census = vec![
        ("Alpha".to_string(), "S".to_string(), plugin("a.esm", &[])),
        ("Beta".to_string(), "T".to_string(), plugin("b.esp", &["a.esm", "skyrim.esm"])),
    ];
    let text = save_census(fp, &census);
    let back = load_census(&text, fp).unwrap();
    assert_eq!(back.len(), 2);
    assert_eq!(back[1].0, "Beta");
    assert_eq!(back[1].1.masters, v(&["a.esm", "skyrim.esm"]));
    assert_eq!(back[1].1.records, census[1].2.records);
    assert_eq!(back[1].1.keywords, census[1].2.keywords);
    assert!(back[0].1.is_esm && !back[1].1.is_esm);
    for bit in 0..64 {
        assert!(load_census(&text, fp ^ (1u64 << bit)).is_none());
    }
    let comma = vec![("Alpha, the First".to_string(), "S".to_string(), plugin("a, b.esm", &[]))];
    let kept = load_census(&save_census(3, &comma), 3).unwrap();
    assert_eq!((kept[0].0.as_str(), kept[0].1.plugin.as_str()), ("Alpha, the First", "a, b.esm"));
    assert!(load_census(&format!("{text}broken\n"), fp).is_none());
    assert!(load_census("", fp).is_none());
}

#[test]
fn an_empty_fingerprint_is_the_offset() {
    assert_eq!(census_fingerprint(&Vec::new()), 0xcbf29ce484222325);
}

#[test]
fn compressed_records_are_inflated() {
    let mut plain = Vec::new();
    plain.extend_from_slice(b"KWDA");
    plain.extend_from_slice(&4u16.to_le_bytes());
    plain.extend_from_slice(&0x0006_BBD2u32.to_le_bytes());
    let mut packer = flate2::write::ZlibEncoder::new(Vec::new(), flate2::Compression::default());
    packer.write_all(&plain).unwrap();
    let mut data = (plain.len() as u32).to_le_bytes().to_vec();
    data.extend_from_slice(&packer.finish().unwrap());
    let mut keywords = Vec::new();
    record_keyword_ids(&data, 0x0004_0000, &v(&["skyrim.esm"]), &mut keywords);
    assert_eq!(keywords, vec![("skyrim.esm|0006bbd2".to_string(), 1)]);
    let mut none = Vec::new();
    record_keyword_ids(&[0, 0, 0, 0, 1, 2, 3], 0x0004_0000, &v(&["skyrim.esm"]), &mut none);
    assert!(none.is_empty());
}

#[test]
fn names_that_are_no_utf8_are_replaced() {
    let mut data = Vec::new();
    data.extend_from_slice(b"MAST");
    data.extend_from_slice(&6u16.to_le_bytes());
    data.extend_from_slice(b"A\xff.es\0");
    let mut bytes = Vec::new();
    bytes.extend_from_slice(b"TES4");
    bytes.extend_from_slice(&(data.len() as u32).to_le_bytes());
    bytes.extend_from_slice(&[0u8; 16]);
    bytes.extend_from_slice(&data);
    let info = parse_plugin_bytes(&bytes, "Test.ESP").unwrap();
    assert_eq!(info.masters, v(&["a\u{fffd}.es"]));
    assert_eq!(info.plugin, "Test.ESP");
    assert_eq!(parse_plugin(&bytes, "Test.ESP").unwrap().plugin, "test.esp");
    assert!(parse_plugin(&bytes[..30], "Test.ESP").is_none());
    assert!(parse_plugin_bytes(b"NOPE", "x.esp").is_none());
}

#[test]
fn masters_must_load_first() {
    let census = vec![
        ("Child".to_string(), "S".to_string(), plugin("child.esp", &["parent.esp"])),
        ("Parent".to_string(), "S".to_string(), plugin("parent.esp", &[])),
    ];
    let bad = violations_from_census(&census, &v(&["child.esp", "parent.esp"]));
    assert_eq!(bad.len(), 1);
    assert_eq!((bad[0].mod_name.as_str(), bad[0].master.as_str()), ("Child", "parent.esp"));
    assert!(violations_from_census(&census, &v(&["parent.esp", "child.esp"])).is_empty());
}

fn plugin_file(mod_name: &str, name: &str, masters: &[&str]) -> PluginFile {
    let mut data = Vec::new();
    for master in masters {
        data.extend_from_slice(b"MAST");
        data.extend_from_slice(&(master.len() as u16 + 1).to_le_bytes());
        data.extend_from_slice(master.as_bytes());
        data.push(0);
    }
    let mut bytes = b"TES4".to_vec();
    bytes.extend_from_slice(&(data.len() as u32).to_le_bytes());
    bytes.extend_from_slice(&[0u8; 16]);
    bytes.extend_from_slice(&data);
    PluginFile { mod_name: mod_name.to_string(), section: "S".to_string(), name: name.to_string(), bytes }
}

#[test]
fn masters_of_the_game_are_exempt() {
    let files = vec![
        plugin_file("A", "A.esp", &["Skyrim.esm", "ccGift.esl", "b.esp"]),
        plugin_file("B", "B.esp", &["Skyrim.esm", "ccGift.esl"]),
        PluginFile { mod_name: "C".into(), section: "S".into(), name: "c.esp".into(), bytes: vec![1, 2] },
    ];
    let order = v(&["a.esp", "b.esp", "ccgift.esl", "skyrim.esm"]);
    let (bad, census) = master_violations(&files, &order);
    assert_eq!(census.len(), 2);
    assert_eq!(bad.len(), 1);
    assert_eq!((bad[0].plugin.as_str(), bad[0].master.as_str()), ("a.esp", "b.esp"));
    assert_eq!(violations_from_census(&census, &order).len(), 2);
}

#[test]
fn owners_of_plugins() {
    assert!(plugin_name("A.ESP") && plugin_name("b.esl") && !plugin_name("c.txt") && !plugin_name("esm"));
    let mods = vec![ModFiles {
        mod_name: "M".into(),
        section: "S".into(),
        files: pairs(&[("A.ESP", "/m/A.ESP"), ("readme.txt", "/m/readme.txt")]),
    }];
    let owners = plugin_owners(&mods);
    assert_eq!(owners.len(), 1);
    assert_eq!(owners[0].plugin, "a.esp");
    assert_eq!(owners[0].path, "/m/A.ESP");
}

#[test]
fn the_content_cache_round_trips() {
    let census = vec![
        ("Alpha".to_string(), "S".to_string(), plugin("a.esm", &[])),
        ("Beta".to_string(), "T".to_string(), plugin("b.esp", &["a.esm"])),
    ];
    let kw = RecordKeywords::load(None);
    let (built, text) = content_index::load_or_build(None, "/x", 9, &census, &kw);
    assert!(!built.from_cache);
    let text = text.unwrap();
    let (cached, again) = content_index::load_or_build(Some(&text), "/x", 9, &census, &kw);
    assert!(cached.from_cache && again.is_none());
    assert_eq!(cached.summary(), built.summary());
    assert_eq!(
        cached.get("Alpha").unwrap().facts.len(),
        built.get("Alpha").unwrap().facts.len()
    );
    let (stale, _) = content_index::load_or_build(Some(&text), "/x", 10, &census, &kw);
    assert!(!stale.from_cache);
}

// ---- platforms ----

#[test]
fn libraries_of_other_platforms_are_flagged() {
    assert!(kind_of_library("x.dll", &b"..skse64_1_6_ 640".to_vec()) == Some(PlatKind::AeOnly));
    assert!(kind_of_library("x.dll", &b"skse_1_9_32".to_vec()) == Some(PlatKind::Oldrim));
    assert!(kind_of_library("x.dll", &b"skse64_1_5_97".to_vec()) == Some(PlatKind::SeUnclear));
    assert!(kind_of_library("versionlib-1-6-0.bin", &Vec::new()) == Some(PlatKind::AeOnly));
    assert!(kind_of_library("x.dll", &b"sksevr skse64_1_6_".to_vec()).is_none());
    assert!(kind_of_library("x.dll", &b"plain".to_vec()).is_none());
    let file = |path: &str, name: &str, bytes: Option<&[u8]>| ModFile {
        path: path.to_string(),
        name: name.to_string(),
        bytes: bytes.map(|b| b.to_vec()),
    };
    let scanned = vec![ScannedMod {
        mod_name: "M".into(),
        section: "S".into(),
        files: vec![
            file("/m/tools/a.dll", "a.dll", Some(b"skse64_1_6_")),
            file("/m/SKSE/Plugins/B.dll", "B.dll", None),
            file("/m/SKSE\\Plugins/C.dll", "C.dll", Some(b"skse64_1_6_")),
            file("/m/SKSE/Plugins/D.dll", "D.dll", Some(b"skse_1_9_32")),
        ],
    }];
    let found = platform_scan(&scanned);
    assert_eq!(found.len(), 1);
    assert_eq!((found[0].mod_name.as_str(), found[0].dll.as_str()), ("M", "c.dll"));
    assert!(found[0].kind == PlatKind::AeOnly);
    let row = found.into_iter().map(warning_change).next().unwrap();
    assert!(row.kind == ChangeKind::Warn);
    assert_eq!(row.detail, "[AE (1.6.x) plugin - dead on arrival in VR] c.dll");
    assert_eq!((row.name.as_str(), row.section.as_str()), ("M", "S"));
}

// ---- libloot ----

#[test]
fn english_messages_are_shown() {
    let many = pairs(&[("Hallo", "de"), ("  Hello  ", "en")]);
    let m = visible_message(MessageKind::Warn, &many).unwrap();
    assert_eq!(m.text, "Hello");
    assert!(m.level == LootMessageLevel::Warning);
    assert_eq!(visible_message(MessageKind::Say, &pairs(&[("Hallo", "de")])).unwrap().text, "Hallo");
    assert!(visible_message(MessageKind::Say, &pairs(&[("Hallo", "de"), ("Salut", "fr")])).is_none());
    assert!(visible_message(MessageKind::Error, &pairs(&[("   ", "en")])).is_none());
    assert!(visible_message(MessageKind::Error, &Vec::new()).is_none());
}

#[test]
fn separators_become_a_chain() {
    let g = separator_graph(&v(&["Core Files", "Armor", "core-files", "Magic"]), &pairs(&[("Magic", "Core Files")]));
    assert_eq!(g.groups.len(), 3);
    assert_eq!(g.groups[0].name, "modslut-separator-000");
    assert!(g.groups[0].after.is_empty());
    assert_eq!(g.groups[1].after, v(&["modslut-separator-000"]));
    assert_eq!(g.groups[2].description, "Magic");
    assert_eq!(g.groups[2].after, v(&["modslut-separator-000"]));
    assert_eq!(section_key("Core - Files"), "corefiles");
    assert!(is_terminal_section("End of List") && is_terminal_section("E.O.L") && !is_terminal_section("Ends"));
}

#[test]
fn memberships_of_plugins() {
    let g = separator_graph(&v(&["Core", "Armor", "End of List"]), &Vec::new());
    let owners = vec![
        owner("Old", "Core", "a.esp"),
        owner("New", "Armor", "a.esp"),
        owner("Parked", "End of List", "b.esp"),
        owner("Base", "Core", "c.esp"),
    ];
    let got = separator_memberships(&v(&["C.esp", "A.esp", "a.esp", "B.esp", "unowned.esp"]), &owners, &g);
    assert_eq!(got, pairs(&[("a.esp", "modslut-separator-001"), ("c.esp", "modslut-separator-000")]));
    let s = settle(&got, &vec![Some("Late Loaders".to_string()), Some("Default".to_string())]);
    assert_eq!(s.given, pairs(&[("c.esp", "modslut-separator-000")]));
    assert_eq!(s.kept, 1);
    assert!(keeps_group(Some("x")) && !keeps_group(Some("DEFAULT")) && !keeps_group(None));
}

#[test]
fn a_sort_is_summarized() {
    let loaded = vec![
        LoadedPlugin {
            name: "Skyrim.esm".into(),
            masters: Vec::new(),
            light: false,
            dirty: true,
            messages: vec![MessageKind::Warn, MessageKind::Say],
        },
        LoadedPlugin {
            name: "Small.esl".into(),
            masters: v(&["Skyrim.esm"]),
            light: true,
            dirty: false,
            messages: vec![MessageKind::Error],
        },
    ];
    let general = vec![
        GeneralMessage { kind: MessageKind::Warn, content: pairs(&[("note", "en")]) },
        GeneralMessage { kind: MessageKind::Say, content: pairs(&[("a", "de"), ("b", "fr")]) },
    ];
    let tags = vec![PluginTags {
        mod_name: "M".into(),
        header: v(&["Relev"]),
        suggested: vec![(false, "Delev".to_string()), (true, "Names".to_string())],
    }];
    let solve = Solve {
        game_name: "G".into(),
        game_path_source: "P".into(),
        masterlist: "/ml".into(),
        masterlist_status: MasterlistStatus { revision: None, updated: None, source: None },
        input: v(&["Small.esl", "Skyrim.esm"]),
        sorted: v(&["Skyrim.esm", "Small.esl"]),
        groups: 3,
        memberships: 2,
        kept: 1,
    };
    let c = summarize(solve, &loaded, &general, &tags);
    assert_eq!((c.plugin_count, c.active_full_plugins, c.active_light_plugins, c.dirty_plugins), (2, 1, 1, 1));
    assert_eq!((c.warning_count, c.error_count, c.total_messages), (2, 1, 5));
    assert_eq!(c.general_messages.len(), 1);
    assert_eq!(c.changed_positions, 2);
    assert_eq!(c.sorted_plugins, v(&["skyrim.esm", "small.esl"]));
    assert_eq!(c.plugin_indexes.get("small.esl").unwrap(), "FE 000");
    assert_eq!(c.plugin_indexes.get("skyrim.esm").unwrap(), "00");
    assert_eq!(c.plugin_masters.get("small.esl").unwrap(), &v(&["skyrim.esm"]));
    assert_eq!(c.bash_tags_by_owner.get("M").unwrap(), &v(&["Add Names", "Header: Relev", "Remove Delev"]));
    let note = engine_note(&c, 4, 5, 6);
    assert!(note.contains("  game: G (P)\n  masterlist: /ml\n  LOOT facts: 1 full + 1 light active plugin(s), 1 dirty"));
    assert!(note.contains("projected 4 owning mod rank(s) and 5 declared-master mod link(s) from 6 cheap"));
}

#[test]
fn files_of_plugins() {
    let owned = |plugin: &str, root: &str, root_exists: bool, file_exists: bool| OwnedFile {
        plugin: plugin.to_string(),
        path: format!("{root}/{plugin}"),
        root: root.to_string(),
        root_exists,
        file_exists,
    };
    let data = pairs(&[("Skyrim.esm", "/game/Skyrim.esm"), ("a.esp", "/game/a.esp"), ("notes.txt", "/game/notes.txt")]);
    let owners =
        vec![owned("a.esp", "/mods/A", true, true), owned("b.esp", "/mods/B", true, true), owned("gone.esp", "/mods/C", false, false)];
    let (paths, roots) = plugin_paths(&data, &owners, &v(&["skyrim.esm", "b.esp", "a.esp"]));
    assert_eq!(paths, v(&["/game/Skyrim.esm", "/mods/B/b.esp", "/mods/A/a.esp"]));
    assert!(roots.contains(&"/mods/A".to_string()) && roots.contains(&"/mods/B".to_string()));
    assert!(!roots.contains(&"/mods/C".to_string()));
}

#[test]
fn games_and_their_paths() {
    assert!(game_type(&game::info(Game::SkyrimVr)) == Some(LootGame::SkyrimVR));
    assert_eq!(game_data_path(LootGame::SkyrimSE), v(&["Data"]));
    assert_eq!(choose_game_path(Some("/l".into()), Some("/m".into())), Ok(("/l".to_string(), "LOOT settings".to_string())));
    assert_eq!(choose_game_path(None, Some("/m".into())), Ok(("/m".to_string(), "MO2 ModOrganizer.ini".to_string())));
    assert_eq!(
        choose_game_path(None, None),
        Err("no usable game install path in LOOT or MO2 - libloot compare skipped".to_string())
    );
    assert!(!mo2_game_path("[General]\ngamePath=@ByteArray(D:\\\\Games\\\\Skyrim)\n").is_empty());
    for g in game::CATALOG {
        assert!(game::from_key(game::key(g)) == Some(g));
    }
    assert!(game::from_key("AUTO").is_none() && game::from_key("nothing").is_none());
}

// ---- the masterlist ----

#[test]
fn dates_of_seconds() {
    assert_eq!(today_utc(0), "1970-01-01");
    assert_eq!(today_utc(951_782_400), "2000-02-29");
    assert_eq!(today_utc(1_735_689_599), "2024-12-31");
    assert_eq!(today_utc(4_107_542_400), "2100-03-01");
}

#[test]
fn hashes_and_sources() {
    let hash = "0123456789ABCDEF0123456789abcdef01234567";
    assert_eq!(
        sha1_from_certutil(&format!("SHA1 hash of file:\n01 23 {}\nCertUtil done\n", &hash[4..])),
        Ok(hash.to_ascii_lowercase())
    );
    assert_eq!(
        sha1_from_certutil("nothing"),
        Err("certutil returned no SHA-1 for downloaded masterlist".to_string())
    );
    assert!(check_source("https://example.invalid/list").is_ok());
    assert!(check_source("http://example.invalid/list").is_err());
}

#[test]
fn updates_of_the_masterlist() {
    let hash = "0123456789abcdef0123456789abcdef01234567";
    let good = format!("plugins:\n{}", "x".repeat(600));
    let u = update_masterlist("https://a", &good, hash, 0).unwrap();
    assert_eq!(u.revision, hash);
    assert_eq!(u.backup, "masterlist.yaml.modslut-backup-1970-01-01-0");
    assert_eq!(u.metadata, format!("blob_sha1 = '{hash}'\nupdate_timestamp = '1970-01-01'\n"));
    assert!(update_masterlist("ftp://a", &good, hash, 0).is_err());
    assert_eq!(
        update_masterlist("https://a", "plugins:", hash, 0).err(),
        Some("download did not look like a LOOT masterlist; existing file was kept".to_string())
    );
    assert!(update_masterlist("https://a", &good, "no hash", 0).is_err());
    let status = masterlist_status(
        Some(&u.metadata),
        Some("Skyrim VR"),
        Some("[[games]]\nfolder = 'Other'\nmasterlistSource = 'https://o'\n[[games]]\nfolder = \"skyrim vr\"\nmasterlistSource = \"https://m\"\n"),
    );
    assert_eq!(status.revision.as_deref(), Some(hash));
    assert_eq!(status.updated.as_deref(), Some("1970-01-01"));
    assert_eq!(status.source.as_deref(), Some("https://m"));
}

#[test]
fn install_paths_of_games() {
    let toml = "[[games]]\ngameId = 'SkyrimVR'\npath = 'D:/VR'\n[[games]]\nfolder = 'Skyrim VR'\npath = 'E:/VR'\n";
    assert_eq!(game_install_path(Some(toml), None, &game::info(Game::SkyrimVr)), v(&["D:/VR", "E:/VR"]));
    assert!(game_install_path(None, None, &game::info(Game::SkyrimVr)).is_empty());
}

#[test]
fn masterlists_are_read() {
    let text = "plugins:\n  - name: 'a.esp'\n    after:\n      - 'b.esp'\n";
    assert_eq!(read_masterlist(text).unwrap().after.get("a.esp"), Some(&v(&["b.esp"])));
    assert_eq!(parse_masterlist(text).after.len(), 1);
}

// ---- profile files ----

#[test]
fn notes_are_added_and_cleared() {
    let one = metadata::append(None, Kind::Requirement, "My Mod", "Some\tOther").unwrap();
    let two = metadata::append(Some(&one), Kind::Message, "My Mod", "careful").unwrap();
    let m = HumanMetadata::load(Some(&two), "/p");
    assert_eq!(m.values("my mod", Kind::Requirement), v(&["Some Other"]));
    assert_eq!(m.values("MY-MOD", Kind::Message), v(&["careful"]));
    assert!(m.values("My Mod", Kind::Incompatibility).is_empty());
    let gone = metadata::clear_for(Some(&two), "My Mod").unwrap();
    assert!(HumanMetadata::load(Some(&gone), "/p").values("My Mod", Kind::Message).is_empty());
    assert!(metadata::clear_for(Some(&gone), "My Mod").is_none());
    assert!(metadata::append(None, Kind::Message, "My Mod", "  ").is_none());
    assert!(metadata::append(Some(&two), Kind::Message, "My Mod", "careful").is_none());
    assert!(metadata::append(Some(&two), Kind::Message, "MY MOD", "Careful ").is_none());
}

#[test]
fn homes_are_learned_and_forgotten() {
    let (n, text) = learning::learn_section(None, "Armor", &v(&["Steel Plate", "Iron"]));
    assert_eq!(n, 2);
    let text = text.unwrap();
    let index = LearningIndex::observe(Some(&text), None, "");
    assert_eq!(index.destination("steel plate", &v(&["Body", "ARMOR"])), Some("ARMOR".to_string()));
    assert_eq!(learning::learn_section(Some(&text), "Armor", &v(&["Iron"])).0, 0);
    assert_eq!(learning::learn_section(Some(&text), "Armor", &v(&["Steel Plate", "Iron"])), (0, Some(text.clone())));
    let (changed, moved) = learning::learn_section(Some(&text), "Body", &v(&["Iron", "IRON", "Ring", "--"]));
    assert_eq!(changed, 2);
    let index = LearningIndex::observe(moved.as_deref(), None, "");
    assert_eq!(index.destination("Iron", &v(&["Armor", "Body"])), Some("Body".to_string()));
    assert_eq!(index.destination("Steel Plate", &v(&["Armor", "Body"])), Some("Armor".to_string()));
    let left = learning::forget_home(Some(&text), "Steel Plate").unwrap();
    let index = LearningIndex::observe(Some(&left), None, "");
    assert_eq!(index.destination("Steel Plate", &v(&["Armor"])), None);
    assert_eq!(index.destination("Iron", &v(&["Armor"])), Some("Armor".to_string()));
    assert!(learning::forget_home(Some(&left), "Steel Plate").is_none());
    assert_eq!(index.notes(), "manual-learning: 1 saved profile home(s) active\n");
    assert_eq!(learning::pins_note(0), "");
    let mut taught = LearningIndex::observe(None, None, "");
    let (pins, saved) = taught.learn_profile_pins(&v(&["!Iron = armor\n^Steel = Nowhere\n"]), &v(&["Armor"]));
    assert_eq!(pins, 1);
    let mut later = LearningIndex::observe(saved.as_deref(), None, "");
    assert!(later.learn_profile_pins(&Vec::new(), &v(&["Armor"])) == (0, None));
    assert_eq!(later.destination("iron", &v(&["Armor"])), Some("Armor".to_string()));
    assert!(learning::pins_note(3).starts_with("manual-learning: learned 3 explicit profile pin(s)"));
    assert_eq!(learning::learn_section(None, "Outputs", &v(&["X"])).0, 0);
}

#[test]
fn links_round_trip() {
    let labels = v(&["Early", "Late", "Last"]);
    let edges = pairs(&[("Late", "Early"), ("Last", "Late")]);
    assert_eq!(groups::parse(&groups::save(&edges), &labels), edges);
    assert!(groups::parse(&groups::clear(), &labels).is_empty());
    let mut links = edges.clone();
    assert!(groups::add_link(&mut links, "Last", "Early") && groups::add_link(&mut links, "Last", "Early"));
    assert!(!groups::add_link(&mut links, "Last", "Last") && !groups::add_link(&mut links, "", "Last"));
    assert_eq!(links, pairs(&[("Late", "Early"), ("Last", "Late"), ("Last", "Early")]));
    let (found, created) = groups::load_or_create(None, &labels);
    assert!(found.is_empty() && created.is_some());
    assert_eq!(groups::import_for_profile("[after]\nLate = Early\nGhost = Early\n", &labels).0, 1);
}

#[test]
fn the_manifest_is_refreshed_once() {
    let source = "# h\n+A\n-B\n+S_separator\n";
    let (m, text) = priority_manifest::load_or_refresh(None, 42, source);
    assert!(m.refreshed);
    assert_eq!(m.priorities.get("a"), Some(&3));
    let text = text.unwrap();
    let (again, none) = priority_manifest::load_or_refresh(Some(&text), 42, source);
    assert!(!again.refreshed && none.is_none());
    assert_eq!(again.priorities.get("b"), Some(&2));
    assert!(priority_manifest::load_or_refresh(Some(&text), 43, source).0.refreshed);
}

#[test]
fn references_are_imported() {
    let (text, rows) = reference::import_source(None, "/src.txt", "# h\n+A\n+Armor_separator\n+B\n+End of List_separator\n");
    assert_eq!(rows, 1);
    let index = ReferenceIndex::load(Some(&text));
    assert_eq!(index.source_count(), 1);
    assert_eq!(index.destination("a", &v(&["Armor"])), Some(("Armor".to_string(), 92)));
    assert_eq!(index.destination("b", &v(&["Armor"])), None);
}

#[test]
fn reviewed_concepts_are_mapped() {
    let text = section_map::roadmap_text(&v(&["Armor & Clothing", "Weapons", "End of List"]));
    let saved = section_map::save_reviewed_mapping(&text, "Combat", "Weapons").unwrap();
    let map = section_map::parse_roadmap(&saved);
    assert_eq!(map.explicit_destination_for("combat"), Some("Weapons"));
    let labels = v(&["Armor & Clothing", "Weapons", "End of List"]);
    assert_eq!(map.destinations(&labels), v(&["Armor & Clothing", "Weapons"]));
    let shown = section_map::parse_roadmap("[context]\nWeapons\n");
    assert_eq!(shown.context_of(&labels), v(&["Weapons"]));
    assert!(section_map::save_reviewed_mapping("no sections\n", "Combat", "Weapons").is_none());
    let rows = section_map::parse_roadmap("[map]\nmagic = Spells\nCombat = Weapons\nai = A\nAI = B\nbody = Bodies\n");
    assert_eq!(
        rows.reviewed_mappings(),
        pairs(&[("body", "Bodies"), ("combat", "Weapons"), ("magic", "Spells")])
    );
    assert_eq!(rows.mapping_count(), 3);
    assert_eq!(rows.explicit_destination_for("Magic"), Some("Spells"));
    assert!(rows.branch_destinations_for("magic").is_none());
    assert_eq!(rows.branch_destinations_for("AI").map(|d| d.to_vec()), Some(v(&["A", "B"])));
    assert_eq!(section_map::import_for_profile("[map]\ncombat = Weapons\n", &v(&["Weapons"])), Ok(1));
    assert_eq!(
        section_map::import_for_profile("[map]\ncombat = Nowhere\n", &v(&["Weapons"])),
        Err("pack names separators this profile does not have: Nowhere".to_string())
    );
}

// ---- edits ----

#[test]
fn disabling_a_mod() {
    assert_eq!(disable_mod("# h\n+A\n  +B\n+B\n", "B"), Some("# h\n+A\n-B\n+B\n".to_string()));
    assert_eq!(disable_mod("# h\n-A\n", "A"), None);
}

#[test]
fn a_new_pin_replaces_the_old_one() {
    let text = "# mine\n!Mod = Old\n^MOD = Old\n>Mod = Other\n";
    let got = append_user_rule(text, "!Mod = New");
    assert_eq!(got, "# mine\n>Mod = Other\n!Mod = New\n");
    assert_eq!(rules(&got).exact, pairs(&[("Mod", "New")]));
    assert_eq!(append_user_rule("", "!A = B"), "\n!A = B\n");
}

#[test]
fn rules_about_a_mod_are_cleared() {
    let text = "!A = S\n>B = A\n>C = B\nword = A\n";
    assert_eq!(clear_rules(text, "a"), Some(">C = B\nword = A\n".to_string()));
    assert_eq!(clear_rules("word = A\n", "A"), None);
    assert_eq!(ordering_rule("L", "E"), ">L = E");
    let edges = v(&[">Mod = X", ">Y = Mod"]);
    assert_eq!(pending(&edges, "Mod", true), vec![(0, "X".to_string())]);
    assert_eq!(pending(&edges, "Mod", false), vec![(1, "Y".to_string())]);
}

// ---- plugin order ----

#[test]
fn plugin_orders_that_disagree_are_held() {
    let text = "# p\n*B.esp\n-off.esp\n*A.esp\n";
    assert_eq!(
        plugin_order_preview(text, &v(&["a.esp", "b.esp"])),
        Ok(("# p\n*A.esp\n-off.esp\n*B.esp\n".to_string(), 2))
    );
    assert_eq!(
        plugin_order_preview(text, &v(&["a.esp"])).err(),
        Some("libloot order and plugins.txt active entries disagree; not preparing a plugin write".to_string())
    );
    assert_eq!(plugin_order(text), v(&["b.esp", "a.esp"]));
}

#[test]
fn plugins_are_projected_onto_mods() {
    let owners = vec![owner("Base", "S", "base.esm"), owner("Patch", "S", "patch.esp"), owner("Patch", "S", "more.esp")];
    let owned = owner_of_plugin(&owners);
    assert_eq!(owned.get("more.esp").unwrap(), "Patch");
    let sorted = v(&["base.esm", "patch.esp", "more.esp"]);
    let ranks = mod_ranks(&owners, &sorted);
    assert_eq!((ranks.get("Base"), ranks.get("Patch")), (Some(&0), Some(&2)));
    let mut masters: TextMap<Vec<String>> = TextMap::new();
    masters.insert("patch.esp".into(), v(&["base.esm", "ccgift.esl", "more.esp"]));
    let deps = mod_dependencies(&owned, &masters);
    assert_eq!(deps.get("Patch").unwrap(), &v(&["Base"]));
    let mut indexes: TextMap<String> = TextMap::new();
    indexes.insert("patch.esp".into(), "01".into());
    indexes.insert("more.esp".into(), "02".into());
    assert_eq!(indexes_by_owner(&owners, &indexes).get("Patch").unwrap(), "01, 02");
    let rows = plugin_rows(&sorted, &indexes, "*Patch.esp\n", &owned);
    assert_eq!((rows[1].position, rows[1].index.as_str(), rows[1].name.as_str()), (2, "01", "Patch.esp"));
    assert_eq!(rows[0].owner.as_deref(), Some("Base"));
    assert!(row_matches(&rows[1], "patch") && row_matches(&rows[0], "BASE") && !row_matches(&rows[0], "zzz"));
}

// ---- the window ----

#[test]
fn the_list_as_it_is_shown() {
    let text = "# h\n+A\n-B\n+S_separator\n*C\n+T_separator\n";
    let ml = parse(text);
    assert_eq!(layout(&ml), vec![("S".to_string(), v(&["A", "B"])), ("T".to_string(), v(&["C"]))]);
    assert_eq!(enabled(&ml), pairs(&[("A", "S")]));
    let (priorities, states, separators) = mo2_priority_view(text);
    assert!(priorities.get("A").is_some() && separators.get("S").is_some());
    assert!(states.get("A") != states.get("B"));
    assert_eq!(top_mod(&layout(&ml), &v(&["T"])), Some(("B".to_string(), "S".to_string())));
    assert_eq!(parked_names(&parse("# h\n+X\n# note\n*Y\n")), v(&["X", "Y"]));
    let mut other = parse(text);
    let mut ranks: TextMap<usize> = TextMap::new();
    ranks.insert("a".into(), 1);
    ranks.insert("b".into(), 2);
    arrange_by_priority(&mut other, &ranks);
    assert_eq!(layout(&other)[0].1, v(&["B", "A"]));
}

#[test]
fn searching_and_picking() {
    let sections = vec![("Armor".to_string(), v(&["Steel", "Iron"])), ("Magic".to_string(), v(&["Steel Staff"]))];
    let parked = v(&["Steel Box"]);
    let terms = search_terms(&sections, &parked);
    assert_eq!(terms.get("Steel Staff").unwrap(), "steel staff");
    assert_eq!(candidates(&sections, &parked, "Steel", "STEEL"), v(&["Steel Box", "Steel Staff"]));
    assert_eq!(section_matches(&v(&["Armor", "Magic"]), "mag"), v(&["Magic"]));
    let plan = vec![
        Change { kind: ChangeKind::Move, name: "A".into(), detail: "".into(), section: "S".into() },
        Change { kind: ChangeKind::Warn, name: "A".into(), detail: "".into(), section: "S".into() },
    ];
    assert_eq!(change_map(&plan).get("A").unwrap(), &vec![0usize, 1]);
    assert_eq!(kind_tag(ChangeKind::Move).trim().is_empty(), false);
}

#[test]
fn cards_and_messages() {
    assert_eq!(
        mod_card("M", "S", &v(&["a.esp", "b.esp"]), Some("Nexus mod 5"), &v(&["Relev"])),
        "Mod: M\nSection: S\nPlugin(s): a.esp, b.esp\nSource: Nexus mod 5\nBash Tags: Relev"
    );
    assert_eq!(plugin_card("a.esp", None, None, &Vec::new()), "Plugin: a.esp\nMO2 owner: Game Folder");
    assert_eq!(metadata_card(Some("x"), &v(&["T"])), "Source: x\nBash Tags: T");
    let pieces = message_pieces("see [docs](https://d) now");
    assert!(matches!(&pieces[0], Piece::Text(t) if t.contains("see")));
    assert!(pieces.iter().any(|p| matches!(p, Piece::Link(l, u) if l == "docs" && u == "https://d")));
}

#[test]
fn sources_of_mods() {
    assert_eq!(
        source_from_meta("[General]\nurl=https://www.NexusMods.com/x\nmodid=3\n"),
        Some("https://www.NexusMods.com/x".to_string())
    );
    assert_eq!(source_from_meta("repository=Nexus\nmodid=12\n"), Some("Nexus mod 12".to_string()));
    assert_eq!(source_from_meta("repository=Nexus\nmodid=-1\n"), None);
    assert_eq!(source_from_meta("repository=Nexus\nmodid=0\n"), None);
    assert_eq!(source_from_meta("modid=12\n"), None);
}

#[test]
fn what_the_status_says() {
    let quiet = Notes {
        categories: true,
        user_files: 0,
        pairs: None,
        scanning: false,
        warnings: 0,
        log: None,
        roadmap: None,
    };
    assert_eq!(preview_status(0, false, &quiet), "list's already clean (mo2 categories loaded)");
    let busy = Notes {
        categories: false,
        user_files: 2,
        pairs: Some(9),
        scanning: false,
        warnings: 1,
        log: Some("/l".into()),
        roadmap: Some("made".into()),
    };
    assert_eq!(
        preview_status(3, false, &busy),
        "3 change(s) ready (no mo2 categories found - keyword rules only) + 2 user rules file(s) + 9 conflict pair(s) + 1 warning(s) · log: /l · made - review, then apply if it looks good"
    );
    assert!(preview_status(0, true, &quiet).starts_with("plugin order preview ready"));
}

// ---- preferences and themes ----

#[test]
fn preferences_round_trip() {
    let mut values = settings::read_config(&v(&["a=1\n b = 2 \n# note\n", "a=9\nc=3\n"]));
    assert_eq!(values.get("a").unwrap(), "1");
    assert_eq!(values.get("c").unwrap(), "3");
    settings::save_settings(&mut values, "16".into(), Some(Game::Starfield), "Winterpine");
    let text = settings::write_config(&values);
    let again = settings::read_config(&vec![text]);
    assert_eq!(again.get("b").unwrap(), "2");
    assert_eq!(again.get("font_size").unwrap(), "16");
    assert!(settings::default_game(&again) == Some(Game::Starfield));
    assert_eq!(settings::theme_name(&again), "Winterpine");
    assert!(!settings::user_rules_only(&again));
    let old = settings::read_config(&v(&["theme=SkyGen Blue\nuser_rules_only=1\n"]));
    assert_eq!(settings::theme_name(&old), "Skybound Nebula");
    assert!(settings::user_rules_only(&old));
}

#[test]
fn colors_of_themes() {
    let color = |r: u8, g: u8, b: u8, a: u8| Some(Color { r, g, b, a });
    assert_eq!(theme_color("\"#18263ACD\""), color(0x18, 0x26, 0x3a, 0xcd));
    assert_eq!(theme_color("#fa0"), color(0xff, 0xaa, 0x00, 0xff));
    assert_eq!(theme_color("0D1625"), color(0x0d, 0x16, 0x25, 0xff));
    assert_eq!(theme_color("#12345"), None);
    assert_eq!(theme_color("#gggggg"), None);
    let (white, black) = (Color { r: 255, g: 255, b: 255, a: 255 }, Color { r: 0, g: 0, b: 0, a: 255 });
    assert_eq!(blend_theme_color(white, black, 100).r, 255);
    assert_eq!(blend_theme_color(white, black, 0).r, 0);
}

#[test]
fn theme_packs_are_read_back() {
    let text = theme_config("Ember Coast", "ember.png", "#312525CD|#1C171C|#DC7C42|#322424E8|#5B3B32").unwrap();
    let pack = load_theme_pack(&text).unwrap();
    assert_eq!(pack.name, "Ember Coast");
    assert_eq!(pack.background.as_deref(), Some("ember.png"));
    assert_eq!(pack.accent, theme_color("#DC7C42"));
    assert_eq!(pack.selected, theme_color("#5B3B32"));
    assert!(theme_config("x", "y", "#fff|#000").is_none());
    assert!(load_theme_pack("[theme]\n").is_none());
}

#[test]
fn style_sheets_become_packs() {
    let sheet = "QWidget {\n color: #eeeeee;\n background-color: #101010;\n selection-background-color: #4A90E2;\n}\nb { background: url('img/back.png'); }";
    assert_eq!(qss_hex_colours(sheet), v(&["#eeeeee", "#101010", "#4A90E2"]));
    assert_eq!(qss_property_colours(sheet, "selection-background-color"), v(&["#4A90E2"]));
    assert_eq!(qss_background(sheet).as_deref(), Some("img/back.png"));
    let imported = import_mo2_qss("dark_blue-theme", sheet, Some("background.png"));
    assert_eq!(imported.name, "dark blue theme");
    assert_eq!(imported.folder, "dark_blue_theme");
    assert!(imported.config.contains("background_image = \"background.png\"\n"));
    assert!(imported.config.contains("accent = \"#4A90E2\"\n"));
    let pack = qss_theme_pack(sheet, "M".into());
    assert_eq!(pack.selected, theme_color("#4A90E2"));
    assert_eq!(active_style("[Settings]\n style= dark.qss \n").as_deref(), Some("dark.qss"));
    assert_eq!(mirror_name("dark.qss"), "MO2 Mirror — dark");
}
