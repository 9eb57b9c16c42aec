use modslut::conflicts::ConflictIndex;
use modslut::content_index::facts_for;
use modslut::game::{detect_from_plugins, detect_with_default, info, Game};
use modslut::groups;
use modslut::keys::squeeze;
use modslut::learning::{placements, LearningIndex};
use modslut::loot::{group_ranks, parse_masterlist, LootData};
use modslut::map::TextMap;
use modslut::masterlist::folders_from_settings;
use modslut::plugin_order::plugin_order_preview;
use modslut::plugins::{parse_plugin_bytes, record_keyword_ids, scan_bytes_records, PluginInfo};
use modslut::priority_manifest;
use modslut::record_keywords::{self, RecordKeywords};
use modslut::reference::{operational_section, ReferenceIndex};
use modslut::section_map::{
    has_phrase, parse_roadmap, roadmap_text, save_multi_destination, save_reviewed_mapping, SectionMap,
};
use modslut::settings::read_selected_profile;

// ---- conflicts ----

#[test]
fn winner_is_higher_priority() {
    let active = vec!["PatchMod".to_string(), "BaseMod".to_string()];
    let files = |names: &[&str]| names.iter().map(|n| n.to_string()).collect::<Vec<String>>();
    let mods = vec![
        (0usize, files(&["textures/a.dds", "textures/b.dds", "textures/c.dds", "meta.ini"])),
        (1usize, files(&["textures/a.dds", "textures/b.dds", "textures/c.dds"])),
    ];
    let ci = ConflictIndex::build(&active, &mods);
    assert_eq!(ci.shared("BaseMod", "PatchMod"), Some(("PatchMod", 3)));
    assert_eq!(ci.shared("PatchMod", "Nope"), None);

    let re = ConflictIndex::load(&ci.save());
    assert_eq!(re.shared("BaseMod", "PatchMod"), Some(("PatchMod", 3)));
}

// ---- content index ----

fn content(plugin: &str, masters: &[&str], record_count: u32, records: &[(&str, u32)], keywords: &[(&str, u32)]) -> PluginInfo {
    let counts = |v: &[(&str, u32)]| v.iter().map(|(n, c)| (n.to_string(), *c)).collect::<Vec<(String, u32)>>();
    PluginInfo {
        plugin: plugin.into(),
        masters: masters.iter().map(|m| m.to_string()).collect(),
        is_esm: false,
        is_esl: false,
        record_count,
        groups: vec![],
        records: counts(records),
        keywords: counts(keywords),
    }
}

#[test]
fn npc_appearance_beats_a_generic_npc_fact() {
    let info = content("faces.esp", &[], 0, &[("NPC_", 12), ("HDPT", 12), ("TXST", 12)], &[]);
    let facts = facts_for(&[info], &RecordKeywords::load(None));
    assert_eq!(
        facts.first().map(|fact| fact.concept.as_str()),
        Some("npc-appearance")
    );
}

#[test]
fn multiple_non_base_masters_only_mark_compatibility() {
    let info = content("patch.esp", &["skyrim.esm", "lux.esp", "city.esp"], 0, &[], &[]);
    assert!(facts_for(&[info], &RecordKeywords::load(None))
        .iter()
        .any(|fact| fact.concept == "compatibility"));
}

#[test]
fn one_tiny_patch_edit_does_not_become_a_content_category() {
    let info = content("tiny.esp", &[], 0, &[("NPC_", 1), ("ARMO", 1), ("CELL", 1)], &[]);
    assert!(facts_for(&[info], &RecordKeywords::load(None)).is_empty());
}

#[test]
fn skygen_ported_armor_keyword_needs_a_real_armor_body_for_routing_confidence() {
    let info = content(
        "armor.esp",
        &["skyrim.esm"],
        1,
        &[("ARMO", 4)],
        &[("skyrim.esm|0006bbd2", 1), ("skyrim.esm|0006c0ec", 1)],
    );
    let facts = facts_for(&[info], &RecordKeywords::load(None));
    assert!(facts
        .iter()
        .any(|fact| { fact.concept == "equipment-armor-heavy" && fact.confidence == 96 }));
    assert!(facts.iter().any(|fact| fact.concept == "equipment-armor"));
}

#[test]
fn one_off_vanilla_armor_keyword_stays_a_hint() {
    let info = content("patch.esp", &["skyrim.esm"], 1, &[("ARMO", 1)], &[("skyrim.esm|0006bbd2", 1)]);
    let facts = facts_for(&[info], &RecordKeywords::load(None));
    assert!(facts
        .iter()
        .any(|fact| { fact.concept == "equipment-armor-heavy" && fact.confidence == 55 }));
}

// ---- game ----

fn p(v: &[&str]) -> Vec<String> {
    v.iter().map(|s| s.to_string()).collect()
}

#[test]
fn detects_every_distinct_root_master() {
    assert_eq!(detect_from_plugins(&p(&["SkyrimVR.esm"])), Game::SkyrimVr);
    assert_eq!(detect_from_plugins(&p(&["Skyrim.esm"])), Game::SkyrimSe);
    assert_eq!(
        detect_from_plugins(&p(&["Fallout4VR.esm"])),
        Game::Fallout4Vr
    );
    assert_eq!(detect_from_plugins(&p(&["Fallout4.esm"])), Game::Fallout4);
    assert_eq!(detect_from_plugins(&p(&["FalloutNV.esm"])), Game::FalloutNv);
    assert_eq!(detect_from_plugins(&p(&["Fallout3.esm"])), Game::Fallout3);
    assert_eq!(detect_from_plugins(&p(&["Morrowind.esm"])), Game::Morrowind);
    assert_eq!(detect_from_plugins(&p(&["Starfield.esm"])), Game::Starfield);
}

#[test]
fn preference_only_fills_an_unknown_census() {
    assert_eq!(
        detect_with_default(&p(&["random.esp"]), Some(Game::OpenMw)).game,
        Game::OpenMw
    );
    assert_eq!(
        detect_with_default(&p(&["Fallout4.esm"]), Some(Game::OpenMw)).game,
        Game::Fallout4
    );
    assert_eq!(
        detect_with_default(&p(&["Skyrim.esm"]), Some(Game::Skyrim)).game,
        Game::Skyrim
    );
    assert_eq!(
        detect_with_default(&p(&["Oblivion.esm"]), Some(Game::OblivionRemastered)).game,
        Game::OblivionRemastered
    );
}

// ---- groups ----

#[test]
fn ignores_unknown_and_self_edges() {
    let got = groups::parse(
        "[after]\nLate = Early\nGhost = Early\nEarly = Early\n",
        &["Early".into(), "Late".into()],
    );
    assert_eq!(got, vec![("Late".into(), "Early".into())]);
}

// ---- learning ----

#[test]
fn changed_section_is_a_manual_correction() {
    let before = "# This file was automatically generated by Mod Organizer.\n+A\n+Old_separator\n+End of List_separator\n";
    let after = "# This file was automatically generated by Mod Organizer.\n+A\n+New_separator\n+End of List_separator\n";
    let old = placements(before);
    let new = placements(after);
    assert_ne!(
        old.get("a").map(|p| &p.section),
        new.get("a").map(|p| &p.section)
    );
}

#[test]
fn profile_pin_is_a_durable_learned_home() {
    let mut learning = LearningIndex::observe(None, None, "");
    let (learned, saved) =
        learning.learn_profile_pins(&vec!["!A Mod = A Section\n".to_string()], &["A Section".into()]);
    assert_eq!(learned, 1);
    assert_eq!(
        learning.destination("A Mod", &["A Section".into()]),
        Some("A Section".into())
    );
    let saved = saved.unwrap();
    assert_eq!(
        LearningIndex::observe(Some(&saved), None, "").destination("A Mod", &["A Section".into()]),
        Some("A Section".into())
    );
}

// ---- LOOT masterlists ----

#[test]
fn parses_plain_and_mapped_afters() {
    let yaml = "globals: []\nplugins:\n  - name: 'A.esp'\n    after:\n      - 'B.esp'\n      - name: 'C.esp'\n  - name: 'D.esp'\n";
    let m = parse_masterlist(yaml);
    assert_eq!(
        m.after.get("a.esp").unwrap(),
        &vec!["b.esp".to_string(), "c.esp".to_string()]
    );
    assert!(!m.after.contains_key("d.esp"));
}

#[test]
fn settings_yaml_maps_game_type_to_folder() {
    let settings = "games:\n  - type: SkyrimVR\n    folder: Skyrim VR\n    path: 'C:\\Games\\SkyrimVR'\n  - type: Fallout4\n    folder: Fallout4\n";
    let folders = folders_from_settings(settings, &info(Game::SkyrimVr));
    assert_eq!(folders, vec!["Skyrim VR".to_string()]);
}

#[test]
fn skips_regex_and_conditional() {
    let yaml = "plugins:\n  - name: 'Patch.*\\.esp'\n    after:\n      - 'B.esp'\n  - name: 'E.esp'\n    after:\n      - name: 'F.esp'\n        condition: 'active(\"X.esp\")'\n";
    let m = parse_masterlist(yaml);
    assert!(m.after.len() == 0, "got {} rows", m.after.len());
}

#[test]
fn parses_before_and_group_metadata_without_turning_groups_into_plugins() {
    let yaml = "groups:\n  - name: &defaultGroup default\n  - name: &lateGroup late\n    after: [*defaultGroup]\nplugins:\n  - name: 'Base.esp'\n    group: *defaultGroup\n  - name: 'Patch.esp'\n    group: *lateGroup\n    before: ['Later.esp']\n";
    let m = parse_masterlist(yaml);
    assert_eq!(m.groups.get("base.esp"), Some(&"default".to_string()));
    assert_eq!(m.groups.get("patch.esp"), Some(&"late".to_string()));
    assert_eq!(
        m.group_after.get("late"),
        Some(&vec!["default".to_string()])
    );
    assert_eq!(
        m.after.get("later.esp"),
        Some(&vec!["patch.esp".to_string()])
    );
}

#[test]
fn group_ranks_follow_after_edges_and_keep_declaration_ties_stable() {
    let mut group_after = TextMap::new();
    group_after.insert("late".into(), vec!["base".to_string()]);
    let data = LootData {
        after: TextMap::new(),
        groups: TextMap::new(),
        group_after,
        group_order: vec!["base".into(), "side".into(), "late".into()],
        path: String::new(),
    };
    let ranks = group_ranks(&data);
    let rank = |name: &str| *ranks.get(name).unwrap();
    assert!(rank("base") < rank("late"));
    assert!(rank("base") < rank("side"));
}

// ---- plugins ----

fn fake_plugin() -> Vec<u8> {
    let mut data = Vec::new();
    data.extend_from_slice(b"HEDR");
    data.extend_from_slice(&12u16.to_le_bytes());
    data.extend_from_slice(&1.7f32.to_le_bytes());
    data.extend_from_slice(&42u32.to_le_bytes());
    data.extend_from_slice(&0u32.to_le_bytes());
    for m in ["skyrim.esm\0", "update.esm\0"] {
        data.extend_from_slice(b"MAST");
        data.extend_from_slice(&(m.len() as u16).to_le_bytes());
        data.extend_from_slice(m.as_bytes());
    }
    let mut out = Vec::new();
    out.extend_from_slice(b"TES4");
    out.extend_from_slice(&(data.len() as u32).to_le_bytes());
    out.extend_from_slice(&0x1u32.to_le_bytes());
    out.extend_from_slice(&[0u8; 12]);
    out.extend_from_slice(&data);
    for label in [b"WEAP", b"NPC_", b"WEAP"] {
        out.extend_from_slice(b"GRUP");
        out.extend_from_slice(&24u32.to_le_bytes());
        out.extend_from_slice(label);
        out.extend_from_slice(&0i32.to_le_bytes());
        out.extend_from_slice(&[0u8; 8]);
    }
    out
}

#[test]
fn parses_masters_flags_and_census() {
    let bytes = fake_plugin();
    let info = parse_plugin_bytes(&bytes, "test.esp").unwrap();
    assert_eq!(info.masters, vec!["skyrim.esm", "update.esm"]);
    assert!(info.is_esm);
    assert!(!info.is_esl);
    assert_eq!(info.record_count, 42);
    assert_eq!(
        info.groups,
        vec![("WEAP".to_string(), 2), ("NPC_".to_string(), 1)]
    );
    assert!(info.records.is_empty());
}

#[test]
fn parses_the_light_flag_on_an_esl_plugin() {
    let mut bytes = fake_plugin();
    bytes[8..12].copy_from_slice(&(0x1u32 | 0x200).to_le_bytes());
    let info = parse_plugin_bytes(&bytes, "test.esl").unwrap();
    assert!(info.is_esm);
    assert!(info.is_esl);
}

#[test]
fn counts_actual_record_headers_inside_groups() {
    let mut bytes = Vec::new();
    bytes.extend_from_slice(b"WEAP");
    bytes.extend_from_slice(&0u32.to_le_bytes());
    bytes.extend_from_slice(&[0u8; 16]);
    let mut pos = 0;
    let mut records = Vec::new();
    let mut keywords = Vec::new();
    scan_bytes_records(
        &bytes,
        &mut pos,
        bytes.len(),
        0,
        &mut records,
        &vec![],
        &mut keywords,
    );
    assert_eq!(records, vec![("WEAP".to_string(), 1)]);
}

#[test]
fn resolves_kwda_ids_against_plugin_masters() {
    let mut data = Vec::new();
    data.extend_from_slice(b"KWDA");
    data.extend_from_slice(&8u16.to_le_bytes());
    data.extend_from_slice(&0x0006_BBD2u32.to_le_bytes());
    data.extend_from_slice(&0x0006_C0ECu32.to_le_bytes());
    let mut keywords = Vec::new();
    record_keyword_ids(&data, 0, &vec!["skyrim.esm".into()], &mut keywords);
    assert_eq!(
        keywords,
        vec![
            ("skyrim.esm|0006bbd2".into(), 1),
            ("skyrim.esm|0006c0ec".into(), 1),
        ]
    );
}

// ---- priorities ----

#[test]
fn visible_mo2_order_starts_at_one_and_separators_count() {
    let source = "# header\n+High\n-Low\n+Section_separator\n";
    let rows = priority_manifest::list_rows(source);
    let priorities = priority_manifest::count_rows(&rows);
    assert_eq!(priorities.get("high"), Some(&3));
    assert_eq!(priorities.get("low"), Some(&2));
    assert_eq!(priorities.get("section_separator"), Some(&1));
    let visible: Vec<&String> = rows.iter().rev().collect();
    assert_eq!(visible[0], "+Section_separator");
    assert_eq!(visible[1], "-Low");
}

// ---- record keywords ----

#[test]
fn parses_skygen_style_keyword_evidence() {
    let rules = record_keywords::parse(
        "filterByKeywords=Skyrim.esm|0006BBD2:concept=equipment-armor-heavy:confidence=96",
    );
    let rule = &rules.get("skyrim.esm|0006bbd2").unwrap()[0];
    assert_eq!(rule.concept, "equipment-armor-heavy");
    assert_eq!(rule.confidence, 96);
}

// ---- references ----

#[test]
fn only_unanimous_existing_section_wins() {
    let mut entries = TextMap::new();
    entries.insert(squeeze("A Mod"), vec!["Whiterun".to_string(), "Whiterun".to_string()]);
    entries.insert(squeeze("B Mod"), vec!["Whiterun".to_string(), "Riften".to_string()]);
    let index = ReferenceIndex { entries };
    let sections = vec!["Whiterun".to_string(), "Riften".to_string()];
    assert_eq!(
        index.destination("A Mod", &sections),
        Some(("Whiterun".into(), 99))
    );
    assert_eq!(index.destination("B Mod", &sections), None);
}

#[test]
fn operational_sections_never_become_reference_evidence() {
    assert!(operational_section("End of List"));
    assert!(operational_section("Outputs"));
    assert!(!operational_section("Whiterun"));
}

// ---- separator roadmaps ----

#[test]
fn maps_explicit_label_concepts_and_protects_operational_rows() {
    let labels: Vec<String> = vec![
        "Ya Filthy Animal - NSFW".into(),
        "Combat & Magic".into(),
        "Outputs".into(),
        "End of List".into(),
    ];
    let map = roadmap_text(&labels);
    assert!(map.contains("nsfw = Ya Filthy Animal - NSFW"));
    assert!(map.contains("combat = Combat & Magic"));
    assert!(map.contains("magic = Combat & Magic"));
    assert!(map.contains("[protected]\nOutputs\nEnd of List"));
    assert!(!map.contains("output = Outputs"));
    assert!(!has_phrase("Main Files", "ai"));
}

#[test]
fn category_needs_one_clear_roadmap_destination() {
    let mut mappings = TextMap::new();
    mappings.insert("combat".into(), "Combat & Magic".to_string());
    mappings.insert("magic".into(), "Combat & Magic".to_string());
    mappings.insert("audio".into(), "Audio".to_string());
    let map = SectionMap {
        path: String::new(),
        created: false,
        mappings,
        protected: vec![],
        context: vec![],
        terminal: vec![],
        ambiguous: vec![],
        multi_destination: vec![],
        branch_destinations: TextMap::new(),
    };
    assert_eq!(
        map.destination_for_category("Combat & Magic"),
        Some("Combat & Magic")
    );
    assert_eq!(map.destination_for_category("Combat Audio"), None);
}

#[test]
fn patch_rows_become_a_branch_not_a_fake_global_home() {
    let map = parse_roadmap("[map]\npatches = Patch Hub\npatches = Engines Patches\n");
    assert!(!map.mappings.contains_key("patches"));
    assert!(!map.ambiguous.contains(&"patches".to_string()));
    assert!(map.multi_destination.contains(&"patches".to_string()));
    assert_eq!(
        map.branch_destinations.get("patches").unwrap(),
        &vec!["Engines Patches".to_string(), "Patch Hub".to_string()]
    );
}

#[test]
fn generated_end_of_list_is_a_profile_terminal() {
    let map = roadmap_text(&["Gameplay".into(), "End of List".into()]);
    assert!(map.contains("[terminal]\nEnd of List"));
}

#[test]
fn gui_review_replaces_ambiguous_rows_without_touching_other_concepts() {
    let text = save_reviewed_mapping(
        "[map]\narmor = A\narmor = B\nmagic = Magic\n\n[protected]\nEnd of List\n",
        "armor",
        "B",
    )
    .unwrap();
    assert!(text.contains("armor = B"));
    assert!(!text.contains("armor = A"));
    assert!(text.contains("magic = Magic"));
}

#[test]
fn multi_destination_review_suppresses_a_generic_default() {
    let text = save_multi_destination("[map]\ncities = Whiterun\ncities = Riften\n", "cities");
    let map = parse_roadmap(&text);
    assert!(!map.mappings.contains_key("cities"));
    assert!(!map.ambiguous.contains(&"cities".to_string()));
    assert!(map.multi_destination.contains(&"cities".to_string()));
}

// ---- the window ----

#[test]
fn parses_selected_profile_both_formats() {
    assert_eq!(
        read_selected_profile("[General]\nselected_profile=@ByteArray(My VR Profile)\n").as_deref(),
        Some("My VR Profile")
    );
    assert_eq!(
        read_selected_profile("[General]\nselected_profile = Plain Name\n").as_deref(),
        Some("Plain Name")
    );
}

#[test]
fn plugin_preview_reorders_active_rows_and_keeps_inactive_rows() {
    let source = "# This file was automatically generated by Mod Organizer.\n*Alpha.esm\n-Beta.esp\n*Gamma.esp\n";
    let (preview, changed) =
        plugin_order_preview(source, &vec!["gamma.esp".into(), "alpha.esm".into()]).unwrap();
    assert_eq!(changed, 2);
    assert_eq!(
        preview,
        "# This file was automatically generated by Mod Organizer.\n*Gamma.esp\n-Beta.esp\n*Alpha.esm\n"
    );
}
