use modslut::keywords::Keywords;
use modslut::matching::{fuzzy_match_section, label_has_concept, resolve_concept, shared_stem};
use modslut::modlist::{norm, parse, Section};
use modslut::plan::ChangeKind;
use modslut::plugins::PluginInfo;
use modslut::rules::Rules;
use modslut::sorter::run;
use modslut::suggest::resolve_targets;

fn kw_fixture() -> Keywords {
    let mut kw = Keywords::default();
    Keywords::parse_into(
        "[strip]\nnoise = se, sse, ae, vr, edition, special\n\
         [alias]\nUnofficial Skyrim Special Edition Patch = ussep\n\
         SSE Engine Fixes = sse engine fixes skse64 plugin, engine fixes part 1\n\
         [family]\nPapyrusUtil = PapyrusUtil VR, PapyrusUtil SE\n\
         [never]\nCBBE = 3BA, BHUNP\nETHEREAL COSMOS = ETHEREAL CLOUDS\n",
        &mut kw,
    );
    kw
}

#[test]
fn kw_alias_exact_hit() {
    let kw = kw_fixture();
    assert_eq!(kw.canonical("USSEP"), "unofficial skyrim patch");
}

#[test]
fn kw_alias_substitutes_inside_longer_name() {
    let kw = kw_fixture();
    let c = kw.canonical("USSEP - Whatever Patch");
    assert!(c.contains("unofficial skyrim patch"), "got {c}");
    assert!(c.contains("whatever patch"), "got {c}");
}

#[test]
fn kw_alias_enables_containment() {
    let kw = kw_fixture();
    let child = norm(&kw.canonical("USSEP - Whatever Patch"));
    let parent = norm(&kw.canonical("Unofficial Skyrim Special Edition Patch"));
    assert!(child != parent && parent.len() >= 10 && child.contains(&parent));
}

#[test]
fn kw_family_siblings_share_order_identity() {
    let kw = kw_fixture();
    assert_eq!(kw.canonical("PapyrusUtil VR"), kw.canonical("PapyrusUtil SE"));
}

#[test]
fn kw_never_vetoes_both_directions() {
    let kw = kw_fixture();
    assert!(kw.is_never("CBBE Body Slide", "3BA Amazing Body"));
    assert!(kw.is_never("3BA Amazing Body", "CBBE Body Slide"));
    assert!(kw.is_never("ETHEREAL COSMOS - Special Edition", "ETHEREAL CLOUDS - Special Edition"));
    assert!(!kw.is_never("CBBE Body Slide", "CBBE Outfits"));
}

#[test]
fn kw_empty_is_passthrough() {
    let kw = Keywords::default();
    assert_eq!(kw.canonical("Some Mod SE"), "some mod se");
    assert!(!kw.is_never("CBBE", "3BA"));
}

fn secs(labels: &[&str]) -> Vec<Section> {
    labels
        .iter()
        .map(|l| Section {
            sep_line: format!("-{l}_separator"),
            label: l.to_string(),
            mods: vec![],
        })
        .collect()
}

#[test]
fn fuzzy_exact_norm_wins() {
    let s = secs(&["Landscape and Environment", "Landscape"]);
    assert_eq!(fuzzy_match_section("landscape", &s, true), Some("Landscape"));
}

#[test]
fn fuzzy_shared_token() {
    let s = secs(&["Landscape and Environment", "Audio"]);
    assert_eq!(
        fuzzy_match_section("Environment", &s, true),
        Some("Landscape and Environment")
    );
}

#[test]
fn fuzzy_ignores_stopwords_and_short_tokens() {
    let s = secs(&["Models and Textures"]);
    assert_eq!(fuzzy_match_section("Mods for the AI", &s, true), None);
    assert_eq!(
        fuzzy_match_section("Textures", &s, true),
        Some("Models and Textures")
    );
}

#[test]
fn fuzzy_no_match_returns_none() {
    let s = secs(&["Audio Overhaul"]);
    assert_eq!(fuzzy_match_section("Combat", &s, true), None);
}

#[test]
fn fuzzy_generic_token_alone_is_not_evidence() {
    let s = secs(&["Weapons, Armour, Clothing, and Clutter Fixes"]);
    assert_eq!(fuzzy_match_section("Bug Fixes", &s, true), None);
    let s = secs(&["Soul Trap Management Overhauls"]);
    assert_eq!(fuzzy_match_section("Overhauls", &s, true), None);
}

#[test]
fn fuzzy_distinctive_token_beats_generic() {
    let s = secs(&["Weapons, Armour, Clothing, and Clutter Fixes", "Essential Bug Fixes"]);
    assert_eq!(
        fuzzy_match_section("Bug Fixes", &s, true),
        Some("Essential Bug Fixes")
    );
}

#[test]
fn fuzzy_qualifier_narrows_section_away() {
    let s = secs(&["Male Body Additions", "Skin & Body"]);
    assert_eq!(
        fuzzy_match_section("Body, Face, and Hair", &s, true),
        Some("Skin & Body")
    );
    assert_eq!(
        fuzzy_match_section("Male Body", &s, true),
        Some("Male Body Additions")
    );
}

#[test]
fn concept_exact_label_wins() {
    let s = secs(&["Lighting", "Lux (Lighting)"]);
    assert_eq!(resolve_concept("Lighting", &s).unwrap().0, "Lighting");
}

#[test]
fn concept_containment_finds_family_sep() {
    let s = secs(&["Lux (Lighting)", "Gameplay"]);
    assert_eq!(resolve_concept("Lighting", &s).unwrap().0, "Lux (Lighting)");
}

#[test]
fn containment_prefers_closest_label_not_first() {
    let s = secs(&["Special Load After Lighting Mods", "Lux (Lighting)"]);
    assert_eq!(resolve_concept("Lighting", &s).unwrap().0, "Lux (Lighting)");
    let s = secs(&["Male Body Additions", "Skin & Body", "OBody and Bodyslide Presets"]);
    assert_eq!(resolve_concept("Body", &s).unwrap().0, "Skin & Body");
    let s = secs(&["Interface - Controller Bindings", "Interface - Menus", "Interface - VR Specific"]);
    assert_eq!(resolve_concept("Interface", &s).unwrap().0, "Interface - Menus");
}

#[test]
fn concept_multiword_hits_word_sequence() {
    let s = secs(&["Interface - VR Specific", "VR Controller Bindings"]);
    assert_eq!(resolve_concept("VR Specific", &s).unwrap().0, "Interface - VR Specific");
}

#[test]
fn plural_sep_beats_long_compound() {
    let s = secs(&["Extension Frameworks - Animation & Behavior Engine", "Animations"]);
    assert_eq!(resolve_concept("Animation", &s).unwrap().0, "Animations");
}

#[test]
fn rename_gates_label_silence() {
    assert!(shared_stem("Skin & Body", "Body, Face, and Hair", 3));
    assert!(shared_stem("Expanded Cities, Towns, and Villages", "Cities, Towns, Villages, and Hamlets", 3));
    assert!(shared_stem("Unofficial Skyrim Modders Patch Emporium", "Modders Resources", 3));
    assert!(!shared_stem("Ya Filthy Animal", "nsfw", 3));
    assert!(!shared_stem("Animals", "Creatures and Mounts", 3));
    assert!(label_has_concept("Lux (Lighting)", "lighting"));
    assert!(!label_has_concept("Skin & Body", "Body, Face, and Hair"));
    assert!(label_has_concept("Animations", "animation"));
}

#[test]
fn concept_reverse_containment() {
    let s = secs(&["Interface"]);
    assert_eq!(
        resolve_concept("Interface - VR Specific", &s).unwrap().0,
        "Interface"
    );
}

#[test]
fn concept_unmatched_noops() {
    let s = secs(&["Gameplay", "Textures"]);
    assert!(resolve_concept("NSFW", &s).is_none());
    assert!(resolve_concept("Unofficial Patches", &s).is_none());
}

#[test]
fn concept_short_targets_dont_containment_match() {
    let s = secs(&["VR Controller Bindings"]);
    assert_eq!(
        resolve_concept("VR", &s).map(|(l, _)| l),
        Some("VR Controller Bindings")
    );
    let s2 = secs(&["Overhauls"]);
    assert!(resolve_concept("VR", &s2).is_none());
}

#[test]
fn resolve_targets_drops_dead_rules_keeps_promote() {
    let s = secs(&["Gameplay"]);
    let mut r = Rules::empty();
    r.exact.push(("Some Mod".into(), "Nonexistent Section".into()));
    r.exact.push(("Other Mod".into(), "gameplay".into()));
    r.promote.push(("A VR".into(), "A".into()));
    let mut trace = String::new();
    let out = resolve_targets(&r, &s, &mut trace);
    assert_eq!(out.exact.len(), 1);
    assert_eq!(out.exact[0].0, "Other Mod");
    assert_eq!(out.exact[0].1, "Gameplay");
    assert_eq!(out.promote.len(), 1);
    assert!(trace.contains("no matching separator"));
}

fn plugin(name: &str, masters: &[&str], is_esm: bool, record_count: u32) -> PluginInfo {
    PluginInfo {
        plugin: name.to_string(),
        masters: masters.iter().map(|m| m.to_string()).collect(),
        is_esm,
        is_esl: false,
        record_count,
        groups: vec![],
        records: vec![],
        keywords: vec![],
    }
}

#[test]
fn master_dependency_enforced_non_patch_flavored() {
    let text = "# modlist\n+DependentMod\n-Gameplay_separator\n+MasterMod\n-Essentials_separator\n";
    let mut ml = parse(text);
    let rules = Rules::empty();
    let mut log = String::new();
    let mut out = Vec::new();
    let mut trace = String::new();
    let kw = Keywords::default();
    let census = vec![
        (
            "DependentMod".to_string(),
            "Gameplay".to_string(),
            plugin("standalone_plugin.esp", &["master.esm"], false, 5),
        ),
        (
            "MasterMod".to_string(),
            "Essentials".to_string(),
            plugin("master.esm", &[], true, 10),
        ),
    ];

    run(
        &mut ml,
        &rules,
        &mut log,
        &mut out,
        None,
        None,
        Some(&census),
        &kw,
        None,
        false,
        &mut trace,
    );

    let dep_sec = ml.sections.iter().find(|s| s.mods.iter().any(|m| m.name == "DependentMod")).unwrap();
    assert_eq!(dep_sec.label, "Essentials");
}

#[test]
fn esm_loads_before_non_esm() {
    let text = "# modlist\n+NonEsmMod\n+EsmMod\n-Section_separator\n";
    let mut ml = parse(text);
    let rules = Rules::empty();
    let mut log = String::new();
    let mut out = Vec::new();
    let mut trace = String::new();
    let kw = Keywords::default();
    let census = vec![
        (
            "NonEsmMod".to_string(),
            "Section".to_string(),
            plugin("plugin.esp", &[], false, 5),
        ),
        (
            "EsmMod".to_string(),
            "Section".to_string(),
            plugin("master.esm", &[], true, 10),
        ),
    ];

    run(
        &mut ml,
        &rules,
        &mut log,
        &mut out,
        None,
        None,
        Some(&census),
        &kw,
        None,
        false,
        &mut trace,
    );

    let sec = &ml.sections[0];
    assert_eq!(sec.mods[1].name, "EsmMod");
    assert_eq!(sec.mods[0].name, "NonEsmMod");
}

#[test]
fn user_pin_overrides_master_order_and_warns() {
    let text = "# modlist\n+DependentMod\n-Gameplay_separator\n+MasterMod\n-Essentials_separator\n";
    let mut ml = parse(text);
    let mut rules = Rules::empty();
    rules.exact.push(("DependentMod".to_string(), "Gameplay".to_string()));

    let mut log = String::new();
    let mut out = Vec::new();
    let mut trace = String::new();
    let kw = Keywords::default();
    let census = vec![
        (
            "DependentMod".to_string(),
            "Gameplay".to_string(),
            plugin("standalone_plugin.esp", &["master.esm"], false, 5),
        ),
        (
            "MasterMod".to_string(),
            "Essentials".to_string(),
            plugin("master.esm", &[], true, 10),
        ),
    ];

    run(
        &mut ml,
        &rules,
        &mut log,
        &mut out,
        None,
        None,
        Some(&census),
        &kw,
        None,
        false,
        &mut trace,
    );

    let dep_sec = ml.sections.iter().find(|s| s.mods.iter().any(|m| m.name == "DependentMod")).unwrap();
    assert_eq!(dep_sec.label, "Gameplay");

    let has_warn = out.iter().any(|c| c.kind == ChangeKind::Warn && c.detail.contains("loads before its master"));
    assert!(has_warn, "Expected warning for master order violation caused by user pin");
}
