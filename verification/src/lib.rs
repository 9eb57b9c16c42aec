//! ModSlut: sorts the mod list of a Mod Organizer 2 profile into its separators.
//!
//! The list is read (`modlist`), the user's rules and the knowledge about the mods are
//! gathered, `sorter` plans the moves, and the plan is written back only on demand.
//! Nothing here touches a disk: every function takes and gives plain values, and its
//! contract says exactly which.
//!
//! * lists and rules: `modlist`, `rules`, `keywords`, `categories`, `report`, `edits`
//! * where a mod goes: `matching`, `suggest`, `decide`, `masters`, `place`, `audit`,
//!   `plan`, `sorter`
//! * plugins and LOOT: `plugins`, `plugin_order`, `record_keywords`, `content_index`,
//!   `platform`, `loot`, `masterlist`, `libloot_adapter`, `comparison`, `game`
//! * files of a profile: `conflicts`, `learning`, `metadata`, `groups`, `section_map`,
//!   `priority_manifest`, `reference`, `settings`, `profile`
//! * what the window and the terminal show: `browser`, `theme`, `cli`
//! * building blocks: `text`, `list`, `map`, `sort`, `keys`
//! * laws over the whole: `keeping`, `ends`, `conservation`, `feasible`, `filing`,
//!   `ordering`, `resting`, `auditing`, `alone`, `pinning`, `reviewing`, `caches`,
//!   `styling`, `spine`, with `readback` as their tool box
//! * laws over what is read: `wording`, `naming`, `directives`, `dissecting`, `roads`,
//!   `votes`, `dwellings`
//! * laws over what is decided: `choosing`, `families`, `lineage`, `kinship`, `titles`,
//!   `lessons`
//! * laws over what is counted and ranked: `contests`, `testimony`, `breaches`, `engine`,
//!   `ranking`, `viewing`, `listings`
pub mod alone;
pub mod audit;
pub mod auditing;
pub mod breaches;
pub mod browser;
pub mod caches;
pub mod categories;
pub mod choosing;
pub mod cli;
pub mod comparison;
pub mod conflicts;
pub mod conservation;
pub mod content_index;
pub mod contests;
pub mod decide;
pub mod directives;
pub mod dissecting;
pub mod dwellings;
pub mod edits;
pub mod ends;
pub mod engine;
pub mod families;
pub mod feasible;
pub mod filing;
pub mod game;
pub mod groups;
pub mod keeping;
pub mod keys;
pub mod keywords;
pub mod kinship;
pub mod learning;
pub mod lessons;
pub mod libloot_adapter;
pub mod lineage;
pub mod list;
pub mod listings;
pub mod loot;
pub mod map;
pub mod masterlist;
pub mod masters;
pub mod matching;
pub mod metadata;
pub mod modlist;
pub mod naming;
pub mod ordering;
pub mod pinning;
pub mod place;
pub mod plan;
pub mod platform;
pub mod plugin_order;
pub mod plugins;
pub mod priority_manifest;
pub mod profile;
pub mod ranking;
pub mod readback;
pub mod record_keywords;
pub mod reference;
pub mod report;
pub mod resting;
pub mod reviewing;
pub mod roads;
pub mod rules;
pub mod section_map;
pub mod settings;
pub mod sort;
pub mod sorter;
pub mod spine;
pub mod styling;
pub mod suggest;
pub mod testimony;
pub mod text;
pub mod theme;
pub mod titles;
pub mod viewing;
pub mod votes;
pub mod wording;
