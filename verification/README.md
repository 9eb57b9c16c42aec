# modslut

Sorts the mod list of a Mod Organizer 2 profile: every mod goes under the separator
where it belongs, patches load after what they patch, masters before what needs them.
The sort is a plan; nothing is written before it is applied, and a backup is kept.

The crate has two parts.

* `src/` is the library, verified with Verus. It holds the formats (lists, rules,
  caches, masterlists, plugins, themes), the decisions (where a mod goes, in which
  order, and why) and the texts that are shown. It does no input or output.
* `app/` is the program around it: the command line, the window, the disk, and the
  sort that libloot makes.

## What is proved

Each function of the library states what it returns for every input. On top of that
stand laws about the whole, as public proof functions:

| module | law |
| --- | --- |
| `conservation` | a sort keeps every mod; the audits change nothing; renaming only appends |
| `alone` | with the user's rules alone, a list that meets them is left as it is |
| `keeping` | arranging a section is a reordering, and mods that an exact rule pins keep their place |
| `ends` | sunk mods and frameworks end at the bottom of their section, floated mods at its top |
| `feasible` | nothing moves into a waiting room; a list with distinct names has a plan |
| `filing` | a mod ends where it was decided, and an exact rule decides |
| `ordering` | each pass that comes to rest leaves its constraint met: patches after parents, winners after losers, mods after masters |
| `resting` | a section whose last round moves nothing meets all constraints on its order at once |
| `auditing` | a ticked mod that loads before its masters, or before a master file, is warned of |
| `modlist` | a list that was read is written unchanged, and the other way round |
| `rules`, `suggest`, `decide` | the user's rules come first; generated output never moves; guesses can be held back |
| `pinning`, `edits` | a new rule replaces the old one and decides |
| `reviewing` | a reviewed concept is mapped; the mappings are shown in order, each once |
| `caches`, `conflicts`, `learning`, `groups`, `metadata`, `settings`, `styling`, `priority_manifest` | what is saved is what is loaded |
| `plugin_order` | an order that is previewed is a reordering; inactive rows stay |
| `plugins` | no violation is reported exactly where masters load first |
| `spine` | separators load in the order of the list |
| `loot` | ranks follow the edges of the groups |

## What is trusted

Six calls are taken at their word, each with the contract written above it:
`String::push`, `str::to_lowercase` and `char::is_alphanumeric` in `text`,
`String::from_utf8_lossy` and flate2's zlib decoder in `plugins`, and libloot's choice
of a message's language in `libloot_adapter`.
