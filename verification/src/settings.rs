//! The user's preferences, and the profile that the organizer has loaded.
use vstd::prelude::*;
use crate::game;
use crate::game::Game;
#[allow(unused_imports)]
use crate::game::{key_of, keyed};
use crate::list;
use crate::map::TextMap;
#[allow(unused_imports)]
use crate::map::{distinct_keys, found, inserted, key_from, lemma_key_from};
#[allow(unused_imports)]
use crate::readback::{lemma_found_permuted, lemma_keys_permuted, lemma_no_split, lemma_split_at, lemma_trim_tight, tight};
use crate::sort;
#[allow(unused_imports)]
use crate::sort::{sorted, Ranked};
use crate::text;
#[allow(unused_imports)]
use crate::text::{after_prefix, before_suffix, ended, is_line, lines_of, set_trimmed, set_trimmed_start, split_first, trimmed};

verus! {

/// What a line `selected_profile = name` names.
pub open spec fn profile_named(line: Seq<char>) -> Option<Seq<char>> {
    match after_prefix(trimmed(line), "selected_profile"@) {
        Some(v) => {
            let v = trimmed(set_trimmed_start(v, "= "@));
            let inner = match after_prefix(v, "@ByteArray("@) {
                Some(t) => match before_suffix(t, ")"@) {
                    Some(name) => name,
                    None => v,
                },
                None => v,
            };
            let name = trimmed(set_trimmed(inner, "\""@));
            if name.len() == 0 {
                None
            } else {
                Some(name)
            }
        },
        None => None,
    }
}

/// The first profile named from line `i` on.
pub open spec fn profile_from(lines: Seq<Seq<char>>, i: int) -> Option<Seq<char>>
    decreases lines.len() - i,
{
    if i < 0 || i >= lines.len() {
        None
    } else {
        match profile_named(lines[i]) {
            Some(name) => Some(name),
            None => profile_from(lines, i + 1),
        }
    }
}

fn profile_of_line(line: &str) -> (r: Option<String>)
    ensures
        r.deep_view() == profile_named(line@),
{
    let line = text::trim(line);
    match text::strip_prefix(line.as_str(), "selected_profile") {
        Some(v) => {
            let v = text::trim_start_of(v.as_str(), "= ");
            let v = text::trim(v.as_str());
            let inner = match text::strip_prefix(v.as_str(), "@ByteArray(") {
                Some(t) => match text::strip_suffix(t.as_str(), ")") {
                    Some(name) => name,
                    None => v,
                },
                None => v,
            };
            let name = text::trim_of(inner.as_str(), "\"");
            let name = text::trim(name.as_str());
            let chars = text::chars_of(name.as_str());
            if chars.len() == 0 {
                None
            } else {
                Some(name)
            }
        },
        None => None,
    }
}

/// The profile that the organizer's settings select, plain or as a byte array.
pub fn read_selected_profile(settings: &str) -> (r: Option<String>)
    ensures
        r.deep_view() == profile_from(lines_of(settings@), 0),
{
    let lines = text::lines(settings);
    let ghost lv = lines.deep_view();
    let mut i: usize = 0;
    while i < lines.len()
        invariant
            i <= lines.len(),
            lv == lines.deep_view(),
            lv == lines_of(settings@),
            profile_from(lv, i as int) == profile_from(lv, 0),
        decreases lines.len() - i,
    {
        assert(lv[i as int] == lines@[i as int]@);
        let name = profile_of_line(lines[i].as_str());
        if name.is_some() {
            return name;
        }
        i = i + 1;
    }
    assert(lv.len() == lines.len());
    None
}

// ---- preferences ----

pub type Values = Seq<(Seq<char>, Seq<char>)>;

/// The preferences once one more line is read: the first value of a key stays.
pub open spec fn with_line(values: Values, line: Seq<char>) -> Values {
    match split_first(line, "="@) {
        Some((k, v)) => if found(values, trimmed(k)) is Some {
            values
        } else {
            inserted(values, trimmed(k), trimmed(v))
        },
        None => values,
    }
}

pub open spec fn with_lines(values: Values, lines: Seq<Seq<char>>, n: int) -> Values
    decreases n,
{
    if n <= 0 {
        values
    } else {
        with_line(with_lines(values, lines, n - 1), lines[n - 1])
    }
}

/// The preferences of the first `n` texts.
pub open spec fn values_first(texts: Seq<Seq<char>>, n: int) -> Values
    decreases n,
{
    if n <= 0 {
        Seq::empty()
    } else {
        let lines = lines_of(texts[n - 1]);
        with_lines(values_first(texts, n - 1), lines, lines.len() as int)
    }
}

fn read_lines(values: &mut TextMap<String>, s: &str)
    ensures
        final(values).deep_view() == with_lines(
            old(values).deep_view(),
            lines_of(s@),
            lines_of(s@).len() as int,
        ),
{
    let ghost start = values.deep_view();
    let lines = text::lines(s);
    let ghost lv = lines.deep_view();
    let mut i: usize = 0;
    while i < lines.len()
        invariant
            i <= lines.len(),
            lv == lines.deep_view(),
            values.deep_view() == with_lines(start, lv, i as int),
        decreases lines.len() - i,
    {
        assert(lv[i as int] == lines@[i as int]@);
        if let Some((k, v)) = text::split_once(lines[i].as_str(), "=") {
            let key = text::trim(k.as_str());
            if !values.contains_key(key.as_str()) {
                values.insert(key, text::trim(v.as_str()));
            }
        }
        i = i + 1;
    }
    assert(lv.len() == lines.len());
}

/// The preferences of several files, the most important first.
pub fn read_config(texts: &Vec<String>) -> (r: TextMap<String>)
    ensures
        r.deep_view() == values_first(texts.deep_view(), texts.len() as int),
{
    let ghost tv = texts.deep_view();
    let mut values: TextMap<String> = TextMap::new();
    let mut i: usize = 0;
    while i < texts.len()
        invariant
            i <= texts.len(),
            tv == texts.deep_view(),
            values.deep_view() == values_first(tv, i as int),
        decreases texts.len() - i,
    {
        assert(tv[i as int] == texts@[i as int]@);
        read_lines(&mut values, texts[i].as_str());
        i = i + 1;
    }
    values
}

/// One line per preference, in the order of the keys.
pub open spec fn config_lines(values: Values) -> Seq<Seq<char>> {
    let rows = sorted::<(String, String)>(values);
    seq!["# ModSlut per-user preferences. Safe to edit while ModSlut is closed."@] + Seq::new(
        rows.len(),
        |i: int| rows[i].0 + "="@ + rows[i].1,
    )
}

/// The text of the preferences.
pub fn write_config(values: &TextMap<String>) -> (r: String)
    ensures
        r@ == ended(config_lines(values.deep_view())),
{
    let ghost vv = values.deep_view();
    let mut pairs: Vec<(String, String)> = list::none();
    let mut i: usize = 0;
    assert(vv.take(0) =~= Seq::empty());
    while i < values.len()
        invariant
            i <= vv.len(),
            vv == values.deep_view(),
            pairs.deep_view() == vv.take(i as int),
        decreases vv.len() - i,
    {
        let entry = values.at(i);
        assert(entry.deep_view() == (entry.0@, entry.1@));
        list::put(&mut pairs, (entry.0.clone(), entry.1.clone()));
        i = i + 1;
        assert(pairs.deep_view() =~= vv.take(i as int));
    }
    assert(vv.take(i as int) =~= vv);
    let pairs = sort::sort(pairs);
    let ghost rows = pairs.deep_view();
    let ghost all = config_lines(vv);
    let mut out: Vec<String> = list::none();
    list::put(
        &mut out,
        "# ModSlut per-user preferences. Safe to edit while ModSlut is closed.".to_string(),
    );
    let mut j: usize = 0;
    assert(out.deep_view() =~= all.take(1));
    while j < pairs.len()
        invariant
            j <= pairs.len(),
            rows == pairs.deep_view(),
            all == config_lines(vv),
            rows == sorted::<(String, String)>(vv),
            out.deep_view() == all.take(j + 1),
        decreases pairs.len() - j,
    {
        assert(rows[j as int] == pairs@[j as int].deep_view());
        list::put(&mut out, text::cat3(pairs[j].0.as_str(), "=", pairs[j].1.as_str()));
        assert(all[j + 1] == rows[j as int].0 + "="@ + rows[j as int].1);
        j = j + 1;
        assert(out.deep_view() =~= all.take(j + 1));
    }
    assert(rows.len() == pairs.len());
    assert(all.take(j + 1) =~= all);
    text::end_lines(&out)
}

/// The game that the preferences ask for.
pub fn default_game(values: &TextMap<String>) -> (r: Option<Game>)
    ensures
        r == match found(values.deep_view(), "default_game"@) {
            Some(v) => keyed(v),
            None => None,
        },
{
    match values.get("default_game") {
        Some(v) => game::from_key(v.as_str()),
        None => None,
    }
}

/// The theme that the preferences ask for; one that was renamed goes by its new name.
pub open spec fn theme_of(values: Values) -> Seq<char> {
    match found(values, "theme"@) {
        Some(v) => if v == "SkyGen Blue"@ {
            "Skybound Nebula"@
        } else {
            v
        },
        None => "MO2 Mirror (read-only)"@,
    }
}

pub fn theme_name(values: &TextMap<String>) -> (r: String)
    ensures
        r@ == theme_of(values.deep_view()),
{
    match values.get("theme") {
        Some(v) => {
            if text::same(v.as_str(), "SkyGen Blue") {
                "Skybound Nebula".to_string()
            } else {
                v.clone()
            }
        },
        None => "MO2 Mirror (read-only)".to_string(),
    }
}

/// Whether only the user's own rules are to be applied.
pub fn user_rules_only(values: &TextMap<String>) -> (r: bool)
    ensures
        r == (found(values.deep_view(), "user_rules_only"@) == Some("1"@)),
{
    match values.get("user_rules_only") {
        Some(v) => text::same(v.as_str(), "1"),
        None => false,
    }
}

/// The preferences with the size of the font, the game and the theme.
pub open spec fn with_settings(
    values: Values,
    size: Seq<char>,
    game: Option<Game>,
    theme: Seq<char>,
) -> Values {
    let g = match game {
        Some(g) => key_of(g),
        None => "auto"@,
    };
    inserted(inserted(inserted(values, "font_size"@, size), "default_game"@, g), "theme"@, theme)
}

pub fn save_settings(
    values: &mut TextMap<String>,
    size: String,
    default_game: Option<Game>,
    theme: &str,
)
    ensures
        final(values).deep_view() == with_settings(
            old(values).deep_view(),
            size@,
            default_game,
            theme@,
        ),
{
    values.insert("font_size".to_string(), size);
    let key = match default_game {
        Some(g) => game::key(g).to_string(),
        None => "auto".to_string(),
    };
    values.insert("default_game".to_string(), key);
    values.insert("theme".to_string(), theme.to_string());
}

// ---- laws ----

/// A preference that a line can hold.
pub open spec fn is_preference(k: Seq<char>, v: Seq<char>) -> bool {
    tight(k) && tight(v) && !k.contains('=') && !k.contains('\n') && !v.contains('\n')
}

proof fn lemma_row(k: Seq<char>, v: Seq<char>)
    requires
        is_preference(k, v),
    ensures
        split_first(k + "="@ + v, "="@) == Some((k, v)),
        trimmed(k) == k,
        trimmed(v) == v,
        is_line(k + "="@ + v),
{
    reveal_strlit("=");
    assert("="@ =~= seq!['=']);
    lemma_split_at(k, '=', v);
    lemma_trim_tight(k);
    lemma_trim_tight(v);
    let row = k + "="@ + v;
    assert forall|i: int| 0 <= i < row.len() implies row[i] != '\n' by {
        if i < k.len() {
            assert(row[i] == k[i]);
        } else if i > k.len() {
            assert(row[i] == v[i - k.len() - 1]);
        }
    }
    if v.len() > 0 {
        assert(row.last() == v.last());
    } else {
        assert(row.last() == '=');
    }
}

proof fn lemma_rows(rows: Values, lines: Seq<Seq<char>>, n: int)
    requires
        0 <= n <= rows.len(),
        distinct_keys(rows),
        lines.len() == rows.len() + 1,
        split_first(lines[0], "="@) is None,
        forall|i: int|
            0 <= i < rows.len() ==> lines[i + 1] == (#[trigger] rows[i]).0 + "="@ + rows[i].1
                && is_preference(rows[i].0, rows[i].1),
    ensures
        with_lines(Seq::empty(), lines, n + 1) == rows.take(n),
    decreases n,
{
    if n > 0 {
        lemma_rows(rows, lines, n - 1);
        let before = rows.take(n - 1);
        let (k, v) = rows[n - 1];
        assert(lines[n] == rows[n - 1].0 + "="@ + rows[n - 1].1);
        lemma_row(k, v);
        lemma_key_from(before, k, 0);
        if key_from(before, k, 0) is Some {
            let i = key_from(before, k, 0)->0;
            assert(before[i] == rows[i]);
            assert(rows[i].0 != rows[n - 1].0);
        }
        assert(rows.take(n) =~= before.push((k, v)));
    } else {
        assert(with_lines(Seq::empty(), lines, 0) =~= Seq::empty());
        assert(with_lines(Seq::empty(), lines, 1) == with_lines(Seq::empty(), lines, 0));
        assert(rows.take(0) =~= Seq::empty());
    }
}

/// Preferences that are written are read back.
pub proof fn written_preferences_are_read(values: Values, k: Seq<char>)
    requires
        distinct_keys(values),
        forall|i: int|
            0 <= i < values.len() ==> is_preference((#[trigger] values[i]).0, values[i].1),
    ensures
        found(values_first(seq![ended(config_lines(values))], 1), k) == found(values, k),
{
    let rows = sorted::<(String, String)>(values);
    sort::sorting_orders_and_keeps::<(String, String)>(values);
    lemma_keys_permuted(values, rows);
    assert forall|i: int| 0 <= i < rows.len() implies is_preference(
        (#[trigger] rows[i]).0,
        rows[i].1,
    ) by {
        broadcast use vstd::seq_lib::group_to_multiset_ensures;

        assert(rows.contains(rows[i]));
        assert(values.to_multiset().count(rows[i]) > 0);
        assert(values.contains(rows[i]));
        let j = choose|j: int| 0 <= j < values.len() && values[j] == rows[i];
        assert(is_preference(values[j].0, values[j].1));
    }
    let lines = config_lines(values);
    let head = "# ModSlut per-user preferences. Safe to edit while ModSlut is closed."@;
    assert(is_line(head) && split_first(head, "="@) is None) by {
        reveal_strlit("# ModSlut per-user preferences. Safe to edit while ModSlut is closed.");
        reveal_strlit("=");
        assert("="@ =~= seq!['=']);
        lemma_no_split(head, '=');
    }
    assert(lines[0] == head);
    assert forall|i: int| 0 <= i < lines.len() implies is_line(#[trigger] lines[i]) by {
        if i > 0 {
            assert(lines[i] == rows[i - 1].0 + "="@ + rows[i - 1].1);
            lemma_row(rows[i - 1].0, rows[i - 1].1);
        }
    }
    text::lemma_lines_read_back(lines);
    lemma_rows(rows, lines, rows.len() as int);
    assert(rows.take(rows.len() as int) =~= rows);
    let texts = seq![ended(lines)];
    assert(values_first(texts, 0) =~= Seq::empty());
    assert(values_first(texts, 1) == with_lines(Seq::empty(), lines, lines.len() as int));
    lemma_found_permuted(values, rows, k);
}

} // verus!
