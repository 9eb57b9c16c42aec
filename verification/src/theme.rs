//! Theme packs, and the stylesheets that they are made from.
use vstd::prelude::*;
use crate::keys;
#[allow(unused_imports)]
use crate::keys::{safe_of, with_item};
use crate::list;
#[allow(unused_imports)]
use crate::masterlist::is_hex_digit;
use crate::sort;
#[allow(unused_imports)]
use crate::sort::{sorted, Ranked};
use crate::text;
#[allow(unused_imports)]
use crate::text::{after_prefix, all_ascii, ascii_lowered, begins, byte_len, char_replaced, lines_of, set_trimmed, set_trimmed_end, set_trimmed_start, split_first, split_on, trimmed, without_suffixes};

verus! {

/// A color with its opacity.
#[derive(Clone, Copy, PartialEq, Eq, Debug, Structural)]
pub struct Color {
    pub r: u8,
    pub g: u8,
    pub b: u8,
    pub a: u8,
}

impl DeepView for Color {
    type V = Color;

    open spec fn deep_view(&self) -> Color {
        *self
    }
}

pub open spec fn digit_value(c: char) -> int {
    if '0' <= c && c <= '9' {
        c as u32 - 48
    } else if 'a' <= c && c <= 'f' {
        c as u32 - 87
    } else {
        c as u32 - 55
    }
}

/// The value of two hexadecimal digits, or of one behind a plus sign.
pub open spec fn pair_value(a: char, b: char) -> Option<u8> {
    if !is_hex_digit(b) {
        None
    } else if a == '+' {
        Some(digit_value(b) as u8)
    } else if is_hex_digit(a) {
        Some((16 * digit_value(a) + digit_value(b)) as u8)
    } else {
        None
    }
}

pub open spec fn color_from(r: Option<u8>, g: Option<u8>, b: Option<u8>, a: Option<u8>) -> Option<
    Color,
> {
    match (r, g, b, a) {
        (Some(r), Some(g), Some(b), Some(a)) => Some(Color { r, g, b, a }),
        _ => None,
    }
}

/// The color that a value names: three, six or eight hexadecimal digits, in quotes and
/// behind hash signs or not.
pub open spec fn color_of(value: Seq<char>) -> Option<Color> {
    let raw = set_trimmed_start(trimmed(set_trimmed(trimmed(value), "\""@)), "#"@);
    if !all_ascii(raw) {
        None
    } else if raw.len() == 3 {
        color_from(
            pair_value(raw[0], raw[0]),
            pair_value(raw[1], raw[1]),
            pair_value(raw[2], raw[2]),
            Some(255),
        )
    } else if raw.len() == 6 {
        color_from(
            pair_value(raw[0], raw[1]),
            pair_value(raw[2], raw[3]),
            pair_value(raw[4], raw[5]),
            Some(255),
        )
    } else if raw.len() == 8 {
        color_from(
            pair_value(raw[0], raw[1]),
            pair_value(raw[2], raw[3]),
            pair_value(raw[4], raw[5]),
            pair_value(raw[6], raw[7]),
        )
    } else {
        None
    }
}

fn hex_value(c: char) -> (r: Option<u8>)
    ensures
        match r {
            Some(d) => is_hex_digit(c) && d == digit_value(c) && d < 16,
            None => !is_hex_digit(c),
        },
{
    if '0' <= c && c <= '9' {
        Some((c as u32 - 48) as u8)
    } else if 'a' <= c && c <= 'f' {
        Some((c as u32 - 87) as u8)
    } else if 'A' <= c && c <= 'F' {
        Some((c as u32 - 55) as u8)
    } else {
        None
    }
}

fn read_pair(a: char, b: char) -> (r: Option<u8>)
    ensures
        r == pair_value(a, b),
{
    match hex_value(b) {
        None => None,
        Some(y) => {
            if a == '+' {
                Some(y)
            } else {
                match hex_value(a) {
                    Some(x) => Some(16 * x + y),
                    None => None,
                }
            }
        },
    }
}

fn plain(v: &Vec<char>) -> (r: bool)
    ensures
        r == all_ascii(v@),
{
    let mut i: usize = 0;
    while i < v.len()
        invariant
            i <= v.len(),
            forall|j: int| 0 <= j < i ==> (#[trigger] v@[j] as u32) < 128,
        decreases v.len() - i,
    {
        if v[i] as u32 >= 128 {
            return false;
        }
        i = i + 1;
    }
    true
}

fn make_color(r: Option<u8>, g: Option<u8>, b: Option<u8>, a: Option<u8>) -> (c: Option<Color>)
    ensures
        c == color_from(r, g, b, a),
{
    match (r, g, b, a) {
        (Some(r), Some(g), Some(b), Some(a)) => Some(Color { r, g, b, a }),
        _ => None,
    }
}

pub fn theme_color(value: &str) -> (r: Option<Color>)
    ensures
        r == color_of(value@),
{
    let t = text::trim(value);
    let t = text::trim_of(t.as_str(), "\"");
    let t = text::trim(t.as_str());
    let t = text::trim_start_of(t.as_str(), "#");
    let v = text::chars_of(t.as_str());
    if !plain(&v) {
        None
    } else if v.len() == 3 {
        make_color(
            read_pair(v[0], v[0]),
            read_pair(v[1], v[1]),
            read_pair(v[2], v[2]),
            Some(255),
        )
    } else if v.len() == 6 {
        make_color(
            read_pair(v[0], v[1]),
            read_pair(v[2], v[3]),
            read_pair(v[4], v[5]),
            Some(255),
        )
    } else if v.len() == 8 {
        make_color(
            read_pair(v[0], v[1]),
            read_pair(v[2], v[3]),
            read_pair(v[4], v[5]),
            read_pair(v[6], v[7]),
        )
    } else {
        None
    }
}

/// A mix of two shades, with the weight of the first in percent.
pub open spec fn mixed(a: u8, b: u8, weight: u16) -> u8 {
    let w = if weight > 100 {
        100
    } else {
        weight as int
    };
    ((a * w + b * (100 - w)) / 100) as u8
}

fn mix(a: u8, b: u8, weight: u16) -> (r: u8)
    ensures
        r == mixed(a, b, weight),
{
    let w: u16 = if weight > 100 {
        100
    } else {
        weight
    };
    assert(a * w <= 255 * 100 && b * (100 - w) <= 255 * 100) by (nonlinear_arith)
        requires
            a <= 255,
            b <= 255,
            w <= 100,
    ;
    let x: u32 = a as u32 * w as u32;
    let y: u32 = b as u32 * (100 - w) as u32;
    assert(x + y <= 255 * 100) by (nonlinear_arith)
        requires
            x == a * w,
            y == b * (100 - w),
            a <= 255,
            b <= 255,
            w <= 100,
    ;
    ((x + y) / 100) as u8
}

/// A color laid over another one, which shows through.
pub fn blend_theme_color(foreground: Color, background: Color, foreground_weight: u16) -> (r: Color)
    ensures
        r.r == mixed(foreground.r, background.r, foreground_weight),
        r.g == mixed(foreground.g, background.g, foreground_weight),
        r.b == mixed(foreground.b, background.b, foreground_weight),
        r.a == 255,
{
    Color {
        r: mix(foreground.r, background.r, foreground_weight),
        g: mix(foreground.g, background.g, foreground_weight),
        b: mix(foreground.b, background.b, foreground_weight),
        a: 255,
    }
}

// ---- theme packs ----

pub struct ThemePack {
    pub name: String,
    pub panel: Option<Color>,
    pub toolbar: Option<Color>,
    pub accent: Option<Color>,
    pub card: Option<Color>,
    pub selected: Option<Color>,
    /// The image behind the window.
    pub background: Option<String>,
}

#[verifier::ext_equal]
pub struct PackView {
    pub name: Seq<char>,
    pub panel: Option<Color>,
    pub toolbar: Option<Color>,
    pub accent: Option<Color>,
    pub card: Option<Color>,
    pub selected: Option<Color>,
    pub background: Option<Seq<char>>,
}

impl DeepView for ThemePack {
    type V = PackView;

    open spec fn deep_view(&self) -> PackView {
        PackView {
            name: self.name@,
            panel: self.panel,
            toolbar: self.toolbar,
            accent: self.accent,
            card: self.card,
            selected: self.selected,
            background: self.background.deep_view(),
        }
    }
}

/// Packs stand in the order of their names, whatever the case.
impl Ranked for ThemePack {
    open spec fn precedes(a: PackView, b: PackView) -> bool {
        <String as Ranked>::precedes(ascii_lowered(a.name), ascii_lowered(b.name))
    }

    proof fn total(a: PackView, b: PackView) {
        <String as Ranked>::total(ascii_lowered(a.name), ascii_lowered(b.name));
    }

    proof fn transitive(a: PackView, b: PackView, c: PackView) {
        <String as Ranked>::transitive(
            ascii_lowered(a.name),
            ascii_lowered(b.name),
            ascii_lowered(c.name),
        );
    }

    fn goes_before(&self, other: &ThemePack) -> (r: bool) {
        let a = text::ascii_lower(self.name.as_str());
        let b = text::ascii_lower(other.name.as_str());
        a.goes_before(&b)
    }
}

pub fn sort_packs(packs: Vec<ThemePack>) -> (r: Vec<ThemePack>)
    ensures
        r.deep_view() == sorted::<ThemePack>(packs.deep_view()),
{
    sort::sort(packs)
}

pub open spec fn blank_pack() -> PackView {
    PackView {
        name: Seq::empty(),
        panel: None,
        toolbar: None,
        accent: None,
        card: None,
        selected: None,
        background: None,
    }
}

/// The pack with a value under a key; other keys say nothing.
pub open spec fn with_value(p: PackView, key: Seq<char>, value: Seq<char>) -> PackView {
    if key == "name"@ {
        PackView { name: value, ..p }
    } else if key == "panel_bg"@ || key == "background_overlay"@ {
        PackView { panel: color_of(value), ..p }
    } else if key == "toolbar_bg"@ {
        PackView { toolbar: color_of(value), ..p }
    } else if key == "accent"@ {
        PackView { accent: color_of(value), ..p }
    } else if key == "card_bg"@ {
        PackView { card: color_of(value), ..p }
    } else if key == "selection_bg"@ {
        PackView { selected: color_of(value), ..p }
    } else if key == "background_image"@ {
        PackView { background: Some(value), ..p }
    } else {
        p
    }
}

/// The pack with one more line.
pub open spec fn with_setting(p: PackView, raw: Seq<char>) -> PackView {
    let line = trimmed(raw);
    if line.len() == 0 || begins(line, "#"@) {
        p
    } else {
        match split_first(line, "="@) {
            Some((k, v)) => with_value(p, trimmed(k), set_trimmed(trimmed(v), "\""@)),
            None => p,
        }
    }
}

pub open spec fn pack_first(lines: Seq<Seq<char>>, n: int) -> PackView
    decreases n,
{
    if n <= 0 {
        blank_pack()
    } else {
        with_setting(pack_first(lines, n - 1), lines[n - 1])
    }
}

/// The pack that a text describes; one without a name is none.
pub open spec fn pack_of(s: Seq<char>) -> Option<PackView> {
    let p = pack_first(lines_of(s), lines_of(s).len() as int);
    if trimmed(p.name).len() == 0 {
        None
    } else {
        Some(p)
    }
}

fn apply_setting(p: &mut ThemePack, raw: &str)
    ensures
        final(p).deep_view() == with_setting(old(p).deep_view(), raw@),
{
    let line = text::trim(raw);
    let chars = text::chars_of(line.as_str());
    if chars.len() == 0 || text::starts_with(line.as_str(), "#") {
        return;
    }
    if let Some((k, v)) = text::split_once(line.as_str(), "=") {
        let key = text::trim(k.as_str());
        let key = key.as_str();
        let v = text::trim(v.as_str());
        let value = text::trim_of(v.as_str(), "\"");
        if text::same(key, "name") {
            p.name = value;
        } else if text::same(key, "panel_bg") || text::same(key, "background_overlay") {
            p.panel = theme_color(value.as_str());
        } else if text::same(key, "toolbar_bg") {
            p.toolbar = theme_color(value.as_str());
        } else if text::same(key, "accent") {
            p.accent = theme_color(value.as_str());
        } else if text::same(key, "card_bg") {
            p.card = theme_color(value.as_str());
        } else if text::same(key, "selection_bg") {
            p.selected = theme_color(value.as_str());
        } else if text::same(key, "background_image") {
            p.background = Some(value);
        }
    }
}

pub fn load_theme_pack(s: &str) -> (r: Option<ThemePack>)
    ensures
        r.deep_view() == pack_of(s@),
{
    let lines = text::lines(s);
    let ghost lv = lines.deep_view();
    let name = String::new();
    assert(name@ =~= Seq::<char>::empty());
    let mut p = ThemePack {
        name,
        panel: None,
        toolbar: None,
        accent: None,
        card: None,
        selected: None,
        background: None,
    };
    let mut i: usize = 0;
    while i < lines.len()
        invariant
            i <= lines.len(),
            lv == lines.deep_view(),
            p.deep_view() == pack_first(lv, i as int),
        decreases lines.len() - i,
    {
        assert(lv[i as int] == lines@[i as int]@);
        apply_setting(&mut p, lines[i].as_str());
        i = i + 1;
    }
    assert(lv.len() == lines.len());
    let t = text::trim(p.name.as_str());
    let chars = text::chars_of(t.as_str());
    if chars.len() == 0 {
        None
    } else {
        Some(p)
    }
}

/// What a pack is made of: its author, the line of its image, and its colors.
pub struct PackText {
    pub author: Seq<char>,
    pub image: Option<Seq<char>>,
    pub panel: Seq<char>,
    pub toolbar: Seq<char>,
    pub accent: Seq<char>,
    pub card: Seq<char>,
    pub selected: Seq<char>,
}

/// The text of a pack.
pub open spec fn pack_text(name: Seq<char>, p: PackText) -> Seq<char> {
    "[theme]\nname = \""@ + name + "\"\nauthor = \""@ + p.author
        + "\"\nversion = \"1.0\"\n\n[colors]\n"@ + (match p.image {
        Some(i) => "background_image = \""@ + i + "\"\n"@,
        None => ""@,
    }) + "panel_bg = \""@ + p.panel + "\"\ntoolbar_bg = \""@ + p.toolbar + "\"\naccent = \""@
        + p.accent + "\"\ncard_bg = \""@ + p.card + "\"\nselection_bg = \""@ + p.selected + "\"\n"@
}

fn write_pack(
    name: &str,
    author: &str,
    image: Option<&str>,
    panel: &str,
    toolbar: &str,
    accent: &str,
    card: &str,
    selected: &str,
) -> (r: String)
    ensures
        r@ == pack_text(
            name@,
            PackText {
                author: author@,
                image: image.deep_view(),
                panel: panel@,
                toolbar: toolbar@,
                accent: accent@,
                card: card@,
                selected: selected@,
            },
        ),
{
    let line = match image {
        Some(i) => text::cat3("background_image = \"", i, "\"\n"),
        None => "".to_string(),
    };
    let mut r = text::cat3("[theme]\nname = \"", name, "\"\nauthor = \"");
    r.append(author);
    r.append("\"\nversion = \"1.0\"\n\n[colors]\n");
    r.append(line.as_str());
    r.append("panel_bg = \"");
    r.append(panel);
    r.append("\"\ntoolbar_bg = \"");
    r.append(toolbar);
    r.append("\"\naccent = \"");
    r.append(accent);
    r.append("\"\ncard_bg = \"");
    r.append(card);
    r.append("\"\nselection_bg = \"");
    r.append(selected);
    r.append("\"\n");
    r
}

/// The text of a pack whose five colors stand between bars.
pub open spec fn built_in(name: Seq<char>, image: Seq<char>, colors: Seq<char>) -> Option<Seq<char>> {
    let c = split_on(colors, "|"@);
    if c.len() == 5 {
        Some(
            pack_text(
                name,
                PackText {
                    author: "ModSlut"@,
                    image: Some(image),
                    panel: c[0],
                    toolbar: c[1],
                    accent: c[2],
                    card: c[3],
                    selected: c[4],
                },
            ),
        )
    } else {
        None
    }
}

pub fn theme_config(name: &str, image: &str, colors: &str) -> (r: Option<String>)
    ensures
        r.deep_view() == built_in(name@, image@, colors@),
{
    let c = text::split(colors, "|");
    let ghost cv = c.deep_view();
    assert(cv.len() == c.len());
    if c.len() == 5 {
        assert(cv[0] == c@[0]@ && cv[1] == c@[1]@ && cv[2] == c@[2]@ && cv[3] == c@[3]@ && cv[4]
            == c@[4]@);
        Some(
            write_pack(
                name,
                "ModSlut",
                Some(image),
                c[0].as_str(),
                c[1].as_str(),
                c[2].as_str(),
                c[3].as_str(),
                c[4].as_str(),
            ),
        )
    } else {
        None
    }
}

// ---- stylesheets ----

/// How many hexadecimal digits stand at `i`: eight, six, or none that count.
pub open spec fn hex_run(s: Seq<char>, i: int) -> int {
    if all_hex(s, i, 8) {
        8
    } else if all_hex(s, i, 6) {
        6
    } else {
        0
    }
}

pub open spec fn all_hex(s: Seq<char>, i: int, n: int) -> bool {
    i + n <= s.len() && forall|j: int| i <= j < i + n ==> is_hex_digit(#[trigger] s[j])
}

/// The colors that a text names from index `i` on, each once.
pub open spec fn hex_colors_from(s: Seq<char>, i: int, found: Seq<Seq<char>>) -> Seq<Seq<char>>
    decreases s.len() - i,
{
    if i < 0 || i >= s.len() {
        found
    } else if s[i] == '#' && hex_run(s, i + 1) > 0 {
        hex_colors_from(
            s,
            i + 1 + hex_run(s, i + 1),
            with_item(found, s.subrange(i, i + 1 + hex_run(s, i + 1))),
        )
    } else {
        hex_colors_from(s, i + 1, found)
    }
}

fn count_hex(v: &Vec<char>, i: usize, n: usize) -> (r: bool)
    requires
        i <= v.len(),
        n <= 8,
    ensures
        r == all_hex(v@, i as int, n as int),
{
    if n > v.len() - i {
        return false;
    }
    let mut j: usize = i;
    while j < i + n
        invariant
            i <= j <= i + n,
            i + n <= v.len(),
            forall|k: int| i <= k < j ==> is_hex_digit(#[trigger] v@[k]),
        decreases i + n - j,
    {
        if hex_value(v[j]).is_none() {
            return false;
        }
        j = j + 1;
    }
    true
}

/// The colors that a stylesheet names.
pub fn qss_hex_colours(s: &str) -> (r: Vec<String>)
    ensures
        r.deep_view() == hex_colors_from(s@, 0, Seq::empty()),
{
    let v = text::chars_of(s);
    let mut out: Vec<String> = list::none();
    let mut i: usize = 0;
    while i < v.len()
        invariant
            i <= v.len(),
            v@ == s@,
            hex_colors_from(v@, i as int, out.deep_view()) == hex_colors_from(v@, 0, Seq::empty()),
        decreases v.len() - i,
    {
        if v[i] == '#' {
            let n: usize = if count_hex(&v, i + 1, 8) {
                8
            } else if count_hex(&v, i + 1, 6) {
                6
            } else {
                0
            };
            if n > 0 {
                let color = text::part(&v, i, i + 1 + n);
                keys::add_item(&mut out, color);
                i = i + 1 + n;
            } else {
                i = i + 1;
            }
        } else {
            i = i + 1;
        }
    }
    out
}

/// Three digits, each twice.
pub open spec fn doubled(s: Seq<char>) -> Seq<char> {
    seq!['#', s[0], s[0], s[1], s[1], s[2], s[2]]
}

/// The color that a line gives a property, unless it cannot be seen.
pub open spec fn property_color(line: Seq<char>, property: Seq<char>) -> Option<Seq<char>> {
    match split_first(trimmed(line), ":"@) {
        Some((k, v)) => {
            let value = set_trimmed(trimmed(set_trimmed_end(trimmed(v), ";"@)), "'\""@);
            if ascii_lowered(trimmed(k)) != ascii_lowered(property) {
                None
            } else {
                match color_of(value) {
                    Some(c) => if c.a == 0 {
                        None
                    } else if value.len() == 4 && byte_len(value) == 4 {
                        Some(doubled(value.skip(1)))
                    } else {
                        Some(value)
                    },
                    None => None,
                }
            }
        },
        None => None,
    }
}

/// The colors that the first `n` lines give a property, each once.
pub open spec fn colors_first(lines: Seq<Seq<char>>, property: Seq<char>, n: int) -> Seq<Seq<char>>
    decreases n,
{
    if n <= 0 {
        Seq::empty()
    } else {
        let before = colors_first(lines, property, n - 1);
        match property_color(lines[n - 1], property) {
            Some(c) => with_item(before, c),
            None => before,
        }
    }
}

pub open spec fn property_colors(s: Seq<char>, property: Seq<char>) -> Seq<Seq<char>> {
    colors_first(lines_of(s), property, lines_of(s).len() as int)
}

fn read_property(line: &str, property: &str) -> (r: Option<String>)
    ensures
        r.deep_view() == property_color(line@, property@),
{
    let line = text::trim(line);
    match text::split_once(line.as_str(), ":") {
        Some((k, v)) => {
            let key = text::trim(k.as_str());
            if !text::same_ignoring_case(key.as_str(), property) {
                return None;
            }
            let v = text::trim(v.as_str());
            let v = text::trim_end_of(v.as_str(), ";");
            let v = text::trim(v.as_str());
            let value = text::trim_of(v.as_str(), "'\"");
            match theme_color(value.as_str()) {
                Some(c) => {
                    if c.a == 0 {
                        return None;
                    }
                    let chars = text::chars_of(value.as_str());
                    if chars.len() == 4 && text::bytes_in(value.as_str()) == 4 {
                        let mut r = String::new();
                        r.push('#');
                        r.push(chars[1]);
                        r.push(chars[1]);
                        r.push(chars[2]);
                        r.push(chars[2]);
                        r.push(chars[3]);
                        r.push(chars[3]);
                        assert(r@ =~= doubled(value@.skip(1)));
                        Some(r)
                    } else {
                        Some(value)
                    }
                },
                None => None,
            }
        },
        None => None,
    }
}

/// The colors that a stylesheet gives a property.
pub fn qss_property_colours(s: &str, property: &str) -> (r: Vec<String>)
    ensures
        r.deep_view() == property_colors(s@, property@),
{
    let lines = text::lines(s);
    let ghost lv = lines.deep_view();
    let mut out: Vec<String> = list::none();
    let mut i: usize = 0;
    while i < lines.len()
        invariant
            i <= lines.len(),
            lv == lines.deep_view(),
            out.deep_view() == colors_first(lv, property@, i as int),
        decreases lines.len() - i,
    {
        assert(lv[i as int] == lines@[i as int]@);
        if let Some(c) = read_property(lines[i].as_str(), property) {
            keys::add_item(&mut out, c);
        }
        i = i + 1;
    }
    assert(lv.len() == lines.len());
    out
}

/// The image that a stylesheet names first.
pub open spec fn url_of(s: Seq<char>) -> Option<Seq<char>> {
    match split_first(s, "url("@) {
        Some((_, tail)) => match split_first(tail, ")"@) {
            Some((raw, _)) => Some(set_trimmed(trimmed(raw), "'\""@)),
            None => None,
        },
        None => None,
    }
}

pub fn qss_background(s: &str) -> (r: Option<String>)
    ensures
        r.deep_view() == url_of(s@),
{
    match text::split_once(s, "url(") {
        Some((_, tail)) => match text::split_once(tail.as_str(), ")") {
            Some((raw, _)) => {
                let raw = text::trim(raw.as_str());
                Some(text::trim_of(raw.as_str(), "'\""))
            },
            None => None,
        },
        None => None,
    }
}

pub open spec fn at(s: Seq<Seq<char>>, i: int) -> Option<Seq<char>> {
    if 0 <= i < s.len() {
        Some(s[i])
    } else {
        None
    }
}

pub open spec fn or_text(a: Option<Seq<char>>, b: Seq<char>) -> Seq<char> {
    match a {
        Some(s) => s,
        None => b,
    }
}

/// The name of the theme that is made of a stylesheet of that name.
pub open spec fn theme_name(stem: Seq<char>) -> Seq<char> {
    char_replaced(char_replaced(trimmed(stem), '_', ' '), '-', ' ')
}

/// The text of the theme that is made of a stylesheet.
pub open spec fn imported(stem: Seq<char>, s: Seq<char>, image: Option<Seq<char>>) -> Seq<char> {
    let backgrounds = property_colors(s, "background-color"@);
    let selections = property_colors(s, "selection-background-color"@);
    let panel = or_text(at(backgrounds, 0), "#20242BDD"@);
    let accent = match at(selections, 0) {
        Some(c) => c,
        None => or_text(at(backgrounds, 2), "#4A90E2"@),
    };
    pack_text(
        theme_name(stem),
        PackText {
            author: "Imported from MO2 stylesheet"@,
            image,
            panel,
            toolbar: or_text(at(backgrounds, 0), "#141820"@),
            accent,
            card: panel,
            selected: or_text(at(selections, 0), accent),
        },
    )
}

fn pick(v: &Vec<String>, i: usize) -> (r: Option<String>)
    ensures
        r.deep_view() == at(v.deep_view(), i as int),
{
    assert(v.deep_view().len() == v.len());
    if i < v.len() {
        assert(v.deep_view()[i as int] == v@[i as int]@);
        Some(v[i].clone())
    } else {
        None
    }
}

fn or_else(a: Option<String>, b: &str) -> (r: String)
    ensures
        r@ == or_text(a.deep_view(), b@),
{
    match a {
        Some(s) => s,
        None => b.to_string(),
    }
}

/// A theme made of a stylesheet: its name, its folder, and its text.
pub struct Imported {
    pub name: String,
    pub folder: String,
    pub config: String,
}

pub fn import_mo2_qss(stem: &str, s: &str, image: Option<&str>) -> (r: Imported)
    ensures
        r.name@ == theme_name(stem@),
        r.folder@ == safe_of(theme_name(stem@)),
        r.config@ == imported(stem@, s@, image.deep_view()),
{
    let t = text::trim(stem);
    let t = text::replace_char(t.as_str(), '_', ' ');
    let name = text::replace_char(t.as_str(), '-', ' ');
    let folder = keys::safe_name(name.as_str());
    let backgrounds = qss_property_colours(s, "background-color");
    let selections = qss_property_colours(s, "selection-background-color");
    let panel = or_else(pick(&backgrounds, 0), "#20242BDD");
    let toolbar = or_else(pick(&backgrounds, 0), "#141820");
    let accent = match pick(&selections, 0) {
        Some(c) => c,
        None => or_else(pick(&backgrounds, 2), "#4A90E2"),
    };
    let selected = or_else(pick(&selections, 0), accent.as_str());
    let config = write_pack(
        name.as_str(),
        "Imported from MO2 stylesheet",
        image,
        panel.as_str(),
        toolbar.as_str(),
        accent.as_str(),
        panel.as_str(),
        selected.as_str(),
    );
    Imported { name, folder, config }
}

pub open spec fn color_at(s: Seq<Seq<char>>, i: int) -> Option<Color> {
    match at(s, i) {
        Some(c) => color_of(c),
        None => None,
    }
}

pub open spec fn or_color(a: Option<Color>, b: Option<Color>) -> Option<Color> {
    if a is Some {
        a
    } else {
        b
    }
}

/// The palette of a stylesheet, as it is.
pub open spec fn mirrored(name: Seq<char>, s: Seq<char>) -> PackView {
    let backgrounds = property_colors(s, "background-color"@);
    let selections = property_colors(s, "selection-background-color"@);
    PackView {
        name,
        panel: color_at(backgrounds, 0),
        toolbar: color_at(backgrounds, 0),
        accent: or_color(color_at(selections, 0), color_at(backgrounds, 2)),
        card: color_at(backgrounds, 0),
        selected: or_color(color_at(selections, 0), color_at(backgrounds, 0)),
        background: url_of(s),
    }
}

fn pick_color(v: &Vec<String>, i: usize) -> (r: Option<Color>)
    ensures
        r == color_at(v.deep_view(), i as int),
{
    match pick(v, i) {
        Some(c) => theme_color(c.as_str()),
        None => None,
    }
}

pub fn qss_theme_pack(s: &str, name: String) -> (r: ThemePack)
    ensures
        r.deep_view() == mirrored(name@, s@),
{
    let backgrounds = qss_property_colours(s, "background-color");
    let selections = qss_property_colours(s, "selection-background-color");
    let accent = match pick_color(&selections, 0) {
        Some(c) => Some(c),
        None => pick_color(&backgrounds, 2),
    };
    let selected = match pick_color(&selections, 0) {
        Some(c) => Some(c),
        None => pick_color(&backgrounds, 0),
    };
    ThemePack {
        name,
        panel: pick_color(&backgrounds, 0),
        toolbar: pick_color(&backgrounds, 0),
        accent,
        card: pick_color(&backgrounds, 0),
        selected,
        background: qss_background(s),
    }
}

/// The stylesheet that a line of the organizer's settings names.
pub open spec fn style_from(lines: Seq<Seq<char>>, i: int) -> Option<Seq<char>>
    decreases lines.len() - i,
{
    if i < 0 || i >= lines.len() {
        None
    } else {
        match after_prefix(trimmed(lines[i]), "style="@) {
            Some(v) => Some(trimmed(v)),
            None => style_from(lines, i + 1),
        }
    }
}

pub fn active_style(settings: &str) -> (r: Option<String>)
    ensures
        r.deep_view() == style_from(lines_of(settings@), 0),
{
    let lines = text::lines(settings);
    let ghost lv = lines.deep_view();
    let mut i: usize = 0;
    while i < lines.len()
        invariant
            i <= lines.len(),
            lv == lines.deep_view(),
            lv == lines_of(settings@),
            style_from(lv, i as int) == style_from(lv, 0),
        decreases lines.len() - i,
    {
        assert(lv[i as int] == lines@[i as int]@);
        let line = text::trim(lines[i].as_str());
        if let Some(v) = text::strip_prefix(line.as_str(), "style=") {
            return Some(text::trim(v.as_str()));
        }
        i = i + 1;
    }
    None
}

/// The name under which the organizer's own theme is shown.
pub fn mirror_name(style: &str) -> (r: String)
    ensures
        r@ == "MO2 Mirror — "@ + without_suffixes(style@, ".qss"@),
{
    let s = text::trim_suffixes(style, ".qss");
    text::cat("MO2 Mirror — ", s.as_str())
}

} // verus!
