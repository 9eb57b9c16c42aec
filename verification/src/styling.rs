//! A theme that is written is read as it was.
use vstd::prelude::*;
#[allow(unused_imports)]
use crate::readback::{all_white, lemma_lines_append, lemma_split_at, lemma_trim_padded, lemma_trim_tight, tight};
#[allow(unused_imports)]
use crate::text::{begins, before_set, is_line, lines_of, past_set, set_trimmed, set_trimmed_start, trimmed};
#[allow(unused_imports)]
use crate::theme::{blank_pack, color_of, pack_first, pack_of, pack_text, with_setting, with_value, PackText, PackView};

verus! {

// ---- one line ----

/// A value that can stand in quotes on a line.
pub open spec fn quotable(v: Seq<char>) -> bool {
    !v.contains('"') && !v.contains('\n') && !v.contains('\r')
}

/// A key that stands in front of an equals sign as it is.
pub open spec fn is_key(k: Seq<char>) -> bool {
    &&& k.len() > 0
    &&& forall|i: int| 0 <= i < k.len() ==> 'a' <= #[trigger] k[i] <= 'z' || k[i] == '_'
}

pub open spec fn quoted(v: Seq<char>) -> Seq<char> {
    seq!['"'] + v + seq!['"']
}

/// The line `key = "value"`.
pub open spec fn setting(k: Seq<char>, v: Seq<char>) -> Seq<char> {
    k + seq![' ', '=', ' '] + quoted(v)
}

proof fn lemma_unquoted(v: Seq<char>)
    requires
        quotable(v),
    ensures
        set_trimmed(quoted(v), seq!['"']) == v,
{
    let set = seq!['"'];
    let s = quoted(v);
    assert(set.contains('"')) by {
        assert(set[0] == '"');
    }
    assert forall|c: char| set.contains(c) implies c == '"' by {}
    assert(s[0] == '"');
    assert(s.last() == '"');
    if v.len() == 0 {
        assert(s =~= seq!['"', '"']);
        assert(past_set(s, set, 2) == 2);
        assert(past_set(s, set, 1) == 2);
        assert(past_set(s, set, 0) == 2);
        let t = set_trimmed_start(s, set);
        assert(t =~= Seq::<char>::empty());
        assert(set_trimmed(s, set) =~= v);
    } else {
        assert(s[1] == v[0]);
        assert(v.contains(v[0]));
        assert(past_set(s, set, 1) == 1);
        assert(past_set(s, set, 0) == 1);
        let t = set_trimmed_start(s, set);
        assert(t =~= v + seq!['"']);
        let n = t.len() as int;
        assert(t[n - 1] == '"');
        assert(t[n - 2] == v.last());
        assert(v.contains(v.last()));
        assert(before_set(t, set, n - 1) == n - 1);
        assert(before_set(t, set, n) == n - 1);
        assert(t.take(n - 1) =~= v);
    }
}

proof fn lemma_setting(p: PackView, k: Seq<char>, v: Seq<char>)
    requires
        is_key(k),
        quotable(v),
    ensures
        is_line(setting(k, v)),
        with_setting(p, setting(k, v)) == with_value(p, k, v),
{
    reveal_strlit("#");
    reveal_strlit("=");
    reveal_strlit("\"");
    let s = setting(k, v);
    let q = quoted(v);
    let space = seq![' '];
    let none = Seq::<char>::empty();
    assert("="@ =~= seq!['='] && "\""@ =~= seq!['"'] && "#"@ =~= seq!['#']);
    assert(s[0] == k[0]);
    assert(s.last() == '"');
    assert(s.len() > 0);
    lemma_trim_tight(s);
    assert(!begins(s, "#"@)) by {
        if begins(s, "#"@) {
            assert(s.take(1)[0] == '#');
        }
    }
    let left = k + space;
    let right = space + q;
    assert(s =~= left + seq!['='] + right);
    assert(!left.contains('=')) by {
        if left.contains('=') {
            let i = choose|i: int| 0 <= i < left.len() && left[i] == '=';
            if i < k.len() {
                assert(k[i] == '=');
            }
        }
    }
    lemma_split_at(left, '=', right);
    assert(tight(k)) by {
        assert(k[0] == '_' || 'a' <= k[0] <= 'z');
        assert(k.last() == '_' || 'a' <= k.last() <= 'z');
    }
    assert(all_white(space) && all_white(none));
    assert(none + k + space =~= left);
    lemma_trim_padded(none, k, space);
    assert(q[0] == '"' && q.last() == '"');
    assert(space + q + none =~= right);
    lemma_trim_padded(space, q, none);
    lemma_unquoted(v);
    assert(!s.contains('\n')) by {
        if s.contains('\n') {
            let i = choose|i: int| 0 <= i < s.len() && s[i] == '\n';
            let n = k.len() as int;
            if i < n {
                assert(k[i] == '\n');
            } else if i >= n + 4 && i < s.len() - 1 {
                assert(s[i] == v[i - n - 4]);
                assert(v.contains('\n'));
            }
        }
    }
}

// ---- a text line by line ----

/// What a text says of a pack, named or not.
pub open spec fn read(t: Seq<char>) -> PackView {
    pack_first(lines_of(t), lines_of(t).len() as int)
}

/// A text that a further line can follow.
pub open spec fn open_ended(t: Seq<char>) -> bool {
    t.len() == 0 || t.last() == '\n'
}

pub open spec fn with_line(t: Seq<char>, line: Seq<char>) -> Seq<char> {
    t + line + seq!['\n']
}

proof fn lemma_same_pack(a: Seq<Seq<char>>, b: Seq<Seq<char>>, n: int)
    requires
        n <= a.len(),
        n <= b.len(),
        forall|i: int| 0 <= i < n ==> a[i] == b[i],
    ensures
        pack_first(a, n) == pack_first(b, n),
    decreases n,
{
    if n > 0 {
        lemma_same_pack(a, b, n - 1);
    }
}

proof fn lemma_next(t: Seq<char>, line: Seq<char>)
    requires
        open_ended(t),
        is_line(line),
    ensures
        read(with_line(t, line)) == with_setting(read(t), line),
        open_ended(with_line(t, line)),
{
    lemma_lines_append(t, line);
    let lines = lines_of(t);
    let more = lines.push(line);
    lemma_same_pack(lines, more, lines.len() as int);
    assert(pack_first(more, more.len() as int) == with_setting(
        pack_first(more, lines.len() as int),
        line,
    ));
}

/// A line that sets a key.
proof fn lemma_next_setting(t: Seq<char>, k: Seq<char>, v: Seq<char>)
    requires
        open_ended(t),
        is_key(k),
        quotable(v),
    ensures
        read(with_line(t, setting(k, v))) == with_value(read(t), k, v),
        open_ended(with_line(t, setting(k, v))),
{
    lemma_setting(read(t), k, v);
    lemma_next(t, setting(k, v));
}

proof fn lemma_start()
    ensures
        read(Seq::empty()) == blank_pack(),
{
    let none = Seq::<char>::empty();
    assert(lines_of(none) =~= Seq::<Seq<char>>::empty());
}

// ---- the whole pack ----

/// The lines in front of the colors.
pub open spec fn head_text(name: Seq<char>, author: Seq<char>) -> Seq<char> {
    let a = with_line(Seq::empty(), "[theme]"@);
    let b = with_line(a, setting("name"@, name));
    let c = with_line(b, setting("author"@, author));
    let d = with_line(c, setting("version"@, "1.0"@));
    with_line(with_line(d, Seq::empty()), "[colors]"@)
}

pub open spec fn image_text(t: Seq<char>, image: Option<Seq<char>>) -> Seq<char> {
    match image {
        Some(i) => with_line(t, setting("background_image"@, i)),
        None => t,
    }
}

pub open spec fn colors_text(t: Seq<char>, p: PackText) -> Seq<char> {
    let a = with_line(t, setting("panel_bg"@, p.panel));
    let b = with_line(a, setting("toolbar_bg"@, p.toolbar));
    let c = with_line(b, setting("accent"@, p.accent));
    let d = with_line(c, setting("card_bg"@, p.card));
    with_line(d, setting("selection_bg"@, p.selected))
}

/// A literal that opens a value: the key, an equals sign and a quote.
pub open spec fn opening(k: Seq<char>) -> Seq<char> {
    k + seq![' ', '=', ' ', '"']
}

proof fn lemma_line_parts(t: Seq<char>, k: Seq<char>, v: Seq<char>)
    ensures
        with_line(t, setting(k, v)) == t + opening(k) + v + seq!['"', '\n'],
{
    assert(with_line(t, setting(k, v)) =~= t + opening(k) + v + seq!['"', '\n']);
}

proof fn lemma_head(name: Seq<char>, author: Seq<char>)
    ensures
        head_text(name, author) == "[theme]\nname = \""@ + name + "\"\nauthor = \""@ + author
            + "\"\nversion = \"1.0\"\n\n[colors]\n"@,
{
    reveal_strlit("[theme]");
    reveal_strlit("name");
    reveal_strlit("author");
    reveal_strlit("version");
    reveal_strlit("1.0");
    reveal_strlit("[colors]");
    reveal_strlit("[theme]\nname = \"");
    reveal_strlit("\"\nauthor = \"");
    reveal_strlit("\"\nversion = \"1.0\"\n\n[colors]\n");
    let a = with_line(Seq::empty(), "[theme]"@);
    let b = with_line(a, setting("name"@, name));
    let c = with_line(b, setting("author"@, author));
    let d = with_line(c, setting("version"@, "1.0"@));
    let end = seq!['"', '\n'];
    lemma_line_parts(a, "name"@, name);
    lemma_line_parts(b, "author"@, author);
    lemma_line_parts(c, "version"@, "1.0"@);
    let one = "[theme]\nname = \""@;
    let two = "\"\nauthor = \""@;
    let three = "\"\nversion = \"1.0\"\n\n[colors]\n"@;
    assert(a + opening("name"@) =~= one);
    assert(end + opening("author"@) =~= two);
    let tail = opening("version"@) + "1.0"@ + end + seq!['\n'] + "[colors]"@ + seq!['\n'];
    assert(end + tail =~= three);
    assert(b == one + name + end);
    assert(c =~= b + opening("author"@) + author + end);
    assert(b + opening("author"@) =~= one + name + two);
    assert(c =~= one + name + two + author + end);
    assert(head_text(name, author) =~= c + tail);
    assert(c + tail =~= one + name + two + author + (end + tail));
}

proof fn lemma_colors(t: Seq<char>, p: PackText)
    ensures
        colors_text(t, p) == t + "panel_bg = \""@ + p.panel + "\"\ntoolbar_bg = \""@ + p.toolbar
            + "\"\naccent = \""@ + p.accent + "\"\ncard_bg = \""@ + p.card
            + "\"\nselection_bg = \""@ + p.selected + "\"\n"@,
{
    reveal_strlit("panel_bg");
    reveal_strlit("toolbar_bg");
    reveal_strlit("accent");
    reveal_strlit("card_bg");
    reveal_strlit("selection_bg");
    reveal_strlit("panel_bg = \"");
    reveal_strlit("\"\ntoolbar_bg = \"");
    reveal_strlit("\"\naccent = \"");
    reveal_strlit("\"\ncard_bg = \"");
    reveal_strlit("\"\nselection_bg = \"");
    reveal_strlit("\"\n");
    let end = seq!['"', '\n'];
    let a = with_line(t, setting("panel_bg"@, p.panel));
    let b = with_line(a, setting("toolbar_bg"@, p.toolbar));
    let c = with_line(b, setting("accent"@, p.accent));
    let d = with_line(c, setting("card_bg"@, p.card));
    lemma_line_parts(t, "panel_bg"@, p.panel);
    lemma_line_parts(a, "toolbar_bg"@, p.toolbar);
    lemma_line_parts(b, "accent"@, p.accent);
    lemma_line_parts(c, "card_bg"@, p.card);
    lemma_line_parts(d, "selection_bg"@, p.selected);
    assert(opening("panel_bg"@) =~= "panel_bg = \""@);
    assert(end + opening("toolbar_bg"@) =~= "\"\ntoolbar_bg = \""@);
    assert(end + opening("accent"@) =~= "\"\naccent = \""@);
    assert(end + opening("card_bg"@) =~= "\"\ncard_bg = \""@);
    assert(end + opening("selection_bg"@) =~= "\"\nselection_bg = \""@);
    assert(end =~= "\"\n"@);
    let u = t + "panel_bg = \""@ + p.panel;
    assert(a == u + end);
    assert(a + opening("toolbar_bg"@) =~= u + (end + opening("toolbar_bg"@)));
    let v = u + "\"\ntoolbar_bg = \""@ + p.toolbar;
    assert(b == v + end);
    assert(b + opening("accent"@) =~= v + (end + opening("accent"@)));
    let w = v + "\"\naccent = \""@ + p.accent;
    assert(c == w + end);
    assert(c + opening("card_bg"@) =~= w + (end + opening("card_bg"@)));
    let x = w + "\"\ncard_bg = \""@ + p.card;
    assert(d == x + end);
    assert(d + opening("selection_bg"@) =~= x + (end + opening("selection_bg"@)));
}

proof fn lemma_whole(name: Seq<char>, p: PackText)
    ensures
        pack_text(name, p) == colors_text(image_text(head_text(name, p.author), p.image), p),
{
    lemma_head(name, p.author);
    let h = head_text(name, p.author);
    let t = image_text(h, p.image);
    lemma_colors(t, p);
    match p.image {
        Some(i) => {
            reveal_strlit("background_image");
            reveal_strlit("background_image = \"");
            reveal_strlit("\"\n");
            lemma_line_parts(h, "background_image"@, i);
            assert(opening("background_image"@) =~= "background_image = \""@);
            assert(seq!['"', '\n'] =~= "\"\n"@);
            assert(t =~= h + ("background_image = \""@ + i + "\"\n"@));
        },
        None => {
            reveal_strlit("");
            assert(t =~= h + ""@);
        },
    }
}

proof fn lemma_keys()
    ensures
        is_key("name"@),
        is_key("author"@),
        is_key("version"@),
        is_key("background_image"@),
        is_key("panel_bg"@),
        is_key("toolbar_bg"@),
        is_key("accent"@),
        is_key("card_bg"@),
        is_key("selection_bg"@),
{
    reveal_strlit("name");
    reveal_strlit("author");
    reveal_strlit("version");
    reveal_strlit("background_image");
    reveal_strlit("panel_bg");
    reveal_strlit("toolbar_bg");
    reveal_strlit("accent");
    reveal_strlit("card_bg");
    reveal_strlit("selection_bg");
}

proof fn lemma_values(p: PackView, v: Seq<char>)
    ensures
        with_value(p, "name"@, v) == (PackView { name: v, ..p }),
        with_value(p, "author"@, v) == p,
        with_value(p, "version"@, v) == p,
        with_value(p, "background_image"@, v) == (PackView { background: Some(v), ..p }),
        with_value(p, "panel_bg"@, v) == (PackView { panel: color_of(v), ..p }),
        with_value(p, "toolbar_bg"@, v) == (PackView { toolbar: color_of(v), ..p }),
        with_value(p, "accent"@, v) == (PackView { accent: color_of(v), ..p }),
        with_value(p, "card_bg"@, v) == (PackView { card: color_of(v), ..p }),
        with_value(p, "selection_bg"@, v) == (PackView { selected: color_of(v), ..p }),
{
    reveal_strlit("name");
    reveal_strlit("author");
    reveal_strlit("version");
    reveal_strlit("background_image");
    reveal_strlit("background_overlay");
    reveal_strlit("panel_bg");
    reveal_strlit("toolbar_bg");
    reveal_strlit("accent");
    reveal_strlit("card_bg");
    reveal_strlit("selection_bg");
    assert("name"@.len() == 4 && "panel_bg"@.len() == 8 && "background_overlay"@.len() == 18);
    assert("toolbar_bg"@.len() == 10 && "accent"@.len() == 6 && "card_bg"@.len() == 7);
    assert("selection_bg"@.len() == 12 && "background_image"@.len() == 16);
    assert("author"@[1] == 'u' && "accent"@[1] == 'c');
    assert("version"@[0] == 'v' && "card_bg"@[0] == 'c');
}

proof fn lemma_plain_lines(p: PackView)
    ensures
        is_line("[theme]"@),
        is_line("[colors]"@),
        is_line(Seq::<char>::empty()),
        with_setting(p, "[theme]"@) == p,
        with_setting(p, "[colors]"@) == p,
        with_setting(p, Seq::empty()) == p,
{
    reveal_strlit("[theme]");
    reveal_strlit("[colors]");
    reveal_strlit("=");
    assert("="@ =~= seq!['=']);
    lemma_trim_tight("[theme]"@);
    lemma_trim_tight("[colors]"@);
    lemma_trim_tight(Seq::<char>::empty());
    crate::readback::lemma_no_split("[theme]"@, '=');
    crate::readback::lemma_no_split("[colors]"@, '=');
}

proof fn lemma_head_read(name: Seq<char>, author: Seq<char>)
    requires
        quotable(name),
        quotable(author),
    ensures
        read(head_text(name, author)) == (PackView { name, ..blank_pack() }),
        open_ended(head_text(name, author)),
{
    let none = Seq::<char>::empty();
    lemma_keys();
    lemma_start();
    let p0 = blank_pack();
    let p = PackView { name, ..p0 };
    lemma_plain_lines(p0);
    lemma_plain_lines(p);
    lemma_next(none, "[theme]"@);
    let a = with_line(none, "[theme]"@);
    lemma_next_setting(a, "name"@, name);
    lemma_values(p0, name);
    let b = with_line(a, setting("name"@, name));
    lemma_next_setting(b, "author"@, author);
    lemma_values(p, author);
    let c = with_line(b, setting("author"@, author));
    assert(quotable("1.0"@)) by {
        reveal_strlit("1.0");
    }
    lemma_next_setting(c, "version"@, "1.0"@);
    lemma_values(p, "1.0"@);
    let d = with_line(c, setting("version"@, "1.0"@));
    lemma_next(d, none);
    lemma_next(with_line(d, none), "[colors]"@);
}

proof fn lemma_colors_read(t: Seq<char>, p: PackText)
    requires
        open_ended(t),
        quotable(p.panel),
        quotable(p.toolbar),
        quotable(p.accent),
        quotable(p.card),
        quotable(p.selected),
    ensures
        read(colors_text(t, p)) == (PackView {
            panel: color_of(p.panel),
            toolbar: color_of(p.toolbar),
            accent: color_of(p.accent),
            card: color_of(p.card),
            selected: color_of(p.selected),
            ..read(t)
        }),
{
    lemma_keys();
    let a = with_line(t, setting("panel_bg"@, p.panel));
    let b = with_line(a, setting("toolbar_bg"@, p.toolbar));
    let c = with_line(b, setting("accent"@, p.accent));
    let d = with_line(c, setting("card_bg"@, p.card));
    lemma_next_setting(t, "panel_bg"@, p.panel);
    lemma_values(read(t), p.panel);
    lemma_next_setting(a, "toolbar_bg"@, p.toolbar);
    lemma_values(read(a), p.toolbar);
    lemma_next_setting(b, "accent"@, p.accent);
    lemma_values(read(b), p.accent);
    lemma_next_setting(c, "card_bg"@, p.card);
    lemma_values(read(c), p.card);
    lemma_next_setting(d, "selection_bg"@, p.selected);
    lemma_values(read(d), p.selected);
}

/// A pack that is written is read with its name, its image and its colors, as long as
/// none of them holds a quote or a line end and the name says anything.
pub proof fn written_packs_are_read(name: Seq<char>, p: PackText)
    requires
        trimmed(name).len() > 0,
        quotable(name),
        quotable(p.author),
        p.image matches Some(i) ==> quotable(i),
        quotable(p.panel),
        quotable(p.toolbar),
        quotable(p.accent),
        quotable(p.card),
        quotable(p.selected),
    ensures
        pack_of(pack_text(name, p)) == Some(
            PackView {
                name,
                panel: color_of(p.panel),
                toolbar: color_of(p.toolbar),
                accent: color_of(p.accent),
                card: color_of(p.card),
                selected: color_of(p.selected),
                background: p.image,
            },
        ),
{
    lemma_whole(name, p);
    let h = head_text(name, p.author);
    let t = image_text(h, p.image);
    lemma_head_read(name, p.author);
    if let Some(i) = p.image {
        lemma_keys();
        lemma_next_setting(h, "background_image"@, i);
        lemma_values(read(h), i);
    }
    lemma_colors_read(t, p);
    assert(read(pack_text(name, p)).name == name);
}

} // verus!
