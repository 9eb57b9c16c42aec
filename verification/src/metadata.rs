//! Notes on mods that their users wrote: requirements, incompatibilities and messages.
use vstd::prelude::*;
#[allow(unused_imports)]
use crate::groups::lemma_place_like;
use crate::keys;
#[allow(unused_imports)]
use crate::keys::{place_like, squeezed, squeezed_first};
use crate::list;
use crate::map::TextMap;
#[allow(unused_imports)]
use crate::map::{found, insert_then_get, inserted};
#[allow(unused_imports)]
use crate::readback::{lemma_joined_lines, lemma_lines_append, lemma_lines_close, lemma_no_split, lemma_split_at, lemma_split_cut, lemma_trimmed_cut, lemma_squeezed_replaced, lemma_squeezed_trimmed, lemma_trimmed_is_tight, tight};
use crate::profile;
#[allow(unused_imports)]
use crate::profile::data_path;
use crate::text;
#[allow(unused_imports)]
use crate::text::{ascii_lowered, begins, char_replaced, finishes, is_line, joined, lemma_lines_have_no_feed, lines_of, lower_char, split_first, trimmed, without_cr};

verus! {

pub const FILE_PREFIX: &'static str = "modslut_human_metadata_";

#[derive(Clone, Copy, PartialEq, Eq, Debug, Structural)]
pub enum Kind {
    Requirement,
    Incompatibility,
    Message,
}

pub open spec fn kind_text(k: Kind) -> Seq<char> {
    match k {
        Kind::Requirement => "requirement"@,
        Kind::Incompatibility => "incompatibility"@,
        Kind::Message => "message"@,
    }
}

impl Kind {
    pub fn text(self) -> (r: &'static str)
        ensures
            r@ == kind_text(self),
    {
        match self {
            Kind::Requirement => "requirement",
            Kind::Incompatibility => "incompatibility",
            Kind::Message => "message",
        }
    }
}

/// The notes on one mod.
pub struct Entry {
    pub requirements: Vec<String>,
    pub incompatibilities: Vec<String>,
    pub messages: Vec<String>,
}

#[verifier::ext_equal]
pub struct NotesView {
    pub requirements: Seq<Seq<char>>,
    pub incompatibilities: Seq<Seq<char>>,
    pub messages: Seq<Seq<char>>,
}

impl DeepView for Entry {
    type V = NotesView;

    open spec fn deep_view(&self) -> NotesView {
        NotesView {
            requirements: self.requirements.deep_view(),
            incompatibilities: self.incompatibilities.deep_view(),
            messages: self.messages.deep_view(),
        }
    }
}

/// The notes of a profile, by the letters and digits of the mods' names.
pub struct HumanMetadata {
    pub entries: TextMap<Entry>,
    /// Where they are kept.
    pub path: String,
}

pub open spec fn no_notes() -> NotesView {
    NotesView {
        requirements: Seq::empty(),
        incompatibilities: Seq::empty(),
        messages: Seq::empty(),
    }
}

pub open spec fn notes_or_none(e: Option<NotesView>) -> NotesView {
    match e {
        Some(n) => n,
        None => no_notes(),
    }
}

/// The notes with one more; a row of another kind adds none.
pub open spec fn noted(e: NotesView, kind: Seq<char>, value: Seq<char>) -> NotesView {
    if kind == "requirement"@ {
        NotesView { requirements: e.requirements.push(value), ..e }
    } else if kind == "incompatibility"@ {
        NotesView { incompatibilities: e.incompatibilities.push(value), ..e }
    } else if kind == "message"@ {
        NotesView { messages: e.messages.push(value), ..e }
    } else {
        e
    }
}

/// The three fields of a row.
pub open spec fn row_of(line: Seq<char>) -> Option<(Seq<char>, Seq<char>, Seq<char>)> {
    match split_first(line, "\t"@) {
        Some((kind, rest)) => match split_first(rest, "\t"@) {
            Some((name, value)) => Some((kind, name, value)),
            None => None,
        },
        None => None,
    }
}

pub open spec fn entries_first(lines: Seq<Seq<char>>, n: int) -> Seq<(Seq<char>, NotesView)>
    decreases n,
{
    if n <= 0 {
        Seq::empty()
    } else {
        let before = entries_first(lines, n - 1);
        let line = lines[n - 1];
        if begins(line, "#"@) {
            before
        } else {
            match row_of(line) {
                Some((kind, name, value)) => inserted(
                    before,
                    squeezed(name),
                    noted(notes_or_none(found(before, squeezed(name))), kind, value),
                ),
                None => before,
            }
        }
    }
}

/// The notes that a text holds.
pub open spec fn entries_of(s: Option<Seq<char>>) -> Seq<(Seq<char>, NotesView)> {
    match s {
        Some(t) => entries_first(lines_of(t), lines_of(t).len() as int),
        None => Seq::empty(),
    }
}

pub open spec fn values_of(
    entries: Seq<(Seq<char>, NotesView)>,
    name: Seq<char>,
    kind: Kind,
) -> Seq<Seq<char>> {
    let e = notes_or_none(found(entries, squeezed(name)));
    match kind {
        Kind::Requirement => e.requirements,
        Kind::Incompatibility => e.incompatibilities,
        Kind::Message => e.messages,
    }
}

fn copy_entry(e: Option<&Entry>) -> (r: Entry)
    ensures
        r.deep_view() == notes_or_none(e.deep_view()),
{
    match e {
        Some(e) => Entry {
            requirements: list::copy(&e.requirements),
            incompatibilities: list::copy(&e.incompatibilities),
            messages: list::copy(&e.messages),
        },
        None => Entry {
            requirements: list::none(),
            incompatibilities: list::none(),
            messages: list::none(),
        },
    }
}

fn note(e: &mut Entry, kind: &str, value: String)
    ensures
        final(e).deep_view() == noted(old(e).deep_view(), kind@, value@),
{
    if text::same(kind, "requirement") {
        list::put(&mut e.requirements, value);
    } else if text::same(kind, "incompatibility") {
        list::put(&mut e.incompatibilities, value);
    } else if text::same(kind, "message") {
        list::put(&mut e.messages, value);
    }
}

fn read_row(line: &str) -> (r: Option<(String, String, String)>)
    ensures
        r.deep_view() == row_of(line@),
{
    match text::split_once(line, "\t") {
        Some((kind, rest)) => match text::split_once(rest.as_str(), "\t") {
            Some((name, value)) => Some((kind, name, value)),
            None => None,
        },
        None => None,
    }
}

impl HumanMetadata {
    /// The notes in a text, if there is one.
    pub fn load(s: Option<&str>, path: &str) -> (r: HumanMetadata)
        ensures
            r.entries.deep_view() == entries_of(s.deep_view()),
            r.path@ == path@,
    {
        let mut entries: TextMap<Entry> = TextMap::new();
        match s {
            None => {},
            Some(t) => {
                let lines = text::lines(t);
                let ghost lv = lines.deep_view();
                let mut i: usize = 0;
                while i < lines.len()
                    invariant
                        i <= lines.len(),
                        lv == lines.deep_view(),
                        entries.deep_view() == entries_first(lv, i as int),
                    decreases lines.len() - i,
                {
                    assert(lv[i as int] == lines@[i as int]@);
                    let line = lines[i].as_str();
                    if !text::starts_with(line, "#") {
                        if let Some((kind, name, value)) = read_row(line) {
                            let k = keys::squeeze(name.as_str());
                            let mut e = copy_entry(entries.get(k.as_str()));
                            note(&mut e, kind.as_str(), value);
                            entries.insert(k, e);
                        }
                    }
                    i = i + 1;
                }
                assert(lv.len() == lines.len());
            },
        }
        HumanMetadata { entries, path: path.to_string() }
    }

    /// The notes of one kind on a mod.
    pub fn values(&self, name: &str, kind: Kind) -> (r: Vec<String>)
        ensures
            r.deep_view() == values_of(self.entries.deep_view(), name@, kind),
    {
        let k = keys::squeeze(name);
        let e = copy_entry(self.entries.get(k.as_str()));
        match kind {
            Kind::Requirement => e.requirements,
            Kind::Incompatibility => e.incompatibilities,
            Kind::Message => e.messages,
        }
    }
}

/// A field without tabs and line ends.
pub open spec fn cleaned(s: Seq<char>) -> Seq<char> {
    trimmed(char_replaced(char_replaced(char_replaced(s, '\t', ' '), '\r', ' '), '\n', ' '))
}

fn clean(s: &str) -> (r: String)
    ensures
        r@ == cleaned(s@),
{
    let a = text::replace_char(s, '\t', ' ');
    let b = text::replace_char(a.as_str(), '\r', ' ');
    let c = text::replace_char(b.as_str(), '\n', ' ');
    text::trim(c.as_str())
}

pub open spec fn note_row(kind: Kind, name: Seq<char>, value: Seq<char>) -> Seq<char> {
    kind_text(kind) + "\t"@ + name + "\t"@ + value
}

pub open spec fn text_or_head(s: Option<Seq<char>>) -> Seq<char> {
    match s {
        Some(t) => t,
        None => "# ModSlut human metadata. Profile-local, portable, and safe to review before sharing.\n# kind\tmod\tvalue\n"@,
    }
}

pub open spec fn ended_once(s: Seq<char>) -> Seq<char> {
    if finishes(s, "\n"@) {
        s
    } else {
        s + "\n"@
    }
}

/// The text with one more note, unless a field is empty or the note is there.
pub open spec fn appended(
    s: Option<Seq<char>>,
    kind: Kind,
    name: Seq<char>,
    value: Seq<char>,
) -> Option<Seq<char>> {
    let n = cleaned(name);
    let v = cleaned(value);
    let t = text_or_head(s);
    if n.len() == 0 || v.len() == 0 || place_like(lines_of(t), note_row(kind, n, v), 0) is Some {
        None
    } else {
        Some(ended_once(t) + note_row(kind, n, v) + "\n"@)
    }
}

/// The text that adds a note, if it has to be written.
pub fn append(s: Option<&str>, kind: Kind, name: &str, value: &str) -> (r: Option<String>)
    ensures
        r.deep_view() == appended(s.deep_view(), kind, name@, value@),
{
    let n = clean(name);
    let v = clean(value);
    let left = text::chars_of(n.as_str());
    let right = text::chars_of(v.as_str());
    if left.len() == 0 || right.len() == 0 {
        return None;
    }
    let t = match s {
        Some(t) => t.to_string(),
        None => "# ModSlut human metadata. Profile-local, portable, and safe to review before sharing.\n# kind\tmod\tvalue\n".to_string(),
    };
    let ghost tv = t@;
    let mut row = text::cat3(kind.text(), "\t", n.as_str());
    row.append("\t");
    row.append(v.as_str());
    let lines = text::lines(t.as_str());
    let slice = lines.as_slice();
    assert(slice.deep_view() =~= lines.deep_view());
    if keys::find_like(slice, row.as_str()).is_some() {
        return None;
    }
    let mut t = t;
    if !text::ends_with(t.as_str(), "\n") {
        t.append("\n");
    }
    t.append(row.as_str());
    t.append("\n");
    Some(t)
}

/// The mod that a row is about.
pub open spec fn row_name(line: Seq<char>) -> Option<Seq<char>> {
    match split_first(line, "\t"@) {
        Some((_, rest)) => match split_first(rest, "\t"@) {
            Some((name, _)) => Some(name),
            None => Some(rest),
        },
        None => None,
    }
}

pub open spec fn is_about(line: Seq<char>, wanted: Seq<char>) -> bool {
    match row_name(line) {
        Some(n) => squeezed(n) == wanted,
        None => false,
    }
}

/// The first `n` lines without those about a mod.
pub open spec fn others_first(lines: Seq<Seq<char>>, wanted: Seq<char>, n: int) -> Seq<Seq<char>>
    decreases n,
{
    if n <= 0 {
        Seq::empty()
    } else {
        let before = others_first(lines, wanted, n - 1);
        if is_about(lines[n - 1], wanted) {
            before
        } else {
            before.push(lines[n - 1])
        }
    }
}

pub open spec fn cleared(s: Seq<char>, name: Seq<char>) -> Seq<char> {
    let lines = lines_of(s);
    joined(others_first(lines, squeezed(name), lines.len() as int), "\n"@) + "\n"@
}

fn about(line: &str, wanted: &str) -> (r: bool)
    ensures
        r == is_about(line@, wanted@),
{
    match text::split_once(line, "\t") {
        Some((_, rest)) => {
            let k = match text::split_once(rest.as_str(), "\t") {
                Some((name, _)) => keys::squeeze(name.as_str()),
                None => keys::squeeze(rest.as_str()),
            };
            text::same(k.as_str(), wanted)
        },
        None => false,
    }
}

/// The text without any note on a mod, if that changes it.
pub fn clear_for(s: Option<&str>, name: &str) -> (r: Option<String>)
    ensures
        r.deep_view() == (match s.deep_view() {
            Some(t) => if cleared(t, name@) == t {
                None
            } else {
                Some(cleared(t, name@))
            },
            None => None,
        }),
{
    let t = match s {
        Some(t) => t,
        None => {
            return None;
        },
    };
    let wanted = keys::squeeze(name);
    let lines = text::lines(t);
    let ghost lv = lines.deep_view();
    let mut kept: Vec<String> = list::none();
    let mut i: usize = 0;
    while i < lines.len()
        invariant
            i <= lines.len(),
            lv == lines.deep_view(),
            kept.deep_view() == others_first(lv, wanted@, i as int),
        decreases lines.len() - i,
    {
        assert(lv[i as int] == lines@[i as int]@);
        if !about(lines[i].as_str(), wanted.as_str()) {
            list::put(&mut kept, lines[i].clone());
        }
        i = i + 1;
    }
    assert(lv.len() == lines.len());
    let mut updated = text::join(&kept, "\n");
    updated.append("\n");
    if text::same(updated.as_str(), t) {
        None
    } else {
        Some(updated)
    }
}

/// Where the notes of a profile are kept.
pub fn path_for(folder: &str) -> (r: String)
    ensures
        r@ == data_path(folder@, "human_metadata.tsv"@),
{
    profile::profile_data_path(folder, "human_metadata.tsv")
}

// ---- laws ----

proof fn lemma_entries_prefix(a: Seq<Seq<char>>, b: Seq<Seq<char>>, n: int)
    requires
        0 <= n <= a.len(),
        n <= b.len(),
        forall|i: int| 0 <= i < n ==> #[trigger] a[i] == b[i],
    ensures
        entries_first(a, n) == entries_first(b, n),
    decreases n,
{
    if n > 0 {
        lemma_entries_prefix(a, b, n - 1);
        assert(a[n - 1] == b[n - 1]);
    }
}

proof fn lemma_cleaned(s: Seq<char>)
    ensures
        !cleaned(s).contains('\t'),
        !cleaned(s).contains('\n'),
        !cleaned(s).contains('\r'),
        tight(cleaned(s)),
        squeezed(cleaned(s)) == squeezed(s),
{
    let a = char_replaced(s, '\t', ' ');
    let b = char_replaced(a, '\r', ' ');
    let c = char_replaced(b, '\n', ' ');
    lemma_squeezed_replaced(s, '\t', ' ');
    lemma_squeezed_replaced(a, '\r', ' ');
    lemma_squeezed_replaced(b, '\n', ' ');
    lemma_squeezed_trimmed(c);
    lemma_trimmed_is_tight(c);
    text::lemma_past_white(c, 0);
    let t = text::trimmed_start(c);
    text::lemma_before_white(t, t.len() as int);
    let u = trimmed(c);
    assert forall|i: int| 0 <= i < u.len() implies u[i] != '\t' && u[i] != '\n' && u[i] != '\r' by {
        assert(u[i] == c[i + text::past_white(c, 0)]);
    }
}

proof fn lemma_row(kind: Kind, name: Seq<char>, value: Seq<char>)
    requires
        !name.contains('\t'),
        !name.contains('\n'),
        !value.contains('\n'),
        !value.contains('\r'),
        value.len() > 0,
    ensures
        row_of(note_row(kind, name, value)) == Some((kind_text(kind), name, value)),
        is_line(note_row(kind, name, value)),
        !begins(note_row(kind, name, value), "#"@),
{
    reveal_strlit("requirement");
    reveal_strlit("incompatibility");
    reveal_strlit("message");
    reveal_strlit("\t");
    reveal_strlit("#");
    let k = kind_text(kind);
    assert("\t"@ =~= seq!['\t']);
    let rest = name + seq!['\t'] + value;
    let row = note_row(kind, name, value);
    assert(row =~= k + seq!['\t'] + rest);
    assert(!k.contains('\t'));
    lemma_split_at(k, '\t', rest);
    lemma_split_at(name, '\t', value);
    assert forall|i: int| 0 <= i < row.len() implies row[i] != '\n' by {
        if i < k.len() {
            assert(row[i] == k[i]);
        } else if k.len() < i < k.len() + 1 + name.len() {
            assert(row[i] == name[i - k.len() - 1]);
        } else if i >= k.len() + name.len() + 2 {
            assert(row[i] == value[i - k.len() - name.len() - 2]);
        }
    }
    assert(row.last() == value.last());
    assert(row.take(1)[0] == k[0]);
}

/// The lines of a text with a note more are those that it had, and the row of the note.
proof fn lemma_appended_lines(s: Option<Seq<char>>, kind: Kind, name: Seq<char>, value: Seq<char>)
    requires
        appended(s, kind, name, value) is Some,
        text_or_head(s).len() > 0 ==> text_or_head(s).last() != '\r',
    ensures
        ({
            let t = text_or_head(s);
            let u = ended_once(t);
            &&& lines_of(appended(s, kind, name, value)->0) == lines_of(u).push(
                note_row(kind, cleaned(name), cleaned(value)),
            )
            &&& lines_of(u) == lines_of(t) || lines_of(u) == seq![Seq::<char>::empty()]
            &&& entries_of(Some(u)) == entries_of(Some(t))
        }),
{
    let t = text_or_head(s);
    let row = note_row(kind, cleaned(name), cleaned(value));
    lemma_cleaned(name);
    lemma_cleaned(value);
    lemma_row(kind, cleaned(name), cleaned(value));
    reveal_strlit("\n");
    assert("\n"@ =~= seq!['\n']);
    let u = ended_once(t);
    assert(u.last() == '\n') by {
        if finishes(t, "\n"@) {
            assert(t.skip(t.len() - 1)[0] == '\n');
        }
    }
    if !finishes(t, "\n"@) {
        if t.len() > 0 {
            if t.last() == '\n' {
                assert(t.skip(t.len() - 1) =~= "\n"@);
            }
            lemma_lines_close(t);
        } else {
            let none = Seq::<char>::empty();
            assert(t =~= none);
            lemma_lines_append(none, none);
            assert(none + none + seq!['\n'] =~= u);
            assert(lines_of(none) =~= Seq::empty());
            assert(lines_of(u) =~= seq![none]);
            lemma_empty_row();
            assert(entries_first(lines_of(u), 1) == entries_first(lines_of(u), 0));
        }
    }
    lemma_lines_append(u, row);
}

proof fn lemma_empty_row()
    ensures
        row_of(Seq::<char>::empty()) is None,
{
    reveal_strlit("\t");
    assert("\t"@ =~= seq!['\t']);
    lemma_no_split(Seq::<char>::empty(), '\t');
}

/// A note that is added is read with the mod's notes of its kind, behind those that were
/// there, and no other note changes. A text that ends with a bare carriage return would
/// lose it.
pub proof fn added_note_is_read(
    s: Option<Seq<char>>,
    kind: Kind,
    name: Seq<char>,
    value: Seq<char>,
    q: Seq<char>,
    k: Kind,
)
    requires
        appended(s, kind, name, value) is Some,
        text_or_head(s).len() > 0 ==> text_or_head(s).last() != '\r',
    ensures
        ({
            let before = values_of(entries_of(Some(text_or_head(s))), q, k);
            values_of(entries_of(appended(s, kind, name, value)), q, k) == (if squeezed(q)
                == squeezed(name) && k == kind {
                before.push(cleaned(value))
            } else {
                before
            })
        }),
{
    let n = cleaned(name);
    let v = cleaned(value);
    lemma_cleaned(name);
    lemma_cleaned(value);
    lemma_row(kind, n, v);
    lemma_appended_lines(s, kind, name, value);
    let u = ended_once(text_or_head(s));
    let before = entries_of(Some(u));
    let lines = lines_of(appended(s, kind, name, value)->0);
    lemma_entries_prefix(lines, lines_of(u), lines_of(u).len() as int);
    let key = squeezed(n);
    let e = noted(notes_or_none(found(before, key)), kind_text(kind), v);
    insert_then_get(before, key, e, squeezed(q));
    lemma_kinds_differ();
}

/// The row writes its kind in lower case, as every row that is appended does.
pub open spec fn names_its_kind(line: Seq<char>) -> bool {
    row_of(line) matches Some((kind, _, _)) ==> begins(line, "#"@) || ascii_lowered(kind) == kind
}

/// A text that rows can be appended to and found in again: it does not end with a bare
/// carriage return, and no row writes its kind in capitals.
pub open spec fn well_kept(s: Option<Seq<char>>) -> bool {
    let t = text_or_head(s);
    &&& t.len() > 0 ==> t.last() != '\r'
    &&& forall|i: int| 0 <= i < lines_of(t).len() ==> names_its_kind(#[trigger] lines_of(t)[i])
}

/// What is kept after a note was appended.
pub open spec fn kept_after(
    s: Option<Seq<char>>,
    kind: Kind,
    name: Seq<char>,
    value: Seq<char>,
) -> Option<Seq<char>> {
    match appended(s, kind, name, value) {
        Some(t) => Some(t),
        None => s,
    }
}

proof fn lemma_head()
    ensures
        lines_of(text_or_head(None)).len() == 2,
        begins(lines_of(text_or_head(None))[0], "#"@),
        begins(lines_of(text_or_head(None))[1], "#"@),
        text_or_head(None).len() > 0,
        text_or_head(None).last() != '\r',
{
    reveal_strlit("# ModSlut human metadata. Profile-local, portable, and safe to review before sharing.\n# kind\tmod\tvalue\n");
    reveal_strlit("# ModSlut human metadata. Profile-local, portable, and safe to review before sharing.");
    reveal_strlit("# kind\tmod\tvalue");
    reveal_strlit("#");
    let none = Seq::<char>::empty();
    let a = "# ModSlut human metadata. Profile-local, portable, and safe to review before sharing."@;
    let b = "# kind\tmod\tvalue"@;
    assert(is_line(a));
    assert(is_line(b));
    assert(lines_of(none) =~= Seq::empty());
    lemma_lines_append(none, a);
    let first = none + a + seq!['\n'];
    lemma_lines_append(first, b);
    assert(first + b + seq!['\n'] =~= text_or_head(None));
    assert(a.take(1) =~= "#"@);
    assert(b.take(1) =~= "#"@);
}

proof fn lemma_kind_lower(kind: Kind)
    ensures
        ascii_lowered(kind_text(kind)) == kind_text(kind),
{
    reveal_strlit("requirement");
    reveal_strlit("incompatibility");
    reveal_strlit("message");
    assert(ascii_lowered(kind_text(kind)) =~= kind_text(kind));
}

/// A profile without notes is well kept, and stays so whatever is appended.
pub proof fn appending_keeps_a_text_well_kept(
    s: Option<Seq<char>>,
    kind: Kind,
    name: Seq<char>,
    value: Seq<char>,
)
    ensures
        well_kept(None),
        well_kept(s) ==> well_kept(kept_after(s, kind, name, value)),
{
    lemma_head();
    if well_kept(s) && appended(s, kind, name, value) is Some {
        let n = cleaned(name);
        let v = cleaned(value);
        lemma_cleaned(name);
        lemma_cleaned(value);
        lemma_row(kind, n, v);
        lemma_kind_lower(kind);
        lemma_appended_lines(s, kind, name, value);
        lemma_empty_row();
        reveal_strlit("\n");
        let t = appended(s, kind, name, value)->0;
        assert(t.last() == '\n');
        let lines = lines_of(t);
        assert forall|i: int| 0 <= i < lines.len() implies names_its_kind(#[trigger] lines[i]) by {
            let old = lines_of(ended_once(text_or_head(s)));
            if i < old.len() {
                assert(lines[i] == old[i]);
                if old == lines_of(text_or_head(s)) {
                    assert(names_its_kind(lines_of(text_or_head(s))[i]));
                }
            }
        }
    }
}

/// A line that equals a row but for the case of its letters has the row's fields, but for
/// theirs.
proof fn lemma_like_row(line: Seq<char>, kind: Kind, name: Seq<char>, value: Seq<char>)
    requires
        !name.contains('\t'),
        ascii_lowered(line) == ascii_lowered(note_row(kind, name, value)),
    ensures
        !begins(line, "#"@),
        row_of(line) matches Some((k, n, v)) && ascii_lowered(k) == kind_text(kind) && squeezed(n)
            == squeezed(name) && ascii_lowered(v) == ascii_lowered(value),
{
    reveal_strlit("requirement");
    reveal_strlit("incompatibility");
    reveal_strlit("message");
    reveal_strlit("\t");
    reveal_strlit("#");
    assert("\t"@ =~= seq!['\t']);
    let row = note_row(kind, name, value);
    let kt = kind_text(kind);
    assert(line.len() == row.len()) by {
        assert(ascii_lowered(line).len() == line.len());
        assert(ascii_lowered(row).len() == row.len());
    }
    assert forall|i: int| 0 <= i < line.len() implies lower_char(#[trigger] line[i]) == lower_char(
        row[i],
    ) by {
        assert(ascii_lowered(line)[i] == ascii_lowered(row)[i]);
    }
    let p = kt.len() as int;
    let q = p + 1 + name.len();
    let k = line.subrange(0, p);
    let n = line.subrange(p + 1, q);
    let v = line.skip(q + 1);
    let rest = n + seq!['\t'] + v;
    assert(row[p] == '\t' && row[q] == '\t');
    assert(line[p] == '\t' && line[q] == '\t') by {
        assert(lower_char(line[p]) == '\t' && lower_char(line[q]) == '\t');
    }
    assert(line =~= k + seq!['\t'] + rest);
    assert forall|i: int| 0 <= i < p implies lower_char(#[trigger] k[i]) == kt[i] by {
        assert(k[i] == line[i] && row[i] == kt[i]);
    }
    assert forall|i: int| 0 <= i < name.len() implies lower_char(#[trigger] n[i]) == lower_char(
        name[i],
    ) by {
        assert(n[i] == line[p + 1 + i] && row[p + 1 + i] == name[i]);
    }
    assert forall|i: int| 0 <= i < value.len() implies lower_char(#[trigger] v[i]) == lower_char(
        value[i],
    ) by {
        assert(v[i] == line[q + 1 + i] && row[q + 1 + i] == value[i]);
    }
    assert(ascii_lowered(k) =~= kt);
    assert(ascii_lowered(v) =~= ascii_lowered(value));
    assert(!k.contains('\t')) by {
        if k.contains('\t') {
            let i = choose|i: int| 0 <= i < k.len() && k[i] == '\t';
            assert(lower_char(k[i]) == kt[i]);
        }
    }
    assert(!n.contains('\t')) by {
        if n.contains('\t') {
            let i = choose|i: int| 0 <= i < n.len() && n[i] == '\t';
            assert(lower_char(n[i]) == lower_char(name[i]));
            assert(name[i] == '\t');
        }
    }
    lemma_split_at(k, '\t', rest);
    lemma_split_at(n, '\t', v);
    lemma_squeezed_alike(n, name, name.len() as int);
    assert(line.take(1)[0] == line[0] && lower_char(line[0]) == kt[0]);
}

/// The letters and digits do not depend on the case of a text.
proof fn lemma_squeezed_alike(a: Seq<char>, b: Seq<char>, n: int)
    requires
        a.len() == b.len(),
        0 <= n <= a.len(),
        forall|i: int| 0 <= i < a.len() ==> lower_char(#[trigger] a[i]) == lower_char(b[i]),
    ensures
        squeezed_first(a, n) == squeezed_first(b, n),
    decreases n,
{
    if n > 0 {
        lemma_squeezed_alike(a, b, n - 1);
        assert(lower_char(a[n - 1]) == lower_char(b[n - 1]));
    }
}

/// A row is read, whatever follows it.
proof fn lemma_row_is_read(lines: Seq<Seq<char>>, j: int, n: int, kind: Kind, other: Seq<char>)
    requires
        0 <= j < n <= lines.len(),
        !begins(lines[j], "#"@),
        row_of(lines[j]) matches Some((k, m, _)) && k == kind_text(kind) && squeezed(m) == squeezed(
            other,
        ),
    ensures
        values_of(entries_first(lines, n), other, kind).contains((row_of(lines[j])->0).2),
    decreases n,
{
    let v = (row_of(lines[j])->0).2;
    lemma_kinds_differ();
    let before = entries_first(lines, n - 1);
    let had = values_of(before, other, kind);
    let has = values_of(entries_first(lines, n), other, kind);
    if n - 1 > j {
        lemma_row_is_read(lines, j, n - 1, kind, other);
    }
    if !begins(lines[n - 1], "#"@) && row_of(lines[n - 1]) is Some {
        let (k, m, w) = row_of(lines[n - 1])->0;
        let e = noted(notes_or_none(found(before, squeezed(m))), k, w);
        insert_then_get(before, squeezed(m), e, squeezed(other));
        assert(has == had || has == had.push(w));
        if n - 1 > j {
            let i = choose|i: int| 0 <= i < had.len() && had[i] == v;
            assert(has[i] == v);
        } else {
            assert(has == had.push(v));
            assert(has[had.len() as int] == v);
        }
    }
}

/// A note that was appended is among the mod's notes of its kind, but for the case of its
/// letters where it was there already, and to append it again changes nothing.
pub proof fn appended_note_is_there(
    s: Option<Seq<char>>,
    kind: Kind,
    name: Seq<char>,
    value: Seq<char>,
    other: Seq<char>,
)
    requires
        well_kept(s),
        cleaned(name).len() > 0,
        cleaned(value).len() > 0,
        squeezed(other) == squeezed(name),
    ensures
        ({
            let after = kept_after(s, kind, name, value);
            let notes = values_of(entries_of(after), other, kind);
            &&& exists|i: int|
                0 <= i < notes.len() && ascii_lowered(#[trigger] notes[i]) == ascii_lowered(
                    cleaned(value),
                )
            &&& appended(after, kind, name, value) is None
        }),
{
    let n = cleaned(name);
    let v = cleaned(value);
    let row = note_row(kind, n, v);
    let after = kept_after(s, kind, name, value);
    let notes = values_of(entries_of(after), other, kind);
    lemma_cleaned(name);
    lemma_cleaned(value);
    if appended(s, kind, name, value) is Some {
        let had = values_of(entries_of(Some(text_or_head(s))), other, kind);
        added_note_is_read(s, kind, name, value, other, kind);
        assert(notes[had.len() as int] == v);
        lemma_appended_lines(s, kind, name, value);
        let lines = lines_of(after->0);
        assert(lines.last() == row);
        lemma_place_of_like(lines, row, 0, lines.len() - 1);
    } else {
        let lines = lines_of(text_or_head(s));
        lemma_place_like(lines, row, 0);
        let j = place_like(lines, row, 0)->0;
        lemma_like_row(lines[j], kind, n, v);
        lemma_head();
        assert(s is Some);
        assert(names_its_kind(lines[j]));
        lemma_row_is_read(lines, j, lines.len() as int, kind, other);
        let w = (row_of(lines[j])->0).2;
        let i = choose|i: int| 0 <= i < notes.len() && notes[i] == w;
        assert(ascii_lowered(notes[i]) == ascii_lowered(v));
    }
}

proof fn lemma_place_of_like(s: Seq<Seq<char>>, x: Seq<char>, i: int, j: int)
    requires
        0 <= i <= j < s.len(),
        ascii_lowered(s[j]) == ascii_lowered(x),
    ensures
        place_like(s, x, i) is Some,
    decreases j - i,
{
    if i < j {
        lemma_place_of_like(s, x, i + 1, j);
    }
}

proof fn lemma_kinds_differ()
    ensures
        "requirement"@ != "incompatibility"@,
        "requirement"@ != "message"@,
        "incompatibility"@ != "message"@,
{
    reveal_strlit("requirement");
    reveal_strlit("incompatibility");
    reveal_strlit("message");
    assert("requirement"@.len() == 11);
    assert("incompatibility"@.len() == 15);
    assert("message"@.len() == 7);
}

proof fn lemma_others(lines: Seq<Seq<char>>, wanted: Seq<char>, n: int)
    requires
        0 <= n <= lines.len(),
        forall|i: int| 0 <= i < lines.len() ==> !(#[trigger] lines[i]).contains('\n'),
    ensures
        forall|i: int|
            0 <= i < others_first(lines, wanted, n).len() ==> !(
            #[trigger] others_first(lines, wanted, n)[i]).contains('\n') && !is_about(others_first(lines, wanted, n)[i], wanted),
    decreases n,
{
    if n > 0 {
        lemma_others(lines, wanted, n - 1);
        let before = others_first(lines, wanted, n - 1);
        let all = others_first(lines, wanted, n);
        assert forall|i: int| 0 <= i < all.len() implies !(#[trigger] all[i]).contains('\n')
            && !is_about(
            all[i],
            wanted,
        ) by {
            if i < before.len() {
                assert(all[i] == before[i]);
            } else {
                assert(all[i] == lines[n - 1]);
            }
        }
    }
}

proof fn lemma_none_about(lines: Seq<Seq<char>>, wanted: Seq<char>, n: int)
    requires
        0 <= n <= lines.len(),
        forall|i: int| 0 <= i < lines.len() ==> !is_about(#[trigger] lines[i], wanted),
    ensures
        found(entries_first(lines, n), wanted) is None,
    decreases n,
{
    if n > 0 {
        lemma_none_about(lines, wanted, n - 1);
        let before = entries_first(lines, n - 1);
        assert(!is_about(lines[n - 1], wanted));
        match row_of(lines[n - 1]) {
            Some((kind, name, value)) => {
                insert_then_get(
                    before,
                    squeezed(name),
                    noted(notes_or_none(found(before, squeezed(name))), kind, value),
                    wanted,
                );
            },
            None => {},
        }
    } else {
        crate::map::lemma_key_from(entries_first(lines, 0), wanted, 0);
    }
}

/// A carriage return at the end of a line does not change what the line is about.
proof fn lemma_about_cut(line: Seq<char>, wanted: Seq<char>)
    ensures
        is_about(without_cr(line), wanted) == is_about(line, wanted),
{
    reveal_strlit("\t");
    assert("\t"@ =~= seq!['\t']);
    lemma_split_cut(line, '\t');
    if let Some((_, rest)) = split_first(line, "\t"@) {
        lemma_split_cut(rest, '\t');
        lemma_trimmed_cut(rest);
        lemma_squeezed_trimmed(rest);
        lemma_squeezed_trimmed(without_cr(rest));
    }
}

/// Once the notes on a mod are cleared, none is read.
pub proof fn cleared_notes_are_gone(s: Seq<char>, name: Seq<char>, k: Kind)
    ensures
        values_of(entries_of(Some(cleared(s, name))), name, k) == Seq::<Seq<char>>::empty(),
{
    let lines = lines_of(s);
    let wanted = squeezed(name);
    let kept = others_first(lines, wanted, lines.len() as int);
    lemma_lines_have_no_feed(s, 0);
    lemma_others(lines, wanted, lines.len() as int);
    lemma_joined_lines(kept);
    let read = lines_of(cleared(s, name));
    assert forall|i: int| 0 <= i < read.len() implies !is_about(#[trigger] read[i], wanted) by {
        if kept.len() == 0 {
            reveal_strlit("\t");
            assert("\t"@ =~= seq!['\t']);
            lemma_no_split(Seq::<char>::empty(), '\t');
            assert(read[i] =~= Seq::<char>::empty());
        } else {
            assert(read[i] == without_cr(kept[i]));
            lemma_about_cut(kept[i], wanted);
        }
    }
    lemma_none_about(read, wanted, read.len() as int);
}

} // verus!
