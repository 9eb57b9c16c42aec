//! The modlist file: a header line, mods, and the separators that end sections.
//!
//! A separator terminates its block: the mods above it in the file are its
//! section. A file without separators parks every line, and mods after the last
//! separator trail at the end, so nothing is lost.
use vstd::prelude::*;
use crate::list;
use crate::text;
#[allow(unused_imports)]
use crate::text::{ended, contains_text, is_alnum, is_white, lines_of, lowercase, lower_char, set_trimmed_start, trimmed, trimmed_end, without_suffixes, begins, before_white, lemma_before_white, lemma_lines_read_back, is_line};

verus! {

/// A mod: its line as it stands in the file, and the forms that matching uses.
pub struct ModEntry {
    /// The line, with its `+`, `-` or `*` flag.
    pub raw: String,
    /// The name, without the flag.
    pub name: String,
    /// The name in lower case.
    pub lower: String,
    /// The letters and digits of the name, in lower case.
    pub norm: String,
}

pub struct Section {
    pub sep_line: String,
    /// The separator's name, without flag and `_separator` suffix.
    pub label: String,
    pub mods: Vec<ModEntry>,
}

pub struct Modlist {
    pub header: String,
    /// The lines of a file that has no separator.
    pub parking: Vec<String>,
    pub sections: Vec<Section>,
    /// The lines after the last separator.
    pub trailing: Vec<String>,
}

#[verifier::ext_equal]
pub struct EntryView {
    pub raw: Seq<char>,
    pub name: Seq<char>,
    pub lower: Seq<char>,
    pub norm: Seq<char>,
}

#[verifier::ext_equal]
pub struct SectionView {
    pub sep_line: Seq<char>,
    pub label: Seq<char>,
    pub mods: Seq<EntryView>,
}

#[verifier::ext_equal]
pub struct ModlistView {
    pub header: Seq<char>,
    pub parking: Seq<Seq<char>>,
    pub sections: Seq<SectionView>,
    pub trailing: Seq<Seq<char>>,
}

impl DeepView for ModEntry {
    type V = EntryView;

    open spec fn deep_view(&self) -> EntryView {
        EntryView { raw: self.raw@, name: self.name@, lower: self.lower@, norm: self.norm@ }
    }
}

impl DeepView for Section {
    type V = SectionView;

    open spec fn deep_view(&self) -> SectionView {
        SectionView { sep_line: self.sep_line@, label: self.label@, mods: self.mods.deep_view() }
    }
}

impl DeepView for Modlist {
    type V = ModlistView;

    open spec fn deep_view(&self) -> ModlistView {
        ModlistView {
            header: self.header@,
            parking: self.parking.deep_view(),
            sections: self.sections.deep_view(),
            trailing: self.trailing.deep_view(),
        }
    }
}

impl Clone for ModEntry {
    fn clone(&self) -> (r: ModEntry)
        ensures
            r.deep_view() == self.deep_view(),
    {
        ModEntry {
            raw: self.raw.clone(),
            name: self.name.clone(),
            lower: self.lower.clone(),
            norm: self.norm.clone(),
        }
    }
}

pub fn copy_mods(mods: &Vec<ModEntry>) -> (r: Vec<ModEntry>)
    ensures
        r.deep_view() == mods.deep_view(),
{
    let ghost all = mods.deep_view();
    let mut out: Vec<ModEntry> = list::none();
    let mut i: usize = 0;
    assert(all.take(0) =~= Seq::<EntryView>::empty());
    while i < mods.len()
        invariant
            i <= mods.len(),
            all == mods.deep_view(),
            out.deep_view() == all.take(i as int),
        decreases mods.len() - i,
    {
        assert(all[i as int] == mods@[i as int].deep_view());
        list::put(&mut out, mods[i].clone());
        i = i + 1;
        assert(out.deep_view() =~= all.take(i as int));
    }
    assert(all.take(i as int) =~= all);
    out
}

pub fn copy_sections(sections: &Vec<Section>) -> (r: Vec<Section>)
    ensures
        r.deep_view() == sections.deep_view(),
{
    let ghost all = sections.deep_view();
    let mut out: Vec<Section> = list::none();
    let mut i: usize = 0;
    assert(all.take(0) =~= Seq::<SectionView>::empty());
    while i < sections.len()
        invariant
            i <= sections.len(),
            all == sections.deep_view(),
            out.deep_view() == all.take(i as int),
        decreases sections.len() - i,
    {
        let s = &sections[i];
        assert(all[i as int] == s.deep_view());
        list::put(
            &mut out,
            Section {
                sep_line: s.sep_line.clone(),
                label: s.label.clone(),
                mods: copy_mods(&s.mods),
            },
        );
        i = i + 1;
        assert(out.deep_view() =~= all.take(i as int));
    }
    assert(all.take(i as int) =~= all);
    out
}

// ---- lines ----

/// A line without its leading flags.
pub open spec fn flagless(line: Seq<char>) -> Seq<char> {
    set_trimmed_start(line, "+-*"@)
}

pub fn strip_flag(line: &str) -> (r: String)
    ensures
        r@ == flagless(line@),
{
    text::trim_start_of(line, "+-*")
}

pub open spec fn norm_first(s: Seq<char>, n: int) -> Seq<char>
    decreases n,
{
    if n <= 0 {
        Seq::empty()
    } else if is_alnum(s[n - 1]) {
        norm_first(s, n - 1).push(lower_char(s[n - 1]))
    } else {
        norm_first(s, n - 1)
    }
}

/// The ASCII letters and digits of `s`, in lower case.
pub open spec fn norm_of(s: Seq<char>) -> Seq<char> {
    norm_first(s, s.len() as int)
}

pub fn norm(s: &str) -> (r: String)
    ensures
        r@ == norm_of(s@),
{
    let mut r = String::new();
    for c in it: s.chars()
        invariant
            it.seq() == s@,
            r@ == norm_first(s@, it.index()),
    {
        if text::alnum(c) {
            r.push(text::lowered_char(c));
        }
    }
    r
}

pub open spec fn is_separator(line: Seq<char>) -> bool {
    contains_text(line, "_separator"@)
}

pub open spec fn label_of(line: Seq<char>) -> Seq<char> {
    trimmed(without_suffixes(flagless(line), "_separator"@))
}

pub open spec fn entry_of(line: Seq<char>) -> EntryView {
    let name = trimmed(flagless(line));
    EntryView { raw: line, name, lower: lowercase(name), norm: norm_of(name) }
}

pub fn label_from(line: &str) -> (r: String)
    ensures
        r@ == label_of(line@),
{
    let bare = strip_flag(line);
    let cut = text::trim_suffixes(bare.as_str(), "_separator");
    text::trim(cut.as_str())
}

pub fn entry_from(line: &str) -> (r: ModEntry)
    ensures
        r.deep_view() == entry_of(line@),
{
    let bare = strip_flag(line);
    let name = text::trim(bare.as_str());
    ModEntry {
        raw: line.to_string(),
        lower: name.as_str().to_lowercase(),
        norm: norm(name.as_str()),
        name,
    }
}

// ---- parsing ----

#[verifier::ext_equal]
pub struct Blocks {
    pub sections: Seq<SectionView>,
    pub pending: Seq<EntryView>,
}

/// The blocks that the lines before index `n` close, and the mods still open.
/// The line at index 0 is the header; blank lines are skipped.
pub open spec fn blocks_first(lines: Seq<Seq<char>>, n: int) -> Blocks
    decreases n,
{
    if n <= 1 {
        Blocks { sections: Seq::empty(), pending: Seq::empty() }
    } else {
        let b = blocks_first(lines, n - 1);
        let t = trimmed_end(lines[n - 1]);
        if t.len() == 0 {
            b
        } else if is_separator(t) {
            Blocks {
                sections: b.sections.push(
                    SectionView { sep_line: t, label: label_of(t), mods: b.pending },
                ),
                pending: Seq::empty(),
            }
        } else {
            Blocks { sections: b.sections, pending: b.pending.push(entry_of(t)) }
        }
    }
}

pub open spec fn raws(mods: Seq<EntryView>) -> Seq<Seq<char>> {
    Seq::new(mods.len(), |i: int| mods[i].raw)
}

pub open spec fn parsed(text: Seq<char>) -> ModlistView {
    let lines = lines_of(text);
    let b = blocks_first(lines, lines.len() as int);
    let left = raws(b.pending);
    ModlistView {
        header: if lines.len() > 0 {
            lines[0]
        } else {
            Seq::empty()
        },
        parking: if b.sections.len() == 0 {
            left
        } else {
            Seq::empty()
        },
        sections: b.sections,
        trailing: if b.sections.len() == 0 {
            Seq::empty()
        } else {
            left
        },
    }
}

pub fn raw_lines(mods: &Vec<ModEntry>) -> (r: Vec<String>)
    ensures
        r.deep_view() == raws(mods.deep_view()),
{
    let mut out: Vec<String> = Vec::new();
    let mut i: usize = 0;
    while i < mods.len()
        invariant
            i <= mods.len(),
            out.deep_view() == raws(mods.deep_view().take(i as int)),
        decreases mods.len() - i,
    {
        let raw = mods[i].raw.clone();
        list::put(&mut out, raw);
        i = i + 1;
        assert(out.deep_view() =~= raws(mods.deep_view().take(i as int)));
    }
    assert(mods.deep_view().take(i as int) =~= mods.deep_view());
    out
}

pub fn parse(text: &str) -> (r: Modlist)
    ensures
        r.deep_view() == parsed(text@),
{
    let lines = text::lines(text);
    let header = if lines.len() > 0 {
        lines[0].clone()
    } else {
        String::new()
    };
    let mut sections: Vec<Section> = list::none();
    let mut pending: Vec<ModEntry> = list::none();
    let mut i: usize = 1;
    while i < lines.len()
        invariant
            1 <= i,
            i == 1 || i <= lines.len(),
            lines.deep_view() == lines_of(text@),
            blocks_first(lines.deep_view(), i as int) == (Blocks {
                sections: sections.deep_view(),
                pending: pending.deep_view(),
            }),
        decreases lines.len() - i,
    {
        let t = text::trim_end(lines[i].as_str());
        assert(lines.deep_view()[i as int] == lines@[i as int]@);
        if t.as_str().is_empty() {
        } else if text::contains(t.as_str(), "_separator") {
            let section = Section {
                label: label_from(t.as_str()),
                sep_line: t,
                mods: pending,
            };
            list::put(&mut sections, section);
            pending = list::none();
        } else {
            let entry = entry_from(t.as_str());
            list::put(&mut pending, entry);
        }
        i = i + 1;
    }
    assert(blocks_first(lines.deep_view(), lines.len() as int) == blocks_first(
        lines.deep_view(),
        i as int,
    ));
    let left = raw_lines(&pending);
    let none: Vec<String> = list::none();
    assert(header@ =~= parsed(text@).header);
    let parked = sections.len() == 0;
    assert(parked == (sections.deep_view().len() == 0));
    if parked {
        Modlist { header, parking: left, sections, trailing: none }
    } else {
        Modlist { header, parking: none, sections, trailing: left }
    }
}

// ---- writing ----

/// The lines of the first `n` sections: each section's mods, then its separator.
pub open spec fn section_lines(sections: Seq<SectionView>, n: int) -> Seq<Seq<char>>
    decreases n,
{
    if n <= 0 {
        Seq::empty()
    } else {
        (section_lines(sections, n - 1) + raws(sections[n - 1].mods)).push(sections[n - 1].sep_line)
    }
}

/// The lines of the file that holds `ml`.
pub open spec fn file_lines(ml: ModlistView) -> Seq<Seq<char>> {
    seq![ml.header] + ml.parking + section_lines(ml.sections, ml.sections.len() as int)
        + ml.trailing
}

pub open spec fn serialized(ml: ModlistView) -> Seq<char> {
    ended(file_lines(ml))
}

pub fn serialize(ml: &Modlist) -> (r: String)
    ensures
        r@ == serialized(ml.deep_view()),
{
    let mut out = String::new();
    let ghost v = ml.deep_view();
    assert(out@ =~= ended(Seq::<Seq<char>>::empty()));
    text::add_line(&mut out, ml.header.as_str(), Ghost(Seq::empty()));
    let ghost head = seq![v.header];
    assert(Seq::<Seq<char>>::empty().push(v.header) =~= head);
    text::add_lines(&mut out, &ml.parking, Ghost(head));
    let mut i: usize = 0;
    let ghost top = head + v.parking;
    assert(top + section_lines(v.sections, 0) =~= top);
    while i < ml.sections.len()
        invariant
            i <= ml.sections.len(),
            v == ml.deep_view(),
            top == seq![v.header] + v.parking,
            out@ == ended(top + section_lines(v.sections, i as int)),
        decreases ml.sections.len() - i,
    {
        let ghost so_far = top + section_lines(v.sections, i as int);
        let s = &ml.sections[i];
        assert(v.sections[i as int] == s.deep_view());
        let mods = raw_lines(&s.mods);
        text::add_lines(&mut out, &mods, Ghost(so_far));
        text::add_line(&mut out, s.sep_line.as_str(), Ghost(so_far + raws(v.sections[i as int].mods)));
        i = i + 1;
        assert(top + section_lines(v.sections, i as int) =~= (so_far + raws(
            v.sections[i - 1].mods,
        )).push(v.sections[i - 1].sep_line));
    }
    text::add_lines(&mut out, &ml.trailing, Ghost(top + section_lines(v.sections, v.sections.len() as int)));
    out
}

/// The names of the mods in the parking lines before index `n`.
pub open spec fn parked_first(parking: Seq<Seq<char>>, n: int) -> Seq<Seq<char>>
    decreases n,
{
    if n <= 0 {
        Seq::empty()
    } else {
        let name = without_suffixes(flagless(parking[n - 1]), "_separator"@);
        if name.len() > 0 && !begins(name, "#"@) {
            parked_first(parking, n - 1).push(name)
        } else {
            parked_first(parking, n - 1)
        }
    }
}

pub open spec fn names(mods: Seq<EntryView>) -> Seq<Seq<char>> {
    Seq::new(mods.len(), |i: int| mods[i].name)
}

/// The names of the mods in the first `n` sections.
pub open spec fn section_names(sections: Seq<SectionView>, n: int) -> Seq<Seq<char>>
    decreases n,
{
    if n <= 0 {
        Seq::empty()
    } else {
        section_names(sections, n - 1) + names(sections[n - 1].mods)
    }
}

/// Every mod in priority order: the first in the file wins.
pub open spec fn active_names(ml: ModlistView) -> Seq<Seq<char>> {
    parked_first(ml.parking, ml.parking.len() as int) + section_names(
        ml.sections,
        ml.sections.len() as int,
    )
}

pub fn mod_names(mods: &Vec<ModEntry>) -> (r: Vec<String>)
    ensures
        r.deep_view() == names(mods.deep_view()),
{
    let mut out: Vec<String> = list::none();
    let mut i: usize = 0;
    while i < mods.len()
        invariant
            i <= mods.len(),
            out.deep_view() == names(mods.deep_view().take(i as int)),
        decreases mods.len() - i,
    {
        list::put(&mut out, mods[i].name.clone());
        i = i + 1;
        assert(out.deep_view() =~= names(mods.deep_view().take(i as int)));
    }
    assert(mods.deep_view().take(i as int) =~= mods.deep_view());
    out
}

pub fn active_mods(ml: &Modlist) -> (r: Vec<String>)
    ensures
        r.deep_view() == active_names(ml.deep_view()),
{
    let mut out: Vec<String> = list::none();
    let ghost v = ml.deep_view();
    let mut i: usize = 0;
    while i < ml.parking.len()
        invariant
            i <= ml.parking.len(),
            v == ml.deep_view(),
            out.deep_view() == parked_first(v.parking, i as int),
        decreases ml.parking.len() - i,
    {
        let bare = strip_flag(ml.parking[i].as_str());
        let name = text::trim_suffixes(bare.as_str(), "_separator");
        assert(v.parking[i as int] == ml.parking@[i as int]@);
        if !name.as_str().is_empty() && !text::starts_with(name.as_str(), "#") {
            list::put(&mut out, name);
        }
        i = i + 1;
    }
    let ghost parked = out.deep_view();
    let mut j: usize = 0;
    assert(parked + section_names(v.sections, 0) =~= parked);
    while j < ml.sections.len()
        invariant
            j <= ml.sections.len(),
            v == ml.deep_view(),
            out.deep_view() == parked + section_names(v.sections, j as int),
        decreases ml.sections.len() - j,
    {
        let more = mod_names(&ml.sections[j].mods);
        assert(v.sections[j as int] == ml.sections@[j as int].deep_view());
        let ghost before = out.deep_view();
        list::put_all(&mut out, more);
        j = j + 1;
        assert(out.deep_view() =~= parked + section_names(v.sections, j as int));
    }
    out
}

// ---- laws ----

/// The lines before index `n` that a modlist keeps, the header left out: those
/// that are not blank, without white space at their end.
pub open spec fn kept_first(lines: Seq<Seq<char>>, n: int) -> Seq<Seq<char>>
    decreases n,
{
    if n <= 1 {
        Seq::empty()
    } else {
        let t = trimmed_end(lines[n - 1]);
        if t.len() == 0 {
            kept_first(lines, n - 1)
        } else {
            kept_first(lines, n - 1).push(t)
        }
    }
}

proof fn lemma_blocks_keep(lines: Seq<Seq<char>>, n: int)
    requires
        0 <= n <= lines.len(),
    ensures
        ({
            let b = blocks_first(lines, n);
            section_lines(b.sections, b.sections.len() as int) + raws(b.pending) == kept_first(
                lines,
                n,
            )
        }),
    decreases n,
{
    if n > 1 {
        lemma_blocks_keep(lines, n - 1);
        let b = blocks_first(lines, n - 1);
        let c = blocks_first(lines, n);
        let t = trimmed_end(lines[n - 1]);
        if t.len() == 0 {
        } else if is_separator(t) {
            lemma_section_lines_prefix(c.sections, b.sections, b.sections.len() as int);
            assert(raws(c.pending) =~= Seq::empty());
            assert(c.sections.last().mods == b.pending);
            assert(section_lines(c.sections, c.sections.len() as int) + raws(c.pending)
                =~= kept_first(lines, n));
        } else {
            assert(raws(c.pending) =~= raws(b.pending).push(t));
            assert(section_lines(c.sections, c.sections.len() as int) + raws(c.pending)
                =~= kept_first(lines, n));
        }
    } else {
        let b = blocks_first(lines, n);
        assert(section_lines(b.sections, b.sections.len() as int) + raws(b.pending)
            =~= Seq::empty());
    }
}

proof fn lemma_section_lines_prefix(a: Seq<SectionView>, b: Seq<SectionView>, n: int)
    requires
        n <= a.len(),
        n <= b.len(),
        forall|i: int| 0 <= i < n ==> a[i] == b[i],
    ensures
        section_lines(a, n) == section_lines(b, n),
    decreases n,
{
    if n > 0 {
        lemma_section_lines_prefix(a, b, n - 1);
    }
}

/// Parsing loses no line: the file that a parsed modlist stands for has the header,
/// and then every line that is not blank, in its order.
pub proof fn parse_is_lossless(text: Seq<char>)
    ensures
        ({
            let lines = lines_of(text);
            let header = if lines.len() > 0 {
                lines[0]
            } else {
                Seq::empty()
            };
            serialized(parsed(text)) == ended(
                seq![header] + kept_first(lines, lines.len() as int),
            )
        }),
{
    let lines = lines_of(text);
    lemma_blocks_keep(lines, lines.len() as int);
    let ml = parsed(text);
    let b = blocks_first(lines, lines.len() as int);
    assert(file_lines(ml) =~= seq![ml.header] + kept_first(lines, lines.len() as int)) by {
        if b.sections.len() == 0 {
            assert(section_lines(b.sections, 0) =~= Seq::empty());
        }
    }
}

proof fn lemma_trimmed_end_again(s: Seq<char>)
    ensures
        trimmed_end(trimmed_end(s)) == trimmed_end(s),
{
    lemma_before_white(s, s.len() as int);
    let t = trimmed_end(s);
    assert(before_white(t, t.len() as int) == t.len());
    assert(t.take(t.len() as int) =~= t);
}

proof fn lemma_blocks_prefix(a: Seq<Seq<char>>, b: Seq<Seq<char>>, n: int)
    requires
        n <= a.len(),
        n <= b.len(),
        forall|i: int| 0 <= i < n ==> a[i] == b[i],
    ensures
        blocks_first(a, n) == blocks_first(b, n),
    decreases n,
{
    if n > 1 {
        lemma_blocks_prefix(a, b, n - 1);
    }
}

proof fn lemma_blocks_of_kept(lines: Seq<Seq<char>>, header: Seq<char>, n: int)
    requires
        0 <= n <= lines.len(),
    ensures
        ({
            let k = seq![header] + kept_first(lines, n);
            blocks_first(k, k.len() as int) == blocks_first(lines, n)
        }),
    decreases n,
{
    if n > 1 {
        lemma_blocks_of_kept(lines, header, n - 1);
        let t = trimmed_end(lines[n - 1]);
        let a = seq![header] + kept_first(lines, n - 1);
        let k = seq![header] + kept_first(lines, n);
        if t.len() > 0 {
            assert(k =~= a.push(t));
            lemma_blocks_prefix(k, a, a.len() as int);
            lemma_trimmed_end_again(lines[n - 1]);
        }
    } else {
        let k = seq![header] + kept_first(lines, n);
        assert(k.len() == 1);
    }
}

proof fn lemma_kept_are_lines(lines: Seq<Seq<char>>, n: int)
    requires
        0 <= n <= lines.len(),
        forall|i: int| 0 <= i < lines.len() ==> !(#[trigger] lines[i]).contains('\n'),
    ensures
        forall|i: int| 0 <= i < kept_first(lines, n).len() ==> is_line(#[trigger] kept_first(lines, n)[i]),
    decreases n,
{
    if n > 1 {
        lemma_kept_are_lines(lines, n - 1);
        let s = lines[n - 1];
        let t = trimmed_end(s);
        lemma_before_white(s, s.len() as int);
        assert forall|i: int| 0 <= i < t.len() implies t[i] != '\n' by {
            assert(t[i] == s[i]);
            assert(!s.contains('\n'));
        }
        assert(is_white('\r'));
        assert(is_line(t));
        assert forall|i: int| 0 <= i < kept_first(lines, n).len() implies is_line(
            #[trigger] kept_first(lines, n)[i],
        ) by {
            if t.len() > 0 && i < kept_first(lines, n - 1).len() {
                assert(kept_first(lines, n)[i] == kept_first(lines, n - 1)[i]);
            }
        }
    }
}

/// What was written is read back: a modlist that came from a file is found again in
/// the file that it is written to. (A header may end in a carriage return only
/// where no line feed follows it; the line feed that is written then takes it up.)
pub proof fn written_modlist_reads_back(text: Seq<char>)
    requires
        is_line(parsed(text).header),
    ensures
        parsed(serialized(parsed(text))) == parsed(text),
{
    let lines = lines_of(text);
    let n = lines.len() as int;
    let ml = parsed(text);
    parse_is_lossless(text);
    text::lemma_lines_have_no_feed(text, 0);
    lemma_kept_are_lines(lines, n);
    let k = seq![ml.header] + kept_first(lines, n);
    lemma_lines_read_back(k);
    lemma_blocks_of_kept(lines, ml.header, n);
    assert(lines_of(serialized(ml)) == k);
    assert(k[0] == ml.header);
}

} // verus!
