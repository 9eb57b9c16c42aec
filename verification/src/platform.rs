//! The platform guard: plugin libraries that were built for another game.
use vstd::prelude::*;
use crate::list;
#[allow(unused_imports)]
use crate::plan::{Change, ChangeKind, ChangeView};
use crate::text;
#[allow(unused_imports)]
use crate::text::{ascii_lowered, begins, char_replaced, contains_text, lowercase, split_last};

verus! {

#[derive(Clone, Copy, PartialEq, Eq, Debug, Structural)]
pub enum PlatKind {
    AeOnly,
    Oldrim,
    SeUnclear,
}

pub open spec fn label_of(kind: PlatKind) -> Seq<char> {
    match kind {
        PlatKind::AeOnly => "AE (1.6.x) plugin - dead on arrival in VR"@,
        PlatKind::Oldrim => "Oldrim (1.9.32) plugin - wrong game"@,
        PlatKind::SeUnclear => "SE (1.5.97) plugin, no VR markers - verify"@,
    }
}

impl PlatKind {
    pub fn label(self) -> (r: &'static str)
        ensures
            r@ == label_of(self),
    {
        match self {
            PlatKind::AeOnly => "AE (1.6.x) plugin - dead on arrival in VR",
            PlatKind::Oldrim => "Oldrim (1.9.32) plugin - wrong game",
            PlatKind::SeUnclear => "SE (1.5.97) plugin, no VR markers - verify",
        }
    }
}

/// A mod with a library for another game.
pub struct PlatformWarning {
    pub mod_name: String,
    pub dll: String,
    pub kind: PlatKind,
    pub section: String,
}

#[verifier::ext_equal]
pub struct WarningView {
    pub mod_name: Seq<char>,
    pub dll: Seq<char>,
    pub kind: PlatKind,
    pub section: Seq<char>,
}

impl DeepView for PlatformWarning {
    type V = WarningView;

    open spec fn deep_view(&self) -> WarningView {
        WarningView {
            mod_name: self.mod_name@,
            dll: self.dll@,
            kind: self.kind,
            section: self.section@,
        }
    }
}

/// A file of a mod: its path, its name, and its content where it could be read.
pub struct ModFile {
    pub path: String,
    pub name: String,
    pub bytes: Option<Vec<u8>>,
}

#[verifier::ext_equal]
pub struct ModFileView {
    pub path: Seq<char>,
    pub name: Seq<char>,
    pub bytes: Option<Seq<u8>>,
}

impl DeepView for ModFile {
    type V = ModFileView;

    open spec fn deep_view(&self) -> ModFileView {
        ModFileView {
            path: self.path@,
            name: self.name@,
            bytes: match self.bytes {
                Some(b) => Some(b@),
                None => None,
            },
        }
    }
}

/// An enabled mod with its section and files.
pub struct ScannedMod {
    pub mod_name: String,
    pub section: String,
    pub files: Vec<ModFile>,
}

#[verifier::ext_equal]
pub struct ScannedView {
    pub mod_name: Seq<char>,
    pub section: Seq<char>,
    pub files: Seq<ModFileView>,
}

impl DeepView for ScannedMod {
    type V = ScannedView;

    open spec fn deep_view(&self) -> ScannedView {
        ScannedView {
            mod_name: self.mod_name@,
            section: self.section@,
            files: self.files.deep_view(),
        }
    }
}

/// The bytes from `i` on spell the text in ASCII.
pub open spec fn spells_at(bytes: Seq<u8>, p: Seq<char>, i: int) -> bool {
    0 <= i && i + p.len() <= bytes.len() && forall|j: int|
        0 <= j < p.len() ==> bytes[i + j] as u32 == (#[trigger] p[j]) as u32
}

pub open spec fn spells(bytes: Seq<u8>, p: Seq<char>) -> bool {
    exists|i: int| #[trigger] spells_at(bytes, p, i)
}

fn holds_bytes(bytes: &Vec<u8>, p: &str) -> (r: bool)
    ensures
        r == spells(bytes@, p@),
{
    let v = text::chars_of(p);
    if v.len() > bytes.len() {
        assert(!spells(bytes@, p@));
        return false;
    }
    let mut i: usize = 0;
    while i <= bytes.len() - v.len()
        invariant
            v@ == p@,
            v.len() <= bytes.len(),
            i <= bytes.len() - v.len() + 1,
            forall|k: int| 0 <= k < i ==> !spells_at(bytes@, p@, k),
        decreases bytes.len() - v.len() + 1 - i,
    {
        let mut j: usize = 0;
        while j < v.len() && bytes[i + j] as u32 == v[j] as u32
            invariant
                v@ == p@,
                i + v.len() <= bytes.len(),
                j <= v.len(),
                forall|k: int| 0 <= k < j ==> bytes@[i + k] as u32 == (#[trigger] p@[k]) as u32,
            decreases v.len() - j,
        {
            j = j + 1;
        }
        if j == v.len() {
            assert(spells_at(bytes@, p@, i as int));
            return true;
        }
        assert(!spells_at(bytes@, p@, i as int)) by {
            assert(p@[j as int] == v@[j as int]);
        }
        i = i + 1;
    }
    false
}

pub open spec fn is_library(name: Seq<char>) -> bool {
    match split_last(name, "."@) {
        Some((stem, ext)) => stem.len() > 0 && ascii_lowered(ext) == ascii_lowered("dll"@),
        None => false,
    }
}

/// A library that the game loads: it lies in the folder of the script extender's plugins.
pub open spec fn is_loaded(path: Seq<char>, name: Seq<char>) -> bool {
    is_library(name) && contains_text(
        char_replaced(lowercase(path), '\\', '/'),
        "skse/plugins"@,
    )
}

fn loaded(path: &str, name: &str) -> (r: bool)
    ensures
        r == is_loaded(path@, name@),
{
    let library = match text::rsplit_once(name, ".") {
        Some((stem, ext)) => {
            let chars = text::chars_of(stem.as_str());
            chars.len() > 0 && text::same_ignoring_case(ext.as_str(), "dll")
        },
        None => false,
    };
    if !library {
        return false;
    }
    let lower = path.to_lowercase();
    let lower = text::replace_char(lower.as_str(), '\\', '/');
    text::contains(lower.as_str(), "skse/plugins")
}

/// What is wrong with a library of that name (in lower case) and content. A mark of the VR
/// build says that it is fine.
pub open spec fn library_kind(name: Seq<char>, bytes: Seq<u8>) -> Option<PlatKind> {
    if spells(bytes, "sksevr"@) {
        None
    } else if spells(bytes, "skse64_1_6_"@) || begins(name, "versionlib-1-6"@) {
        Some(PlatKind::AeOnly)
    } else if spells(bytes, "skse_1_9_32"@) {
        Some(PlatKind::Oldrim)
    } else if spells(bytes, "skse64_1_5_"@) || begins(name, "versionlib-1-5"@) {
        Some(PlatKind::SeUnclear)
    } else {
        None
    }
}

pub fn kind_of_library(name: &str, bytes: &Vec<u8>) -> (r: Option<PlatKind>)
    ensures
        r == library_kind(name@, bytes@),
{
    if holds_bytes(bytes, "sksevr") {
        None
    } else if holds_bytes(bytes, "skse64_1_6_") || text::starts_with(name, "versionlib-1-6") {
        Some(PlatKind::AeOnly)
    } else if holds_bytes(bytes, "skse_1_9_32") {
        Some(PlatKind::Oldrim)
    } else if holds_bytes(bytes, "skse64_1_5_") || text::starts_with(name, "versionlib-1-5") {
        Some(PlatKind::SeUnclear)
    } else {
        None
    }
}

/// What is wrong with a file of a mod.
pub open spec fn file_kind(f: ModFileView) -> Option<PlatKind> {
    if is_loaded(f.path, f.name) {
        match f.bytes {
            Some(b) => library_kind(lowercase(f.name), b),
            None => None,
        }
    } else {
        None
    }
}

/// The first wrong file from `i` on.
pub open spec fn wrong_from(files: Seq<ModFileView>, i: int) -> Option<int>
    decreases files.len() - i,
{
    if i < 0 || i >= files.len() {
        None
    } else if file_kind(files[i]) is Some {
        Some(i)
    } else {
        wrong_from(files, i + 1)
    }
}

/// The warnings on the first `n` mods, at most one on each.
pub open spec fn warnings_first(mods: Seq<ScannedView>, n: int) -> Seq<WarningView>
    decreases n,
{
    if n <= 0 {
        Seq::empty()
    } else {
        let before = warnings_first(mods, n - 1);
        let m = mods[n - 1];
        match wrong_from(m.files, 0) {
            Some(i) => before.push(
                WarningView {
                    mod_name: m.mod_name,
                    dll: lowercase(m.files[i].name),
                    kind: file_kind(m.files[i])->0,
                    section: m.section,
                },
            ),
            None => before,
        }
    }
}

fn check_file(f: &ModFile) -> (r: Option<PlatKind>)
    ensures
        r == file_kind(f.deep_view()),
{
    if !loaded(f.path.as_str(), f.name.as_str()) {
        return None;
    }
    match &f.bytes {
        Some(b) => {
            let name = f.name.to_lowercase();
            kind_of_library(name.as_str(), b)
        },
        None => None,
    }
}

fn check_mod(m: &ScannedMod) -> (r: Option<PlatformWarning>)
    ensures
        ({
            let v = m.deep_view();
            r.deep_view() == (match wrong_from(v.files, 0) {
                Some(i) => Some(
                    WarningView {
                        mod_name: v.mod_name,
                        dll: lowercase(v.files[i].name),
                        kind: file_kind(v.files[i])->0,
                        section: v.section,
                    },
                ),
                None => None,
            })
        }),
{
    let ghost fv = m.files.deep_view();
    let mut i: usize = 0;
    while i < m.files.len()
        invariant
            i <= m.files.len(),
            fv == m.files.deep_view(),
            wrong_from(fv, i as int) == wrong_from(fv, 0),
        decreases m.files.len() - i,
    {
        let f = &m.files[i];
        assert(fv[i as int] == f.deep_view());
        if let Some(kind) = check_file(f) {
            return Some(
                PlatformWarning {
                    mod_name: m.mod_name.clone(),
                    dll: f.name.to_lowercase(),
                    kind,
                    section: m.section.clone(),
                },
            );
        }
        i = i + 1;
    }
    None
}

/// The enabled mods with a library for another game.
pub fn platform_scan(mods: &Vec<ScannedMod>) -> (r: Vec<PlatformWarning>)
    ensures
        r.deep_view() == warnings_first(mods.deep_view(), mods.len() as int),
{
    let ghost mv = mods.deep_view();
    let mut out: Vec<PlatformWarning> = list::none();
    let mut i: usize = 0;
    while i < mods.len()
        invariant
            i <= mods.len(),
            mv == mods.deep_view(),
            out.deep_view() == warnings_first(mv, i as int),
        decreases mods.len() - i,
    {
        assert(mv[i as int] == mods@[i as int].deep_view());
        if let Some(w) = check_mod(&mods[i]) {
            list::put(&mut out, w);
        }
        i = i + 1;
    }
    out
}

// ---- what is shown ----

pub open spec fn warned(w: WarningView) -> ChangeView {
    ChangeView {
        kind: ChangeKind::Warn,
        name: w.mod_name,
        detail: "["@ + label_of(w.kind) + "] "@ + w.dll,
        section: w.section,
    }
}

/// The row of a warning in the plan. It is only shown: no mod moves on its account.
pub fn warning_change(w: PlatformWarning) -> (r: Change)
    ensures
        r.deep_view() == warned(w.deep_view()),
{
    let mut detail = text::cat3("[", w.kind.label(), "] ");
    detail.append(w.dll.as_str());
    Change { kind: ChangeKind::Warn, name: w.mod_name, detail, section: w.section }
}

// ---- laws ----

proof fn lemma_wrong_from(files: Seq<ModFileView>, i: int)
    requires
        0 <= i,
    ensures
        match wrong_from(files, i) {
            Some(k) => i <= k < files.len() && file_kind(files[k]) is Some && forall|j: int|
                i <= j < k ==> file_kind(#[trigger] files[j]) is None,
            None => forall|j: int| i <= j < files.len() ==> file_kind(#[trigger] files[j]) is None,
        },
    decreases files.len() - i,
{
    if i < files.len() && file_kind(files[i]) is None {
        lemma_wrong_from(files, i + 1);
    }
}

/// The mod holds a file that was built for another game.
pub open spec fn holds_wrong_file(m: ScannedView) -> bool {
    exists|j: int| 0 <= j < m.files.len() && file_kind(#[trigger] m.files[j]) is Some
}

/// The warning is about the mod, and shows the first of its wrong files.
pub open spec fn warns_of(w: WarningView, m: ScannedView) -> bool {
    &&& w.mod_name == m.mod_name
    &&& w.section == m.section
    &&& exists|j: int|
        0 <= j < m.files.len() && file_kind(#[trigger] m.files[j]) == Some(w.kind) && w.dll
            == lowercase(m.files[j].name) && forall|h: int|
            0 <= h < j ==> file_kind(#[trigger] m.files[h]) is None
}

/// The warnings are about the mods at these places: the places ascend, they are all those
/// of mods with a wrong file, and each has its warning.
pub open spec fn warnings_at(ws: Seq<WarningView>, mods: Seq<ScannedView>, at: Seq<int>) -> bool {
    &&& at.len() == ws.len()
    &&& forall|k: int|
        0 <= k < at.len() ==> 0 <= #[trigger] at[k] < mods.len() && holds_wrong_file(mods[at[k]])
            && warns_of(ws[k], mods[at[k]])
    &&& forall|k: int, l: int| 0 <= k < l < at.len() ==> #[trigger] at[k] < #[trigger] at[l]
    &&& forall|i: int|
        0 <= i < mods.len() && holds_wrong_file(#[trigger] mods[i]) ==> at.contains(i)
}

proof fn lemma_warnings(mods: Seq<ScannedView>, n: int) -> (at: Seq<int>)
    requires
        0 <= n <= mods.len(),
    ensures
        warnings_at(warnings_first(mods, n), mods.take(n), at),
    decreases n,
{
    if n == 0 {
        Seq::empty()
    } else {
        let prior = lemma_warnings(mods, n - 1);
        let before = warnings_first(mods, n - 1);
        let ws = warnings_first(mods, n);
        let m = mods[n - 1];
        let seen = mods.take(n);
        lemma_wrong_from(m.files, 0);
        assert forall|i: int| 0 <= i < n - 1 implies mods.take(n - 1)[i] == #[trigger] seen[i] by {}
        match wrong_from(m.files, 0) {
            Some(j) => {
                let at = prior.push(n - 1);
                assert(ws == before.push(ws.last()));
                assert(file_kind(m.files[j]) is Some);
                assert(holds_wrong_file(m));
                assert(warns_of(ws.last(), m));
                assert forall|k: int| 0 <= k < at.len() implies 0 <= #[trigger] at[k] < seen.len()
                    && holds_wrong_file(seen[at[k]]) && warns_of(ws[k], seen[at[k]]) by {
                    if k < prior.len() {
                        assert(at[k] == prior[k]);
                        assert(mods.take(n - 1)[prior[k]] == seen[prior[k]]);
                    }
                }
                assert forall|i: int|
                    0 <= i < seen.len() && holds_wrong_file(#[trigger] seen[i]) implies at.contains(
                    i,
                ) by {
                    if i < n - 1 {
                        assert(holds_wrong_file(mods.take(n - 1)[i]));
                        let k = choose|k: int| 0 <= k < prior.len() && prior[k] == i;
                        assert(at[k] == i);
                    } else {
                        assert(at[prior.len() as int] == i);
                    }
                }
                at
            },
            None => {
                assert(!holds_wrong_file(m));
                assert forall|i: int|
                    0 <= i < seen.len() && holds_wrong_file(#[trigger] seen[i]) implies prior.contains(
                    i,
                ) by {
                    assert(seen[i] == mods[i]);
                    assert(holds_wrong_file(mods.take(n - 1)[i]));
                }
                assert forall|k: int| 0 <= k < prior.len() implies 0 <= #[trigger] prior[k]
                    < seen.len() && holds_wrong_file(seen[prior[k]]) && warns_of(
                    ws[k],
                    seen[prior[k]],
                ) by {
                    assert(mods.take(n - 1)[prior[k]] == seen[prior[k]]);
                }
                prior
            },
        }
    }
}

/// A scan warns of every mod that holds a file for another game, once, and of no other
/// mod, in the order of the mods.
pub proof fn every_wrong_mod_is_warned_of_once(mods: Seq<ScannedView>)
    ensures
        exists|at: Seq<int>| #[trigger]
            warnings_at(warnings_first(mods, mods.len() as int), mods, at),
{
    let at = lemma_warnings(mods, mods.len() as int);
    assert(mods.take(mods.len() as int) =~= mods);
    assert(warnings_at(warnings_first(mods, mods.len() as int), mods, at));
}

/// To scan two lists of mods one after the other gives the warnings of both.
pub proof fn scans_add_up(a: Seq<ScannedView>, b: Seq<ScannedView>)
    ensures
        warnings_first(a + b, (a + b).len() as int) == warnings_first(a, a.len() as int)
            + warnings_first(b, b.len() as int),
    decreases b.len(),
{
    let whole = a + b;
    if b.len() == 0 {
        assert(whole =~= a);
        assert(warnings_first(a, a.len() as int) + warnings_first(b, 0) =~= warnings_first(
            a,
            a.len() as int,
        ));
    } else {
        let c = b.drop_last();
        scans_add_up(a, c);
        lemma_warnings_prefix(whole, a + c, (a.len() + c.len()) as int);
        lemma_warnings_prefix(b, c, c.len() as int);
        assert(whole[(a.len() + c.len()) as int] == b.last());
        assert((a + c).len() == a.len() + c.len());
        assert(warnings_first(whole, whole.len() as int) =~= warnings_first(a, a.len() as int)
            + warnings_first(b, b.len() as int));
    }
}

proof fn lemma_warnings_prefix(a: Seq<ScannedView>, b: Seq<ScannedView>, n: int)
    requires
        0 <= n <= a.len(),
        n <= b.len(),
        forall|i: int| 0 <= i < n ==> a[i] == b[i],
    ensures
        warnings_first(a, n) == warnings_first(b, n),
    decreases n,
{
    if n > 0 {
        lemma_warnings_prefix(a, b, n - 1);
    }
}

/// A library lies in the folder of the script extender's plugins: the name ends with the
/// extension of one behind something else, and the path names the folder, with slashes
/// of either kind and letters of either case.
pub open spec fn lies_in_place(f: ModFileView) -> bool {
    &&& f.name.len() >= 5
    &&& ascii_lowered(f.name.skip(f.name.len() - 4)) == seq!['.', 'd', 'l', 'l']
    &&& contains_text(
        lowercase(f.path).map_values(
            |c: char|
                if c == '\\' {
                    '/'
                } else {
                    c
                },
        ),
        "skse/plugins"@,
    )
}

/// A file is judged if it is a library in its place that could be read, by its name in
/// lower case and its content. Any other file is fine.
pub proof fn only_loaded_libraries_are_judged(f: ModFileView)
    ensures
        file_kind(f) == (if lies_in_place(f) && f.bytes is Some {
            library_kind(lowercase(f.name), f.bytes->0)
        } else {
            None
        }),
{
    reveal_strlit(".");
    reveal_strlit("dll");
    assert("."@ =~= seq!['.']);
    text::lemma_rfind(f.name, "."@, f.name.len() as int);
    let lower = lowercase(f.path);
    let slashed = lower.map_values(
        |c: char|
            if c == '\\' {
                '/'
            } else {
                c
            },
    );
    assert(char_replaced(lower, '\\', '/') =~= slashed);
    let n = f.name.len() as int;
    let dotted = seq!['.', 'd', 'l', 'l'];
    assert(ascii_lowered("dll"@) =~= seq!['d', 'l', 'l']);
    if is_library(f.name) {
        let (stem, ext) = split_last(f.name, "."@)->0;
        assert(ascii_lowered(ext).len() == ext.len() && ascii_lowered("dll"@).len() == 3);
        let tail = f.name.skip(n - 4);
        let k = stem.len() as int;
        assert(f.name.subrange(k, k + 1)[0] == '.');
        assert forall|i: int| 0 <= i < 4 implies #[trigger] ascii_lowered(tail)[i] == dotted[i] by {
            if i > 0 {
                assert(tail[i] == ext[i - 1]);
                assert(ascii_lowered(ext)[i - 1] == ascii_lowered("dll"@)[i - 1]);
            }
        }
        assert(ascii_lowered(tail) =~= dotted);
    } else if n >= 5 && ascii_lowered(f.name.skip(n - 4)) == dotted {
        let tail = f.name.skip(n - 4);
        assert forall|i: int| 0 <= i < 4 implies text::lower_char(#[trigger] tail[i]) == dotted[i] by {
            assert(ascii_lowered(tail)[i] == dotted[i]);
        }
        assert(tail[0] == '.' && tail[1] != '.' && tail[2] != '.' && tail[3] != '.');
        assert(f.name[n - 4] == tail[0] && f.name[n - 3] == tail[1] && f.name[n - 2] == tail[2]
            && f.name[n - 1] == tail[3]);
        assert(f.name.subrange(n - 4, n - 3) =~= "."@);
        assert(text::occurs_at(f.name, "."@, n - 4));
        let k = text::rfind_from(f.name, "."@, n)->0;
        assert(f.name.subrange(k, k + 1)[0] == f.name[k]);
        assert(k == n - 4);
        let ext = f.name.skip(k + 1);
        assert forall|i: int| 0 <= i < 3 implies #[trigger] ascii_lowered(ext)[i] == ascii_lowered(
            "dll"@,
        )[i] by {
            assert(ext[i] == tail[i + 1]);
        }
        assert(ascii_lowered(ext) =~= ascii_lowered("dll"@));
    }
}

/// A loaded library is judged by the marks in its content, or by the version that the
/// name of an address library states. The mark of the VR build clears it of all.
pub proof fn libraries_are_judged_by_their_marks(name: Seq<char>, bytes: Seq<u8>)
    ensures
        ({
            let marked = |p: Seq<char>| exists|i: int| #[trigger] spells_at(bytes, p, i);
            let vr = marked("sksevr"@);
            let ae = marked("skse64_1_6_"@) || begins(name, "versionlib-1-6"@);
            let old = marked("skse_1_9_32"@);
            let se = marked("skse64_1_5_"@) || begins(name, "versionlib-1-5"@);
            &&& vr ==> library_kind(name, bytes) is None
            &&& !vr && ae ==> library_kind(name, bytes) == Some(PlatKind::AeOnly)
            &&& !vr && old && !ae ==> library_kind(name, bytes) == Some(PlatKind::Oldrim)
            &&& !vr && se && !old && !ae ==> library_kind(name, bytes) == Some(PlatKind::SeUnclear)
            &&& !ae && !old && !se ==> library_kind(name, bytes) is None
        }),
{
}

} // verus!
