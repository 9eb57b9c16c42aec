//! Matching names to separators: shared words, whole words, and stems.
use vstd::prelude::*;
use crate::list;
use crate::modlist;
use crate::modlist::Section;
#[allow(unused_imports)]
use crate::modlist::{norm_of, SectionView};
use crate::text;
#[allow(unused_imports)]
use crate::text::{alnum_words_of, begins, byte_len, finishes, contains_text, lowercase};

verus! {

// ---- word classes ----

/// Categories that say nothing about where a mod belongs.
pub open spec fn is_junk_category(c: Seq<char>) -> bool {
    c == "miscellaneous"@ || c == "models and textures"@ || c == "vr"@
}

/// Words that carry no meaning when names are compared.
pub open spec fn is_stopword(w: Seq<char>) -> bool {
    w == "and"@ || w == "the"@ || w == "for"@ || w == "with"@ || w == "of"@ || w == "a"@ || w
        == "an"@ || w == "mod"@ || w == "mods"@ || w == "se"@ || w == "vr"@ || w == "to"@ || w
        == "in"@ || w == "on"@
}

/// Words that describe shape, not content, in the singular that `tokens` gives.
pub open spec fn is_generic(w: Seq<char>) -> bool {
    w == "fix"@ || w == "fixe"@ || w == "patch"@ || w == "patche"@ || w == "overhaul"@ || w
        == "collection"@ || w == "compendium"@ || w == "tweak"@ || w == "improvement"@ || w
        == "resource"@ || w == "addon"@
}

pub fn junk_category(c: &str) -> (r: bool)
    ensures
        r == is_junk_category(c@),
{
    text::same(c, "miscellaneous") || text::same(c, "models and textures") || text::same(c, "vr")
}

fn stopword(w: &str) -> (r: bool)
    ensures
        r == is_stopword(w@),
{
    text::same(w, "and") || text::same(w, "the") || text::same(w, "for") || text::same(w, "with")
        || text::same(w, "of") || text::same(w, "a") || text::same(w, "an") || text::same(w, "mod")
        || text::same(w, "mods") || text::same(w, "se") || text::same(w, "vr") || text::same(
        w,
        "to",
    ) || text::same(w, "in") || text::same(w, "on")
}

fn generic(w: &str) -> (r: bool)
    ensures
        r == is_generic(w@),
{
    text::same(w, "fix") || text::same(w, "fixe") || text::same(w, "patch") || text::same(
        w,
        "patche",
    ) || text::same(w, "overhaul") || text::same(w, "collection") || text::same(w, "compendium")
        || text::same(w, "tweak") || text::same(w, "improvement") || text::same(w, "resource")
        || text::same(w, "addon")
}

/// Names that stand for a patch or another variant that must win over its master.
/// Patches that act at run time do not depend on the file order.
pub open spec fn patchy(lower: Seq<char>) -> bool {
    (contains_text(lower, "patch"@) || contains_text(lower, "add-on"@) || contains_text(lower, "addon"@) || contains_text(lower, "fix"@)
        || contains_text(lower, "compendium"@) || finishes(lower, " vr"@) || contains_text(lower, " vr "@)) && !contains_text(
        lower,
        "skypatcher"@,
    )
}

pub fn patch_flavored(lower: &str) -> (r: bool)
    ensures
        r == patchy(lower@),
{
    (text::contains(lower, "patch") || text::contains(lower, "add-on") || text::contains(
        lower,
        "addon",
    ) || text::contains(lower, "fix") || text::contains(lower, "compendium") || text::ends_with(
        lower,
        " vr",
    ) || text::contains(lower, " vr ")) && !text::contains(lower, "skypatcher")
}

// ---- tokens ----

/// A gentle singular: one final `s` goes, unless two stand there.
pub open spec fn singular(w: Seq<char>) -> Seq<char> {
    if byte_len(w) > 3 && finishes(w, "s"@) && !finishes(w, "ss"@) {
        w.drop_last()
    } else {
        w
    }
}

pub open spec fn tokens_first(words: Seq<Seq<char>>, n: int) -> Seq<Seq<char>>
    decreases n,
{
    if n <= 0 {
        Seq::empty()
    } else if byte_len(words[n - 1]) >= 3 && !is_stopword(words[n - 1]) {
        tokens_first(words, n - 1).push(singular(words[n - 1]))
    } else {
        tokens_first(words, n - 1)
    }
}

/// The meaningful words of a name, in lower case and in the singular.
pub open spec fn tokens_of(s: Seq<char>) -> Seq<Seq<char>> {
    let w = alnum_words_of(lowercase(s));
    tokens_first(w, w.len() as int)
}

fn make_singular(w: &str) -> (r: String)
    ensures
        r@ == singular(w@),
{
    if text::bytes_in(w) > 3 && text::ends_with(w, "s") && !text::ends_with(w, "ss") {
        let v = text::chars_of(w);
        proof {
            reveal_strlit("s");
        }
        let r = text::part(&v, 0, v.len() - 1);
        assert(r@ =~= w@.drop_last());
        r
    } else {
        w.to_string()
    }
}

pub fn tokens(s: &str) -> (r: Vec<String>)
    ensures
        r.deep_view() == tokens_of(s@),
{
    let lower = s.to_lowercase();
    let words = text::alnum_words(lower.as_str());
    let mut out: Vec<String> = list::none();
    let mut i: usize = 0;
    while i < words.len()
        invariant
            i <= words.len(),
            out.deep_view() == tokens_first(words.deep_view(), i as int),
        decreases words.len() - i,
    {
        assert(words.deep_view()[i as int] == words@[i as int]@);
        let w = words[i].as_str();
        if text::bytes_in(w) >= 3 && !stopword(w) {
            list::put(&mut out, make_singular(w));
        }
        i = i + 1;
    }
    out
}

// ---- shared words ----

/// The first section from `i` on whose label has the given letters and digits.
pub open spec fn norm_labelled(sections: Seq<SectionView>, cn: Seq<char>, i: int) -> Option<int>
    decreases sections.len() - i,
{
    if i < 0 || i >= sections.len() {
        None
    } else if norm_of(sections[i].label) == cn {
        Some(i)
    } else {
        norm_labelled(sections, cn, i + 1)
    }
}

/// The first section from `i` on with that very label.
pub open spec fn labelled(sections: Seq<SectionView>, label: Seq<char>, i: int) -> Option<int>
    decreases sections.len() - i,
{
    if i < 0 || i >= sections.len() {
        None
    } else if sections[i].label == label {
        Some(i)
    } else {
        labelled(sections, label, i + 1)
    }
}

pub fn find_norm_label(sections: &[Section], cn: &str) -> (r: Option<usize>)
    ensures
        match r {
            Some(i) => norm_labelled(sections.deep_view(), cn@, 0) == Some(i as int) && i
                < sections.len(),
            None => norm_labelled(sections.deep_view(), cn@, 0) is None,
        },
{
    let key = cn.to_string();
    let mut i: usize = 0;
    while i < sections.len()
        invariant
            i <= sections.len(),
            key@ == cn@,
            norm_labelled(sections.deep_view(), cn@, i as int) == norm_labelled(
                sections.deep_view(),
                cn@,
                0,
            ),
        decreases sections.len() - i,
    {
        assert(sections.deep_view()[i as int] == sections@[i as int].deep_view());
        if modlist::norm(sections[i].label.as_str()) == key {
            return Some(i);
        }
        i = i + 1;
    }
    None
}

pub fn find_label(sections: &[Section], label: &str) -> (r: Option<usize>)
    ensures
        match r {
            Some(i) => labelled(sections.deep_view(), label@, 0) == Some(i as int) && i
                < sections.len(),
            None => labelled(sections.deep_view(), label@, 0) is None,
        },
{
    let key = label.to_string();
    let mut i: usize = 0;
    while i < sections.len()
        invariant
            i <= sections.len(),
            key@ == label@,
            labelled(sections.deep_view(), label@, i as int) == labelled(
                sections.deep_view(),
                label@,
                0,
            ),
        decreases sections.len() - i,
    {
        assert(sections.deep_view()[i as int] == sections@[i as int].deep_view());
        if sections[i].label == key {
            return Some(i);
        }
        i = i + 1;
    }
    None
}

pub proof fn lemma_labelled(sections: Seq<SectionView>, label: Seq<char>, i: int)
    requires
        0 <= i,
    ensures
        match labelled(sections, label, i) {
            Some(k) => i <= k < sections.len() && sections[k].label == label && forall|j: int|
                i <= j < k ==> (#[trigger] sections[j]).label != label,
            None => forall|j: int| i <= j < sections.len() ==> (#[trigger] sections[j]).label != label,
        },
    decreases sections.len() - i,
{
    if i < sections.len() && sections[i].label != label {
        lemma_labelled(sections, label, i + 1);
    }
}

pub proof fn lemma_norm_labelled(sections: Seq<SectionView>, cn: Seq<char>, i: int)
    requires
        0 <= i,
    ensures
        match norm_labelled(sections, cn, i) {
            Some(k) => i <= k < sections.len() && norm_of(sections[k].label) == cn && forall|j: int|
                i <= j < k ==> norm_of((#[trigger] sections[j]).label) != cn,
            None => forall|j: int|
                i <= j < sections.len() ==> norm_of((#[trigger] sections[j]).label) != cn,
        },
    decreases sections.len() - i,
{
    if i < sections.len() && norm_of(sections[i].label) != cn {
        lemma_norm_labelled(sections, cn, i + 1);
    }
}

/// Those of the first `n` words that occur in `other`.
pub open spec fn shared_first(words: Seq<Seq<char>>, other: Seq<Seq<char>>, n: int) -> Seq<
    Seq<char>,
>
    decreases n,
{
    if n <= 0 {
        Seq::empty()
    } else if other.contains(words[n - 1]) {
        shared_first(words, other, n - 1).push(words[n - 1])
    } else {
        shared_first(words, other, n - 1)
    }
}

pub open spec fn shared_words(words: Seq<Seq<char>>, other: Seq<Seq<char>>) -> Seq<Seq<char>> {
    shared_first(words, other, words.len() as int)
}

/// How many of the first `n` words say something about content.
pub open spec fn distinctive_first(words: Seq<Seq<char>>, n: int) -> nat
    decreases n,
{
    if n <= 0 {
        0
    } else if is_generic(words[n - 1]) {
        distinctive_first(words, n - 1)
    } else {
        distinctive_first(words, n - 1) + 1
    }
}

/// The first index from `i` on whose word occurs in `other`.
pub open spec fn first_shared(words: Seq<Seq<char>>, other: Seq<Seq<char>>, i: int) -> int
    decreases words.len() - i,
{
    if 0 <= i < words.len() && !other.contains(words[i]) {
        first_shared(words, other, i + 1)
    } else {
        i
    }
}

/// A section that is narrowed to a sex that the category does not name.
pub open spec fn narrowed(ct: Seq<Seq<char>>, st: Seq<Seq<char>>) -> bool {
    (st.contains("male"@) && !ct.contains("male"@)) || (st.contains("female"@) && !ct.contains(
        "female"@,
    ))
}

pub struct Score {
    pub distinctive: nat,
    pub shared: nat,
    pub position: int,
    pub length: nat,
}

/// How well a label with the words `st` fits a category with the words `ct`. In
/// strict matching a narrowed section is out, and so is one that shares no
/// distinctive word and fewer than two words in all.
pub open spec fn score(ct: Seq<Seq<char>>, st: Seq<Seq<char>>, strict: bool) -> Option<Score> {
    let shared = shared_words(ct, st);
    let distinctive = distinctive_first(shared, shared.len() as int);
    if strict && narrowed(ct, st) {
        None
    } else if strict && distinctive == 0 && shared.len() < 2 {
        None
    } else if shared.len() == 0 {
        None
    } else {
        Some(
            Score {
                distinctive,
                shared: shared.len(),
                position: first_shared(ct, st, 0),
                length: st.len(),
            },
        )
    }
}

/// Distinctive words decide, then shared words, then the earliest category word
/// shared, then the label with fewer words.
pub open spec fn beats(a: Score, b: Score) -> bool {
    a.distinctive > b.distinctive || (a.distinctive == b.distinctive && (a.shared > b.shared || (
    a.shared == b.shared && (a.position < b.position || (a.position == b.position && a.length
        < b.length)))))
}

/// The best of the first `n` sections; the earliest of equals.
pub open spec fn best_first(
    ct: Seq<Seq<char>>,
    sections: Seq<SectionView>,
    strict: bool,
    n: int,
) -> Option<int>
    decreases n,
{
    if n <= 0 {
        None
    } else {
        let before = best_first(ct, sections, strict, n - 1);
        match score(ct, tokens_of(sections[n - 1].label), strict) {
            None => before,
            Some(s) => match before {
                None => Some(n - 1),
                Some(k) => if beats(s, score(ct, tokens_of(sections[k].label), strict)->0) {
                    Some(n - 1)
                } else {
                    before
                },
            },
        }
    }
}

/// The section that a category name means, and the words they share: the section
/// with the same letters and digits, or else the one that scores best.
pub open spec fn fuzzy_index(cat: Seq<char>, sections: Seq<SectionView>, strict: bool) -> Option<
    (int, Seq<Seq<char>>),
> {
    match norm_labelled(sections, norm_of(cat), 0) {
        Some(i) => Some((i, Seq::empty())),
        None => match best_first(tokens_of(cat), sections, strict, sections.len() as int) {
            Some(k) => Some((k, shared_words(tokens_of(cat), tokens_of(sections[k].label)))),
            None => None,
        },
    }
}

pub proof fn lemma_best(ct: Seq<Seq<char>>, sections: Seq<SectionView>, strict: bool, n: int)
    requires
        n <= sections.len(),
    ensures
        match best_first(ct, sections, strict, n) {
            Some(k) => 0 <= k < n && score(ct, tokens_of(sections[k].label), strict) is Some
                && forall|j: int|
                0 <= j < n && score(ct, tokens_of((#[trigger] sections[j]).label), strict) is Some
                    ==> !beats(
                    score(ct, tokens_of(sections[j].label), strict)->0,
                    score(ct, tokens_of(sections[k].label), strict)->0,
                ) && (j < k ==> beats(
                    score(ct, tokens_of(sections[k].label), strict)->0,
                    score(ct, tokens_of(sections[j].label), strict)->0,
                )),
            None => forall|j: int|
                0 <= j < n ==> score(ct, tokens_of((#[trigger] sections[j]).label), strict) is None,
        },
    decreases n,
{
    if n > 0 {
        lemma_best(ct, sections, strict, n - 1);
    }
}

struct Mark {
    distinctive: usize,
    shared: usize,
    position: usize,
    length: usize,
}

impl Mark {
    spec fn is(self, s: Score) -> bool {
        self.distinctive == s.distinctive && self.shared == s.shared && self.position == s.position
            && self.length == s.length
    }
}

fn shared_with(words: &Vec<String>, other: &Vec<String>) -> (r: Vec<String>)
    ensures
        r.deep_view() == shared_words(words.deep_view(), other.deep_view()),
{
    let mut out: Vec<String> = list::none();
    let mut i: usize = 0;
    while i < words.len()
        invariant
            i <= words.len(),
            out.deep_view() == shared_first(words.deep_view(), other.deep_view(), i as int),
        decreases words.len() - i,
    {
        assert(words.deep_view()[i as int] == words@[i as int]@);
        if list::holds(other, words[i].as_str()) {
            list::put(&mut out, words[i].clone());
        }
        i = i + 1;
    }
    out
}

fn count_distinctive(words: &Vec<String>) -> (r: usize)
    ensures
        r == distinctive_first(words.deep_view(), words.len() as int),
{
    let mut n: usize = 0;
    let mut i: usize = 0;
    while i < words.len()
        invariant
            n <= i <= words.len(),
            n == distinctive_first(words.deep_view(), i as int),
        decreases words.len() - i,
    {
        assert(words.deep_view()[i as int] == words@[i as int]@);
        if !generic(words[i].as_str()) {
            n = n + 1;
        }
        i = i + 1;
    }
    n
}

fn mark(ct: &Vec<String>, st: &Vec<String>, strict: bool) -> (r: Option<Mark>)
    ensures
        match r {
            Some(m) => score(ct.deep_view(), st.deep_view(), strict) is Some && m.is(
                score(ct.deep_view(), st.deep_view(), strict)->0,
            ),
            None => score(ct.deep_view(), st.deep_view(), strict) is None,
        },
{
    if strict && ((list::holds(st, "male") && !list::holds(ct, "male")) || (list::holds(st, "female")
        && !list::holds(ct, "female"))) {
        return None;
    }
    let shared = shared_with(ct, st);
    assert(shared.deep_view().len() == shared.len());
    let distinctive = count_distinctive(&shared);
    if strict && distinctive == 0 && shared.len() < 2 {
        return None;
    }
    if shared.len() == 0 {
        return None;
    }
    let mut i: usize = 0;
    while i < ct.len() && !list::holds(st, ct[i].as_str())
        invariant
            i <= ct.len(),
            first_shared(ct.deep_view(), st.deep_view(), i as int) == first_shared(
                ct.deep_view(),
                st.deep_view(),
                0,
            ),
        decreases ct.len() - i,
    {
        assert(ct.deep_view()[i as int] == ct@[i as int]@);
        i = i + 1;
    }
    assert(i < ct.len() ==> ct.deep_view()[i as int] == ct@[i as int]@);
    Some(Mark { distinctive, shared: shared.len(), position: i, length: st.len() })
}

fn mark_beats(a: &Mark, b: &Mark) -> (r: bool)
    ensures
        forall|x: Score, y: Score| a.is(x) && b.is(y) ==> r == #[trigger] beats(x, y),
{
    a.distinctive > b.distinctive || (a.distinctive == b.distinctive && (a.shared > b.shared || (
    a.shared == b.shared && (a.position < b.position || (a.position == b.position && a.length
        < b.length)))))
}

pub fn fuzzy_match_at(cat: &str, sections: &[Section], strict: bool) -> (r: Option<
    (usize, Vec<String>),
>)
    ensures
        match r {
            Some((i, shared)) => fuzzy_index(cat@, sections.deep_view(), strict) == Some(
                (i as int, shared.deep_view()),
            ) && i < sections.len(),
            None => fuzzy_index(cat@, sections.deep_view(), strict) is None,
        },
{
    let cn = modlist::norm(cat);
    if let Some(i) = find_norm_label(sections, cn.as_str()) {
        return Some((i, list::none()));
    }
    let ct = tokens(cat);
    let ghost secs = sections.deep_view();
    let mut best: Option<(usize, Mark)> = None;
    let mut i: usize = 0;
    while i < sections.len()
        invariant
            i <= sections.len(),
            secs == sections.deep_view(),
            match best {
                Some((k, m)) => best_first(ct.deep_view(), secs, strict, i as int) == Some(k as int)
                    && k < i && score(ct.deep_view(), tokens_of(secs[k as int].label), strict)
                    is Some && m.is(
                    score(ct.deep_view(), tokens_of(secs[k as int].label), strict)->0,
                ),
                None => best_first(ct.deep_view(), secs, strict, i as int) is None,
            },
        decreases sections.len() - i,
    {
        assert(secs[i as int] == sections@[i as int].deep_view());
        let st = tokens(sections[i].label.as_str());
        match mark(&ct, &st, strict) {
            None => {},
            Some(m) => {
                let better = match &best {
                    None => true,
                    Some((_, b)) => mark_beats(&m, b),
                };
                if better {
                    best = Some((i, m));
                }
            },
        }
        i = i + 1;
    }
    match best {
        Some((k, _)) => {
            assert(secs[k as int] == sections@[k as int].deep_view());
            let st = tokens(sections[k].label.as_str());
            Some((k, shared_with(&ct, &st)))
        },
        None => None,
    }
}

/// The label that a category name means, and the words they share.
pub open spec fn fuzzy_scored(cat: Seq<char>, sections: Seq<SectionView>, strict: bool) -> Option<
    (Seq<char>, Seq<Seq<char>>),
> {
    match fuzzy_index(cat, sections, strict) {
        Some((i, shared)) => Some((sections[i].label, shared)),
        None => None,
    }
}

/// The label that a category name means.
pub open spec fn fuzzy_label(cat: Seq<char>, sections: Seq<SectionView>, strict: bool) -> Option<
    Seq<char>,
> {
    match fuzzy_index(cat, sections, strict) {
        Some((i, _)) => Some(sections[i].label),
        None => None,
    }
}

pub fn fuzzy_match_scored<'a>(cat: &str, sections: &'a [Section], strict: bool) -> (r: Option<
    (&'a str, Vec<String>),
>)
    ensures
        r.deep_view() == fuzzy_scored(cat@, sections.deep_view(), strict),
{
    match fuzzy_match_at(cat, sections, strict) {
        Some((i, shared)) => {
            assert(sections.deep_view()[i as int] == sections@[i as int].deep_view());
            Some((sections[i].label.as_str(), shared))
        },
        None => None,
    }
}

pub fn fuzzy_match_section<'a>(cat: &str, sections: &'a [Section], strict: bool) -> (r: Option<
    &'a str,
>)
    ensures
        r.deep_view() == fuzzy_label(cat@, sections.deep_view(), strict),
{
    match fuzzy_match_scored(cat, sections, strict) {
        Some((l, _)) => Some(l),
        None => None,
    }
}

// ---- concepts ----

/// Equal, or a plural or short-suffix variant: both have four letters at least,
/// their lengths differ by two at most, and one begins with the other.
pub open spec fn same_stem(a: Seq<char>, b: Seq<char>) -> bool {
    a == b || (byte_len(a) >= 4 && byte_len(b) >= 4 && near(a, b))
}

/// One begins with the other, and their lengths differ by two at most.
pub open spec fn near(a: Seq<char>, b: Seq<char>) -> bool {
    byte_len(a) - byte_len(b) <= 2 && byte_len(b) - byte_len(a) <= 2 && (begins(a, b) || begins(
        b,
        a,
    ))
}

fn are_near(a: &str, b: &str) -> (r: bool)
    ensures
        r == near(a@, b@),
{
    let x = text::bytes_in(a);
    let y = text::bytes_in(b);
    let d: usize = if x < y {
        y - x
    } else {
        x - y
    };
    d <= 2 && (text::starts_with(a, b) || text::starts_with(b, a))
}

fn stems_match(a: &str, b: &str) -> (r: bool)
    ensures
        r == same_stem(a@, b@),
{
    text::same(a, b) || (text::bytes_in(a) >= 4 && text::bytes_in(b) >= 4 && are_near(a, b))
}

/// The words `cw` stand in `lw` from index `i` on, each by its stem.
pub open spec fn stems_at(lw: Seq<Seq<char>>, cw: Seq<Seq<char>>, i: int) -> bool {
    0 <= i && i + cw.len() <= lw.len() && forall|k: int|
        0 <= k < cw.len() ==> same_stem(lw[i + k], #[trigger] cw[k])
}

pub open spec fn word_hit(cw: Seq<Seq<char>>, label: Seq<char>) -> bool {
    cw.len() > 0 && exists|i: int| #[trigger] stems_at(alnum_words_of(lowercase(label)), cw, i)
}

/// How a label holds a concept: 0 as whole words, 1 as letters, 2 the other way
/// round; letters count from four on.
pub open spec fn containment(concept: Seq<char>, label: Seq<char>) -> Option<int> {
    let cn = norm_of(concept);
    let sn = norm_of(label);
    if cn.len() > 0 && word_hit(alnum_words_of(lowercase(concept)), label) {
        Some(0)
    } else if byte_len(cn) >= 4 && byte_len(sn) >= 4 && contains_text(sn, cn) {
        Some(1)
    } else if byte_len(cn) >= 4 && byte_len(sn) >= 4 && contains_text(cn, sn) {
        Some(2)
    } else {
        None
    }
}

/// The closest of the first `n` sections that hold the concept: by the kind of
/// containment, then the shortest label, then the earliest.
pub open spec fn closest_first(concept: Seq<char>, sections: Seq<SectionView>, n: int) -> Option<
    int,
>
    decreases n,
{
    if n <= 0 {
        None
    } else {
        let before = closest_first(concept, sections, n - 1);
        match containment(concept, sections[n - 1].label) {
            None => before,
            Some(r) => match before {
                None => Some(n - 1),
                Some(k) => {
                    let b = containment(concept, sections[k].label)->0;
                    if r < b || (r == b && byte_len(norm_of(sections[n - 1].label)) < byte_len(
                        norm_of(sections[k].label),
                    )) {
                        Some(n - 1)
                    } else {
                        before
                    }
                },
            },
        }
    }
}

/// The section that a rule's target means, and how it was found: the very label,
/// the same letters and digits, containment, or shared words.
pub open spec fn concept_index(concept: Seq<char>, sections: Seq<SectionView>) -> Option<
    (int, Seq<char>),
> {
    if labelled(sections, concept, 0) is Some {
        Some((labelled(sections, concept, 0)->0, "exact"@))
    } else if norm_labelled(sections, norm_of(concept), 0) is Some {
        Some((norm_labelled(sections, norm_of(concept), 0)->0, "norm"@))
    } else if closest_first(concept, sections, sections.len() as int) is Some {
        Some((closest_first(concept, sections, sections.len() as int)->0, "contains"@))
    } else {
        match fuzzy_index(concept, sections, false) {
            Some((i, _)) => Some((i, "tokens"@)),
            None => None,
        }
    }
}

fn match_stems(lw: &Vec<String>, cw: &Vec<String>, i: usize) -> (r: bool)
    requires
        i <= lw.len(),
    ensures
        r == stems_at(lw.deep_view(), cw.deep_view(), i as int),
{
    if cw.len() > lw.len() - i {
        return false;
    }
    let mut k: usize = 0;
    while k < cw.len()
        invariant
            k <= cw.len(),
            i + cw.len() <= lw.len(),
            forall|j: int|
                0 <= j < k ==> same_stem(lw.deep_view()[i + j], #[trigger] cw.deep_view()[j]),
        decreases cw.len() - k,
    {
        assert(lw.deep_view()[i + k] == lw@[i + k]@);
        assert(cw.deep_view()[k as int] == cw@[k as int]@);
        if !stems_match(lw[i + k].as_str(), cw[k].as_str()) {
            return false;
        }
        k = k + 1;
    }
    true
}

fn hits_words(cw: &Vec<String>, label: &str) -> (r: bool)
    ensures
        r == word_hit(cw.deep_view(), label@),
{
    if cw.len() == 0 {
        return false;
    }
    let lower = label.to_lowercase();
    let lw = text::alnum_words(lower.as_str());
    let mut i: usize = 0;
    while i < lw.len()
        invariant
            i <= lw.len(),
            cw.len() > 0,
            lw.deep_view() == alnum_words_of(lowercase(label@)),
            forall|j: int| 0 <= j < i ==> !#[trigger] stems_at(lw.deep_view(), cw.deep_view(), j),
        decreases lw.len() - i,
    {
        if match_stems(&lw, cw, i) {
            return true;
        }
        i = i + 1;
    }
    assert forall|j: int| !#[trigger] stems_at(lw.deep_view(), cw.deep_view(), j) by {
        if j >= lw.len() {
            assert(j + cw.deep_view().len() > lw.deep_view().len());
        }
    }
    false
}

fn rank(concept_words: &Vec<String>, cn: &str, label: &str, sn: &str, concept: Ghost<Seq<char>>) -> (r:
    Option<u8>)
    requires
        concept_words.deep_view() == alnum_words_of(lowercase(concept@)),
        cn@ == norm_of(concept@),
        sn@ == norm_of(label@),
    ensures
        match r {
            Some(k) => containment(concept@, label@) == Some(k as int),
            None => containment(concept@, label@) is None,
        },
{
    if !cn.is_empty() && hits_words(concept_words, label) {
        Some(0)
    } else if text::bytes_in(cn) >= 4 && text::bytes_in(sn) >= 4 && text::contains(sn, cn) {
        Some(1)
    } else if text::bytes_in(cn) >= 4 && text::bytes_in(sn) >= 4 && text::contains(cn, sn) {
        Some(2)
    } else {
        None
    }
}

fn closest(concept: &str, sections: &[Section]) -> (r: Option<usize>)
    ensures
        match r {
            Some(k) => closest_first(concept@, sections.deep_view(), sections.len() as int) == Some(
                k as int,
            ) && k < sections.len(),
            None => closest_first(concept@, sections.deep_view(), sections.len() as int) is None,
        },
{
    let lower = concept.to_lowercase();
    let cw = text::alnum_words(lower.as_str());
    let cn = modlist::norm(concept);
    let ghost secs = sections.deep_view();
    let mut best: Option<(u8, usize, usize)> = None;
    let mut i: usize = 0;
    while i < sections.len()
        invariant
            i <= sections.len(),
            secs == sections.deep_view(),
            cw.deep_view() == alnum_words_of(lowercase(concept@)),
            cn@ == norm_of(concept@),
            match best {
                Some((r, l, k)) => closest_first(concept@, secs, i as int) == Some(k as int) && k
                    < i && containment(concept@, secs[k as int].label) == Some(r as int) && l
                    == byte_len(norm_of(secs[k as int].label)),
                None => closest_first(concept@, secs, i as int) is None,
            },
        decreases sections.len() - i,
    {
        assert(secs[i as int] == sections@[i as int].deep_view());
        let label = sections[i].label.as_str();
        let sn = modlist::norm(label);
        match rank(&cw, cn.as_str(), label, sn.as_str(), Ghost(concept@)) {
            None => {},
            Some(r) => {
                let l = text::bytes_in(sn.as_str());
                let better = match best {
                    None => true,
                    Some((br, bl, _)) => r < br || (r == br && l < bl),
                };
                if better {
                    best = Some((r, l, i));
                }
            },
        }
        i = i + 1;
    }
    match best {
        Some((_, _, k)) => Some(k),
        None => None,
    }
}

pub fn concept_at(concept: &str, sections: &[Section]) -> (r: Option<(usize, &'static str)>)
    ensures
        match r {
            Some((i, how)) => concept_index(concept@, sections.deep_view()) == Some(
                (i as int, how@),
            ) && i < sections.len(),
            None => concept_index(concept@, sections.deep_view()) is None,
        },
{
    if let Some(i) = find_label(sections, concept) {
        return Some((i, "exact"));
    }
    let cn = modlist::norm(concept);
    if let Some(i) = find_norm_label(sections, cn.as_str()) {
        return Some((i, "norm"));
    }
    if let Some(i) = closest(concept, sections) {
        return Some((i, "contains"));
    }
    match fuzzy_match_at(concept, sections, false) {
        Some((i, _)) => Some((i, "tokens")),
        None => None,
    }
}

/// The label that a concept means here, and how it was found.
pub open spec fn concept_label(concept: Seq<char>, sections: Seq<SectionView>) -> Option<
    (Seq<char>, Seq<char>),
> {
    match concept_index(concept, sections) {
        Some((i, how)) => Some((sections[i].label, how)),
        None => None,
    }
}

pub fn resolve_concept<'a>(concept: &str, sections: &'a [Section]) -> (r: Option<
    (&'a str, &'static str),
>)
    ensures
        r.deep_view() == concept_label(concept@, sections.deep_view()),
{
    match concept_at(concept, sections) {
        Some((i, how)) => {
            assert(sections.deep_view()[i as int] == sections@[i as int].deep_view());
            Some((sections[i].label.as_str(), how))
        },
        None => None,
    }
}

proof fn lemma_closest(concept: Seq<char>, sections: Seq<SectionView>, n: int)
    requires
        n <= sections.len(),
    ensures
        match closest_first(concept, sections, n) {
            Some(k) => 0 <= k < n,
            None => true,
        },
    decreases n,
{
    if n > 0 {
        lemma_closest(concept, sections, n - 1);
    }
}

/// A rule's target never invents a section: what it means is a separator of the list,
/// and a target that is a label means that label.
pub proof fn concepts_resolve_to_separators(concept: Seq<char>, sections: Seq<SectionView>)
    ensures
        match concept_index(concept, sections) {
            Some((i, _)) => 0 <= i < sections.len(),
            None => true,
        },
        (exists|j: int| 0 <= j < sections.len() && (#[trigger] sections[j]).label == concept) ==> (
        concept_label(concept, sections) == Some((concept, "exact"@))),
{
    let n = sections.len() as int;
    lemma_labelled(sections, concept, 0);
    lemma_norm_labelled(sections, norm_of(concept), 0);
    lemma_closest(concept, sections, n);
    lemma_best(tokens_of(concept), sections, false, n);
}

/// Whether a label says every word of a concept that has four letters at least.
pub open spec fn says_concept(label: Seq<char>, concept: Seq<char>) -> bool {
    let lw = alnum_words_of(lowercase(label));
    let cw = alnum_words_of(lowercase(concept));
    forall|i: int|
        0 <= i < cw.len() && byte_len(#[trigger] cw[i]) >= 4 ==> exists|j: int|
            0 <= j < lw.len() && same_stem(#[trigger] lw[j], cw[i])
}

fn any_stem(lw: &Vec<String>, w: &str) -> (r: bool)
    ensures
        r == exists|j: int|
            0 <= j < lw.deep_view().len() && same_stem(#[trigger] lw.deep_view()[j], w@),
{
    let mut j: usize = 0;
    while j < lw.len()
        invariant
            j <= lw.len(),
            forall|k: int| 0 <= k < j ==> !same_stem(#[trigger] lw.deep_view()[k], w@),
        decreases lw.len() - j,
    {
        assert(lw.deep_view()[j as int] == lw@[j as int]@);
        if stems_match(lw[j].as_str(), w) {
            return true;
        }
        j = j + 1;
    }
    false
}

pub fn label_has_concept(label: &str, concept: &str) -> (r: bool)
    ensures
        r == says_concept(label@, concept@),
{
    let ll = label.to_lowercase();
    let lw = text::alnum_words(ll.as_str());
    let cl = concept.to_lowercase();
    let cw = text::alnum_words(cl.as_str());
    let ghost l = lw.deep_view();
    let ghost c = cw.deep_view();
    let mut i: usize = 0;
    while i < cw.len()
        invariant
            i <= cw.len(),
            l == lw.deep_view(),
            c == cw.deep_view(),
            l == alnum_words_of(lowercase(label@)),
            c == alnum_words_of(lowercase(concept@)),
            forall|k: int|
                0 <= k < i && byte_len(#[trigger] c[k]) >= 4 ==> exists|j: int|
                    0 <= j < l.len() && same_stem(#[trigger] l[j], c[k]),
        decreases cw.len() - i,
    {
        assert(c[i as int] == cw@[i as int]@);
        if text::bytes_in(cw[i].as_str()) >= 4 && !any_stem(&lw, cw[i].as_str()) {
            return false;
        }
        i = i + 1;
    }
    true
}

/// Equal words, or words of which one begins with the other.
pub open spec fn kindred(x: Seq<char>, y: Seq<char>) -> bool {
    x == y || near(x, y)
}

/// Whether two phrases share a word of the given length at least.
pub open spec fn share_stem(a: Seq<char>, b: Seq<char>, min: usize) -> bool {
    let aw = alnum_words_of(lowercase(a));
    let bw = alnum_words_of(lowercase(b));
    exists|i: int, j: int|
        0 <= i < aw.len() && 0 <= j < bw.len() && byte_len(#[trigger] aw[i]) >= min && byte_len(
            #[trigger] bw[j],
        ) >= min && kindred(aw[i], bw[j])
}

pub fn shared_stem(a: &str, b: &str, min_len: usize) -> (r: bool)
    ensures
        r == share_stem(a@, b@, min_len),
{
    let al = a.to_lowercase();
    let aw = text::alnum_words(al.as_str());
    let bl = b.to_lowercase();
    let bw = text::alnum_words(bl.as_str());
    let ghost x = aw.deep_view();
    let ghost y = bw.deep_view();
    let mut i: usize = 0;
    while i < aw.len()
        invariant
            i <= aw.len(),
            x == aw.deep_view(),
            y == bw.deep_view(),
            x == alnum_words_of(lowercase(a@)),
            y == alnum_words_of(lowercase(b@)),
            forall|p: int, q: int|
                0 <= p < i && 0 <= q < y.len() && byte_len(#[trigger] x[p]) >= min_len && byte_len(
                    #[trigger] y[q],
                ) >= min_len ==> !kindred(x[p], y[q]),
        decreases aw.len() - i,
    {
        assert(x[i as int] == aw@[i as int]@);
        let w = aw[i].as_str();
        if text::bytes_in(w) >= min_len {
            let mut j: usize = 0;
            while j < bw.len()
                invariant
                    i < aw.len(),
                    j <= bw.len(),
                    x == aw.deep_view(),
                    y == bw.deep_view(),
                    x == alnum_words_of(lowercase(a@)),
                    y == alnum_words_of(lowercase(b@)),
                    w@ == x[i as int],
                    byte_len(w@) >= min_len,
                    forall|q: int|
                        0 <= q < j && byte_len(#[trigger] y[q]) >= min_len ==> !kindred(w@, y[q]),
                decreases bw.len() - j,
            {
                assert(y[j as int] == bw@[j as int]@);
                let v = bw[j].as_str();
                if text::bytes_in(v) >= min_len && (text::same(w, v) || are_near(w, v)) {
                    assert(byte_len(x[i as int]) >= min_len && byte_len(y[j as int]) >= min_len
                        && kindred(x[i as int], y[j as int]));
                    return true;
                }
                j = j + 1;
            }
        }
        i = i + 1;
    }
    false
}

} // verus!
