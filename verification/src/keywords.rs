//! Name identities for matching: noise words, aliases, families, and pairs that
//! must never match.
//!
//! ```text
//! [strip]   noise = se, sse, ...      words removed before comparison
//! [alias]   Canonical = variant, ...  the variant is the canonical mod
//! [family]  Canonical = sibling, ...  siblings share one identity in ordering
//! [never]   Name = other, ...         the key never matches a listed name
//! ```
use vstd::prelude::*;
use crate::list;
use crate::map::TextMap;
#[allow(unused_imports)]
use crate::map::{found, inserted};
use crate::modlist;
#[allow(unused_imports)]
use crate::modlist::norm_of;
use crate::text;
#[allow(unused_imports)]
use crate::text::{begins, byte_len, finishes, is_alnum, joined, lines_of, lower_char, lowercase, split_first, split_on, trimmed, words_of};

verus! {

pub struct Keywords {
    pub strip: Vec<String>,
    pub alias: TextMap<String>,
    pub family: TextMap<String>,
    /// The words of a name, and the word lists that it never matches.
    pub never: Vec<(Vec<String>, Vec<Vec<String>>)>,
}

#[verifier::ext_equal]
pub struct KeywordsView {
    pub strip: Seq<Seq<char>>,
    pub alias: Seq<(Seq<char>, Seq<char>)>,
    pub family: Seq<(Seq<char>, Seq<char>)>,
    pub never: Seq<(Seq<Seq<char>>, Seq<Seq<Seq<char>>>)>,
}

impl DeepView for Keywords {
    type V = KeywordsView;

    open spec fn deep_view(&self) -> KeywordsView {
        KeywordsView {
            strip: self.strip.deep_view(),
            alias: self.alias.deep_view(),
            family: self.family.deep_view(),
            never: self.never.deep_view(),
        }
    }
}

pub open spec fn no_keywords() -> KeywordsView {
    KeywordsView {
        strip: Seq::empty(),
        alias: Seq::empty(),
        family: Seq::empty(),
        never: Seq::empty(),
    }
}

impl Default for Keywords {
    fn default() -> (r: Keywords)
        ensures
            r.deep_view() == no_keywords(),
    {
        Keywords {
            strip: list::none(),
            alias: TextMap::new(),
            family: TextMap::new(),
            never: list::none(),
        }
    }
}

/// Letters and digits in lower case, every other character a space.
pub open spec fn spaced(s: Seq<char>) -> Seq<char> {
    Seq::new(
        s.len(),
        |i: int| if is_alnum(s[i]) {
            lower_char(s[i])
        } else {
            ' '
        },
    )
}

/// The first `n` words that are not noise.
pub open spec fn not_noise(words: Seq<Seq<char>>, strip: Seq<Seq<char>>, n: int) -> Seq<Seq<char>>
    decreases n,
{
    if n <= 0 {
        Seq::empty()
    } else if strip.contains(words[n - 1]) {
        not_noise(words, strip, n - 1)
    } else {
        not_noise(words, strip, n - 1).push(words[n - 1])
    }
}

/// The words of a name that are not noise.
pub open spec fn name_words(strip: Seq<Seq<char>>, s: Seq<char>) -> Seq<Seq<char>> {
    let w = words_of(spaced(s));
    not_noise(w, strip, w.len() as int)
}

pub open spec fn tnorm_of(strip: Seq<Seq<char>>, s: Seq<char>) -> Seq<char> {
    joined(name_words(strip, s), " "@)
}

fn space_out(s: &str) -> (r: String)
    ensures
        r@ == spaced(s@),
{
    let mut r = String::new();
    for c in it: s.chars()
        invariant
            it.seq() == s@,
            r@ == spaced(s@.take(it.index())),
    {
        r.push(
            if text::alnum(c) {
                text::lowered_char(c)
            } else {
                ' '
            },
        );
    }
    assert(s@.take(s@.len() as int) =~= s@);
    r
}

/// Adds a word to a set of words.
fn note_word(set: &mut Vec<String>, w: String)
    ensures
        final(set).deep_view() == with_word(old(set).deep_view(), w@),
{
    if !list::holds(set, w.as_str()) {
        list::put(set, w);
    }
}

pub open spec fn with_word(set: Seq<Seq<char>>, w: Seq<char>) -> Seq<Seq<char>> {
    if set.contains(w) {
        set
    } else {
        set.push(w)
    }
}

// ---- reading a file ----

/// The words of the first `n` pieces of a strip line.
pub open spec fn with_strip(strip: Seq<Seq<char>>, pieces: Seq<Seq<char>>, n: int) -> Seq<Seq<char>>
    decreases n,
{
    if n <= 0 {
        strip
    } else {
        let w = lowercase(trimmed(pieces[n - 1]));
        let before = with_strip(strip, pieces, n - 1);
        if w.len() == 0 {
            before
        } else {
            with_word(before, w)
        }
    }
}

/// The map once each of the first `n` variants that is not empty stands for `canon`.
pub open spec fn with_variants(
    m: Seq<(Seq<char>, Seq<char>)>,
    strip: Seq<Seq<char>>,
    canon: Seq<char>,
    pieces: Seq<Seq<char>>,
    n: int,
) -> Seq<(Seq<char>, Seq<char>)>
    decreases n,
{
    if n <= 0 {
        m
    } else {
        let before = with_variants(m, strip, canon, pieces, n - 1);
        let t = tnorm_of(strip, trimmed(pieces[n - 1]));
        if t.len() == 0 {
            before
        } else {
            inserted(before, t, canon)
        }
    }
}

/// The word lists of the first `n` pieces, those without words left out.
pub open spec fn excluded(strip: Seq<Seq<char>>, pieces: Seq<Seq<char>>, n: int) -> Seq<
    Seq<Seq<char>>,
>
    decreases n,
{
    if n <= 0 {
        Seq::empty()
    } else {
        let before = excluded(strip, pieces, n - 1);
        let w = words_of(tnorm_of(strip, trimmed(pieces[n - 1])));
        if w.len() == 0 {
            before
        } else {
            before.push(w)
        }
    }
}

/// What the entry `key = value` adds in the given section.
pub open spec fn with_entry(
    kw: KeywordsView,
    section: Seq<char>,
    key: Seq<char>,
    value: Seq<char>,
) -> KeywordsView {
    let pieces = split_on(value, ","@);
    let n = pieces.len() as int;
    let canon = tnorm_of(kw.strip, trimmed(key));
    if section == "strip"@ {
        KeywordsView { strip: with_strip(kw.strip, pieces, n), ..kw }
    } else if section == "alias"@ {
        if canon.len() == 0 {
            kw
        } else {
            KeywordsView {
                alias: inserted(
                    with_variants(kw.alias, kw.strip, canon, pieces, n),
                    canon,
                    canon,
                ),
                ..kw
            }
        }
    } else if section == "family"@ {
        if canon.len() == 0 {
            kw
        } else {
            KeywordsView {
                family: inserted(
                    with_variants(kw.family, kw.strip, canon, pieces, n),
                    canon,
                    canon,
                ),
                ..kw
            }
        }
    } else if section == "never"@ {
        let words = words_of(canon);
        let excl = excluded(kw.strip, pieces, n);
        if words.len() == 0 || excl.len() == 0 {
            kw
        } else {
            KeywordsView { never: kw.never.push((words, excl)), ..kw }
        }
    } else {
        kw
    }
}

#[verifier::ext_equal]
pub struct Reading {
    pub section: Seq<char>,
    pub kw: KeywordsView,
}

pub open spec fn after_line(st: Reading, raw: Seq<char>) -> Reading {
    let line = trimmed(raw);
    if line.len() == 0 || begins(line, ";"@) || begins(line, "#"@) {
        st
    } else if begins(line, "["@) && finishes(line, "]"@) {
        Reading { section: lowercase(trimmed(line.subrange(1, line.len() - 1))), kw: st.kw }
    } else {
        match split_first(line, "="@) {
            Some((k, v)) => Reading {
                section: st.section,
                kw: with_entry(st.kw, st.section, k, v),
            },
            None => st,
        }
    }
}

/// What the first `n` lines leave.
pub open spec fn after_lines(kw: KeywordsView, lines: Seq<Seq<char>>, n: int) -> Reading
    decreases n,
{
    if n <= 0 {
        Reading { section: Seq::empty(), kw }
    } else {
        after_line(after_lines(kw, lines, n - 1), lines[n - 1])
    }
}

pub open spec fn with_keywords(kw: KeywordsView, text: Seq<char>) -> KeywordsView {
    after_lines(kw, lines_of(text), lines_of(text).len() as int).kw
}

/// The keywords of the first `n` texts.
pub open spec fn keywords_first(texts: Seq<Seq<char>>, n: int) -> KeywordsView
    decreases n,
{
    if n <= 0 {
        no_keywords()
    } else {
        with_keywords(keywords_first(texts, n - 1), texts[n - 1])
    }
}

// ---- identity ----

pub open spec fn words_at(s: Seq<Seq<char>>, p: Seq<Seq<char>>, i: int) -> bool {
    0 <= i && i + p.len() <= s.len() && s.subrange(i, i + p.len()) == p
}

/// Where the words `p` first stand in `s`, from index `i` on.
pub open spec fn words_found(s: Seq<Seq<char>>, p: Seq<Seq<char>>, i: int) -> Option<int>
    decreases s.len() + 1 - i,
{
    if i < 0 || i + p.len() > s.len() {
        None
    } else if words_at(s, p, i) {
        Some(i)
    } else {
        words_found(s, p, i + 1)
    }
}

pub open spec fn any_short(words: Seq<Seq<char>>) -> bool {
    exists|i: int| 0 <= i < words.len() && byte_len(#[trigger] words[i]) < 3
}

/// The words `toks` with the variant replaced by its canonical name, where the
/// variant stands in them. Variants with a short word are not looked for.
pub open spec fn substituted(toks: Seq<Seq<char>>, var: Seq<char>, canon: Seq<char>) -> Option<
    Seq<char>,
> {
    let vt = words_of(var);
    if vt.len() == 0 || any_short(vt) {
        None
    } else {
        match words_found(toks, vt, 0) {
            Some(p) => Some(
                joined(toks.take(p) + words_of(canon) + toks.skip(p + vt.len()), " "@),
            ),
            None => None,
        }
    }
}

/// The first substitution that an entry from index `i` on makes.
pub open spec fn first_substitution(
    toks: Seq<Seq<char>>,
    m: Seq<(Seq<char>, Seq<char>)>,
    i: int,
) -> Option<Seq<char>>
    decreases m.len() - i,
{
    if i < 0 || i >= m.len() {
        None
    } else {
        match substituted(toks, m[i].0, m[i].1) {
            Some(s) => Some(s),
            None => first_substitution(toks, m, i + 1),
        }
    }
}

/// The canonical identity of a name: an alias or a family member stands for its
/// canonical name; else the first variant that stands inside the name is replaced.
pub open spec fn canonical_of(kw: KeywordsView, s: Seq<char>) -> Seq<char> {
    let t = tnorm_of(kw.strip, s);
    if t.len() == 0 {
        t
    } else if found(kw.alias, t) is Some {
        found(kw.alias, t)->0
    } else if found(kw.family, t) is Some {
        found(kw.family, t)->0
    } else if first_substitution(words_of(t), kw.alias, 0) is Some {
        first_substitution(words_of(t), kw.alias, 0)->0
    } else if first_substitution(words_of(t), kw.family, 0) is Some {
        first_substitution(words_of(t), kw.family, 0)->0
    } else {
        t
    }
}

pub open spec fn cnorm_of(kw: KeywordsView, s: Seq<char>) -> Seq<char> {
    norm_of(canonical_of(kw, s))
}

pub open spec fn covers(big: Seq<Seq<char>>, small: Seq<Seq<char>>) -> bool {
    forall|i: int| 0 <= i < small.len() ==> big.contains(#[trigger] small[i])
}

pub open spec fn covers_any(big: Seq<Seq<char>>, lists: Seq<Seq<Seq<char>>>) -> bool {
    exists|i: int| 0 <= i < lists.len() && covers(big, #[trigger] lists[i])
}

/// Whether two names must never match, whichever comes first.
pub open spec fn never_match(kw: KeywordsView, a: Seq<char>, b: Seq<char>) -> bool {
    let ta = words_of(tnorm_of(kw.strip, a));
    let tb = words_of(tnorm_of(kw.strip, b));
    exists|i: int|
        0 <= i < kw.never.len() && {
            let rule = #[trigger] kw.never[i];
            (covers(ta, rule.0) && covers_any(tb, rule.1)) || (covers(tb, rule.0) && covers_any(
                ta,
                rule.1,
            ))
        }
}

fn covers_words(big: &Vec<String>, small: &Vec<String>) -> (r: bool)
    ensures
        r == covers(big.deep_view(), small.deep_view()),
{
    let mut i: usize = 0;
    while i < small.len()
        invariant
            i <= small.len(),
            forall|j: int| 0 <= j < i ==> big.deep_view().contains(#[trigger] small.deep_view()[j]),
        decreases small.len() - i,
    {
        assert(small.deep_view()[i as int] == small@[i as int]@);
        if !list::holds(big, small[i].as_str()) {
            return false;
        }
        i = i + 1;
    }
    true
}

fn covers_one(big: &Vec<String>, lists: &Vec<Vec<String>>) -> (r: bool)
    ensures
        r == covers_any(big.deep_view(), lists.deep_view()),
{
    let mut i: usize = 0;
    while i < lists.len()
        invariant
            i <= lists.len(),
            forall|j: int| 0 <= j < i ==> !covers(big.deep_view(), #[trigger] lists.deep_view()[j]),
        decreases lists.len() - i,
    {
        assert(lists.deep_view()[i as int] == lists@[i as int].deep_view());
        if covers_words(big, &lists[i]) {
            return true;
        }
        i = i + 1;
    }
    false
}

fn has_short(words: &Vec<String>) -> (r: bool)
    ensures
        r == any_short(words.deep_view()),
{
    let mut i: usize = 0;
    while i < words.len()
        invariant
            i <= words.len(),
            forall|j: int| 0 <= j < i ==> byte_len(#[trigger] words.deep_view()[j]) >= 3,
        decreases words.len() - i,
    {
        assert(words.deep_view()[i as int] == words@[i as int]@);
        if text::bytes_in(words[i].as_str()) < 3 {
            return true;
        }
        i = i + 1;
    }
    false
}

fn match_words(s: &Vec<String>, p: &Vec<String>, i: usize) -> (r: bool)
    requires
        i <= s.len(),
    ensures
        r == words_at(s.deep_view(), p.deep_view(), i as int),
{
    if p.len() > s.len() - i {
        return false;
    }
    let mut k: usize = 0;
    while k < p.len()
        invariant
            k <= p.len(),
            i + p.len() <= s.len(),
            forall|j: int| 0 <= j < k ==> s.deep_view()[i + j] == p.deep_view()[j],
        decreases p.len() - k,
    {
        if !(s[i + k] == p[k]) {
            assert(s.deep_view().subrange(i as int, i + p.len())[k as int]
                != p.deep_view()[k as int]);
            return false;
        }
        k = k + 1;
    }
    assert(s.deep_view().subrange(i as int, i + p.len()) =~= p.deep_view());
    true
}

fn seek_words(s: &Vec<String>, p: &Vec<String>) -> (r: Option<usize>)
    ensures
        match r {
            Some(k) => words_found(s.deep_view(), p.deep_view(), 0) == Some(k as int) && k + p.len()
                <= s.len(),
            None => words_found(s.deep_view(), p.deep_view(), 0) is None,
        },
{
    let mut i: usize = 0;
    loop
        invariant
            i <= s.len(),
            words_found(s.deep_view(), p.deep_view(), i as int) == words_found(
                s.deep_view(),
                p.deep_view(),
                0,
            ),
        decreases s.len() - i,
    {
        if p.len() > s.len() - i {
            return None;
        }
        if match_words(s, p, i) {
            return Some(i);
        }
        if i == s.len() {
            assert(words_found(s.deep_view(), p.deep_view(), i + 1) is None);
            return None;
        }
        i = i + 1;
    }
}

fn substitute(toks: &Vec<String>, var: &str, canon: &str) -> (r: Option<String>)
    ensures
        r.deep_view() == substituted(toks.deep_view(), var@, canon@),
{
    let vt = text::words(var);
    if vt.len() == 0 || has_short(&vt) {
        return None;
    }
    match seek_words(toks, &vt) {
        Some(p) => {
            let mut out: Vec<String> = list::none();
            let ghost t = toks.deep_view();
            let mut i: usize = 0;
            while i < p
                invariant
                    i <= p <= toks.len(),
                    t == toks.deep_view(),
                    out.deep_view() == t.take(i as int),
                decreases p - i,
            {
                list::put(&mut out, toks[i].clone());
                i = i + 1;
                assert(out.deep_view() =~= t.take(i as int));
            }
            list::put_all(&mut out, text::words(canon));
            let ghost head = out.deep_view();
            let start: usize = p + vt.len();
            let mut j: usize = start;
            assert(head + t.subrange(start as int, start as int) =~= head);
            while j < toks.len()
                invariant
                    start <= j <= toks.len(),
                    t == toks.deep_view(),
                    out.deep_view() == head + t.subrange(start as int, j as int),
                decreases toks.len() - j,
            {
                list::put(&mut out, toks[j].clone());
                j = j + 1;
                assert(out.deep_view() =~= head + t.subrange(start as int, j as int));
            }
            assert(t.subrange(start as int, j as int) =~= t.skip(start as int));
            Some(text::join(&out, " "))
        },
        None => None,
    }
}

fn substitute_first(toks: &Vec<String>, m: &TextMap<String>) -> (r: Option<String>)
    ensures
        r.deep_view() == first_substitution(toks.deep_view(), m.deep_view(), 0),
{
    let mut i: usize = 0;
    while i < m.len()
        invariant
            i <= m.deep_view().len(),
            first_substitution(toks.deep_view(), m.deep_view(), i as int) == first_substitution(
                toks.deep_view(),
                m.deep_view(),
                0,
            ),
        decreases m.deep_view().len() - i,
    {
        let e = m.at(i);
        let s = substitute(toks, e.0.as_str(), e.1.as_str());
        if s.is_some() {
            return s;
        }
        i = i + 1;
    }
    None
}

impl Keywords {
    /// The words of a name that are not noise, joined by spaces.
    pub fn tnorm(&self, s: &str) -> (r: String)
        ensures
            r@ == tnorm_of(self.deep_view().strip, s@),
    {
        let plain = space_out(s);
        let words = text::words(plain.as_str());
        let mut out: Vec<String> = list::none();
        let mut i: usize = 0;
        while i < words.len()
            invariant
                i <= words.len(),
                out.deep_view() == not_noise(words.deep_view(), self.strip.deep_view(), i as int),
            decreases words.len() - i,
        {
            assert(words.deep_view()[i as int] == words@[i as int]@);
            if !list::holds(&self.strip, words[i].as_str()) {
                list::put(&mut out, words[i].clone());
            }
            i = i + 1;
        }
        text::join(&out, " ")
    }

    fn add_strip(&mut self, pieces: &Vec<String>)
        ensures
            final(self).deep_view() == (KeywordsView {
                strip: with_strip(
                    old(self).deep_view().strip,
                    pieces.deep_view(),
                    pieces.len() as int,
                ),
                ..old(self).deep_view()
            }),
    {
        let ghost before = self.deep_view();
        let mut i: usize = 0;
        while i < pieces.len()
            invariant
                i <= pieces.len(),
                self.deep_view() == (KeywordsView {
                    strip: with_strip(before.strip, pieces.deep_view(), i as int),
                    ..before
                }),
            decreases pieces.len() - i,
        {
            assert(pieces.deep_view()[i as int] == pieces@[i as int]@);
            let t = text::trim(pieces[i].as_str());
            let w = t.as_str().to_lowercase();
            if !w.as_str().is_empty() {
                note_word(&mut self.strip, w);
            }
            i = i + 1;
        }
    }

    fn variants(&self, m: &mut TextMap<String>, canon: &str, pieces: &Vec<String>)
        ensures
            final(m).deep_view() == inserted(
                with_variants(
                    old(m).deep_view(),
                    self.deep_view().strip,
                    canon@,
                    pieces.deep_view(),
                    pieces.len() as int,
                ),
                canon@,
                canon@,
            ),
    {
        let ghost before = m.deep_view();
        let mut i: usize = 0;
        while i < pieces.len()
            invariant
                i <= pieces.len(),
                m.deep_view() == with_variants(
                    before,
                    self.deep_view().strip,
                    canon@,
                    pieces.deep_view(),
                    i as int,
                ),
            decreases pieces.len() - i,
        {
            assert(pieces.deep_view()[i as int] == pieces@[i as int]@);
            let t = text::trim(pieces[i].as_str());
            let w = self.tnorm(t.as_str());
            if !w.as_str().is_empty() {
                m.insert(w, canon.to_string());
            }
            i = i + 1;
        }
        m.insert(canon.to_string(), canon.to_string());
    }

    fn excluded_words(&self, pieces: &Vec<String>) -> (r: Vec<Vec<String>>)
        ensures
            r.deep_view() == excluded(
                self.deep_view().strip,
                pieces.deep_view(),
                pieces.len() as int,
            ),
    {
        let mut out: Vec<Vec<String>> = list::none();
        let mut i: usize = 0;
        while i < pieces.len()
            invariant
                i <= pieces.len(),
                out.deep_view() == excluded(
                    self.deep_view().strip,
                    pieces.deep_view(),
                    i as int,
                ),
            decreases pieces.len() - i,
        {
            assert(pieces.deep_view()[i as int] == pieces@[i as int]@);
            let t = text::trim(pieces[i].as_str());
            let n = self.tnorm(t.as_str());
            let w = text::words(n.as_str());
            assert(w.deep_view().len() == w.len());
            if w.len() > 0 {
                list::put(&mut out, w);
            }
            i = i + 1;
        }
        out
    }

    fn add_entry(&mut self, section: &str, key: &str, value: &str)
        ensures
            final(self).deep_view() == with_entry(
                old(self).deep_view(),
                section@,
                key@,
                value@,
            ),
    {
        let pieces = text::split(value, ",");
        let trimmed_key = text::trim(key);
        let canon = self.tnorm(trimmed_key.as_str());
        if text::same(section, "strip") {
            self.add_strip(&pieces);
        } else if text::same(section, "alias") {
            if !canon.as_str().is_empty() {
                let mut m: TextMap<String> = TextMap::new();
                std::mem::swap(&mut m, &mut self.alias);
                self.variants(&mut m, canon.as_str(), &pieces);
                self.alias = m;
            }
        } else if text::same(section, "family") {
            if !canon.as_str().is_empty() {
                let mut m: TextMap<String> = TextMap::new();
                std::mem::swap(&mut m, &mut self.family);
                self.variants(&mut m, canon.as_str(), &pieces);
                self.family = m;
            }
        } else if text::same(section, "never") {
            let words = text::words(canon.as_str());
            assert(words.deep_view().len() == words.len());
            if words.len() > 0 {
                let excl = self.excluded_words(&pieces);
                assert(excl.deep_view().len() == excl.len());
                if excl.len() > 0 {
                    list::put(&mut self.never, (words, excl));
                }
            }
        }
    }

    /// Adds what a keywords file says.
    /// The keywords of several texts, in their order.
    pub fn load(texts: &Vec<String>) -> (r: Keywords)
        ensures
            r.deep_view() == keywords_first(texts.deep_view(), texts.len() as int),
    {
        let ghost tv = texts.deep_view();
        let mut kw = Keywords::default();
        let mut i: usize = 0;
        while i < texts.len()
            invariant
                i <= texts.len(),
                tv == texts.deep_view(),
                kw.deep_view() == keywords_first(tv, i as int),
            decreases texts.len() - i,
        {
            assert(tv[i as int] == texts@[i as int]@);
            Keywords::parse_into(texts[i].as_str(), &mut kw);
            i = i + 1;
        }
        kw
    }

    pub fn parse_into(text: &str, kw: &mut Keywords)
        ensures
            final(kw).deep_view() == with_keywords(old(kw).deep_view(), text@),
    {
        let lines = text::lines(text);
        let ghost before = kw.deep_view();
        let mut section = String::new();
        let mut i: usize = 0;
        while i < lines.len()
            invariant
                i <= lines.len(),
                lines.deep_view() == lines_of(text@),
                after_lines(before, lines.deep_view(), i as int) == (Reading {
                    section: section@,
                    kw: kw.deep_view(),
                }),
            decreases lines.len() - i,
        {
            assert(lines.deep_view()[i as int] == lines@[i as int]@);
            let line = text::trim(lines[i].as_str());
            let l = line.as_str();
            if l.is_empty() || text::starts_with(l, ";") || text::starts_with(l, "#") {
            } else if text::starts_with(l, "[") && text::ends_with(l, "]") {
                proof {
                    reveal_strlit("[");
                    reveal_strlit("]");
                    if line@.len() == 1 {
                        assert(line@.take(1)[0] == '[');
                        assert(line@.skip(0)[0] == ']');
                    }
                }
                let chars = text::chars_of(l);
                let inner = text::part(&chars, 1, chars.len() - 1);
                let name = text::trim(inner.as_str());
                section = name.as_str().to_lowercase();
            } else if let Some((k, v)) = text::split_once(l, "=") {
                kw.add_entry(section.as_str(), k.as_str(), v.as_str());
            }
            i = i + 1;
        }
    }

    pub fn canonical(&self, s: &str) -> (r: String)
        ensures
            r@ == canonical_of(self.deep_view(), s@),
    {
        let t = self.tnorm(s);
        if t.as_str().is_empty() {
            return t;
        }
        if let Some(c) = self.alias.get(t.as_str()) {
            return c.clone();
        }
        if let Some(c) = self.family.get(t.as_str()) {
            return c.clone();
        }
        let toks = text::words(t.as_str());
        if let Some(c) = substitute_first(&toks, &self.alias) {
            return c;
        }
        if let Some(c) = substitute_first(&toks, &self.family) {
            return c;
        }
        t
    }

    /// The letters and digits of the canonical name.
    pub fn cnorm(&self, s: &str) -> (r: String)
        ensures
            r@ == cnorm_of(self.deep_view(), s@),
    {
        let c = self.canonical(s);
        modlist::norm(c.as_str())
    }

    pub fn is_never(&self, a: &str, b: &str) -> (r: bool)
        ensures
            r == never_match(self.deep_view(), a@, b@),
    {
        let na = self.tnorm(a);
        let nb = self.tnorm(b);
        let ta = text::words(na.as_str());
        let tb = text::words(nb.as_str());
        let ghost kw = self.deep_view();
        let mut i: usize = 0;
        while i < self.never.len()
            invariant
                i <= self.never.len(),
                kw == self.deep_view(),
                ta.deep_view() == words_of(tnorm_of(kw.strip, a@)),
                tb.deep_view() == words_of(tnorm_of(kw.strip, b@)),
                forall|j: int|
                    0 <= j < i ==> {
                        let rule = #[trigger] kw.never[j];
                        !((covers(ta.deep_view(), rule.0) && covers_any(tb.deep_view(), rule.1))
                            || (covers(tb.deep_view(), rule.0) && covers_any(
                            ta.deep_view(),
                            rule.1,
                        )))
                    },
            decreases self.never.len() - i,
        {
            let rule = &self.never[i];
            assert(kw.never[i as int] == rule.deep_view());
            if (covers_words(&ta, &rule.0) && covers_one(&tb, &rule.1)) || (covers_words(
                &tb,
                &rule.0,
            ) && covers_one(&ta, &rule.1)) {
                return true;
            }
            i = i + 1;
        }
        false
    }
}

/// A pair that must never match is vetoed in both directions.
pub proof fn never_is_symmetric(kw: KeywordsView, a: Seq<char>, b: Seq<char>)
    ensures
        never_match(kw, a, b) == never_match(kw, b, a),
{
    let ta = words_of(tnorm_of(kw.strip, a));
    let tb = words_of(tnorm_of(kw.strip, b));
    if never_match(kw, a, b) {
        let i = choose|i: int|
            0 <= i < kw.never.len() && {
                let rule = #[trigger] kw.never[i];
                (covers(ta, rule.0) && covers_any(tb, rule.1)) || (covers(tb, rule.0)
                    && covers_any(ta, rule.1))
            };
        assert(0 <= i < kw.never.len());
        assert(never_match(kw, b, a));
    }
    if never_match(kw, b, a) {
        let i = choose|i: int|
            0 <= i < kw.never.len() && {
                let rule = #[trigger] kw.never[i];
                (covers(tb, rule.0) && covers_any(ta, rule.1)) || (covers(ta, rule.0)
                    && covers_any(tb, rule.1))
            };
        assert(0 <= i < kw.never.len());
        assert(never_match(kw, a, b));
    }
}

/// Without keywords a name stands for itself: its letters and digits in lower case,
/// its words joined by spaces. And no pair is vetoed.
pub proof fn no_keywords_pass_through(a: Seq<char>, b: Seq<char>)
    ensures
        canonical_of(no_keywords(), a) == tnorm_of(Seq::empty(), a),
        !never_match(no_keywords(), a, b),
{
    let kw = no_keywords();
    let t = tnorm_of(kw.strip, a);
    assert(found(kw.alias, t) is None);
    assert(found(kw.family, t) is None);
    assert(first_substitution(words_of(t), kw.alias, 0) is None);
    assert(first_substitution(words_of(t), kw.family, 0) is None);
}

} // verus!
