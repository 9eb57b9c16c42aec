//! What a name stands for: aliases, families, noise words and names that never match.
use vstd::prelude::*;
#[allow(unused_imports)]
use crate::keywords::{after_line, after_lines, any_short, canonical_of, covers, covers_any, excluded, first_substitution, never_match, substituted, tnorm_of, with_entry, with_keywords, with_strip, with_variants, words_at, words_found, KeywordsView, Reading};
#[allow(unused_imports)]
use crate::map::{found, insert_then_get};
#[allow(unused_imports)]
use crate::readback::{lemma_split_at, lemma_trim_tight, tight};
#[allow(unused_imports)]
use crate::text::{begins, byte_len, ended, is_line, is_white, joined, lemma_lines_read_back, lowercase, split_on, trimmed, words_of};

verus! {

// ---- entries ----

/// One of the first `n` pieces, by its words, is `t`.
pub open spec fn listed(
    strip: Seq<Seq<char>>,
    pieces: Seq<Seq<char>>,
    n: int,
    t: Seq<char>,
) -> bool {
    exists|i: int| 0 <= i < n && tnorm_of(strip, trimmed(#[trigger] pieces[i])) == t
}

proof fn lemma_variants(
    m: Seq<(Seq<char>, Seq<char>)>,
    strip: Seq<Seq<char>>,
    canon: Seq<char>,
    pieces: Seq<Seq<char>>,
    n: int,
    t: Seq<char>,
)
    requires
        0 <= n <= pieces.len(),
        t.len() > 0,
    ensures
        found(with_variants(m, strip, canon, pieces, n), t) == (if listed(strip, pieces, n, t) {
            Some(canon)
        } else {
            found(m, t)
        }),
    decreases n,
{
    if n > 0 {
        lemma_variants(m, strip, canon, pieces, n - 1, t);
        let before = with_variants(m, strip, canon, pieces, n - 1);
        let own = tnorm_of(strip, trimmed(pieces[n - 1]));
        if own.len() > 0 {
            insert_then_get(before, own, canon, t);
        }
        if listed(strip, pieces, n - 1, t) {
            let i = choose|i: int|
                0 <= i < n - 1 && tnorm_of(strip, trimmed(#[trigger] pieces[i])) == t;
            assert(tnorm_of(strip, trimmed(pieces[i])) == t);
        }
        if listed(strip, pieces, n, t) {
            let i = choose|i: int|
                0 <= i < n && tnorm_of(strip, trimmed(#[trigger] pieces[i])) == t;
            if i < n - 1 {
                assert(listed(strip, pieces, n - 1, t));
            }
        }
    }
}

/// What the names of an entry stand for once it is read: each name that it lists, and its
/// own, for its own; every other for what it stood before.
pub open spec fn renamed(
    old: Seq<(Seq<char>, Seq<char>)>,
    new: Seq<(Seq<char>, Seq<char>)>,
    strip: Seq<Seq<char>>,
    key: Seq<char>,
    value: Seq<char>,
    t: Seq<char>,
) -> bool {
    let canon = tnorm_of(strip, trimmed(key));
    let pieces = split_on(value, ","@);
    found(new, t) == (if canon.len() > 0 && (t == canon || listed(
        strip,
        pieces,
        pieces.len() as int,
        t,
    )) {
        Some(canon)
    } else {
        found(old, t)
    })
}

/// An alias entry makes the names that it lists stand for its own, and touches nothing
/// else.
pub proof fn aliases_stand_for_their_name(
    kw: KeywordsView,
    key: Seq<char>,
    value: Seq<char>,
    t: Seq<char>,
)
    requires
        t.len() > 0,
    ensures
        ({
            let r = with_entry(kw, "alias"@, key, value);
            &&& renamed(kw.alias, r.alias, kw.strip, key, value, t)
            &&& r.strip == kw.strip
            &&& r.family == kw.family
            &&& r.never == kw.never
        }),
{
    lemma_sections();
    let canon = tnorm_of(kw.strip, trimmed(key));
    let pieces = split_on(value, ","@);
    let n = pieces.len() as int;
    let m = with_variants(kw.alias, kw.strip, canon, pieces, n);
    lemma_variants(kw.alias, kw.strip, canon, pieces, n, t);
    insert_then_get(m, canon, canon, t);
}

/// A family entry does the same for families.
pub proof fn family_members_stand_for_their_family(
    kw: KeywordsView,
    key: Seq<char>,
    value: Seq<char>,
    t: Seq<char>,
)
    requires
        t.len() > 0,
    ensures
        ({
            let r = with_entry(kw, "family"@, key, value);
            &&& renamed(kw.family, r.family, kw.strip, key, value, t)
            &&& r.strip == kw.strip
            &&& r.alias == kw.alias
            &&& r.never == kw.never
        }),
{
    lemma_sections();
    let canon = tnorm_of(kw.strip, trimmed(key));
    let pieces = split_on(value, ","@);
    let n = pieces.len() as int;
    let m = with_variants(kw.family, kw.strip, canon, pieces, n);
    lemma_variants(kw.family, kw.strip, canon, pieces, n, t);
    insert_then_get(m, canon, canon, t);
}

proof fn lemma_sections()
    ensures
        "strip"@ != "alias"@,
        "strip"@ != "family"@,
        "strip"@ != "never"@,
        "alias"@ != "family"@,
        "alias"@ != "never"@,
        "family"@ != "never"@,
{
    reveal_strlit("strip");
    reveal_strlit("alias");
    reveal_strlit("family");
    reveal_strlit("never");
    assert("strip"@[0] == 's');
    assert("alias"@[0] == 'a');
    assert("family"@[0] == 'f');
    assert("never"@[0] == 'n');
}

proof fn lemma_strip(strip: Seq<Seq<char>>, pieces: Seq<Seq<char>>, n: int, w: Seq<char>)
    requires
        0 <= n <= pieces.len(),
    ensures
        with_strip(strip, pieces, n).contains(w) == (strip.contains(w) || (w.len() > 0 && exists|
            i: int,
        |
            0 <= i < n && lowercase(trimmed(#[trigger] pieces[i])) == w)),
    decreases n,
{
    if n > 0 {
        lemma_strip(strip, pieces, n - 1, w);
        let before = with_strip(strip, pieces, n - 1);
        let all = with_strip(strip, pieces, n);
        let own = lowercase(trimmed(pieces[n - 1]));
        if before.contains(w) {
            let i = choose|i: int| 0 <= i < before.len() && before[i] == w;
            assert(all[i] == w);
        }
        if all == before.push(own) {
            assert(all[before.len() as int] == own);
            if all.contains(w) && w != own {
                let i = choose|i: int| 0 <= i < all.len() && all[i] == w;
                assert(before[i] == w);
            }
        }
        if exists|i: int| 0 <= i < n - 1 && lowercase(trimmed(#[trigger] pieces[i])) == w {
            let i = choose|i: int|
                0 <= i < n - 1 && lowercase(trimmed(#[trigger] pieces[i])) == w;
            assert(lowercase(trimmed(pieces[i])) == w);
        }
    }
}

/// A strip entry adds its words to the noise, and touches nothing else.
pub proof fn stripped_words_are_noise(
    kw: KeywordsView,
    key: Seq<char>,
    value: Seq<char>,
    w: Seq<char>,
)
    ensures
        ({
            let r = with_entry(kw, "strip"@, key, value);
            let pieces = split_on(value, ","@);
            &&& r.strip.contains(w) == (kw.strip.contains(w) || (w.len() > 0 && exists|i: int|
                0 <= i < pieces.len() && lowercase(trimmed(#[trigger] pieces[i])) == w))
            &&& r.alias == kw.alias
            &&& r.family == kw.family
            &&& r.never == kw.never
        }),
{
    let pieces = split_on(value, ","@);
    lemma_strip(kw.strip, pieces, pieces.len() as int, w);
}

proof fn lemma_excluded(strip: Seq<Seq<char>>, pieces: Seq<Seq<char>>, n: int, l: Seq<Seq<char>>)
    requires
        0 <= n <= pieces.len(),
    ensures
        excluded(strip, pieces, n).contains(l) == (l.len() > 0 && exists|i: int|
            0 <= i < n && words_of(tnorm_of(strip, trimmed(#[trigger] pieces[i]))) == l),
    decreases n,
{
    if n > 0 {
        lemma_excluded(strip, pieces, n - 1, l);
        let before = excluded(strip, pieces, n - 1);
        let all = excluded(strip, pieces, n);
        let own = words_of(tnorm_of(strip, trimmed(pieces[n - 1])));
        if before.contains(l) {
            let i = choose|i: int| 0 <= i < before.len() && before[i] == l;
            assert(all[i] == l);
        }
        if own.len() > 0 {
            assert(all == before.push(own));
            assert(all[before.len() as int] == own);
            if all.contains(l) && l != own {
                let i = choose|i: int| 0 <= i < all.len() && all[i] == l;
                assert(before[i] == l);
            }
        }
        if exists|i: int|
            0 <= i < n - 1 && words_of(tnorm_of(strip, trimmed(#[trigger] pieces[i]))) == l {
            let i = choose|i: int|
                0 <= i < n - 1 && words_of(tnorm_of(strip, trimmed(#[trigger] pieces[i]))) == l;
            assert(words_of(tnorm_of(strip, trimmed(pieces[i]))) == l);
        }
    } else {
        assert(excluded(strip, pieces, 0) =~= Seq::empty());
    }
}

/// Every word of the list stands among the words of the name.
pub open spec fn speaks_all(words: Seq<Seq<char>>, list: Seq<Seq<char>>) -> bool {
    forall|i: int| 0 <= i < list.len() ==> words.contains(#[trigger] list[i])
}

/// Two names never match where a rule says so of them in either order: the one has all
/// words of the rule's name, the other all words of one of its lists.
pub proof fn never_rules_hold_both_ways(kw: KeywordsView, a: Seq<char>, b: Seq<char>)
    ensures
        ({
            let x = words_of(tnorm_of(kw.strip, a));
            let y = words_of(tnorm_of(kw.strip, b));
            never_match(kw, a, b) == exists|i: int, j: int|
                #![trigger kw.never[i].1[j]]
                0 <= i < kw.never.len() && 0 <= j < kw.never[i].1.len() && ((speaks_all(
                    x,
                    kw.never[i].0,
                ) && speaks_all(y, kw.never[i].1[j])) || (speaks_all(y, kw.never[i].0)
                    && speaks_all(x, kw.never[i].1[j])))
        }),
{
    let x = words_of(tnorm_of(kw.strip, a));
    let y = words_of(tnorm_of(kw.strip, b));
    if never_match(kw, a, b) {
        let i = choose|i: int|
            0 <= i < kw.never.len() && {
                let rule = #[trigger] kw.never[i];
                (covers(x, rule.0) && covers_any(y, rule.1)) || (covers(y, rule.0) && covers_any(
                    x,
                    rule.1,
                ))
            };
        let rule = kw.never[i];
        if covers(x, rule.0) && covers_any(y, rule.1) {
            let j = choose|j: int| 0 <= j < rule.1.len() && covers(y, #[trigger] rule.1[j]);
            assert(speaks_all(x, kw.never[i].0) && speaks_all(y, kw.never[i].1[j]));
        } else {
            let j = choose|j: int| 0 <= j < rule.1.len() && covers(x, #[trigger] rule.1[j]);
            assert(speaks_all(y, kw.never[i].0) && speaks_all(x, kw.never[i].1[j]));
        }
    }
    assert forall|i: int, j: int|
        #![trigger kw.never[i].1[j]]
        0 <= i < kw.never.len() && 0 <= j < kw.never[i].1.len() && ((speaks_all(x, kw.never[i].0)
            && speaks_all(y, kw.never[i].1[j])) || (speaks_all(y, kw.never[i].0) && speaks_all(
            x,
            kw.never[i].1[j],
        ))) implies never_match(kw, a, b) by {
        let rule = kw.never[i];
        if speaks_all(x, rule.0) && speaks_all(y, rule.1[j]) {
            assert(covers(y, rule.1[j]));
            assert(covers_any(y, rule.1));
            assert(covers(x, rule.0));
        } else {
            assert(covers(x, rule.1[j]));
            assert(covers_any(x, rule.1));
            assert(covers(y, rule.0));
        }
    }
}

/// A never entry adds one rule with its name and the lists that it gives, unless either has
/// no words, and touches nothing else.
pub proof fn never_entries_are_kept(
    kw: KeywordsView,
    key: Seq<char>,
    value: Seq<char>,
    l: Seq<Seq<char>>,
)
    ensures
        ({
            let r = with_entry(kw, "never"@, key, value);
            let words = words_of(tnorm_of(kw.strip, trimmed(key)));
            let pieces = split_on(value, ","@);
            let any = exists|i: int|
                0 <= i < pieces.len() && words_of(
                    tnorm_of(kw.strip, trimmed(#[trigger] pieces[i])),
                ).len() > 0;
            &&& r.strip == kw.strip
            &&& r.alias == kw.alias
            &&& r.family == kw.family
            &&& words.len() == 0 || !any ==> r.never == kw.never
            &&& words.len() > 0 && any ==> r.never.len() == kw.never.len() + 1 && r.never.drop_last()
                == kw.never && r.never.last().0 == words && (r.never.last().1.contains(l) == (l.len()
                > 0 && exists|i: int|
                0 <= i < pieces.len() && words_of(
                    tnorm_of(kw.strip, trimmed(#[trigger] pieces[i])),
                ) == l))
        }),
{
    lemma_sections();
    let pieces = split_on(value, ","@);
    let n = pieces.len() as int;
    let lists = excluded(kw.strip, pieces, n);
    let r = with_entry(kw, "never"@, key, value);
    lemma_excluded(kw.strip, pieces, n, l);
    let any = exists|i: int|
        0 <= i < pieces.len() && words_of(
            tnorm_of(kw.strip, trimmed(#[trigger] pieces[i])),
        ).len() > 0;
    if any {
        let i = choose|i: int|
            0 <= i < pieces.len() && words_of(
                tnorm_of(kw.strip, trimmed(#[trigger] pieces[i])),
            ).len() > 0;
        let own = words_of(tnorm_of(kw.strip, trimmed(pieces[i])));
        lemma_excluded(kw.strip, pieces, n, own);
        assert(lists.contains(own));
        assert(lists.len() > 0);
    } else if lists.len() > 0 {
        lemma_excluded(kw.strip, pieces, n, lists[0]);
        assert(lists.contains(lists[0]));
        let i = choose|i: int|
            0 <= i < n && words_of(tnorm_of(kw.strip, trimmed(#[trigger] pieces[i]))) == lists[0];
        assert(words_of(tnorm_of(kw.strip, trimmed(pieces[i]))).len() > 0);
    }
    if r.never != kw.never {
        assert(r.never.drop_last() =~= kw.never);
    }
}

// ---- identities ----

/// The words of the variant stand in the name at `p`.
pub open spec fn stands_at(words: Seq<Seq<char>>, variant: Seq<Seq<char>>, p: int) -> bool {
    0 <= p && p + variant.len() <= words.len() && forall|i: int|
        0 <= i < variant.len() ==> words[p + i] == #[trigger] variant[i]
}

/// The variant is looked for inside a name: it has words, and none of them is short.
pub open spec fn is_sought(variant: Seq<Seq<char>>) -> bool {
    variant.len() > 0 && forall|i: int|
        0 <= i < variant.len() ==> byte_len(#[trigger] variant[i]) >= 3
}

pub open spec fn stands_in(words: Seq<Seq<char>>, variant: Seq<Seq<char>>) -> bool {
    is_sought(variant) && exists|p: int| stands_at(words, variant, p)
}

/// The name with the variant, where it first stands, replaced by what it stands for.
pub open spec fn is_replacement(
    words: Seq<Seq<char>>,
    variant: Seq<Seq<char>>,
    canon: Seq<Seq<char>>,
    result: Seq<char>,
) -> bool {
    exists|p: int|
        #![trigger words.take(p)]
        stands_at(words, variant, p) && (forall|q: int| 0 <= q < p ==> !stands_at(words, variant, q))
            && result == joined(words.take(p) + canon + words.skip(p + variant.len()), " "@)
}

proof fn lemma_words_at(s: Seq<Seq<char>>, p: Seq<Seq<char>>, i: int)
    ensures
        words_at(s, p, i) == stands_at(s, p, i),
{
    if 0 <= i && i + p.len() <= s.len() {
        let t = s.subrange(i, i + p.len());
        if words_at(s, p, i) {
            assert forall|j: int| 0 <= j < p.len() implies s[i + j] == #[trigger] p[j] by {
                assert(t[j] == s[i + j]);
            }
        }
        if stands_at(s, p, i) {
            assert(t =~= p);
        }
    }
}

proof fn lemma_words_found(s: Seq<Seq<char>>, p: Seq<Seq<char>>, i: int)
    requires
        0 <= i,
    ensures
        match words_found(s, p, i) {
            Some(k) => i <= k && stands_at(s, p, k) && forall|j: int|
                i <= j < k ==> !stands_at(s, p, j),
            None => forall|j: int| i <= j ==> !stands_at(s, p, j),
        },
    decreases s.len() + 1 - i,
{
    lemma_words_at(s, p, i);
    if i + p.len() <= s.len() && !words_at(s, p, i) {
        lemma_words_found(s, p, i + 1);
    }
}

proof fn lemma_substituted(words: Seq<Seq<char>>, var: Seq<char>, canon: Seq<char>)
    ensures
        match substituted(words, var, canon) {
            Some(r) => stands_in(words, words_of(var)) && is_replacement(
                words,
                words_of(var),
                words_of(canon),
                r,
            ),
            None => !stands_in(words, words_of(var)),
        },
{
    let v = words_of(var);
    lemma_words_found(words, v, 0);
    assert(any_short(v) == exists|i: int| 0 <= i < v.len() && byte_len(#[trigger] v[i]) < 3);
    assert(is_sought(v) == (v.len() > 0 && !any_short(v))) by {
        if any_short(v) {
            let i = choose|i: int| 0 <= i < v.len() && byte_len(#[trigger] v[i]) < 3;
            assert(byte_len(v[i]) < 3);
        }
    }
    match words_found(words, v, 0) {
        Some(p) => {
            assert(words.take(p) == words.take(p));
        },
        None => {},
    }
}

/// The first entry whose variant stands in the name replaces it there.
pub open spec fn first_variant_replaced(
    words: Seq<Seq<char>>,
    m: Seq<(Seq<char>, Seq<char>)>,
    r: Seq<char>,
) -> bool {
    exists|i: int|
        0 <= i < m.len() && stands_in(words, words_of((#[trigger] m[i]).0)) && is_replacement(
            words,
            words_of(m[i].0),
            words_of(m[i].1),
            r,
        ) && forall|j: int| 0 <= j < i ==> !stands_in(words, words_of((#[trigger] m[j]).0))
}

pub open spec fn no_variant_inside(
    words: Seq<Seq<char>>,
    m: Seq<(Seq<char>, Seq<char>)>,
) -> bool {
    forall|j: int| 0 <= j < m.len() ==> !stands_in(words, words_of((#[trigger] m[j]).0))
}

proof fn lemma_first_substitution(words: Seq<Seq<char>>, m: Seq<(Seq<char>, Seq<char>)>, i: int)
    requires
        0 <= i <= m.len(),
        forall|j: int| 0 <= j < i ==> !stands_in(words, words_of((#[trigger] m[j]).0)),
    ensures
        match first_substitution(words, m, i) {
            Some(r) => first_variant_replaced(words, m, r),
            None => no_variant_inside(words, m),
        },
    decreases m.len() - i,
{
    if i < m.len() {
        lemma_substituted(words, m[i].0, m[i].1);
        if substituted(words, m[i].0, m[i].1) is None {
            lemma_first_substitution(words, m, i + 1);
        }
    }
}

/// The identity of a name: what it is an alias of; or the family that it is listed in; or
/// the name with the first alias inside it replaced, or the first family member; or else
/// its own words without the noise.
pub proof fn names_have_one_identity(kw: KeywordsView, s: Seq<char>)
    ensures
        ({
            let t = tnorm_of(kw.strip, s);
            let words = words_of(t);
            let r = canonical_of(kw, s);
            if t.len() == 0 {
                r == t
            } else if found(kw.alias, t) is Some {
                found(kw.alias, t) == Some(r)
            } else if found(kw.family, t) is Some {
                found(kw.family, t) == Some(r)
            } else if !no_variant_inside(words, kw.alias) {
                first_variant_replaced(words, kw.alias, r)
            } else if !no_variant_inside(words, kw.family) {
                first_variant_replaced(words, kw.family, r)
            } else {
                r == t
            }
        }),
{
    let words = words_of(tnorm_of(kw.strip, s));
    lemma_first_substitution(words, kw.alias, 0);
    lemma_first_substitution(words, kw.family, 0);
    if first_substitution(words, kw.alias, 0) is Some {
        let r = first_substitution(words, kw.alias, 0)->0;
        assert(!no_variant_inside(words, kw.alias));
    }
    if first_substitution(words, kw.family, 0) is Some {
        assert(!no_variant_inside(words, kw.family));
    }
}

// ---- files ----

/// A line of a keyword file: the heading of a section, an entry, or a comment.
pub enum Written {
    Heading(Seq<char>),
    Entry(Seq<char>, Seq<char>),
    Comment(Seq<char>),
}

pub open spec fn written_line(w: Written) -> Seq<char> {
    match w {
        Written::Heading(name) => seq!['['] + name + seq![']'],
        Written::Entry(key, value) => key + seq!['='] + value,
        Written::Comment(s) => seq!['#'] + s,
    }
}

pub open spec fn is_piece(s: Seq<char>) -> bool {
    s.len() > 0 && tight(s) && !s.contains('\n')
}

pub open spec fn written_sound(w: Written) -> bool {
    match w {
        Written::Heading(name) => is_piece(name),
        Written::Entry(key, value) => is_piece(key) && is_piece(value) && !key.contains('=')
            && key[0] != '[' && key[0] != ';' && key[0] != '#',
        Written::Comment(s) => is_piece(s),
    }
}

/// A heading opens a section, and an entry adds to the section that is open.
pub open spec fn heard(st: Reading, w: Written) -> Reading {
    match w {
        Written::Heading(name) => Reading { section: lowercase(name), kw: st.kw },
        Written::Entry(key, value) => Reading {
            section: st.section,
            kw: with_entry(st.kw, st.section, key, value),
        },
        Written::Comment(_) => st,
    }
}

pub open spec fn all_heard(kw: KeywordsView, ws: Seq<Written>, n: int) -> Reading
    decreases n,
{
    if n <= 0 {
        Reading { section: Seq::empty(), kw }
    } else {
        heard(all_heard(kw, ws, n - 1), ws[n - 1])
    }
}

pub open spec fn written_lines(ws: Seq<Written>) -> Seq<Seq<char>> {
    Seq::new(ws.len(), |i: int| written_line(ws[i]))
}

proof fn lemma_first_char(s: Seq<char>, c: char)
    requires
        s.len() > 0,
    ensures
        begins(s, seq![c]) == (s[0] == c),
{
    assert(s.take(1) =~= seq![s[0]]);
    assert(seq![s[0]][0] == s[0]);
    assert(seq![c][0] == c);
}

proof fn lemma_without(a: Seq<char>, b: Seq<char>, c: char)
    requires
        !a.contains(c),
        !b.contains(c),
    ensures
        !(a + b).contains(c),
{
    let s = a + b;
    if s.contains(c) {
        let i = choose|i: int| 0 <= i < s.len() && s[i] == c;
        if i < a.len() {
            assert(a[i] == c);
        } else {
            assert(b[i - a.len()] == c);
        }
    }
}

proof fn lemma_written(st: Reading, w: Written)
    requires
        written_sound(w),
    ensures
        is_piece(written_line(w)),
        after_line(st, written_line(w)) == heard(st, w),
{
    reveal_strlit(";");
    reveal_strlit("#");
    reveal_strlit("[");
    reveal_strlit("]");
    reveal_strlit("=");
    assert(";"@ =~= seq![';']);
    assert("#"@ =~= seq!['#']);
    assert("["@ =~= seq!['[']);
    assert("]"@ =~= seq![']']);
    assert("="@ =~= seq!['=']);
    let l = written_line(w);
    match w {
        Written::Heading(name) => {
            lemma_without(seq!['['], name, '\n');
            lemma_without(seq!['['] + name, seq![']'], '\n');
            assert(l[0] == '[');
            assert(l.last() == ']');
            lemma_trim_tight(l);
            lemma_first_char(l, ';');
            lemma_first_char(l, '#');
            lemma_first_char(l, '[');
            assert(l.skip(l.len() - 1) =~= seq![']']);
            assert(l.subrange(1, l.len() - 1) =~= name);
            lemma_trim_tight(name);
        },
        Written::Entry(key, value) => {
            lemma_without(key, seq!['='], '\n');
            lemma_without(key + seq!['='], value, '\n');
            assert(l[0] == key[0]);
            assert(l.last() == value.last());
            lemma_trim_tight(l);
            lemma_first_char(l, ';');
            lemma_first_char(l, '#');
            lemma_first_char(l, '[');
            lemma_split_at(key, '=', value);
        },
        Written::Comment(s) => {
            lemma_without(seq!['#'], s, '\n');
            assert(l[0] == '#');
            assert(l.last() == s.last());
            lemma_trim_tight(l);
            lemma_first_char(l, '#');
        },
    }
}

proof fn lemma_heard(kw: KeywordsView, ws: Seq<Written>, n: int)
    requires
        0 <= n <= ws.len(),
        forall|i: int| 0 <= i < ws.len() ==> written_sound(#[trigger] ws[i]),
    ensures
        after_lines(kw, written_lines(ws), n) == all_heard(kw, ws, n),
    decreases n,
{
    if n > 0 {
        lemma_heard(kw, ws, n - 1);
        assert(written_sound(ws[n - 1]));
        lemma_written(all_heard(kw, ws, n - 1), ws[n - 1]);
        assert(written_lines(ws)[n - 1] == written_line(ws[n - 1]));
    }
}

/// A keyword file is read entry by entry, each under the heading above it.
pub proof fn keyword_files_are_read_as_written(kw: KeywordsView, ws: Seq<Written>)
    requires
        forall|i: int| 0 <= i < ws.len() ==> written_sound(#[trigger] ws[i]),
    ensures
        with_keywords(kw, ended(written_lines(ws))) == all_heard(kw, ws, ws.len() as int).kw,
{
    let lines = written_lines(ws);
    assert forall|i: int| 0 <= i < lines.len() implies is_line(#[trigger] lines[i]) by {
        assert(written_sound(ws[i]));
        lemma_written(Reading { section: Seq::empty(), kw }, ws[i]);
        assert(is_white('\r'));
    }
    lemma_lines_read_back(lines);
    lemma_heard(kw, ws, ws.len() as int);
}

} // verus!
