//! How the separator of a mod is chosen: what each kind of reason for a choice promises,
//! and what a match by words or by a concept promises.
use vstd::prelude::*;
#[allow(unused_imports)]
use crate::map::{key_from, lemma_key_from};
#[allow(unused_imports)]
use crate::matching::{best_first, closest_first, concept_index, containment, distinctive_first, first_shared, fuzzy_index, fuzzy_scored, is_generic, lemma_best, lemma_labelled, lemma_norm_labelled, norm_labelled, same_stem, score, shared_first, shared_words, stems_at, tokens_of, word_hit, Score};
#[allow(unused_imports)]
use crate::modlist::{norm_of, EntryView, SectionView};
#[allow(unused_imports)]
use crate::plan::WhyView;
#[allow(unused_imports)]
use crate::rules::RulesView;
#[allow(unused_imports)]
use crate::suggest::{excluded_by, haystack, keyword_from, suggestion, Phrases};
#[allow(unused_imports)]
use crate::text::{alnum_words_of, begins, byte_len, contains_text, lowercase};

verus! {

// ---- keywords ----

/// A name as keywords are sought in it: in lower case, underscores as spaces, and a space
/// on either side, so that a keyword with spaces around it is a whole word.
pub open spec fn padded(lower: Seq<char>) -> Seq<char> {
    Seq::new(
        lower.len() + 2,
        |i: int|
            if i == 0 || i == lower.len() + 1 || lower[i - 1] == '_' {
                ' '
            } else {
                lower[i - 1]
            },
    )
}

/// The rule speaks of the name: its phrase is in it, and none of its exclusions.
pub open spec fn speaks_of(rule: (Seq<char>, Seq<Seq<char>>, Seq<char>), name: Seq<char>) -> bool {
    &&& contains_text(name, rule.0)
    &&& forall|e: int| 0 <= e < rule.1.len() ==> !contains_text(name, #[trigger] rule.1[e])
}

/// The first rule that speaks of a name is the `i`th.
pub open spec fn first_to_speak(rules: Phrases, name: Seq<char>, i: int) -> bool {
    &&& 0 <= i < rules.len()
    &&& speaks_of(rules[i], name)
    &&& forall|j: int| 0 <= j < i ==> !speaks_of(#[trigger] rules[j], name)
}

proof fn lemma_keyword_from(hay: Seq<char>, rules: Phrases, i: int)
    requires
        0 <= i,
    ensures
        match keyword_from(hay, rules, i) {
            Some(k) => i <= k < rules.len() && speaks_of(rules[k], hay) && forall|j: int|
                i <= j < k ==> !speaks_of(#[trigger] rules[j], hay),
            None => forall|j: int| i <= j < rules.len() ==> !speaks_of(#[trigger] rules[j], hay),
        },
    decreases rules.len() - i,
{
    if i < rules.len() {
        assert(speaks_of(rules[i], hay) == (contains_text(hay, rules[i].0) && !excluded_by(
            hay,
            rules[i].1,
        ))) by {
            if excluded_by(hay, rules[i].1) {
                let e = choose|e: int|
                    0 <= e < rules[i].1.len() && contains_text(hay, #[trigger] rules[i].1[e]);
                assert(contains_text(hay, rules[i].1[e]));
            }
        }
        if !speaks_of(rules[i], hay) {
            lemma_keyword_from(hay, rules, i + 1);
        }
    }
}

/// A mod that is filed by a keyword is filed by the first rule whose phrase its name holds
/// without holding one of the rule's exclusions. Where there is such a rule and nothing
/// that comes before keywords decides, it files the mod.
pub proof fn keyword_rules_heed_their_exclusions(
    m: EntryView,
    rules: RulesView,
    cat: Option<Seq<char>>,
    sections: Seq<SectionView>,
)
    ensures
        ({
            let (want, why) = suggestion(m, rules, cat, sections);
            let name = padded(m.lower);
            &&& why matches WhyView::Keyword(phrase) ==> exists|i: int|
                first_to_speak(rules.keyword, name, i) && phrase == (
                #[trigger] rules.keyword[i]).0 && want == Some(rules.keyword[i].2)
            &&& why is NoMatch ==> want is None && forall|i: int|
                0 <= i < rules.keyword.len() ==> !speaks_of(#[trigger] rules.keyword[i], name)
        }),
{
    reveal_strlit(" ");
    assert(haystack(m) =~= padded(m.lower));
    lemma_keyword_from(padded(m.lower), rules.keyword, 0);
    if suggestion(m, rules, cat, sections).1 is Keyword {
        let i = keyword_from(padded(m.lower), rules.keyword, 0)->0;
        assert(first_to_speak(rules.keyword, padded(m.lower), i));
    }
}

// ---- the order of the reasons ----

/// The first pair with the key has the value.
pub open spec fn first_pair(pairs: Seq<(Seq<char>, Seq<char>)>, k: Seq<char>, v: Seq<char>) -> bool {
    exists|i: int|
        0 <= i < pairs.len() && #[trigger] pairs[i] == (k, v) && forall|j: int|
            0 <= j < i ==> (#[trigger] pairs[j]).0 != k
}

pub open spec fn no_pair(pairs: Seq<(Seq<char>, Seq<char>)>, k: Seq<char>) -> bool {
    forall|j: int| 0 <= j < pairs.len() ==> (#[trigger] pairs[j]).0 != k
}

/// The first section with those letters and digits has the label.
pub open spec fn first_alike(sections: Seq<SectionView>, cn: Seq<char>, label: Seq<char>) -> bool {
    exists|i: int|
        0 <= i < sections.len() && (#[trigger] sections[i]).label == label && norm_of(label) == cn
            && forall|j: int| 0 <= j < i ==> norm_of((#[trigger] sections[j]).label) != cn
}

pub open spec fn none_alike(sections: Seq<SectionView>, cn: Seq<char>) -> bool {
    forall|j: int| 0 <= j < sections.len() ==> norm_of((#[trigger] sections[j]).label) != cn
}

proof fn lemma_alike(sections: Seq<SectionView>, cn: Seq<char>)
    ensures
        match norm_labelled(sections, cn, 0) {
            Some(i) => 0 <= i < sections.len() && first_alike(sections, cn, sections[i].label)
                && !none_alike(sections, cn),
            None => none_alike(sections, cn),
        },
{
    lemma_norm_labelled(sections, cn, 0);
    if norm_labelled(sections, cn, 0) is Some {
        let i = norm_labelled(sections, cn, 0)->0;
        assert(norm_of(sections[i].label) == cn);
        assert(first_alike(sections, cn, sections[i].label));
    }
}

/// Generated output stays where it is. Of other mods the first exact rule on the name
/// decides; without one, the first rule on the category; then the separator that is
/// called like the category; then, unless the category says nothing, the one that
/// matches it by words; and keywords only where none of these decides.
pub proof fn reasons_come_in_order(
    m: EntryView,
    rules: RulesView,
    cat: Option<Seq<char>>,
    sections: Seq<SectionView>,
)
    ensures
        ({
            let (want, why) = suggestion(m, rules, cat, sections);
            let output = begins(m.lower, seq!['o', 'u', 't', 'p', 'u', 't']);
            let c = cat->0;
            let unruled = !output && no_pair(rules.exact, m.name);
            let unsaid = unruled && (cat is Some ==> no_pair(rules.category, lowercase(c)));
            let unlike = unsaid && (cat is Some ==> none_alike(sections, norm_of(c)));
            &&& output <==> why is OutputGuard
            &&& output ==> want is None
            &&& why is ExactRule <==> !output && !no_pair(rules.exact, m.name)
            &&& why is ExactRule ==> want is Some && first_pair(rules.exact, m.name, want->0)
            &&& why is CategoryRule <==> unruled && cat is Some && !no_pair(
                rules.category,
                lowercase(c),
            )
            &&& why is CategoryRule ==> why == WhyView::CategoryRule(c) && want is Some && first_pair(
                rules.category,
                lowercase(c),
                want->0,
            )
            &&& why is CategoryExactMatch <==> unsaid && cat is Some && !none_alike(
                sections,
                norm_of(c),
            )
            &&& why is CategoryExactMatch ==> why == WhyView::CategoryExactMatch(c) && want is Some
                && first_alike(sections, norm_of(c), want->0)
            &&& why is CategoryFuzzy ==> unlike && cat is Some && lowercase(c) != "vr"@ && lowercase(c)
                != "miscellaneous"@ && lowercase(c) != "models and textures"@ && want is Some
                && fuzzy_scored(c, sections, true) is Some && want->0 == (
            fuzzy_scored(c, sections, true)->0).0
            &&& why is Keyword || why is NoMatch ==> unlike
            &&& (why is Keyword || why is NoMatch) && cat is Some && fuzzy_scored(c, sections, true)
                is Some ==> lowercase(c) == "vr"@ || lowercase(c) == "miscellaneous"@ || lowercase(c)
                == "models and textures"@
            &&& why is OutputGuard || why is ExactRule || why is CategoryRule
                || why is CategoryExactMatch || why is CategoryFuzzy || why is Keyword
                || why is NoMatch
        }),
{
    reveal_strlit("output");
    assert("output"@ =~= seq!['o', 'u', 't', 'p', 'u', 't']);
    lemma_key_from(rules.exact, m.name, 0);
    if key_from(rules.exact, m.name, 0) is Some {
        let i = key_from(rules.exact, m.name, 0)->0;
        assert(rules.exact[i] == (m.name, rules.exact[i].1));
        assert(first_pair(rules.exact, m.name, rules.exact[i].1));
    }
    match cat {
        Some(c) => {
            let k = lowercase(c);
            lemma_key_from(rules.category, k, 0);
            if key_from(rules.category, k, 0) is Some {
                let i = key_from(rules.category, k, 0)->0;
                assert(rules.category[i] == (k, rules.category[i].1));
                assert(first_pair(rules.category, k, rules.category[i].1));
            }
            lemma_alike(sections, norm_of(c));
        },
        None => {},
    }
}

// ---- matches by words ----

/// The words of a category that a label has too.
pub open spec fn in_common(ct: Seq<Seq<char>>, st: Seq<Seq<char>>) -> Seq<Seq<char>> {
    ct.filter(|w: Seq<char>| st.contains(w))
}

/// Those of them that say something about content.
pub open spec fn telling(ct: Seq<Seq<char>>, st: Seq<Seq<char>>) -> Seq<Seq<char>> {
    in_common(ct, st).filter(|w: Seq<char>| !is_generic(w))
}

proof fn lemma_shared(ct: Seq<Seq<char>>, st: Seq<Seq<char>>, n: int)
    requires
        0 <= n <= ct.len(),
    ensures
        shared_first(ct, st, n) == in_common(ct.take(n), st),
    decreases n,
{
    reveal(Seq::filter);
    if n > 0 {
        lemma_shared(ct, st, n - 1);
        assert(ct.take(n).drop_last() =~= ct.take(n - 1));
    } else {
        assert(ct.take(0) =~= Seq::empty());
    }
}

proof fn lemma_distinctive(words: Seq<Seq<char>>, n: int)
    requires
        0 <= n <= words.len(),
    ensures
        distinctive_first(words, n) == words.take(n).filter(|w: Seq<char>| !is_generic(w)).len(),
    decreases n,
{
    reveal(Seq::filter);
    if n > 0 {
        lemma_distinctive(words, n - 1);
        assert(words.take(n).drop_last() =~= words.take(n - 1));
    } else {
        assert(words.take(0) =~= Seq::empty());
    }
}

proof fn lemma_first_shared(ct: Seq<Seq<char>>, st: Seq<Seq<char>>, i: int)
    requires
        0 <= i <= ct.len(),
    ensures
        i <= first_shared(ct, st, i) <= ct.len(),
        first_shared(ct, st, i) < ct.len() ==> st.contains(ct[first_shared(ct, st, i)]),
        forall|j: int| i <= j < first_shared(ct, st, i) ==> !st.contains(#[trigger] ct[j]),
    decreases ct.len() - i,
{
    if i < ct.len() && !st.contains(ct[i]) {
        lemma_first_shared(ct, st, i + 1);
    }
}

proof fn lemma_score(ct: Seq<Seq<char>>, st: Seq<Seq<char>>, strict: bool)
    ensures
        shared_words(ct, st) == in_common(ct, st),
        distinctive_first(shared_words(ct, st), shared_words(ct, st).len() as int) == telling(
            ct,
            st,
        ).len(),
{
    lemma_shared(ct, st, ct.len() as int);
    assert(ct.take(ct.len() as int) =~= ct);
    let s = shared_words(ct, st);
    lemma_distinctive(s, s.len() as int);
    assert(s.take(s.len() as int) =~= s);
}

/// A strict match needs a telling word in common, or two words at all, and a section for
/// one sex only is meant only by a category that names that sex.
pub open spec fn strictly_fits(ct: Seq<Seq<char>>, st: Seq<Seq<char>>) -> bool {
    &&& telling(ct, st).len() > 0 || in_common(ct, st).len() >= 2
    &&& st.contains("male"@) ==> ct.contains("male"@)
    &&& st.contains("female"@) ==> ct.contains("female"@)
}

pub open spec fn fits(ct: Seq<Seq<char>>, st: Seq<Seq<char>>, strict: bool) -> bool {
    in_common(ct, st).len() > 0 && (strict ==> strictly_fits(ct, st))
}

/// The label whose words are `b` fits no better than the one whose words are `a`: it has
/// fewer telling words in common, or as many and fewer words in common at all, or as many
/// and the first of them later in the category, or no earlier and is no shorter. An
/// earlier one is longer.
pub open spec fn no_better(
    ct: Seq<Seq<char>>,
    a: Seq<Seq<char>>,
    b: Seq<Seq<char>>,
    at: int,
    bt: int,
    earlier: bool,
) -> bool {
    let (ta, tb) = (telling(ct, a).len(), telling(ct, b).len());
    let (ca, cb) = (in_common(ct, a).len(), in_common(ct, b).len());
    tb < ta || (tb == ta && (cb < ca || (cb == ca && (bt > at || (bt == at && (b.len()
        > a.len() || (!earlier && b.len() == a.len())))))))
}

/// The first word of the category that the label has is the `at`th.
pub open spec fn first_at(ct: Seq<Seq<char>>, st: Seq<Seq<char>>, at: int) -> bool {
    0 <= at < ct.len() && st.contains(ct[at]) && forall|j: int|
        0 <= j < at ==> !st.contains(#[trigger] ct[j])
}

proof fn lemma_fits(ct: Seq<Seq<char>>, st: Seq<Seq<char>>, strict: bool) -> (at: int)
    ensures
        fits(ct, st, strict) == (score(ct, st, strict) is Some),
        fits(ct, st, strict) ==> first_at(ct, st, at) && score(ct, st, strict) == Some(
            Score {
                distinctive: telling(ct, st).len(),
                shared: in_common(ct, st).len(),
                position: at,
                length: st.len(),
            },
        ),
{
    lemma_score(ct, st, strict);
    lemma_first_shared(ct, st, 0);
    let at = first_shared(ct, st, 0);
    if fits(ct, st, strict) && at == ct.len() {
        let p = |w: Seq<char>| st.contains(w);
        let w = in_common(ct, st)[0];
        assert(in_common(ct, st).contains(w));
        ct.lemma_filter_contains_rev(p, w);
        assert(ct.contains(w));
        let j = choose|j: int| 0 <= j < ct.len() && ct[j] == w;
        broadcast use vstd::seq_lib::group_filter_ensures;

        assert(p(in_common(ct, st)[0]));
        assert(st.contains(ct[j]));
    }
    at
}

/// A category means the separator with its letters and digits, if there is one. Otherwise
/// it means one that fits it by words, and no other separator of the list that fits is a
/// better one. What is given with it are the words in common.
pub proof fn best_fitting_separator_is_meant(
    cat: Seq<char>,
    sections: Seq<SectionView>,
    strict: bool,
)
    ensures
        ({
            let ct = tokens_of(cat);
            match fuzzy_index(cat, sections, strict) {
                Some((k, words)) => 0 <= k < sections.len() && (if none_alike(
                    sections,
                    norm_of(cat),
                ) {
                    let st = tokens_of(sections[k].label);
                    &&& fits(ct, st, strict)
                    &&& words == in_common(ct, st)
                    &&& forall|j: int, at: int, bt: int|
                        0 <= j < sections.len() && fits(
                            ct,
                            tokens_of((#[trigger] sections[j]).label),
                            strict,
                        ) && #[trigger] first_at(ct, st, at) && #[trigger] first_at(
                            ct,
                            tokens_of(sections[j].label),
                            bt,
                        ) ==> no_better(ct, st, tokens_of(sections[j].label), at, bt, j < k)
                } else {
                    first_alike(sections, norm_of(cat), sections[k].label) && words.len() == 0
                }),
                None => none_alike(sections, norm_of(cat)) && forall|j: int|
                    0 <= j < sections.len() ==> !fits(
                        ct,
                        tokens_of((#[trigger] sections[j]).label),
                        strict,
                    ),
            }
        }),
{
    let ct = tokens_of(cat);
    let n = sections.len() as int;
    lemma_alike(sections, norm_of(cat));
    lemma_best(ct, sections, strict, n);
    if none_alike(sections, norm_of(cat)) {
        match best_first(ct, sections, strict, n) {
            Some(k) => {
                let st = tokens_of(sections[k].label);
                let a0 = lemma_fits(ct, st, strict);
                lemma_score(ct, st, strict);
                assert forall|j: int, at: int, bt: int|
                    0 <= j < sections.len() && fits(
                        ct,
                        tokens_of((#[trigger] sections[j]).label),
                        strict,
                    ) && #[trigger] first_at(ct, st, at) && #[trigger] first_at(
                        ct,
                        tokens_of(sections[j].label),
                        bt,
                    ) implies no_better(ct, st, tokens_of(sections[j].label), at, bt, j < k) by {
                    let b0 = lemma_fits(ct, tokens_of(sections[j].label), strict);
                    lemma_same_first(ct, st, a0, at);
                    lemma_same_first(ct, tokens_of(sections[j].label), b0, bt);
                }
            },
            None => {
                assert forall|j: int| 0 <= j < sections.len() implies !fits(
                    ct,
                    tokens_of((#[trigger] sections[j]).label),
                    strict,
                ) by {
                    let b0 = lemma_fits(ct, tokens_of(sections[j].label), strict);
                }
            },
        }
    }
}

proof fn lemma_same_first(ct: Seq<Seq<char>>, st: Seq<Seq<char>>, a: int, b: int)
    requires
        first_at(ct, st, a),
        first_at(ct, st, b),
    ensures
        a == b,
{
    if a < b {
        assert(!st.contains(ct[a]));
    } else if b < a {
        assert(!st.contains(ct[b]));
    }
}

// ---- concepts ----

/// The words of the concept stand side by side in the label, each equal or a variant of
/// it: both with four letters at least, one the beginning of the other, and no more than
/// two letters longer.
pub open spec fn said_in(concept: Seq<char>, label: Seq<char>) -> bool {
    let cw = alnum_words_of(lowercase(concept));
    let lw = alnum_words_of(lowercase(label));
    cw.len() > 0 && exists|i: int|
        0 <= i <= lw.len() - cw.len() && #[trigger] variants(lw.subrange(i, i + cw.len()), cw)
}

pub open spec fn variants(a: Seq<Seq<char>>, b: Seq<Seq<char>>) -> bool {
    a.len() == b.len() && forall|k: int| 0 <= k < b.len() ==> is_variant(a[k], #[trigger] b[k])
}

pub open spec fn is_variant(a: Seq<char>, b: Seq<char>) -> bool {
    a == b || (byte_len(a) >= 4 && byte_len(b) >= 4 && (begins(a, b) || begins(b, a)) && byte_len(a)
        <= byte_len(b) + 2 && byte_len(b) <= byte_len(a) + 2)
}

/// How close a label is to a concept: it says it in words, or in letters, or the concept
/// holds the letters of the label; letters count from four on.
pub open spec fn closeness(concept: Seq<char>, label: Seq<char>) -> int {
    let (cn, sn) = (norm_of(concept), norm_of(label));
    let long = byte_len(cn) >= 4 && byte_len(sn) >= 4;
    if cn.len() > 0 && said_in(concept, label) {
        3
    } else if long && contains_text(sn, cn) {
        2
    } else if long && contains_text(cn, sn) {
        1
    } else {
        0
    }
}

proof fn lemma_said_in(concept: Seq<char>, label: Seq<char>)
    ensures
        said_in(concept, label) == word_hit(alnum_words_of(lowercase(concept)), label),
{
    let cw = alnum_words_of(lowercase(concept));
    let lw = alnum_words_of(lowercase(label));
    if said_in(concept, label) {
        let i = choose|i: int|
            0 <= i <= lw.len() - cw.len() && #[trigger] variants(lw.subrange(i, i + cw.len()), cw);
        assert forall|k: int| 0 <= k < cw.len() implies same_stem(lw[i + k], #[trigger] cw[k]) by {
            assert(lw.subrange(i, i + cw.len())[k] == lw[i + k]);
        }
        assert(stems_at(lw, cw, i));
    }
    if word_hit(cw, label) {
        let i = choose|i: int| #[trigger] stems_at(lw, cw, i);
        assert forall|k: int| 0 <= k < cw.len() implies is_variant(
            lw.subrange(i, i + cw.len())[k],
            #[trigger] cw[k],
        ) by {
            assert(same_stem(lw[i + k], cw[k]));
        }
        assert(variants(lw.subrange(i, i + cw.len()), cw));
    }
}

proof fn lemma_closeness(concept: Seq<char>, label: Seq<char>)
    ensures
        match containment(concept, label) {
            Some(r) => closeness(concept, label) == 3 - r && 0 <= r <= 2,
            None => closeness(concept, label) == 0,
        },
{
    lemma_said_in(concept, label);
}

/// The label `b` is no closer to the concept than `a`, or as close and no shorter; an
/// earlier one is longer.
pub open spec fn no_closer(
    concept: Seq<char>,
    a: Seq<char>,
    b: Seq<char>,
    earlier: bool,
) -> bool {
    let (ca, cb) = (closeness(concept, a), closeness(concept, b));
    let (la, lb) = (byte_len(norm_of(a)), byte_len(norm_of(b)));
    cb < ca || (cb == ca && (lb > la || (!earlier && lb == la)))
}

proof fn lemma_closest(concept: Seq<char>, sections: Seq<SectionView>, n: int)
    requires
        0 <= n <= sections.len(),
    ensures
        match closest_first(concept, sections, n) {
            Some(k) => 0 <= k < n && closeness(concept, sections[k].label) > 0 && forall|j: int|
                0 <= j < n ==> no_closer(
                    concept,
                    sections[k].label,
                    (#[trigger] sections[j]).label,
                    j < k,
                ),
            None => forall|j: int|
                0 <= j < n ==> closeness(concept, (#[trigger] sections[j]).label) == 0,
        },
    decreases n,
{
    if n > 0 {
        lemma_closest(concept, sections, n - 1);
        lemma_closeness(concept, sections[n - 1].label);
        if closest_first(concept, sections, n - 1) is Some {
            lemma_closeness(
                concept,
                sections[closest_first(concept, sections, n - 1)->0].label,
            );
        }
    }
}

/// A rule's target means the separator of that very name, or else the first with its
/// letters and digits, or else the closest one: one that says it in words before one that
/// has its letters, and that before one whose letters it has, the shortest of equally
/// close ones, and the first of those. Only where no separator is close at all do shared
/// words decide.
pub proof fn closest_separator_is_meant(concept: Seq<char>, sections: Seq<SectionView>)
    ensures
        ({
            let named = exists|j: int|
                0 <= j < sections.len() && (#[trigger] sections[j]).label == concept;
            match concept_index(concept, sections) {
                Some((k, how)) => 0 <= k < sections.len() && (if named {
                    sections[k].label == concept && how == "exact"@
                } else if !none_alike(sections, norm_of(concept)) {
                    first_alike(sections, norm_of(concept), sections[k].label) && how == "norm"@
                } else if how == "contains"@ {
                    closeness(concept, sections[k].label) > 0 && forall|j: int|
                        0 <= j < sections.len() ==> no_closer(
                            concept,
                            sections[k].label,
                            (#[trigger] sections[j]).label,
                            j < k,
                        )
                } else {
                    how == "tokens"@ && fuzzy_index(concept, sections, false) is Some && k == (
                    fuzzy_index(concept, sections, false)->0).0 && forall|j: int|
                        0 <= j < sections.len() ==> closeness(
                            concept,
                            (#[trigger] sections[j]).label,
                        ) == 0
                }),
                None => !named && none_alike(sections, norm_of(concept)) && fuzzy_index(
                    concept,
                    sections,
                    false,
                ) is None && forall|j: int|
                    0 <= j < sections.len() ==> closeness(concept, (#[trigger] sections[j]).label)
                        == 0,
            }
        }),
{
    reveal_strlit("contains");
    reveal_strlit("tokens");
    assert("contains"@.len() == 8 && "tokens"@.len() == 6);
    lemma_labelled(sections, concept, 0);
    lemma_alike(sections, norm_of(concept));
    lemma_closest(concept, sections, sections.len() as int);
    best_fitting_separator_is_meant(concept, sections, false);
}

} // verus!
