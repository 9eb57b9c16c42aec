//! Where a mod belongs: rule targets against the separators of a list, the cascade of
//! tiers that decides, and names for separators from what they hold.
use vstd::prelude::*;
use crate::categories::Categories;
#[allow(unused_imports)]
use crate::categories::{category_name, CategoriesView};
use crate::list;
use crate::map::TextMap;
#[allow(unused_imports)]
use crate::map::{found, inserted, key_from};
use crate::matching;
#[allow(unused_imports)]
use crate::matching::{concept_label, fuzzy_label, fuzzy_scored, is_junk_category, labelled, norm_labelled, says_concept, share_stem};
use crate::modlist;
use crate::modlist::{ModEntry, Modlist, Section};
#[allow(unused_imports)]
use crate::modlist::{norm_of, EntryView, SectionView};
use crate::plan::Why;
#[allow(unused_imports)]
use crate::plan::WhyView;
use crate::rules::Rules;
#[allow(unused_imports)]
use crate::rules::RulesView;
use crate::text;
#[allow(unused_imports)]
use crate::text::{ascii_lowered, begins, byte_len, char_replaced, contains_text, decimal, ended, lowercase, trimmed_start};

verus! {

// ---- rule targets ----

/// Whether a label names a waiting room.
pub open spec fn is_dump(dump: Seq<Seq<char>>, label: Seq<char>) -> bool {
    exists|i: int|
        0 <= i < dump.len() && ascii_lowered(#[trigger] dump[i]) == ascii_lowered(label)
}

pub fn in_dump(dump: &Vec<String>, label: &str) -> (r: bool)
    ensures
        r == is_dump(dump.deep_view(), label@),
{
    let mut i: usize = 0;
    while i < dump.len()
        invariant
            i <= dump.len(),
            forall|j: int|
                0 <= j < i ==> ascii_lowered(#[trigger] dump.deep_view()[j]) != ascii_lowered(label@),
        decreases dump.len() - i,
    {
        assert(dump.deep_view()[i as int] == dump@[i as int]@);
        if text::same_ignoring_case(dump[i].as_str(), label) {
            return true;
        }
        i = i + 1;
    }
    false
}

/// The separator that a rule's target means here. A waiting room is no destination.
pub open spec fn target_label(target: Seq<char>, sections: Seq<SectionView>, dump: Seq<Seq<char>>) -> Option<
    Seq<char>,
> {
    match concept_label(target, sections) {
        Some((label, _)) => if is_dump(dump, label) {
            None
        } else {
            Some(label)
        },
        None => None,
    }
}

/// What the diagnostic says of a rule's target, if anything.
pub open spec fn target_note(
    target: Seq<char>,
    kind: Seq<char>,
    sections: Seq<SectionView>,
    dump: Seq<Seq<char>>,
) -> Seq<Seq<char>> {
    match concept_label(target, sections) {
        Some((label, how)) => if is_dump(dump, label) {
            seq![
                "  ["@ + target + "] ("@ + kind + "): resolved to dump section ["@ + label
                    + "] - rule skipped"@,
            ]
        } else if label != target {
            seq!["  ["@ + target + "] -> ["@ + label + "] ("@ + how + ")"@]
        } else {
            Seq::empty()
        },
        None => seq!["  ["@ + target + "] ("@ + kind + "): no matching separator - rule skipped"@],
    }
}

fn resolve_target(
    target: &str,
    kind: &str,
    sections: &[Section],
    dump: &Vec<String>,
    lines: &mut Vec<String>,
) -> (r: Option<String>)
    ensures
        r.deep_view() == target_label(target@, sections.deep_view(), dump.deep_view()),
        final(lines).deep_view() == old(lines).deep_view() + target_note(
            target@,
            kind@,
            sections.deep_view(),
            dump.deep_view(),
        ),
{
    let ghost before = lines.deep_view();
    match matching::resolve_concept(target, sections) {
        Some((label, how)) => {
            if in_dump(dump, label) {
                let mut line = text::cat3("  [", target, "] (");
                line.append(kind);
                line.append("): resolved to dump section [");
                line.append(label);
                line.append("] - rule skipped");
                list::put(lines, line);
                assert(lines.deep_view() =~= before + seq![line@]);
                return None;
            }
            if !text::same(label, target) {
                let mut line = text::cat3("  [", target, "] -> [");
                line.append(label);
                line.append("] (");
                line.append(how);
                line.append(")");
                list::put(lines, line);
                assert(lines.deep_view() =~= before + seq![line@]);
            } else {
                assert(lines.deep_view() =~= before + Seq::empty());
            }
            Some(label.to_string())
        },
        None => {
            let mut line = text::cat3("  [", target, "] (");
            line.append(kind);
            line.append("): no matching separator - rule skipped");
            list::put(lines, line);
            assert(lines.deep_view() =~= before + seq![line@]);
            None
        },
    }
}

pub type Pairs = Seq<(Seq<char>, Seq<char>)>;

/// The first `n` rules whose target exists here, each with the separator it means.
pub open spec fn resolved_pairs(
    rules: Pairs,
    sections: Seq<SectionView>,
    dump: Seq<Seq<char>>,
    n: int,
) -> Pairs
    decreases n,
{
    if n <= 0 {
        Seq::empty()
    } else {
        let before = resolved_pairs(rules, sections, dump, n - 1);
        match target_label(rules[n - 1].1, sections, dump) {
            Some(t) => before.push((rules[n - 1].0, t)),
            None => before,
        }
    }
}

pub open spec fn pair_notes(
    rules: Pairs,
    kind: Seq<char>,
    sections: Seq<SectionView>,
    dump: Seq<Seq<char>>,
    n: int,
) -> Seq<Seq<char>>
    decreases n,
{
    if n <= 0 {
        Seq::empty()
    } else {
        pair_notes(rules, kind, sections, dump, n - 1) + target_note(
            rules[n - 1].1,
            kind,
            sections,
            dump,
        )
    }
}

pub type Phrases = Seq<(Seq<char>, Seq<Seq<char>>, Seq<char>)>;

pub open spec fn resolved_phrases(
    rules: Phrases,
    sections: Seq<SectionView>,
    dump: Seq<Seq<char>>,
    n: int,
) -> Phrases
    decreases n,
{
    if n <= 0 {
        Seq::empty()
    } else {
        let before = resolved_phrases(rules, sections, dump, n - 1);
        match target_label(rules[n - 1].2, sections, dump) {
            Some(t) => before.push((rules[n - 1].0, rules[n - 1].1, t)),
            None => before,
        }
    }
}

pub open spec fn phrase_notes(
    rules: Phrases,
    sections: Seq<SectionView>,
    dump: Seq<Seq<char>>,
    n: int,
) -> Seq<Seq<char>>
    decreases n,
{
    if n <= 0 {
        Seq::empty()
    } else {
        phrase_notes(rules, sections, dump, n - 1) + target_note(
            rules[n - 1].2,
            "keyword"@,
            sections,
            dump,
        )
    }
}

/// The rules with the separators that their targets mean; rules whose target does not
/// exist here drop out. A promote rule names mods on both sides and stays as it is.
pub open spec fn resolved_rules(r: RulesView, sections: Seq<SectionView>) -> RulesView {
    RulesView {
        exact: resolved_pairs(r.exact, sections, r.dump, r.exact.len() as int),
        keyword: resolved_phrases(r.keyword, sections, r.dump, r.keyword.len() as int),
        category: resolved_pairs(r.category, sections, r.dump, r.category.len() as int),
        sink: resolved_pairs(r.sink, sections, r.dump, r.sink.len() as int),
        float: resolved_pairs(r.float, sections, r.dump, r.float.len() as int),
        ..r
    }
}

pub open spec fn resolution_lines(r: RulesView, sections: Seq<SectionView>) -> Seq<Seq<char>> {
    seq!["\n--- concept resolution (rule targets -> actual separators) ---"@] + pair_notes(
        r.exact,
        "exact"@,
        sections,
        r.dump,
        r.exact.len() as int,
    ) + phrase_notes(r.keyword, sections, r.dump, r.keyword.len() as int) + pair_notes(
        r.category,
        "category"@,
        sections,
        r.dump,
        r.category.len() as int,
    ) + pair_notes(r.sink, "sink"@, sections, r.dump, r.sink.len() as int) + pair_notes(
        r.float,
        "float"@,
        sections,
        r.dump,
        r.float.len() as int,
    )
}

fn resolve_pairs(
    rules: &Vec<(String, String)>,
    kind: &str,
    sections: &[Section],
    dump: &Vec<String>,
    lines: &mut Vec<String>,
) -> (r: Vec<(String, String)>)
    ensures
        r.deep_view() == resolved_pairs(
            rules.deep_view(),
            sections.deep_view(),
            dump.deep_view(),
            rules.len() as int,
        ),
        final(lines).deep_view() == old(lines).deep_view() + pair_notes(
            rules.deep_view(),
            kind@,
            sections.deep_view(),
            dump.deep_view(),
            rules.len() as int,
        ),
{
    let ghost before = lines.deep_view();
    let ghost rs = rules.deep_view();
    let ghost secs = sections.deep_view();
    let ghost d = dump.deep_view();
    let mut out: Vec<(String, String)> = list::none();
    let mut i: usize = 0;
    assert(before + pair_notes(rs, kind@, secs, d, 0) =~= before);
    while i < rules.len()
        invariant
            i <= rules.len(),
            rs == rules.deep_view(),
            secs == sections.deep_view(),
            d == dump.deep_view(),
            out.deep_view() == resolved_pairs(rs, secs, d, i as int),
            lines.deep_view() == before + pair_notes(rs, kind@, secs, d, i as int),
        decreases rules.len() - i,
    {
        let rule = &rules[i];
        assert(rs[i as int] == rule.deep_view());
        let ghost so_far = lines.deep_view();
        if let Some(t) = resolve_target(rule.1.as_str(), kind, sections, dump, lines) {
            list::put(&mut out, (rule.0.clone(), t));
        }
        i = i + 1;
        assert(lines.deep_view() =~= before + pair_notes(rs, kind@, secs, d, i as int));
    }
    out
}

fn resolve_phrases(
    rules: &Vec<(String, Vec<String>, String)>,
    sections: &[Section],
    dump: &Vec<String>,
    lines: &mut Vec<String>,
) -> (r: Vec<(String, Vec<String>, String)>)
    ensures
        r.deep_view() == resolved_phrases(
            rules.deep_view(),
            sections.deep_view(),
            dump.deep_view(),
            rules.len() as int,
        ),
        final(lines).deep_view() == old(lines).deep_view() + phrase_notes(
            rules.deep_view(),
            sections.deep_view(),
            dump.deep_view(),
            rules.len() as int,
        ),
{
    let ghost before = lines.deep_view();
    let ghost rs = rules.deep_view();
    let ghost secs = sections.deep_view();
    let ghost d = dump.deep_view();
    let mut out: Vec<(String, Vec<String>, String)> = list::none();
    let mut i: usize = 0;
    assert(before + phrase_notes(rs, secs, d, 0) =~= before);
    while i < rules.len()
        invariant
            i <= rules.len(),
            rs == rules.deep_view(),
            secs == sections.deep_view(),
            d == dump.deep_view(),
            out.deep_view() == resolved_phrases(rs, secs, d, i as int),
            lines.deep_view() == before + phrase_notes(rs, secs, d, i as int),
        decreases rules.len() - i,
    {
        let rule = &rules[i];
        assert(rs[i as int] == rule.deep_view());
        if let Some(t) = resolve_target(rule.2.as_str(), "keyword", sections, dump, lines) {
            list::put(&mut out, (rule.0.clone(), list::copy(&rule.1), t));
        }
        i = i + 1;
        assert(lines.deep_view() =~= before + phrase_notes(rs, secs, d, i as int));
    }
    out
}

/// Resolves the targets of the rules; the notes go to `lines`.
pub fn resolve_into(rules: &Rules, sections: &[Section], lines: &mut Vec<String>) -> (r: Rules)
    ensures
        r.deep_view() == resolved_rules(rules.deep_view(), sections.deep_view()),
        final(lines).deep_view() == old(lines).deep_view() + resolution_lines(
            rules.deep_view(),
            sections.deep_view(),
        ),
{
    let ghost before = lines.deep_view();
    list::put(
        lines,
        "\n--- concept resolution (rule targets -> actual separators) ---".to_string(),
    );
    assert(rules.exact.deep_view().len() == rules.exact.len());
    assert(rules.keyword.deep_view().len() == rules.keyword.len());
    assert(rules.category.deep_view().len() == rules.category.len());
    assert(rules.sink.deep_view().len() == rules.sink.len());
    assert(rules.float.deep_view().len() == rules.float.len());
    let exact = resolve_pairs(&rules.exact, "exact", sections, &rules.dump, lines);
    let keyword = resolve_phrases(&rules.keyword, sections, &rules.dump, lines);
    let category = resolve_pairs(&rules.category, "category", sections, &rules.dump, lines);
    let sink = resolve_pairs(&rules.sink, "sink", sections, &rules.dump, lines);
    let float = resolve_pairs(&rules.float, "float", sections, &rules.dump, lines);
    assert(lines.deep_view() =~= before + resolution_lines(
        rules.deep_view(),
        sections.deep_view(),
    ));
    Rules {
        exact,
        keyword,
        category,
        promote: list::copy_pairs(&rules.promote),
        sink,
        float,
        sink_any: list::copy(&rules.sink_any),
        rename_separators: rules.rename_separators,
        proven_only: rules.proven_only,
        dump: list::copy(&rules.dump),
    }
}

/// Resolves the targets of the rules against the separators of a list.
pub fn resolve_targets(rules: &Rules, sections: &[Section], trace: &mut String) -> (r: Rules)
    ensures
        r.deep_view() == resolved_rules(rules.deep_view(), sections.deep_view()),
        final(trace)@ == old(trace)@ + ended(
            resolution_lines(rules.deep_view(), sections.deep_view()),
        ),
{
    let mut lines: Vec<String> = list::none();
    let r = resolve_into(rules, sections, &mut lines);
    assert(lines.deep_view() =~= resolution_lines(rules.deep_view(), sections.deep_view()));
    let text = text::end_lines(&lines);
    trace.append(text.as_str());
    r
}

proof fn lemma_resolved_pairs(
    rules: Pairs,
    sections: Seq<SectionView>,
    dump: Seq<Seq<char>>,
    n: int,
)
    requires
        n <= rules.len(),
    ensures
        forall|i: int|
            0 <= i < resolved_pairs(rules, sections, dump, n).len() ==> {
                let t = (#[trigger] resolved_pairs(rules, sections, dump, n)[i]).1;
                !is_dump(dump, t) && labelled(sections, t, 0) is Some
            },
    decreases n,
{
    if n > 0 {
        lemma_resolved_pairs(rules, sections, dump, n - 1);
        let target = rules[n - 1].1;
        matching::concepts_resolve_to_separators(target, sections);
        match target_label(target, sections, dump) {
            Some(t) => {
                matching::lemma_labelled(sections, t, 0);
                let before = resolved_pairs(rules, sections, dump, n - 1);
                let after = resolved_pairs(rules, sections, dump, n);
                assert forall|i: int| 0 <= i < after.len() implies {
                    let t = (#[trigger] after[i]).1;
                    !is_dump(dump, t) && labelled(sections, t, 0) is Some
                } by {
                    if i < before.len() {
                        assert(after[i] == before[i]);
                    }
                }
            },
            None => {},
        }
    }
}

/// A destination: a separator of the list that is no waiting room.
pub open spec fn is_destination(t: Seq<char>, sections: Seq<SectionView>, dump: Seq<Seq<char>>) -> bool {
    !is_dump(dump, t) && labelled(sections, t, 0) is Some
}

/// A resolved rule files into a separator of the list, and never into a waiting room.
pub proof fn resolved_targets_are_destinations(r: RulesView, sections: Seq<SectionView>)
    ensures
        ({
            let q = resolved_rules(r, sections);
            &&& forall|i: int|
                0 <= i < q.exact.len() ==> is_destination((#[trigger] q.exact[i]).1, sections, r.dump)
            &&& forall|i: int|
                0 <= i < q.category.len() ==> is_destination(
                    (#[trigger] q.category[i]).1,
                    sections,
                    r.dump,
                )
            &&& forall|i: int|
                0 <= i < q.sink.len() ==> is_destination((#[trigger] q.sink[i]).1, sections, r.dump)
            &&& forall|i: int|
                0 <= i < q.float.len() ==> is_destination((#[trigger] q.float[i]).1, sections, r.dump)
            &&& forall|i: int|
                0 <= i < q.keyword.len() ==> is_destination(
                    (#[trigger] q.keyword[i]).2,
                    sections,
                    r.dump,
                )
            &&& q.promote == r.promote
        }),
{
    lemma_resolved_pairs(r.exact, sections, r.dump, r.exact.len() as int);
    lemma_resolved_pairs(r.category, sections, r.dump, r.category.len() as int);
    lemma_resolved_pairs(r.sink, sections, r.dump, r.sink.len() as int);
    lemma_resolved_pairs(r.float, sections, r.dump, r.float.len() as int);
    lemma_resolved_phrases(r.keyword, sections, r.dump, r.keyword.len() as int);
}

proof fn lemma_resolved_phrases(
    rules: Phrases,
    sections: Seq<SectionView>,
    dump: Seq<Seq<char>>,
    n: int,
)
    requires
        n <= rules.len(),
    ensures
        forall|i: int|
            0 <= i < resolved_phrases(rules, sections, dump, n).len() ==> {
                let t = (#[trigger] resolved_phrases(rules, sections, dump, n)[i]).2;
                !is_dump(dump, t) && labelled(sections, t, 0) is Some
            },
    decreases n,
{
    if n > 0 {
        lemma_resolved_phrases(rules, sections, dump, n - 1);
        let target = rules[n - 1].2;
        matching::concepts_resolve_to_separators(target, sections);
        match target_label(target, sections, dump) {
            Some(t) => {
                matching::lemma_labelled(sections, t, 0);
                let before = resolved_phrases(rules, sections, dump, n - 1);
                let after = resolved_phrases(rules, sections, dump, n);
                assert forall|i: int| 0 <= i < after.len() implies {
                    let t = (#[trigger] after[i]).2;
                    !is_dump(dump, t) && labelled(sections, t, 0) is Some
                } by {
                    if i < before.len() {
                        assert(after[i] == before[i]);
                    }
                }
            },
            None => {},
        }
    }
}

// ---- the cascade ----

pub open spec fn excluded_by(hay: Seq<char>, excl: Seq<Seq<char>>) -> bool {
    exists|i: int| 0 <= i < excl.len() && contains_text(hay, #[trigger] excl[i])
}

/// The first keyword rule from `i` on that hits.
pub open spec fn keyword_from(hay: Seq<char>, rules: Phrases, i: int) -> Option<int>
    decreases rules.len() - i,
{
    if i < 0 || i >= rules.len() {
        None
    } else if contains_text(hay, rules[i].0) && !excluded_by(hay, rules[i].1) {
        Some(i)
    } else {
        keyword_from(hay, rules, i + 1)
    }
}

/// The name of a mod as keywords are looked for in it.
pub open spec fn haystack(m: EntryView) -> Seq<char> {
    " "@ + char_replaced(m.lower, '_', ' ') + " "@
}

pub open spec fn by_keyword(m: EntryView, rules: RulesView) -> (Option<Seq<char>>, WhyView) {
    match keyword_from(haystack(m), rules.keyword, 0) {
        Some(i) => (Some(rules.keyword[i].2), WhyView::Keyword(rules.keyword[i].0)),
        None => (None, WhyView::NoMatch),
    }
}

/// What a category suggests: a category rule, the separator of that name, or the one
/// that shares words with it, unless the category says nothing.
pub open spec fn by_category(c: Seq<char>, rules: RulesView, sections: Seq<SectionView>) -> Option<
    (Seq<char>, WhyView),
> {
    if found(rules.category, lowercase(c)) is Some {
        Some((found(rules.category, lowercase(c))->0, WhyView::CategoryRule(c)))
    } else if norm_labelled(sections, norm_of(c), 0) is Some {
        Some(
            (
                sections[norm_labelled(sections, norm_of(c), 0)->0].label,
                WhyView::CategoryExactMatch(c),
            ),
        )
    } else if is_junk_category(lowercase(c)) {
        None
    } else {
        match fuzzy_scored(c, sections, true) {
            Some((label, shared)) => Some((label, WhyView::CategoryFuzzy(c, shared))),
            None => None,
        }
    }
}

/// Where a mod belongs and which tier says so: generated output stays, then exact
/// rules, then its category, then keywords.
pub open spec fn suggestion(
    m: EntryView,
    rules: RulesView,
    cat: Option<Seq<char>>,
    sections: Seq<SectionView>,
) -> (Option<Seq<char>>, WhyView) {
    if begins(m.lower, "output"@) {
        (None, WhyView::OutputGuard)
    } else if found(rules.exact, m.name) is Some {
        (Some(found(rules.exact, m.name)->0), WhyView::ExactRule)
    } else {
        match cat {
            Some(c) => match by_category(c, rules, sections) {
                Some((label, why)) => (Some(label), why),
                None => by_keyword(m, rules),
            },
            None => by_keyword(m, rules),
        }
    }
}

/// The value of the first pair with that key.
pub fn pair_value(pairs: &Vec<(String, String)>, k: &str) -> (r: Option<String>)
    ensures
        r.deep_view() == found(pairs.deep_view(), k@),
{
    let key = k.to_string();
    let mut i: usize = 0;
    while i < pairs.len()
        invariant
            i <= pairs.len(),
            key@ == k@,
            key_from(pairs.deep_view(), k@, i as int) == key_from(pairs.deep_view(), k@, 0),
        decreases pairs.len() - i,
    {
        assert(pairs.deep_view()[i as int] == pairs@[i as int].deep_view());
        if pairs[i].0 == key {
            return Some(pairs[i].1.clone());
        }
        i = i + 1;
    }
    None
}

fn hits_exclusion(hay: &str, excl: &Vec<String>) -> (r: bool)
    ensures
        r == excluded_by(hay@, excl.deep_view()),
{
    let mut i: usize = 0;
    while i < excl.len()
        invariant
            i <= excl.len(),
            forall|j: int| 0 <= j < i ==> !contains_text(hay@, #[trigger] excl.deep_view()[j]),
        decreases excl.len() - i,
    {
        assert(excl.deep_view()[i as int] == excl@[i as int]@);
        if text::contains(hay, excl[i].as_str()) {
            return true;
        }
        i = i + 1;
    }
    false
}

fn find_keyword(m: &ModEntry, rules: &Rules) -> (r: (Option<String>, Why))
    ensures
        (r.0.deep_view(), r.1.deep_view()) == by_keyword(m.deep_view(), rules.deep_view()),
{
    let spaced = text::replace_char(m.lower.as_str(), '_', ' ');
    let hay = text::cat3(" ", spaced.as_str(), " ");
    let ghost ks = rules.keyword.deep_view();
    let mut i: usize = 0;
    while i < rules.keyword.len()
        invariant
            i <= rules.keyword.len(),
            ks == rules.keyword.deep_view(),
            hay@ == haystack(m.deep_view()),
            keyword_from(hay@, ks, i as int) == keyword_from(hay@, ks, 0),
        decreases rules.keyword.len() - i,
    {
        let rule = &rules.keyword[i];
        assert(ks[i as int] == rule.deep_view());
        if text::contains(hay.as_str(), rule.0.as_str()) && !hits_exclusion(hay.as_str(), &rule.1) {
            return (Some(rule.2.clone()), Why::Keyword(rule.0.clone()));
        }
        i = i + 1;
    }
    (None, Why::NoMatch)
}

fn find_category(c: &str, rules: &Rules, sections: &[Section]) -> (r: Option<(String, Why)>)
    ensures
        r.deep_view() == by_category(c@, rules.deep_view(), sections.deep_view()),
{
    let cl = c.to_lowercase();
    if let Some(sec) = pair_value(&rules.category, cl.as_str()) {
        return Some((sec, Why::CategoryRule(c.to_string())));
    }
    let cn = modlist::norm(c);
    if let Some(i) = matching::find_norm_label(sections, cn.as_str()) {
        assert(sections.deep_view()[i as int] == sections@[i as int].deep_view());
        return Some((sections[i].label.clone(), Why::CategoryExactMatch(c.to_string())));
    }
    if matching::junk_category(cl.as_str()) {
        return None;
    }
    match matching::fuzzy_match_scored(c, sections, true) {
        Some((label, shared)) => Some(
            (label.to_string(), Why::CategoryFuzzy(c.to_string(), shared)),
        ),
        None => None,
    }
}

/// Where a mod belongs, and which tier says so.
pub fn suggest_explained(m: &ModEntry, rules: &Rules, cat: Option<&str>, sections: &[Section]) -> (r: (
    Option<String>,
    Why,
))
    ensures
        (r.0.deep_view(), r.1.deep_view()) == suggestion(
            m.deep_view(),
            rules.deep_view(),
            cat.deep_view(),
            sections.deep_view(),
        ),
{
    if text::starts_with(m.lower.as_str(), "output") {
        return (None, Why::OutputGuard);
    }
    if let Some(sec) = pair_value(&rules.exact, m.name.as_str()) {
        return (Some(sec), Why::ExactRule);
    }
    if let Some(c) = cat {
        if let Some((label, why)) = find_category(c, rules, sections) {
            return (Some(label), why);
        }
    }
    find_keyword(m, rules)
}

/// Where a mod belongs.
pub fn suggest_section(m: &ModEntry, rules: &Rules, cat: Option<&str>, sections: &[Section]) -> (r: Option<
    String,
>)
    ensures
        r.deep_view() == suggestion(
            m.deep_view(),
            rules.deep_view(),
            cat.deep_view(),
            sections.deep_view(),
        ).0,
{
    suggest_explained(m, rules, cat, sections).0
}

/// What a category alone suggests: a category rule, or a matching separator.
pub fn suggest_by_category(cat: &str, rules: &Rules, sections: &[Section]) -> (r: Option<String>)
    ensures
        r.deep_view() == (match found(rules.deep_view().category, lowercase(cat@)) {
            Some(sec) => Some(sec),
            None => fuzzy_label(cat@, sections.deep_view(), true),
        }),
{
    let cl = cat.to_lowercase();
    if let Some(sec) = pair_value(&rules.category, cl.as_str()) {
        return Some(sec);
    }
    match matching::fuzzy_match_section(cat, sections, true) {
        Some(l) => Some(l.to_string()),
        None => None,
    }
}

/// An exact rule of the user decides before any other rule does.
pub proof fn user_exact_rule_decides(
    m: EntryView,
    user: RulesView,
    base: RulesView,
    cat: Option<Seq<char>>,
    sections: Seq<SectionView>,
    i: int,
)
    requires
        !begins(m.lower, "output"@),
        0 <= i < user.exact.len(),
        user.exact[i].0 == m.name,
        forall|j: int| 0 <= j < i ==> (#[trigger] user.exact[j]).0 != m.name,
    ensures
        suggestion(m, crate::rules::in_front(user, base), cat, sections) == (
            Some(user.exact[i].1),
            WhyView::ExactRule,
        ),
{
    let r = crate::rules::in_front(user, base);
    assert forall|h: int| 0 <= h < i implies (#[trigger] r.exact[h]).0 != m.name by {
        assert(r.exact[h] == user.exact[h]);
    }
    assert(r.exact[i] == user.exact[i]);
    crate::map::lemma_key_at(r.exact, m.name, 0, i);
}

/// Generated output never moves, whatever the rules say.
pub proof fn output_never_moves(
    m: EntryView,
    rules: RulesView,
    cat: Option<Seq<char>>,
    sections: Seq<SectionView>,
)
    requires
        begins(m.lower, "output"@),
    ensures
        suggestion(m, rules, cat, sections).0 is None,
{
}

/// How many of the first `n` mods have a long name that this one's name contains.
pub open spec fn masters_first(m: EntryView, others: Seq<EntryView>, n: int) -> nat
    decreases n,
{
    if n <= 0 {
        0
    } else {
        let o = others[n - 1];
        masters_first(m, others, n - 1) + (if o.norm != m.norm && byte_len(o.norm) >= 10
            && contains_text(m.norm, o.norm) {
            1nat
        } else {
            0
        })
    }
}

/// A patch, but none of the collections that go by that name.
pub open spec fn is_single_patch(lower: Seq<char>) -> bool {
    (contains_text(lower, "patch"@) || contains_text(lower, "add-on"@) || contains_text(
        lower,
        "addon"@,
    )) && !contains_text(lower, "patch hub"@) && !contains_text(lower, "patch collection"@)
        && !contains_text(lower, "compendium"@)
}

/// How deep a mod stands below the mods that its name contains.
pub fn parent_depth(m: &ModEntry, others: &Vec<ModEntry>) -> (d: u128)
    ensures
        d == masters_first(m.deep_view(), others.deep_view(), others.len() as int) + (
        if is_single_patch(m.deep_view().lower) {
            1nat
        } else {
            0
        }),
{
    let mut d: u128 = 0;
    let mut i: usize = 0;
    while i < others.len()
        invariant
            i <= others.len(),
            d <= i,
            d == masters_first(m.deep_view(), others.deep_view(), i as int),
        decreases others.len() - i,
    {
        let o = &others[i];
        assert(others.deep_view()[i as int] == o.deep_view());
        if !(o.norm == m.norm) && text::bytes_in(o.norm.as_str()) >= 10 && text::contains(
            m.norm.as_str(),
            o.norm.as_str(),
        ) {
            d = d + 1;
        }
        i = i + 1;
    }
    let l = m.lower.as_str();
    if (text::contains(l, "patch") || text::contains(l, "add-on") || text::contains(l, "addon"))
        && !text::contains(l, "patch hub") && !text::contains(l, "patch collection")
        && !text::contains(l, "compendium") {
        d = d + 1;
    }
    d
}

// ---- names for separators ----

/// Whether a mod is ticked.
pub open spec fn is_enabled(m: EntryView) -> bool {
    begins(trimmed_start(m.raw), "+"@)
}

pub fn enabled(m: &ModEntry) -> (r: bool)
    ensures
        r == is_enabled(m.deep_view()),
{
    let t = text::trim_start(m.raw.as_str());
    text::starts_with(t.as_str(), "+")
}

pub open spec fn enabled_first(mods: Seq<EntryView>, n: int) -> Seq<EntryView>
    decreases n,
{
    if n <= 0 {
        Seq::empty()
    } else if is_enabled(mods[n - 1]) {
        enabled_first(mods, n - 1).push(mods[n - 1])
    } else {
        enabled_first(mods, n - 1)
    }
}

pub open spec fn names_framework(lower: Seq<char>) -> bool {
    contains_text(lower, "sexlab"@) || contains_text(lower, "ostim"@) || contains_text(
        lower,
        "aroused"@,
    ) || contains_text(lower, "arousal"@) || contains_text(lower, "slal"@) || contains_text(
        lower,
        "nsfw"@,
    )
}

pub open spec fn frameworks_first(mods: Seq<EntryView>, n: int) -> nat
    decreases n,
{
    if n <= 0 {
        0
    } else {
        frameworks_first(mods, n - 1) + (if names_framework(lowercase(mods[n - 1].name)) {
            1nat
        } else {
            0
        })
    }
}

/// Labels that name a place, not a concept.
pub open spec fn is_structural(label: Seq<char>) -> bool {
    let l = lowercase(label);
    contains_text(l, "game folder"@) || contains_text(l, "parking"@) || contains_text(
        l,
        "end of list"@,
    ) || contains_text(l, "nexus"@)
}

/// The category of a mod, where it can name a section.
pub open spec fn telling_category(c: CategoriesView, m: EntryView) -> Option<Seq<char>> {
    match category_name(c, m.name) {
        Some(n) => if is_junk_category(lowercase(n)) || lowercase(n) == "utilities"@ {
            None
        } else {
            Some(n)
        },
        None => None,
    }
}

pub type Tally = Seq<(Seq<char>, usize)>;

pub open spec fn tallied(t: Tally, k: Seq<char>) -> Tally {
    match found(t, k) {
        Some(n) => inserted(t, k, (n + 1) as usize),
        None => inserted(t, k, 1),
    }
}

/// How often each telling category occurs among the first `n` mods.
pub open spec fn tally_first(c: CategoriesView, mods: Seq<EntryView>, n: int) -> Tally
    decreases n,
{
    if n <= 0 {
        Seq::empty()
    } else {
        match telling_category(c, mods[n - 1]) {
            Some(k) => tallied(tally_first(c, mods, n - 1), k),
            None => tally_first(c, mods, n - 1),
        }
    }
}

pub open spec fn telling_first(c: CategoriesView, mods: Seq<EntryView>, n: int) -> nat
    decreases n,
{
    if n <= 0 {
        0
    } else {
        telling_first(c, mods, n - 1) + (if telling_category(c, mods[n - 1]) is Some {
            1nat
        } else {
            0
        })
    }
}

/// The first of the largest among the first `n` entries.
pub open spec fn top_first(t: Tally, n: int) -> int
    decreases n,
{
    if n <= 1 {
        0
    } else {
        let k = top_first(t, n - 1);
        if t[n - 1].1 > t[k].1 {
            n - 1
        } else {
            k
        }
    }
}

/// The largest count among the first `n` entries but for entry `skip`; 0 if there is none.
pub open spec fn runner_up_first(t: Tally, skip: int, n: int) -> usize
    decreases n,
{
    if n <= 0 {
        0
    } else {
        let m = runner_up_first(t, skip, n - 1);
        if n - 1 != skip && t[n - 1].1 > m {
            t[n - 1].1
        } else {
            m
        }
    }
}

/// The concept that names a section by what it holds, and the note on it. Frameworks
/// decide from two on; else a category that four mods carry at least, that is three
/// tenths of the telling ones and twice the next. A label that already says it stays.
pub open spec fn concept_for(s: SectionView, cats: Option<CategoriesView>) -> Option<
    (Seq<char>, Seq<char>),
> {
    let mods = enabled_first(s.mods, s.mods.len() as int);
    let hits = frameworks_first(mods, mods.len() as int);
    if hits >= 2 && !says_concept(s.label, "nsfw"@) {
        Some(
            (
                "NSFW"@,
                "  ["@ + s.label + "] + '- NSFW' ("@ + decimal(hits) + " framework mods inside)"@,
            ),
        )
    } else if mods.len() < 4 || cats is None || is_structural(s.label) {
        None
    } else {
        let t = tally_first(cats->0, mods, mods.len() as int);
        let total = telling_first(cats->0, mods, mods.len() as int);
        if total < 4 {
            None
        } else {
            let k = top_first(t, t.len() as int);
            let next = runner_up_first(t, k, t.len() as int);
            let (cat, n) = t[k];
            if n >= 4 && n * 10 >= total * 3 && n >= next * 2 && !says_concept(s.label, cat)
                && !share_stem(s.label, cat, 3) {
                Some(
                    (
                        cat,
                        "  ["@ + s.label + "] + '- "@ + cat + "' ("@ + decimal(n as nat) + "/"@
                            + decimal(total) + " categorized mods, runner-up "@ + decimal(
                            next as nat,
                        ) + ")"@,
                    ),
                )
            } else {
                None
            }
        }
    }
}

/// The new labels of the first `n` sections that get one.
pub open spec fn renames_first(
    sections: Seq<SectionView>,
    cats: Option<CategoriesView>,
    n: int,
) -> Seq<(usize, Seq<char>)>
    decreases n,
{
    if n <= 0 {
        Seq::empty()
    } else {
        let before = renames_first(sections, cats, n - 1);
        match concept_for(sections[n - 1], cats) {
            Some((c, _)) => before.push(
                ((n - 1) as usize, sections[n - 1].label + " - "@ + c),
            ),
            None => before,
        }
    }
}

pub open spec fn rename_notes(
    sections: Seq<SectionView>,
    cats: Option<CategoriesView>,
    n: int,
) -> Seq<Seq<char>>
    decreases n,
{
    if n <= 0 {
        Seq::empty()
    } else {
        let before = rename_notes(sections, cats, n - 1);
        match concept_for(sections[n - 1], cats) {
            Some((_, note)) => before.push(note),
            None => before,
        }
    }
}

fn framework_name(lower: &str) -> (r: bool)
    ensures
        r == names_framework(lower@),
{
    text::contains(lower, "sexlab") || text::contains(lower, "ostim") || text::contains(
        lower,
        "aroused",
    ) || text::contains(lower, "arousal") || text::contains(lower, "slal") || text::contains(
        lower,
        "nsfw",
    )
}

fn structural(label: &str) -> (r: bool)
    ensures
        r == is_structural(label@),
{
    let l = label.to_lowercase();
    text::contains(l.as_str(), "game folder") || text::contains(l.as_str(), "parking")
        || text::contains(l.as_str(), "end of list") || text::contains(l.as_str(), "nexus")
}

fn telling(c: &Categories, m: &ModEntry) -> (r: Option<String>)
    ensures
        r.deep_view() == telling_category(c.deep_view(), m.deep_view()),
{
    match c.category_of(m.name.as_str()) {
        Some(n) => {
            let l = n.as_str().to_lowercase();
            if matching::junk_category(l.as_str()) || text::same(l.as_str(), "utilities") {
                None
            } else {
                Some(n)
            }
        },
        None => None,
    }
}

pub open spec fn tally_bounded(t: Tally, bound: nat) -> bool {
    forall|i: int| 0 <= i < t.len() ==> (#[trigger] t[i]).1 <= bound
}

pub(crate) fn add_tally(t: &mut TextMap<usize>, k: String, bound: Ghost<nat>)
    requires
        tally_bounded(old(t).deep_view(), bound@),
        bound@ < usize::MAX,
    ensures
        final(t).deep_view() == tallied(old(t).deep_view(), k@),
        tally_bounded(final(t).deep_view(), bound@ + 1),
        final(t).deep_view().len() > 0,
{
    let ghost before = t.deep_view();
    proof {
        crate::map::lemma_key_from(before, k@, 0);
    }
    let n: usize = match t.get(k.as_str()) {
        Some(n) => {
            proof {
                let i = key_from(before, k@, 0)->0;
                assert(before[i].1 <= bound@);
            }
            *n + 1
        },
        None => 1,
    };
    t.insert(k, n);
    assert forall|i: int| 0 <= i < t.deep_view().len() implies (#[trigger] t.deep_view()[i]).1
        <= bound@ + 1 by {
        if i < before.len() {
            assert(before[i].1 <= bound@);
        }
    }
}

fn dominant_concept(label: &str, mods: &Vec<ModEntry>, c: &Categories) -> (r: Option<
    (String, String),
>)
    ensures
        ({
            let ms = mods.deep_view();
            let t = tally_first(c.deep_view(), ms, ms.len() as int);
            let total = telling_first(c.deep_view(), ms, ms.len() as int);
            let k = top_first(t, t.len() as int);
            let next = runner_up_first(t, k, t.len() as int);
            let (cat, n) = t[k];
            r.deep_view() == (if total < 4 {
                None
            } else if n >= 4 && n * 10 >= total * 3 && n >= next * 2 && !says_concept(label@, cat)
                && !share_stem(label@, cat, 3) {
                Some(
                    (
                        cat,
                        "  ["@ + label@ + "] + '- "@ + cat + "' ("@ + decimal(n as nat) + "/"@
                            + decimal(total) + " categorized mods, runner-up "@ + decimal(
                            next as nat,
                        ) + ")"@,
                    ),
                )
            } else {
                None
            })
        }),
{
    let ghost ms = mods.deep_view();
    let mut tally: TextMap<usize> = TextMap::new();
    let mut total: usize = 0;
    let mut i: usize = 0;
    while i < mods.len()
        invariant
            i <= mods.len(),
            ms == mods.deep_view(),
            total <= i,
            tally.deep_view() == tally_first(c.deep_view(), ms, i as int),
            total == telling_first(c.deep_view(), ms, i as int),
            tally_bounded(tally.deep_view(), i as nat),
            total > 0 ==> tally.deep_view().len() > 0,
        decreases mods.len() - i,
    {
        assert(ms[i as int] == mods@[i as int].deep_view());
        if let Some(k) = telling(c, &mods[i]) {
            add_tally(&mut tally, k, Ghost(i as nat));
            total = total + 1;
        }
        i = i + 1;
    }
    assert(ms.len() == mods.len());
    if total < 4 {
        return None;
    }
    let ghost t = tally.deep_view();
    let count: usize = tally.len();
    let mut k: usize = 0;
    let mut j: usize = 1;
    while j < count
        invariant
            1 <= j <= count,
            count == t.len(),
            t == tally.deep_view(),
            k < count,
            k == top_first(t, j as int),
        decreases count - j,
    {
        if tally.at(j).1 > tally.at(k).1 {
            k = j;
        }
        j = j + 1;
    }
    let mut next: usize = 0;
    let mut j: usize = 0;
    while j < count
        invariant
            j <= count,
            count == t.len(),
            t == tally.deep_view(),
            next == runner_up_first(t, k as int, j as int),
        decreases count - j,
    {
        if j != k && tally.at(j).1 > next {
            next = tally.at(j).1;
        }
        j = j + 1;
    }
    let top = tally.at(k);
    let n: usize = top.1;
    if n >= 4 && n as u128 * 10 >= total as u128 * 3 && n as u128 >= next as u128 * 2
        && !matching::label_has_concept(label, top.0.as_str()) && !matching::shared_stem(
        label,
        top.0.as_str(),
        3,
    ) {
        let mut note = text::cat3("  [", label, "] + '- ");
        note.append(top.0.as_str());
        note.append("' (");
        let a = text::dec(n as u128);
        note.append(a.as_str());
        note.append("/");
        let b = text::dec(total as u128);
        note.append(b.as_str());
        note.append(" categorized mods, runner-up ");
        let d = text::dec(next as u128);
        note.append(d.as_str());
        note.append(")");
        Some((top.0.clone(), note))
    } else {
        None
    }
}

fn concept_of(s: &Section, cats: Option<&Categories>) -> (r: Option<(String, String)>)
    ensures
        r.deep_view() == concept_for(s.deep_view(), cats.deep_view()),
{
    let ghost sv = s.deep_view();
    let mut mods: Vec<ModEntry> = list::none();
    let mut hits: usize = 0;
    let mut i: usize = 0;
    while i < s.mods.len()
        invariant
            i <= s.mods.len(),
            sv == s.deep_view(),
            mods.deep_view() == enabled_first(sv.mods, i as int),
        decreases s.mods.len() - i,
    {
        assert(sv.mods[i as int] == s.mods@[i as int].deep_view());
        if enabled(&s.mods[i]) {
            list::put(&mut mods, s.mods[i].clone());
        }
        i = i + 1;
    }
    assert(sv.mods.len() == s.mods.len());
    let ghost ms = mods.deep_view();
    let mut j: usize = 0;
    while j < mods.len()
        invariant
            j <= mods.len(),
            ms == mods.deep_view(),
            hits <= j,
            hits == frameworks_first(ms, j as int),
        decreases mods.len() - j,
    {
        assert(ms[j as int] == mods@[j as int].deep_view());
        let l = mods[j].name.as_str().to_lowercase();
        if framework_name(l.as_str()) {
            hits = hits + 1;
        }
        j = j + 1;
    }
    assert(ms.len() == mods.len());
    let label = s.label.as_str();
    if hits >= 2 && !matching::label_has_concept(label, "nsfw") {
        let mut note = text::cat3("  [", label, "] + '- NSFW' (");
        let n = text::dec(hits as u128);
        note.append(n.as_str());
        note.append(" framework mods inside)");
        return Some(("NSFW".to_string(), note));
    }
    if mods.len() < 4 {
        return None;
    }
    match cats {
        Some(c) => {
            if structural(label) {
                return None;
            }
            dominant_concept(label, &mods, c)
        },
        None => None,
    }
}

/// New labels for separators whose contents name a concept that the label does not
/// say. The notes go to `lines`.
pub fn suggest_renames(sections: &Vec<Section>, cats: Option<&Categories>, lines: &mut Vec<String>) -> (r: Vec<
    (usize, String),
>)
    ensures
        r.deep_view() == renames_first(
            sections.deep_view(),
            cats.deep_view(),
            sections.len() as int,
        ),
        final(lines).deep_view() == old(lines).deep_view() + rename_notes(
            sections.deep_view(),
            cats.deep_view(),
            sections.len() as int,
        ),
{
    let ghost before = lines.deep_view();
    let ghost secs = sections.deep_view();
    let ghost cv = cats.deep_view();
    let mut out: Vec<(usize, String)> = list::none();
    let mut i: usize = 0;
    assert(before + rename_notes(secs, cv, 0) =~= before);
    while i < sections.len()
        invariant
            i <= sections.len(),
            secs == sections.deep_view(),
            cv == cats.deep_view(),
            out.deep_view() == renames_first(secs, cv, i as int),
            lines.deep_view() == before + rename_notes(secs, cv, i as int),
        decreases sections.len() - i,
    {
        assert(secs[i as int] == sections@[i as int].deep_view());
        if let Some((c, note)) = concept_of(&sections[i], cats) {
            list::put(&mut out, (i, text::cat3(sections[i].label.as_str(), " - ", c.as_str())));
            list::put(lines, note);
        }
        i = i + 1;
        assert(lines.deep_view() =~= before + rename_notes(secs, cv, i as int));
    }
    out
}

/// New labels for the separators of a list.
pub fn suggest_sep_renames(ml: &Modlist, cats: Option<&Categories>, trace: &mut String) -> (r: Vec<
    (usize, String),
>)
    ensures
        r.deep_view() == renames_first(
            ml.deep_view().sections,
            cats.deep_view(),
            ml.deep_view().sections.len() as int,
        ),
        final(trace)@ == old(trace)@ + ended(
            rename_notes(
                ml.deep_view().sections,
                cats.deep_view(),
                ml.deep_view().sections.len() as int,
            ),
        ),
{
    let mut lines: Vec<String> = list::none();
    let ghost none = lines.deep_view();
    let r = suggest_renames(&ml.sections, cats, &mut lines);
    assert(ml.sections.deep_view().len() == ml.sections.len());
    assert(lines.deep_view() =~= rename_notes(
        ml.deep_view().sections,
        cats.deep_view(),
        ml.deep_view().sections.len() as int,
    ));
    let text = text::end_lines(&lines);
    trace.append(text.as_str());
    r
}

} // verus!
