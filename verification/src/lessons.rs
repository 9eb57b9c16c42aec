//! What is learned: where the user puts a mod, which separators are linked, and what the
//! keywords of records are evidence of.
use vstd::prelude::*;
#[allow(unused_imports)]
use crate::keys::{squeezed, with_item};
#[allow(unused_imports)]
use crate::learning::{is_operational, lessons_first, observed_first, taught_first, Homes, Lessons, Placements};
#[allow(unused_imports)]
use crate::libloot_adapter::{group_at, links_first, previous_group, GroupNames};
#[allow(unused_imports)]
use crate::map::{distinct_keys, found, insert_then_get};
#[allow(unused_imports)]
use crate::readback::{lemma_number_read_back, lemma_trim_tight, tight};
#[allow(unused_imports)]
use crate::record_keywords::{rule_of, rules_first, rules_of, rules_or_none, KeywordRuleView};
#[allow(unused_imports)]
use crate::text::{ascii_lowered, begins, decimal, ended, find_from, is_line, is_white, lemma_lines_read_back, lowercase, occurs_at, split_first, trimmed};

verus! {

// ---- moves of the user ----

/// The mod at `i` of the current layout was in another section before.
pub open spec fn has_moved(previous: Placements, current: Placements, i: int) -> bool {
    found(previous, current[i].0) matches Some(old_place) && old_place.section
        != current[i].1.section
}

/// It stands in the same section, but at another place.
pub open spec fn has_shifted(previous: Placements, current: Placements, i: int) -> bool {
    found(previous, current[i].0) matches Some(old_place) && old_place.section
        == current[i].1.section && old_place.priority != current[i].1.priority
}

/// How many of the first `n` mods were moved to a section that was not their home yet.
pub open spec fn moves(homes: Homes, previous: Placements, current: Placements, n: int) -> nat
    decreases n,
{
    if n <= 0 {
        0
    } else {
        moves(homes, previous, current, n - 1) + (if has_moved(previous, current, n - 1) && found(
            homes,
            current[n - 1].0,
        ) != Some(current[n - 1].1.section) {
            1nat
        } else {
            0
        })
    }
}

pub open spec fn shifts(previous: Placements, current: Placements, n: int) -> nat
    decreases n,
{
    if n <= 0 {
        0
    } else {
        shifts(previous, current, n - 1) + (if has_shifted(previous, current, n - 1) {
            1nat
        } else {
            0
        })
    }
}

/// The home of a mod once the first `n` mods are looked at.
pub open spec fn home_after(
    homes: Homes,
    previous: Placements,
    current: Placements,
    n: int,
    name: Seq<char>,
) -> Option<Seq<char>>
    decreases n,
{
    if n <= 0 {
        found(homes, name)
    } else if current[n - 1].0 == name && has_moved(previous, current, n - 1) {
        Some(current[n - 1].1.section)
    } else {
        home_after(homes, previous, current, n - 1, name)
    }
}

proof fn lemma_untouched(
    homes: Homes,
    previous: Placements,
    current: Placements,
    n: int,
    name: Seq<char>,
)
    requires
        0 <= n <= current.len(),
        forall|i: int| 0 <= i < n ==> (#[trigger] current[i]).0 != name,
    ensures
        home_after(homes, previous, current, n, name) == found(homes, name),
    decreases n,
{
    if n > 0 {
        assert(current[n - 1].0 != name);
        lemma_untouched(homes, previous, current, n - 1, name);
    }
}

proof fn lemma_observed(
    homes: Homes,
    previous: Placements,
    current: Placements,
    n: int,
    name: Seq<char>,
)
    requires
        0 <= n <= current.len(),
        distinct_keys(current),
    ensures
        ({
            let o = observed_first(homes, previous, current, n);
            &&& found(o.homes, name) == home_after(homes, previous, current, n, name)
            &&& o.corrections == moves(homes, previous, current, n)
            &&& o.adjustments == shifts(previous, current, n)
        }),
    decreases n,
{
    if n > 0 {
        lemma_observed(homes, previous, current, n - 1, name);
        let o = observed_first(homes, previous, current, n - 1);
        let (own, place) = current[n - 1];
        lemma_observed(homes, previous, current, n - 1, own);
        assert forall|i: int| 0 <= i < n - 1 implies (#[trigger] current[i]).0 != own by {
            assert(current[i].0 != current[n - 1].0);
        }
        lemma_untouched(homes, previous, current, n - 1, own);
        insert_then_get(o.homes, own, place.section, name);
    }
}

/// A mod that the user moved to another section has that one as its home from then on, and
/// every other home stays. The moves to a section that was no home yet are counted, and so
/// are the mods that were only shifted inside theirs.
pub proof fn moved_mods_have_a_new_home(
    homes: Homes,
    previous: Placements,
    current: Placements,
    name: Seq<char>,
)
    requires
        distinct_keys(current),
    ensures
        ({
            let n = current.len() as int;
            let o = observed_first(homes, previous, current, n);
            &&& found(o.homes, name) == home_after(homes, previous, current, n, name)
            &&& o.corrections == moves(homes, previous, current, n)
            &&& o.adjustments == shifts(previous, current, n)
        }),
{
    lemma_observed(homes, previous, current, current.len() as int, name);
}

/// The section teaches a home: it is no output, no end of the list and no game folder.
pub open spec fn teaches(section: Seq<char>) -> bool {
    !is_operational(section) && ascii_lowered(section) != ascii_lowered("Game Folder"@)
}

/// A section holds a mod, whatever the spelling of its name.
pub open spec fn holds_name(mods: Seq<Seq<char>>, name: Seq<char>) -> bool {
    exists|i: int| 0 <= i < mods.len() && squeezed(#[trigger] mods[i]) == name
}

proof fn lemma_taught(l: Lessons, section: Seq<char>, mods: Seq<Seq<char>>, n: int, name: Seq<char>)
    requires
        0 <= n <= mods.len(),
        name.len() > 0,
    ensures
        found(taught_first(l, section, mods, n).homes, name) == (if holds_name(
            mods.take(n),
            name,
        ) {
            Some(section)
        } else {
            found(l.homes, name)
        }),
    decreases n,
{
    if n > 0 {
        lemma_taught(l, section, mods, n - 1, name);
        let before = taught_first(l, section, mods, n - 1);
        let own = squeezed(mods[n - 1]);
        insert_then_get(before.homes, own, section, name);
        let a = mods.take(n - 1);
        let b = mods.take(n);
        if holds_name(a, name) {
            let i = choose|i: int| 0 <= i < a.len() && squeezed(#[trigger] a[i]) == name;
            assert(squeezed(b[i]) == name);
        }
        if own == name {
            assert(squeezed(b[n - 1]) == name);
        }
        if holds_name(b, name) && own != name {
            let i = choose|i: int| 0 <= i < b.len() && squeezed(#[trigger] b[i]) == name;
            assert(squeezed(a[i]) == name);
        }
    }
}

proof fn lemma_lessons(
    homes: Homes,
    sections: Seq<(Seq<char>, Seq<Seq<char>>)>,
    n: int,
    name: Seq<char>,
)
    requires
        0 < n <= sections.len(),
        name.len() > 0,
    ensures
        found(lessons_first(homes, sections, n).homes, name) == (if teaches(sections[n - 1].0)
            && holds_name(sections[n - 1].1, name) {
            Some(sections[n - 1].0)
        } else {
            found(lessons_first(homes, sections, n - 1).homes, name)
        }),
{
    let before = lessons_first(homes, sections, n - 1);
    let (section, mods) = sections[n - 1];
    if teaches(section) {
        lemma_taught(Lessons { homes: before.homes, count: 0 }, section, mods, mods.len() as int, name);
        assert(mods.take(mods.len() as int) =~= mods);
    }
}

/// A mod has its home in the last section that holds it and that teaches one. A mod in no
/// such section keeps the home that it had.
pub proof fn homes_are_learned_from_the_layout(
    homes: Homes,
    sections: Seq<(Seq<char>, Seq<Seq<char>>)>,
    n: int,
    name: Seq<char>,
)
    requires
        0 <= n <= sections.len(),
        name.len() > 0,
    ensures
        forall|i: int|
            0 <= i < n && teaches((#[trigger] sections[i]).0) && holds_name(sections[i].1, name) && (
            forall|j: int|
                i < j < n ==> !(teaches((#[trigger] sections[j]).0) && holds_name(
                    sections[j].1,
                    name,
                ))) ==> found(lessons_first(homes, sections, n).homes, name) == Some(
                sections[i].0,
            ),
        (forall|j: int|
            0 <= j < n ==> !(teaches((#[trigger] sections[j]).0) && holds_name(
                sections[j].1,
                name,
            ))) ==> found(lessons_first(homes, sections, n).homes, name) == found(homes, name),
    decreases n,
{
    if n > 0 {
        homes_are_learned_from_the_layout(homes, sections, n - 1, name);
        lemma_lessons(homes, sections, n, name);
    }
}

// ---- links between separators ----

pub proof fn lemma_with_item(s: Seq<Seq<char>>, x: Seq<char>, y: Seq<char>)
    ensures
        with_item(s, x).contains(y) == (s.contains(y) || x == y),
{
    let t = with_item(s, x);
    if s.contains(y) {
        let i = choose|i: int| 0 <= i < s.len() && s[i] == y;
        assert(t[i] == y);
    }
    if !s.contains(x) {
        assert(t[s.len() as int] == x);
        if t.contains(y) && x != y {
            let i = choose|i: int| 0 <= i < t.len() && t[i] == y;
            assert(s[i] == y);
        }
    }
}

/// One of the first `n` links puts that group before the separator.
pub open spec fn is_linked(
    names: GroupNames,
    links: Seq<(Seq<char>, Seq<char>)>,
    key: Seq<char>,
    n: int,
    g: Seq<char>,
) -> bool {
    exists|i: int|
        0 <= i < n && squeezed((#[trigger] links[i]).0) == key && found(names, squeezed(links[i].1))
            == Some(g)
}

proof fn lemma_links(
    after: Seq<Seq<char>>,
    names: GroupNames,
    links: Seq<(Seq<char>, Seq<char>)>,
    key: Seq<char>,
    n: int,
    g: Seq<char>,
)
    requires
        0 <= n <= links.len(),
    ensures
        links_first(after, names, links, key, n).contains(g) == (after.contains(g) || is_linked(
            names,
            links,
            key,
            n,
            g,
        )),
    decreases n,
{
    if n > 0 {
        lemma_links(after, names, links, key, n - 1, g);
        let before = links_first(after, names, links, key, n - 1);
        if squeezed(links[n - 1].0) == key && found(names, squeezed(links[n - 1].1)) is Some {
            lemma_with_item(before, found(names, squeezed(links[n - 1].1))->0, g);
        }
        if is_linked(names, links, key, n - 1, g) {
            let i = choose|i: int|
                0 <= i < n - 1 && squeezed((#[trigger] links[i]).0) == key && found(
                    names,
                    squeezed(links[i].1),
                ) == Some(g);
            assert(squeezed(links[i].0) == key);
        }
    }
}

/// A separator's group loads after the group of the separator before it, after every group
/// that a link puts before it, and after no other.
pub proof fn linked_groups_load_before(
    labels: Seq<Seq<char>>,
    names: GroupNames,
    links: Seq<(Seq<char>, Seq<char>)>,
    i: int,
    name: Seq<char>,
    g: Seq<char>,
)
    requires
        0 <= i < labels.len(),
    ensures
        group_at(labels, names, links, i, name).after.contains(g) == ((i > 0 && found(
            names,
            squeezed(labels[i - 1]),
        ) == Some(g)) || is_linked(
            names,
            links,
            squeezed(labels[i]),
            links.len() as int,
            g,
        )),
{
    let start = previous_group(labels, names, i);
    lemma_links(start, names, links, squeezed(labels[i]), links.len() as int, g);
    if i > 0 {
        match found(names, squeezed(labels[i - 1])) {
            Some(p) => {
                assert(start[0] == p);
                assert(start.contains(p));
            },
            None => {},
        }
    }
}

// ---- keywords of records ----

/// A row of a keyword table: a keyword, the concept that it is evidence of, and how strong
/// that is, if the row says so.
pub struct KeywordRow {
    pub key: Seq<char>,
    pub concept: Seq<char>,
    pub confidence: Option<u8>,
}

pub open spec fn keyword_line(r: KeywordRow) -> Seq<char> {
    "filterByKeywords="@ + r.key + ":concept="@ + r.concept + (match r.confidence {
        Some(n) => ":confidence="@ + decimal(n as nat),
        None => Seq::empty(),
    })
}

pub open spec fn keyword_lines(rows: Seq<KeywordRow>) -> Seq<Seq<char>> {
    Seq::new(rows.len(), |i: int| keyword_line(rows[i]))
}

pub open spec fn is_word(s: Seq<char>) -> bool {
    s.len() > 0 && tight(s) && !s.contains(':') && !s.contains('\n')
}

pub open spec fn row_sound(r: KeywordRow) -> bool {
    is_word(r.key) && is_word(r.concept)
}

/// The rules that the first `n` rows give a keyword; a row that does not say how strong it
/// is counts as eighty.
pub open spec fn rules_given(
    rows: Seq<KeywordRow>,
    n: int,
    key: Seq<char>,
) -> Seq<KeywordRuleView>
    decreases n,
{
    if n <= 0 {
        Seq::empty()
    } else {
        let before = rules_given(rows, n - 1, key);
        let r = rows[n - 1];
        if lowercase(r.key) == key {
            before.push(
                KeywordRuleView {
                    concept: r.concept,
                    confidence: match r.confidence {
                        Some(c) => c,
                        None => 80u8,
                    },
                },
            )
        } else {
            before
        }
    }
}

/// A separator that begins with a colon is first found behind a text without one.
proof fn lemma_found_at(s: Seq<char>, sep: Seq<char>, i: int, k: int)
    requires
        sep.len() > 0,
        sep[0] == ':',
        0 <= i <= k,
        k + sep.len() <= s.len(),
        s.subrange(k, k + sep.len()) == sep,
        forall|j: int| i <= j < k ==> s[j] != ':',
    ensures
        find_from(s, sep, i) == Some(k),
    decreases k - i,
{
    if i < k {
        if occurs_at(s, sep, i) {
            assert(s.subrange(i, i + sep.len())[0] == s[i]);
        }
        lemma_found_at(s, sep, i + 1, k);
    }
}

proof fn lemma_split(a: Seq<char>, sep: Seq<char>, b: Seq<char>)
    requires
        sep.len() > 0,
        sep[0] == ':',
        !a.contains(':'),
    ensures
        split_first(a + sep + b, sep) == Some((a, b)),
{
    let s = a + sep + b;
    let k = a.len() as int;
    assert(s.subrange(k, k + sep.len()) =~= sep);
    assert forall|j: int| 0 <= j < k implies s[j] != ':' by {
        assert(s[j] == a[j]);
    }
    lemma_found_at(s, sep, 0, k);
    assert(s.take(k) =~= a);
    assert(s.skip(k + sep.len()) =~= b);
}

proof fn lemma_no_split(a: Seq<char>, sep: Seq<char>, i: int)
    requires
        sep.len() > 0,
        sep[0] == ':',
        !a.contains(':'),
        0 <= i,
    ensures
        find_from(a, sep, i) is None,
    decreases a.len() + 1 - i,
{
    if i + sep.len() <= a.len() {
        if occurs_at(a, sep, i) {
            assert(a.subrange(i, i + sep.len())[0] == a[i]);
        }
        lemma_no_split(a, sep, i + 1);
    }
}

proof fn lemma_without(a: Seq<char>, b: Seq<char>, c: char)
    requires
        !a.contains(c),
        !b.contains(c),
    ensures
        !(a + b).contains(c),
{
    let s = a + b;
    if s.contains(c) {
        let i = choose|i: int| 0 <= i < s.len() && s[i] == c;
        if i < a.len() {
            assert(a[i] == c);
        } else {
            assert(b[i - a.len()] == c);
        }
    }
}

proof fn lemma_digits(n: nat)
    ensures
        decimal(n).len() > 0,
        forall|i: int| 0 <= i < decimal(n).len() ==> crate::text::is_digit(#[trigger] decimal(n)[i]),
{
    crate::readback::lemma_decimal(n);
}

proof fn lemma_keyword_line(r: KeywordRow)
    requires
        row_sound(r),
    ensures
        is_line(keyword_line(r)),
        trimmed(keyword_line(r)) == keyword_line(r),
        rule_of(keyword_line(r)) == Some(
            (
                lowercase(r.key),
                KeywordRuleView {
                    concept: r.concept,
                    confidence: match r.confidence {
                        Some(c) => c,
                        None => 80u8,
                    },
                },
            ),
        ),
{
    let head = "filterByKeywords="@;
    let mid = ":concept="@;
    let tail = ":confidence="@;
    reveal_strlit("filterByKeywords=");
    reveal_strlit(":concept=");
    reveal_strlit(":confidence=");
    reveal_strlit("#");
    reveal_strlit(";");
    assert(head[0] == 'f' && mid[0] == ':' && tail[0] == ':');
    assert(!head.contains('\n') && !mid.contains('\n') && !tail.contains('\n'));
    let l = keyword_line(r);
    let end = match r.confidence {
        Some(n) => tail + decimal(n as nat),
        None => Seq::empty(),
    };
    let rest = r.key + mid + (r.concept + end);
    assert(l =~= head + rest);
    assert(l.take(head.len() as int) =~= head);
    assert(l.skip(head.len() as int) =~= rest);
    lemma_split(r.key, mid, r.concept + end);
    lemma_trim_tight(r.key);
    lemma_trim_tight(r.concept);
    assert(!end.contains('\n') && (end.len() > 0 ==> !is_white(end.last()))) by {
        if r.confidence is Some {
            let n = r.confidence->0 as nat;
            lemma_digits(n);
            let d = decimal(n);
            if d.contains('\n') {
                let i = choose|i: int| 0 <= i < d.len() && d[i] == '\n';
                assert(crate::text::is_digit(d[i]));
            }
            lemma_without(tail, d, '\n');
            assert(end.last() == d[d.len() - 1]);
            assert(crate::text::is_digit(d[d.len() - 1]));
        }
    }
    lemma_without(head, r.key, '\n');
    lemma_without(head + r.key, mid, '\n');
    lemma_without(head + r.key + mid, r.concept, '\n');
    lemma_without(head + r.key + mid + r.concept, end, '\n');
    assert(l[0] == 'f');
    if end.len() > 0 {
        assert(l.last() == end.last());
    } else {
        assert(end =~= Seq::empty());
        assert(l =~= head + r.key + mid + r.concept);
        assert(l.last() == r.concept.last());
    }
    assert(is_white('\r'));
    lemma_trim_tight(l);
    assert(!begins(l, "#"@)) by {
        assert(l.take(1)[0] == 'f');
        assert("#"@[0] == '#');
    }
    assert(!begins(l, ";"@)) by {
        assert(l.take(1)[0] == 'f');
        assert(";"@[0] == ';');
    }
    match r.confidence {
        Some(n) => {
            let d = decimal(n as nat);
            lemma_digits(n as nat);
            lemma_split(r.concept, tail, d);
            assert(r.concept + end =~= r.concept + tail + d);
            assert(crate::text::is_digit(d[0]) && crate::text::is_digit(d[d.len() - 1]));
            lemma_trim_tight(d);
            lemma_number_read_back(n as nat, 255);
        },
        None => {
            assert(r.concept + end =~= r.concept);
            lemma_no_split(r.concept, tail, 0);
        },
    }
}

proof fn lemma_rules(rows: Seq<KeywordRow>, n: int, key: Seq<char>)
    requires
        0 <= n <= rows.len(),
        forall|i: int| 0 <= i < rows.len() ==> row_sound(#[trigger] rows[i]),
    ensures
        rules_or_none(found(rules_first(keyword_lines(rows), n), key)) == rules_given(rows, n, key),
        found(rules_first(keyword_lines(rows), n), key) is Some == (rules_given(
            rows,
            n,
            key,
        ).len() > 0),
    decreases n,
{
    if n > 0 {
        lemma_rules(rows, n - 1, key);
        let r = rows[n - 1];
        assert(row_sound(rows[n - 1]));
        lemma_keyword_line(r);
        let lines = keyword_lines(rows);
        assert(lines[n - 1] == keyword_line(r));
        let before = rules_first(lines, n - 1);
        let own = lowercase(r.key);
        let rule = KeywordRuleView {
            concept: r.concept,
            confidence: match r.confidence {
                Some(c) => c,
                None => 80u8,
            },
        };
        lemma_rules(rows, n - 1, own);
        insert_then_get(before, own, rules_or_none(found(before, own)).push(rule), key);
    } else {
        assert(rules_given(rows, 0, key) =~= Seq::empty());
    }
}

/// The rows of a keyword table are read back, for each keyword in their order and whatever
/// the case of the keyword.
pub proof fn keyword_tables_are_read_as_written(rows: Seq<KeywordRow>, key: Seq<char>)
    requires
        forall|i: int| 0 <= i < rows.len() ==> row_sound(#[trigger] rows[i]),
    ensures
        ({
            let given = rules_given(rows, rows.len() as int, key);
            found(rules_of(ended(keyword_lines(rows))), key) == (if given.len() > 0 {
                Some(given)
            } else {
                None
            })
        }),
{
    let lines = keyword_lines(rows);
    assert forall|i: int| 0 <= i < lines.len() implies is_line(#[trigger] lines[i]) by {
        assert(row_sound(rows[i]));
        lemma_keyword_line(rows[i]);
    }
    lemma_lines_read_back(lines);
    lemma_rules(rows, rows.len() as int, key);
}

} // verus!
