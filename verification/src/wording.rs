//! What a rule file tells: whoever writes rules down finds each of them again in what is
//! read, in its list and in its place.
use vstd::prelude::*;
#[allow(unused_imports)]
use crate::readback::{all_white, lemma_split_at, lemma_trim_padded, lemma_trim_tight, tight};
#[allow(unused_imports)]
use crate::rules::{sides, tidied, with_line, with_lines, with_text, RulesView};
#[allow(unused_imports)]
use crate::text::{ascii_lowered, begins, ended, find_from, is_line, is_white, lemma_find, lemma_lines_read_back, lowercase, occurs_at, split_first, split_on, trimmed};

verus! {

// ---- how rules are written ----

/// A line of a rule file.
pub enum Written {
    /// `! mod = section`
    Exact(Seq<char>, Seq<char>),
    /// `! dump = section`, in whatever case
    Dump(Seq<char>, Seq<char>),
    /// `! rename-separators` or `! proven-only`, in whatever case
    Switch(Seq<char>),
    /// `> separator = separator`
    Promote(Seq<char>, Seq<char>),
    /// `< mod = section`
    Sink(Seq<char>, Seq<char>),
    /// `< mod`
    SinkAny(Seq<char>),
    /// `^ mod = section`
    Float(Seq<char>, Seq<char>),
    /// `@ category = section`
    Category(Seq<char>, Seq<char>),
    /// `phrase !exclusion !exclusion = section`
    Keyword(Seq<char>, Seq<Seq<char>>, Seq<char>),
    /// A comment.
    Comment(Seq<char>),
}

pub open spec fn marked(mark: char, s: Seq<char>) -> Seq<char> {
    seq![mark, ' '] + s
}

pub open spec fn equated(a: Seq<char>, b: Seq<char>) -> Seq<char> {
    a + seq![' ', '=', ' '] + b
}

/// The phrase with the first `n` exclusions.
pub open spec fn phrased(phrase: Seq<char>, exclusions: Seq<Seq<char>>, n: int) -> Seq<char>
    decreases n,
{
    if n <= 0 {
        phrase
    } else {
        phrased(phrase, exclusions, n - 1) + seq![' ', '!'] + exclusions[n - 1]
    }
}

pub open spec fn rule_line(w: Written) -> Seq<char> {
    match w {
        Written::Exact(a, b) => marked('!', equated(a, b)),
        Written::Dump(a, b) => marked('!', equated(a, b)),
        Written::Switch(a) => marked('!', a),
        Written::Promote(a, b) => marked('>', equated(a, b)),
        Written::Sink(a, b) => marked('<', equated(a, b)),
        Written::SinkAny(a) => marked('<', a),
        Written::Float(a, b) => marked('^', equated(a, b)),
        Written::Category(a, b) => marked('@', equated(a, b)),
        Written::Keyword(phrase, exclusions, b) => equated(
            phrased(phrase, exclusions, exclusions.len() as int),
            b,
        ),
        Written::Comment(a) => marked('#', a),
    }
}

/// A text that can stand at either end of a rule.
pub open spec fn is_side(s: Seq<char>) -> bool {
    s.len() > 0 && tight(s) && !s.contains('\n')
}

/// A text that can stand in front of an equals sign.
pub open spec fn is_left(s: Seq<char>) -> bool {
    is_side(s) && !s.contains('=')
}

pub open spec fn is_word(s: Seq<char>) -> bool {
    is_left(s) && !s.contains('!')
}

pub open spec fn keyword_sound(phrase: Seq<char>, exclusions: Seq<Seq<char>>) -> bool {
    &&& is_word(phrase)
    &&& phrase[0] != '>' && phrase[0] != '<' && phrase[0] != '^' && phrase[0] != '@' && phrase[0]
        != '#'
    &&& forall|i: int| 0 <= i < exclusions.len() ==> is_word(#[trigger] exclusions[i])
}

pub open spec fn rule_sound(w: Written) -> bool {
    match w {
        Written::Exact(a, b) => is_left(a) && is_side(b) && ascii_lowered(a) != ascii_lowered(
            "dump"@,
        ),
        Written::Dump(a, b) => is_left(a) && is_side(b) && ascii_lowered(a) == ascii_lowered(
            "dump"@,
        ),
        Written::Switch(a) => is_left(a),
        Written::Promote(a, b) => is_left(a) && is_side(b),
        Written::Sink(a, b) => is_left(a) && is_side(b),
        Written::SinkAny(a) => is_left(a),
        Written::Float(a, b) => is_left(a) && is_side(b),
        Written::Category(a, b) => is_left(a) && is_side(b),
        Written::Keyword(phrase, exclusions, b) => keyword_sound(phrase, exclusions) && is_side(b),
        Written::Comment(a) => is_side(a),
    }
}

// ---- what they mean ----

/// The rules with one more, at the end of its own list.
pub open spec fn told(r: RulesView, w: Written) -> RulesView {
    match w {
        Written::Exact(a, b) => RulesView { exact: r.exact.push((a, b)), ..r },
        Written::Dump(_, b) => RulesView { dump: r.dump.push(b), ..r },
        Written::Switch(a) => RulesView {
            rename_separators: r.rename_separators || lowercase(a) == "rename-separators"@,
            proven_only: r.proven_only || lowercase(a) == "proven-only"@,
            ..r
        },
        Written::Promote(a, b) => RulesView { promote: r.promote.push((a, b)), ..r },
        Written::Sink(a, b) => RulesView { sink: r.sink.push((a, b)), ..r },
        Written::SinkAny(a) => RulesView { sink_any: r.sink_any.push(a), ..r },
        Written::Float(a, b) => RulesView { float: r.float.push((a, b)), ..r },
        Written::Category(a, b) => RulesView {
            category: r.category.push((lowercase(a), b)),
            ..r
        },
        Written::Keyword(phrase, exclusions, b) => RulesView {
            keyword: r.keyword.push(
                (lowercase(phrase), exclusions.map_values(|e: Seq<char>| lowercase(e)), b),
            ),
            ..r
        },
        Written::Comment(_) => r,
    }
}

pub open spec fn all_told(r: RulesView, ws: Seq<Written>, n: int) -> RulesView
    decreases n,
{
    if n <= 0 {
        r
    } else {
        told(all_told(r, ws, n - 1), ws[n - 1])
    }
}

pub open spec fn rule_lines(ws: Seq<Written>) -> Seq<Seq<char>> {
    Seq::new(ws.len(), |i: int| rule_line(ws[i]))
}

// ---- sides ----

proof fn lemma_marks()
    ensures
        "!"@ == seq!['!'],
        ">"@ == seq!['>'],
        "<"@ == seq!['<'],
        "^"@ == seq!['^'],
        "@"@ == seq!['@'],
        "#"@ == seq!['#'],
        "="@ == seq!['='],
        " !"@ == seq![' ', '!'],
{
    reveal_strlit("!");
    reveal_strlit(">");
    reveal_strlit("<");
    reveal_strlit("^");
    reveal_strlit("@");
    reveal_strlit("#");
    reveal_strlit("=");
    reveal_strlit(" !");
    assert("!"@ =~= seq!['!']);
    assert(">"@ =~= seq!['>']);
    assert("<"@ =~= seq!['<']);
    assert("^"@ =~= seq!['^']);
    assert("@"@ =~= seq!['@']);
    assert("#"@ =~= seq!['#']);
    assert("="@ =~= seq!['=']);
    assert(" !"@ =~= seq![' ', '!']);
}

proof fn lemma_first_char(s: Seq<char>, c: char)
    requires
        s.len() > 0,
    ensures
        begins(s, seq![c]) == (s[0] == c),
{
    assert(s.take(1) =~= seq![s[0]]);
    assert(seq![s[0]][0] == s[0]);
    assert(seq![c][0] == c);
}

proof fn lemma_without(a: Seq<char>, b: Seq<char>, c: char)
    requires
        !a.contains(c),
        !b.contains(c),
    ensures
        !(a + b).contains(c),
{
    let s = a + b;
    if s.contains(c) {
        let i = choose|i: int| 0 <= i < s.len() && s[i] == c;
        if i < a.len() {
            assert(a[i] == c);
        } else {
            assert(b[i - a.len()] == c);
        }
    }
}

/// The sides of an equation, behind a space or not.
proof fn lemma_sides(pad: Seq<char>, a: Seq<char>, b: Seq<char>)
    requires
        is_left(a),
        is_side(b),
        pad == Seq::<char>::empty() || pad == seq![' '],
    ensures
        sides(pad + equated(a, b)) == Some((a, b)),
        split_first(pad + equated(a, b), "="@) == Some((pad + a + seq![' '], seq![' '] + b)),
{
    lemma_marks();
    let one = seq![' '];
    let none = Seq::<char>::empty();
    let front = pad + a + one;
    lemma_without(pad, a, '=');
    lemma_without(pad + a, one, '=');
    lemma_split_at(front, '=', one + b);
    assert(front + seq!['='] + (one + b) =~= pad + equated(a, b));
    assert(all_white(pad));
    assert(all_white(one));
    assert(all_white(none));
    lemma_trim_padded(pad, a, one);
    lemma_trim_padded(one, b, none);
    assert(one + b + none =~= one + b);
}

proof fn lemma_no_sides(a: Seq<char>)
    requires
        is_left(a),
    ensures
        sides(seq![' '] + a) is None,
        trimmed(seq![' '] + a) == a,
{
    lemma_marks();
    let one = seq![' '];
    let none = Seq::<char>::empty();
    lemma_without(one, a, '=');
    crate::readback::lemma_no_split(one + a, '=');
    assert(all_white(one));
    assert(all_white(none));
    lemma_trim_padded(one, a, none);
    assert(one + a + none =~= one + a);
}

proof fn lemma_equated(a: Seq<char>, b: Seq<char>)
    requires
        is_side(a),
        is_side(b),
    ensures
        is_side(equated(a, b)),
        equated(a, b)[0] == a[0],
{
    let mid = seq![' ', '=', ' '];
    lemma_without(a, mid, '\n');
    lemma_without(a + mid, b, '\n');
    assert(equated(a, b).last() == b.last());
}

proof fn lemma_marked(mark: char, s: Seq<char>)
    requires
        is_side(s),
        !is_white(mark),
        mark != '\n',
    ensures
        is_side(marked(mark, s)),
        marked(mark, s)[0] == mark,
        marked(mark, s).skip(1) == seq![' '] + s,
{
    let pre = seq![mark, ' '];
    assert(!pre.contains('\n'));
    lemma_without(pre, s, '\n');
    assert(marked(mark, s).last() == s.last());
    assert(marked(mark, s).skip(1) =~= seq![' '] + s);
}

// ---- exclusions ----

/// The mark of an exclusion, by its characters.
proof fn lemma_mark_at(s: Seq<char>, i: int)
    ensures
        occurs_at(s, seq![' ', '!'], i) == (0 <= i && i + 1 < s.len() && s[i] == ' ' && s[i + 1]
            == '!'),
{
    let p = seq![' ', '!'];
    if 0 <= i && i + 1 < s.len() {
        let t = s.subrange(i, i + 2);
        assert(t[0] == s[i] && t[1] == s[i + 1]);
        assert(p[0] == ' ' && p[1] == '!');
        if s[i] == ' ' && s[i + 1] == '!' {
            assert(t =~= p);
        }
    }
}

proof fn lemma_find_mark(s: Seq<char>, i: int, k: int)
    requires
        0 <= i <= k,
        k + 1 < s.len(),
        s[k] == ' ',
        s[k + 1] == '!',
        forall|j: int| i <= j <= k ==> s[j] != '!',
    ensures
        find_from(s, seq![' ', '!'], i) == Some(k),
    decreases k - i,
{
    lemma_mark_at(s, i);
    if i < k {
        assert(s[i + 1] != '!');
        lemma_find_mark(s, i + 1, k);
    }
}

proof fn lemma_first_mark(a: Seq<char>, rest: Seq<char>)
    requires
        !a.contains('!'),
    ensures
        find_from(a + seq![' ', '!'] + rest, seq![' ', '!'], 0) == Some(a.len() as int),
{
    let p = seq![' ', '!'];
    let s = a + p + rest;
    let k = a.len() as int;
    assert(p[0] == ' ' && p[1] == '!');
    assert(s[k] == p[0]);
    assert(s[k + 1] == p[1]);
    assert forall|j: int| 0 <= j <= k implies s[j] != '!' by {
        if j < k {
            assert(s[j] == a[j]);
        }
    }
    lemma_find_mark(s, 0, k);
}

/// What stands before the first mark of an exclusion is the first part.
proof fn lemma_split_step(a: Seq<char>, rest: Seq<char>)
    requires
        !a.contains('!'),
    ensures
        split_on(a + seq![' ', '!'] + rest, seq![' ', '!']) == seq![a] + split_on(
            rest,
            seq![' ', '!'],
        ),
{
    let p = seq![' ', '!'];
    let s = a + p + rest;
    let k = a.len() as int;
    lemma_first_mark(a, rest);
    assert(s.take(k) =~= a);
    assert(s.skip(k + 2) =~= rest);
}

proof fn lemma_split_none(a: Seq<char>)
    requires
        !a.contains('!'),
    ensures
        split_on(a, seq![' ', '!']) == seq![a],
{
    let p = seq![' ', '!'];
    lemma_find(a, p, 0);
    if find_from(a, p, 0) is Some {
        let i = find_from(a, p, 0)->0;
        lemma_mark_at(a, i);
        assert(a[i + 1] == '!');
    }
}

/// The exclusions from `i` on, each behind its mark, and then a space.
spec fn tail_from(exclusions: Seq<Seq<char>>, i: int) -> Seq<char>
    decreases exclusions.len() - i,
{
    if i < 0 || i >= exclusions.len() {
        seq![' ']
    } else {
        seq![' ', '!'] + exclusions[i] + tail_from(exclusions, i + 1)
    }
}

proof fn lemma_phrased_tail(phrase: Seq<char>, exclusions: Seq<Seq<char>>, n: int)
    requires
        0 <= n <= exclusions.len(),
    ensures
        phrased(phrase, exclusions, exclusions.len() as int) + seq![' '] == phrased(
            phrase,
            exclusions,
            n,
        ) + tail_from(exclusions, n),
    decreases exclusions.len() - n,
{
    if n < exclusions.len() {
        lemma_phrased_tail(phrase, exclusions, n + 1);
        assert(phrased(phrase, exclusions, n + 1) + tail_from(exclusions, n + 1) =~= phrased(
            phrase,
            exclusions,
            n,
        ) + tail_from(exclusions, n));
    }
}

/// The parts of what precedes the equals sign, trimmed and in lower case.
proof fn lemma_parts(head: Seq<char>, exclusions: Seq<Seq<char>>, i: int)
    requires
        0 <= i <= exclusions.len(),
        is_word(head),
        forall|j: int| 0 <= j < exclusions.len() ==> is_word(#[trigger] exclusions[j]),
    ensures
        ({
            let ps = split_on(head + tail_from(exclusions, i), seq![' ', '!']);
            &&& ps.len() == exclusions.len() - i + 1
            &&& trimmed(ps[0]) == head
            &&& forall|j: int|
                1 <= j < ps.len() ==> trimmed(#[trigger] ps[j]) == exclusions[i + j - 1]
        }),
    decreases exclusions.len() - i,
{
    let one = seq![' '];
    let none = Seq::<char>::empty();
    assert(all_white(one));
    assert(all_white(none));
    let s = head + tail_from(exclusions, i);
    if i == exclusions.len() {
        lemma_without(head, one, '!');
        lemma_split_none(head + one);
        lemma_trim_padded(none, head, one);
        assert(none + head + one =~= head + one);
    } else {
        let e = exclusions[i];
        assert(is_word(exclusions[i]));
        lemma_split_step(head, e + tail_from(exclusions, i + 1));
        assert(s =~= head + seq![' ', '!'] + (e + tail_from(exclusions, i + 1)));
        lemma_parts(e, exclusions, i + 1);
        lemma_trim_tight(head);
        let ps = split_on(s, seq![' ', '!']);
        let qs = split_on(e + tail_from(exclusions, i + 1), seq![' ', '!']);
        assert(ps =~= seq![head] + qs);
        assert forall|j: int| 1 <= j < ps.len() implies trimmed(#[trigger] ps[j])
            == exclusions[i + j - 1] by {
            assert(ps[j] == qs[j - 1]);
            if j > 1 {
                assert(trimmed(qs[j - 1]) == exclusions[i + 1 + (j - 1) - 1]);
            }
        }
    }
}

proof fn lemma_phrased(phrase: Seq<char>, exclusions: Seq<Seq<char>>, n: int)
    requires
        0 <= n <= exclusions.len(),
        is_word(phrase),
        forall|j: int| 0 <= j < exclusions.len() ==> is_word(#[trigger] exclusions[j]),
    ensures
        is_left(phrased(phrase, exclusions, n)),
        phrased(phrase, exclusions, n)[0] == phrase[0],
    decreases n,
{
    if n > 0 {
        lemma_phrased(phrase, exclusions, n - 1);
        let a = phrased(phrase, exclusions, n - 1);
        let mid = seq![' ', '!'];
        let e = exclusions[n - 1];
        assert(is_word(exclusions[n - 1]));
        lemma_without(a, mid, '\n');
        lemma_without(a + mid, e, '\n');
        lemma_without(a, mid, '=');
        lemma_without(a + mid, e, '=');
        assert(phrased(phrase, exclusions, n).last() == e.last());
    }
}

proof fn lemma_keyword(r: RulesView, phrase: Seq<char>, exclusions: Seq<Seq<char>>, b: Seq<char>)
    requires
        keyword_sound(phrase, exclusions),
        is_side(b),
    ensures
        is_side(rule_line(Written::Keyword(phrase, exclusions, b))),
        with_line(r, rule_line(Written::Keyword(phrase, exclusions, b))) == told(
            r,
            Written::Keyword(phrase, exclusions, b),
        ),
{
    lemma_marks();
    let n = exclusions.len() as int;
    let a = phrased(phrase, exclusions, n);
    let l = equated(a, b);
    let none = Seq::<char>::empty();
    lemma_phrased(phrase, exclusions, n);
    lemma_equated(a, b);
    lemma_trim_tight(l);
    assert(phrase.contains(phrase[0]));
    lemma_first_char(l, '#');
    lemma_first_char(l, '!');
    lemma_first_char(l, '>');
    lemma_first_char(l, '<');
    lemma_first_char(l, '^');
    lemma_first_char(l, '@');
    lemma_sides(none, a, b);
    assert(none + l =~= l);
    assert(none + a + seq![' '] =~= a + seq![' ']);
    lemma_phrased_tail(phrase, exclusions, 0);
    lemma_parts(phrase, exclusions, 0);
    let ps = split_on(a + seq![' '], seq![' ', '!']);
    lemma_trim_padded(seq![' '], b, none);
    assert(all_white(seq![' ']));
    assert(seq![' '] + b + none =~= seq![' '] + b);
    assert(tidied(ps.skip(1)) =~= exclusions.map_values(|e: Seq<char>| lowercase(e))) by {
        assert forall|j: int| 0 <= j < n implies tidied(ps.skip(1))[j] == lowercase(
            exclusions[j],
        ) by {
            assert(ps.skip(1)[j] == ps[j + 1]);
            assert(trimmed(ps[j + 1]) == exclusions[0 + (j + 1) - 1]);
        }
    }
}

// ---- lines ----

proof fn lemma_rule(r: RulesView, w: Written)
    requires
        rule_sound(w),
    ensures
        is_side(rule_line(w)),
        with_line(r, rule_line(w)) == told(r, w),
{
    lemma_marks();
    let one = seq![' '];
    let l = rule_line(w);
    match w {
        Written::Keyword(phrase, exclusions, b) => {
            lemma_keyword(r, phrase, exclusions, b);
        },
        Written::Comment(a) => {
            lemma_marked('#', a);
            lemma_trim_tight(l);
            lemma_first_char(l, '#');
        },
        Written::Switch(a) => {
            lemma_marked('!', a);
            lemma_trim_tight(l);
            lemma_no_sides(a);
            lemma_first_char(l, '#');
            lemma_first_char(l, '!');
            assert("rename-separators"@ != "proven-only"@) by {
                reveal_strlit("rename-separators");
                reveal_strlit("proven-only");
                assert("rename-separators"@.len() != "proven-only"@.len());
            }
        },
        Written::SinkAny(a) => {
            lemma_marked('<', a);
            lemma_trim_tight(l);
            lemma_no_sides(a);
            lemma_first_char(l, '#');
            lemma_first_char(l, '!');
            lemma_first_char(l, '>');
            lemma_first_char(l, '<');
        },
        Written::Exact(a, b) => {
            lemma_pair('!', a, b);
        },
        Written::Dump(a, b) => {
            lemma_pair('!', a, b);
        },
        Written::Promote(a, b) => {
            lemma_pair('>', a, b);
        },
        Written::Sink(a, b) => {
            lemma_pair('<', a, b);
        },
        Written::Float(a, b) => {
            lemma_pair('^', a, b);
        },
        Written::Category(a, b) => {
            lemma_pair('@', a, b);
        },
    }
}

proof fn lemma_pair(mark: char, a: Seq<char>, b: Seq<char>)
    requires
        is_left(a),
        is_side(b),
        mark == '!' || mark == '>' || mark == '<' || mark == '^' || mark == '@',
    ensures
        ({
            let l = marked(mark, equated(a, b));
            &&& is_side(l)
            &&& trimmed(l) == l
            &&& sides(l.skip(1)) == Some((a, b))
            &&& begins(l, "!"@) == (mark == '!')
            &&& begins(l, ">"@) == (mark == '>')
            &&& begins(l, "<"@) == (mark == '<')
            &&& begins(l, "^"@) == (mark == '^')
            &&& begins(l, "@"@) == (mark == '@')
            &&& !begins(l, "#"@)
        }),
{
    lemma_marks();
    let l = marked(mark, equated(a, b));
    lemma_equated(a, b);
    lemma_marked(mark, equated(a, b));
    lemma_trim_tight(l);
    lemma_sides(seq![' '], a, b);
    lemma_first_char(l, '#');
    lemma_first_char(l, '!');
    lemma_first_char(l, '>');
    lemma_first_char(l, '<');
    lemma_first_char(l, '^');
    lemma_first_char(l, '@');
}

proof fn lemma_rules(r: RulesView, ws: Seq<Written>, n: int)
    requires
        0 <= n <= ws.len(),
        forall|i: int| 0 <= i < ws.len() ==> rule_sound(#[trigger] ws[i]),
    ensures
        with_lines(r, rule_lines(ws), n) == all_told(r, ws, n),
    decreases n,
{
    if n > 0 {
        lemma_rules(r, ws, n - 1);
        assert(rule_sound(ws[n - 1]));
        lemma_rule(all_told(r, ws, n - 1), ws[n - 1]);
        assert(rule_lines(ws)[n - 1] == rule_line(ws[n - 1]));
    }
}

/// Rules that are written down are read in their order, each into the list of its kind and
/// into no other.
pub proof fn rules_are_read_as_written(r: RulesView, ws: Seq<Written>)
    requires
        forall|i: int| 0 <= i < ws.len() ==> rule_sound(#[trigger] ws[i]),
    ensures
        with_text(r, ended(rule_lines(ws))) == all_told(r, ws, ws.len() as int),
{
    let lines = rule_lines(ws);
    assert forall|i: int| 0 <= i < lines.len() implies is_line(#[trigger] lines[i]) by {
        assert(rule_sound(ws[i]));
        lemma_rule(r, ws[i]);
        assert(is_white('\r'));
    }
    lemma_lines_read_back(lines);
    lemma_rules(r, ws, ws.len() as int);
}

} // verus!
