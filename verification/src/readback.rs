//! Facts about writing text and reading it back: padding, separators and numbers.
use vstd::prelude::*;
use crate::keys::{squeezed, squeezed_first};
#[allow(unused_imports)]
use crate::map::{distinct_keys, found, inserted, key_from, lemma_key_from};
#[allow(unused_imports)]
use crate::text::{char_replaced, ended_first, is_alnum, is_line, joined, joined_first, lemma_lines_cut, cut, lemma_line_end, line_end, lines_from, lines_of, lower_char, without_cr, before_white, decimal, digit, find_from, is_digit, is_white, lemma_before_white, lemma_find, lemma_past_white, number, occurs_at, past_white, split_first, trimmed, trimmed_end, trimmed_start, value_first};

verus! {

/// Nothing is to be trimmed.
pub open spec fn tight(s: Seq<char>) -> bool {
    s.len() > 0 ==> !is_white(s[0]) && !is_white(s.last())
}

pub open spec fn all_white(s: Seq<char>) -> bool {
    forall|i: int| 0 <= i < s.len() ==> is_white(#[trigger] s[i])
}

proof fn lemma_past_padding(s: Seq<char>, i: int, k: int)
    requires
        0 <= i <= k <= s.len(),
        forall|j: int| i <= j < k ==> is_white(#[trigger] s[j]),
        k < s.len() ==> !is_white(s[k]),
    ensures
        past_white(s, i) == k,
    decreases k - i,
{
    if i < k {
        assert(is_white(s[i]));
        lemma_past_padding(s, i + 1, k);
    }
}

proof fn lemma_before_padding(s: Seq<char>, n: int, k: int)
    requires
        0 <= k <= n <= s.len(),
        forall|j: int| k <= j < n ==> is_white(#[trigger] s[j]),
        k > 0 ==> !is_white(s[k - 1]),
    ensures
        before_white(s, n) == k,
    decreases n - k,
{
    if k < n {
        assert(is_white(s[n - 1]));
        lemma_before_padding(s, n - 1, k);
    }
}

/// Trimming takes the padding off, and no more.
pub proof fn lemma_trim_padded(a: Seq<char>, s: Seq<char>, b: Seq<char>)
    requires
        all_white(a),
        all_white(b),
        tight(s),
    ensures
        trimmed(a + s + b) == s,
{
    let t = a + s + b;
    if s.len() > 0 {
        assert(t[a.len() as int] == s[0]);
        assert forall|j: int| 0 <= j < a.len() implies is_white(#[trigger] t[j]) by {
            assert(t[j] == a[j]);
        }
        lemma_past_padding(t, 0, a.len() as int);
        let u = trimmed_start(t);
        assert(u =~= s + b);
        assert(u[s.len() - 1] == s.last());
        assert forall|j: int| s.len() <= j < u.len() implies is_white(#[trigger] u[j]) by {
            assert(u[j] == b[j - s.len()]);
        }
        lemma_before_padding(u, u.len() as int, s.len() as int);
        assert(trimmed_end(u) =~= s);
    } else {
        assert forall|j: int| 0 <= j < t.len() implies is_white(#[trigger] t[j]) by {
            if j < a.len() {
                assert(t[j] == a[j]);
            } else {
                assert(t[j] == b[j - a.len()]);
            }
        }
        lemma_past_padding(t, 0, t.len() as int);
        assert(trimmed(t) =~= s);
    }
}

pub proof fn lemma_trim_tight(s: Seq<char>)
    requires
        tight(s),
    ensures
        trimmed(s) == s,
{
    let none = Seq::<char>::empty();
    lemma_trim_padded(none, s, none);
    assert(none + s + none =~= s);
}

/// What is trimmed is tight.
pub proof fn lemma_trimmed_is_tight(s: Seq<char>)
    ensures
        tight(trimmed(s)),
{
    lemma_past_white(s, 0);
    let t = trimmed_start(s);
    lemma_before_white(t, t.len() as int);
}

/// A text is split at the first separator.
pub proof fn lemma_split_at(a: Seq<char>, c: char, b: Seq<char>)
    requires
        !a.contains(c),
    ensures
        split_first(a + seq![c] + b, seq![c]) == Some((a, b)),
{
    let s = a + seq![c] + b;
    let p = seq![c];
    lemma_find(s, p, 0);
    assert(occurs_at(s, p, a.len() as int)) by {
        assert(s.subrange(a.len() as int, a.len() as int + 1) =~= p);
    }
    let k = find_from(s, p, 0)->0;
    if k < a.len() {
        assert(s.subrange(k, k + 1)[0] == c);
        assert(a[k] == c);
    }
    assert(s.take(k) =~= a);
    assert(s.skip(k + 1) =~= b);
}

/// A text without the separator is not split.
pub proof fn lemma_no_split(s: Seq<char>, c: char)
    requires
        !s.contains(c),
    ensures
        split_first(s, seq![c]) is None,
{
    lemma_find(s, seq![c], 0);
    if find_from(s, seq![c], 0) is Some {
        let k = find_from(s, seq![c], 0)->0;
        assert(s.subrange(k, k + 1)[0] == c);
        assert(s[k] == c);
    }
}

// ---- numbers ----

proof fn lemma_value_same(a: Seq<char>, b: Seq<char>, n: int)
    requires
        0 <= n <= a.len(),
        n <= b.len(),
        a.take(n) == b.take(n),
    ensures
        value_first(a, n) == value_first(b, n),
    decreases n,
{
    if n > 0 {
        assert(a.take(n - 1) =~= a.take(n).take(n - 1));
        assert(b.take(n - 1) =~= b.take(n).take(n - 1));
        assert(a[n - 1] == a.take(n)[n - 1]);
        assert(b[n - 1] == b.take(n)[n - 1]);
        lemma_value_same(a, b, n - 1);
    }
}

/// The digits of a number are digits, and spell it.
pub proof fn lemma_decimal(n: nat)
    ensures
        decimal(n).len() > 0,
        forall|i: int| 0 <= i < decimal(n).len() ==> is_digit(#[trigger] decimal(n)[i]),
        value_first(decimal(n), decimal(n).len() as int) == Some(n),
    decreases n,
{
    let s = decimal(n);
    if n < 10 {
        assert(s.len() == 1);
        assert(is_digit(s[0]));
        assert(value_first(s, 0) == Some(0nat));
        assert(value_first(s, 1) == Some(n));
    } else {
        let q = n / 10;
        let t = decimal(q);
        lemma_decimal(q);
        let d = digit((n % 10) as int);
        assert(is_digit(d) && d as u32 - 48 == n % 10);
        assert(s == t.push(d));
        assert(s.take(t.len() as int) =~= t.take(t.len() as int));
        lemma_value_same(s, t, t.len() as int);
        assert forall|i: int| 0 <= i < s.len() implies is_digit(#[trigger] s[i]) by {
            if i < t.len() {
                assert(s[i] == t[i]);
            }
        }
        assert(q * 10 + n % 10 == n);
    }
}

/// A number that is written is read back.
pub proof fn lemma_number_read_back(n: nat, max: nat)
    requires
        n <= max,
    ensures
        number(decimal(n), max) == Some(n),
        tight(decimal(n)),
        forall|c: char| decimal(n).contains(c) ==> #[trigger] is_digit(c),
{
    lemma_decimal(n);
    let s = decimal(n);
    assert(is_digit(s[0]));
    assert(is_digit(s.last()));
    assert forall|c: char| s.contains(c) implies #[trigger] is_digit(c) by {
        let i = choose|i: int| 0 <= i < s.len() && s[i] == c;
        assert(is_digit(s[i]));
    }
}

// ---- lines ----

proof fn lemma_line_end_same(a: Seq<char>, b: Seq<char>, i: int)
    requires
        0 <= i,
        a.len() <= b.len(),
        b.take(a.len() as int) == a,
    ensures
        line_end(a, i) is Some ==> line_end(b, i) == line_end(a, i),
    decreases a.len() - i,
{
    if i < a.len() {
        assert(b[i] == b.take(a.len() as int)[i]);
        lemma_line_end_same(a, b, i + 1);
    }
}

proof fn lemma_line_end_is(s: Seq<char>, i: int, k: int)
    requires
        0 <= i <= k < s.len(),
        s[k] == '\n',
        forall|j: int| i <= j < k ==> s[j] != '\n',
    ensures
        line_end(s, i) == Some(k),
    decreases k - i,
{
    if i < k {
        lemma_line_end_is(s, i + 1, k);
    }
}

proof fn lemma_append_from(t: Seq<char>, line: Seq<char>, from: int)
    requires
        0 <= from <= t.len(),
        t.len() == 0 || t.last() == '\n',
        is_line(line),
    ensures
        lines_from(t + line + seq!['\n'], from) == lines_from(t, from).push(line),
    decreases t.len() - from,
{
    let s = t + line + seq!['\n'];
    lemma_line_end(t, from);
    if from < t.len() {
        match line_end(t, from) {
            Some(k) => {
                assert(s.take(t.len() as int) =~= t);
                lemma_line_end_same(t, s, from);
                lemma_append_from(t, line, k + 1);
                assert(s.subrange(from, k) =~= t.subrange(from, k));
                let head = seq![without_cr(t.subrange(from, k))];
                assert(lines_from(s, from) == head + lines_from(s, k + 1));
                assert(head + lines_from(t, k + 1).push(line) =~= (head + lines_from(
                    t,
                    k + 1,
                )).push(line));
            },
            None => {
                assert(t[t.len() - 1] != '\n');
            },
        }
    } else {
        let k = from + line.len();
        assert(s[k] == '\n');
        assert forall|j: int| from <= j < k implies s[j] != '\n' by {
            assert(s[j] == line[j - from]);
            assert(line.contains(line[j - from]));
        }
        lemma_line_end_is(s, from, k);
        assert(s.subrange(from, k) =~= line);
        assert(lines_from(s, k + 1) =~= Seq::empty());
        assert(lines_from(s, from) =~= seq![line]);
        assert(lines_from(t, from) =~= Seq::empty());
        assert(lines_from(t, from).push(line) =~= seq![line]);
    }
}

/// A line behind a text that ends with a line feed is one more line.
pub proof fn lemma_lines_append(t: Seq<char>, line: Seq<char>)
    requires
        t.len() == 0 || t.last() == '\n',
        is_line(line),
    ensures
        lines_of(t + line + seq!['\n']) == lines_of(t).push(line),
{
    lemma_append_from(t, line, 0);
}

proof fn lemma_close_from(t: Seq<char>, from: int)
    requires
        0 <= from < t.len(),
        t.last() != '\n',
        t.last() != '\r',
    ensures
        lines_from(t + seq!['\n'], from) == lines_from(t, from),
    decreases t.len() - from,
{
    let s = t + seq!['\n'];
    lemma_line_end(t, from);
    match line_end(t, from) {
        Some(k) => {
            assert(s.take(t.len() as int) =~= t);
            lemma_line_end_same(t, s, from);
            assert(k + 1 < t.len());
            lemma_close_from(t, k + 1);
            assert(s.subrange(from, k) =~= t.subrange(from, k));
        },
        None => {
            let k = t.len() as int;
            assert(s[k] == '\n');
            assert forall|j: int| from <= j < k implies s[j] != '\n' by {
                assert(s[j] == t[j]);
            }
            lemma_line_end_is(s, from, k);
            assert(s.subrange(from, k) =~= t.skip(from));
            assert(lines_from(s, k + 1) =~= Seq::empty());
            assert(lines_from(s, from) =~= seq![t.skip(from)]);
        },
    }
}

/// A line feed behind the last line is no other line.
pub proof fn lemma_lines_close(t: Seq<char>)
    requires
        t.len() > 0,
        t.last() != '\n',
        t.last() != '\r',
    ensures
        lines_of(t + seq!['\n']) == lines_of(t),
{
    lemma_close_from(t, 0);
}

// ---- letters and digits ----

proof fn lemma_squeezed_first(s: Seq<char>, n: int)
    requires
        0 <= n <= s.len(),
    ensures
        forall|i: int|
            0 <= i < squeezed_first(s, n).len() ==> is_alnum(#[trigger] squeezed_first(s, n)[i])
                && lower_char(squeezed_first(s, n)[i]) == squeezed_first(s, n)[i],
    decreases n,
{
    if n > 0 {
        lemma_squeezed_first(s, n - 1);
        let before = squeezed_first(s, n - 1);
        assert forall|i: int| 0 <= i < squeezed_first(s, n).len() implies is_alnum(
            #[trigger] squeezed_first(s, n)[i],
        ) && lower_char(squeezed_first(s, n)[i]) == squeezed_first(s, n)[i] by {
            if i < before.len() {
                assert(squeezed_first(s, n)[i] == before[i]);
            }
        }
    }
}

proof fn lemma_squeezed_same(s: Seq<char>, n: int)
    requires
        0 <= n <= s.len(),
        forall|i: int| 0 <= i < s.len() ==> is_alnum(#[trigger] s[i]) && lower_char(s[i]) == s[i],
    ensures
        squeezed_first(s, n) == s.take(n),
    decreases n,
{
    if n > 0 {
        lemma_squeezed_same(s, n - 1);
        assert(s.take(n) =~= s.take(n - 1).push(s[n - 1]));
    } else {
        assert(s.take(0) =~= Seq::empty());
    }
}

/// Letters and digits are kept as they are.
pub proof fn lemma_squeezed_once(s: Seq<char>)
    ensures
        squeezed(squeezed(s)) == squeezed(s),
        tight(squeezed(s)),
        forall|i: int| 0 <= i < squeezed(s).len() ==> is_alnum(#[trigger] squeezed(s)[i]),
{
    let t = squeezed(s);
    lemma_squeezed_first(s, s.len() as int);
    lemma_squeezed_same(t, t.len() as int);
    assert(t.take(t.len() as int) =~= t);
    if t.len() > 0 {
        assert(is_alnum(t[0]) && is_alnum(t.last()));
    }
}

proof fn lemma_squeezed_prefix(a: Seq<char>, b: Seq<char>, n: int)
    requires
        0 <= n <= a.len(),
        n <= b.len(),
        forall|i: int|
            0 <= i < n ==> #[trigger] a[i] == b[i] || (!is_alnum(a[i]) && !is_alnum(b[i])),
    ensures
        squeezed_first(a, n) == squeezed_first(b, n),
    decreases n,
{
    if n > 0 {
        lemma_squeezed_prefix(a, b, n - 1);
        assert(a[n - 1] == b[n - 1] || (!is_alnum(a[n - 1]) && !is_alnum(b[n - 1])));
    }
}

/// Letters and digits stay where other characters are exchanged.
pub proof fn lemma_squeezed_replaced(s: Seq<char>, from: char, to: char)
    requires
        !is_alnum(from),
        !is_alnum(to),
    ensures
        squeezed(char_replaced(s, from, to)) == squeezed(s),
{
    lemma_squeezed_prefix(char_replaced(s, from, to), s, s.len() as int);
}

proof fn lemma_squeezed_white(s: Seq<char>, n: int)
    requires
        0 <= n <= s.len(),
        forall|i: int| 0 <= i < n ==> !is_alnum(#[trigger] s[i]),
    ensures
        squeezed_first(s, n) == Seq::<char>::empty(),
    decreases n,
{
    if n > 0 {
        lemma_squeezed_white(s, n - 1);
    }
}

proof fn lemma_squeezed_from(s: Seq<char>, t: Seq<char>, k: int, n: int)
    requires
        0 <= k,
        0 <= n,
        k + n <= s.len(),
        n <= t.len(),
        forall|i: int| 0 <= i < k ==> !is_alnum(#[trigger] s[i]),
        forall|i: int| 0 <= i < n ==> #[trigger] t[i] == s[k + i],
    ensures
        squeezed_first(s, k + n) == squeezed_first(t, n),
    decreases n,
{
    if n > 0 {
        lemma_squeezed_from(s, t, k, n - 1);
        assert(t[n - 1] == s[k + n - 1]);
    } else {
        lemma_squeezed_white(s, k);
    }
}

proof fn lemma_squeezed_tail(s: Seq<char>, n: int, m: int)
    requires
        0 <= n <= m <= s.len(),
        forall|i: int| n <= i < m ==> !is_alnum(#[trigger] s[i]),
    ensures
        squeezed_first(s, m) == squeezed_first(s, n),
    decreases m,
{
    if n < m {
        lemma_squeezed_tail(s, n, m - 1);
    }
}

proof fn lemma_white_front(s: Seq<char>, i: int)
    requires
        0 <= i <= s.len(),
    ensures
        forall|j: int| i <= j < past_white(s, i) ==> is_white(#[trigger] s[j]),
    decreases s.len() - i,
{
    if i < s.len() && is_white(s[i]) {
        lemma_white_front(s, i + 1);
    }
}

proof fn lemma_white_back(s: Seq<char>, n: int)
    requires
        0 <= n <= s.len(),
    ensures
        forall|j: int| before_white(s, n) <= j < n ==> is_white(#[trigger] s[j]),
    decreases n,
{
    if 0 < n && is_white(s[n - 1]) {
        lemma_white_back(s, n - 1);
    }
}

/// Trimming takes no letter or digit off.
pub proof fn lemma_squeezed_trimmed(s: Seq<char>)
    ensures
        squeezed(trimmed(s)) == squeezed(s),
{
    let k = past_white(s, 0);
    lemma_past_white(s, 0);
    lemma_white_front(s, 0);
    let t = trimmed_start(s);
    lemma_squeezed_from(s, t, k, t.len() as int);
    let n = before_white(t, t.len() as int);
    lemma_before_white(t, t.len() as int);
    lemma_white_back(t, t.len() as int);
    lemma_squeezed_tail(t, n, t.len() as int);
    let u = trimmed(s);
    lemma_squeezed_prefix(u, t, n);
}

// ---- joined lines ----

proof fn lemma_joined_ended(lines: Seq<Seq<char>>, n: int)
    requires
        1 <= n <= lines.len(),
    ensures
        joined_first(lines, seq!['\n'], n) + seq!['\n'] == ended_first(lines, n),
    decreases n,
{
    if n > 1 {
        lemma_joined_ended(lines, n - 1);
        assert(joined_first(lines, seq!['\n'], n) + seq!['\n'] =~= ended_first(lines, n));
    } else {
        assert(ended_first(lines, 0) =~= Seq::empty());
        assert(joined_first(lines, seq!['\n'], 1) + seq!['\n'] =~= ended_first(lines, 1));
    }
}

/// Lines that are joined and closed are read back, but for a carriage return at their end;
/// no line at all gives an empty one.
pub proof fn lemma_joined_lines(lines: Seq<Seq<char>>)
    requires
        forall|i: int| 0 <= i < lines.len() ==> !(#[trigger] lines[i]).contains('\n'),
    ensures
        lines_of(joined(lines, "\n"@) + "\n"@) == (if lines.len() == 0 {
            seq![Seq::<char>::empty()]
        } else {
            cut(lines)
        }),
{
    reveal_strlit("\n");
    assert("\n"@ =~= seq!['\n']);
    if lines.len() > 0 {
        lemma_joined_ended(lines, lines.len() as int);
        lemma_lines_cut(lines);
    } else {
        let none = Seq::<char>::empty();
        assert(joined(lines, "\n"@) =~= none);
        lemma_lines_append(none, none);
        assert(none + none + seq!['\n'] =~= joined(lines, "\n"@) + "\n"@);
        assert(lines_of(none) =~= Seq::empty());
        assert(lines_of(none).push(none) =~= seq![none]);
    }
}

/// A carriage return at the end of a line is trimmed anyway.
pub proof fn lemma_trimmed_cut(s: Seq<char>)
    ensures
        trimmed(without_cr(s)) == trimmed(s),
{
    if s.len() > 0 && s.last() == '\r' {
        let t = s.drop_last();
        let none = Seq::<char>::empty();
        lemma_trim_parts(t);
        let k = past_white(t, 0);
        let m = before_white(trimmed_start(t), trimmed_start(t).len() as int);
        let a = t.take(k);
        let b = t.skip(k + m) + seq!['\r'];
        assert(s =~= a + trimmed(t) + b);
        assert forall|i: int| 0 <= i < b.len() implies is_white(#[trigger] b[i]) by {
            if i < b.len() - 1 {
                assert(b[i] == t.skip(k + m)[i]);
            }
        }
        lemma_trimmed_is_tight(t);
        lemma_trim_padded(a, trimmed(t), b);
    }
}

/// A text is what is trimmed, with white space on both sides.
proof fn lemma_trim_parts(t: Seq<char>)
    ensures
        ({
            let k = past_white(t, 0);
            let m = before_white(trimmed_start(t), trimmed_start(t).len() as int);
            &&& 0 <= k
            &&& 0 <= m
            &&& k + m <= t.len()
            &&& t == t.take(k) + trimmed(t) + t.skip(k + m)
            &&& all_white(t.take(k))
            &&& all_white(t.skip(k + m))
        }),
{
    let k = past_white(t, 0);
    lemma_past_white(t, 0);
    lemma_white_front(t, 0);
    let u = trimmed_start(t);
    let m = before_white(u, u.len() as int);
    lemma_before_white(u, u.len() as int);
    lemma_white_back(u, u.len() as int);
    assert(t =~= t.take(k) + trimmed(t) + t.skip(k + m));
    assert forall|i: int| 0 <= i < t.skip(k + m).len() implies is_white(
        #[trigger] t.skip(k + m)[i],
    ) by {
        assert(t.skip(k + m)[i] == u[m + i]);
    }
}

/// A carriage return at the end of a line stays with what is behind a separator.
pub proof fn lemma_split_cut(s: Seq<char>, c: char)
    requires
        c != '\r',
    ensures
        split_first(without_cr(s), seq![c]) == (match split_first(s, seq![c]) {
            Some((a, b)) => Some((a, without_cr(b))),
            None => None,
        }),
{
    let p = seq![c];
    lemma_find(s, p, 0);
    if s.len() > 0 && s.last() == '\r' {
        let t = s.drop_last();
        match find_from(s, p, 0) {
            Some(k) => {
                assert(s.subrange(k, k + 1)[0] == p[0]);
                let a = s.take(k);
                let b = s.skip(k + 1);
                assert(!a.contains(c)) by {
                    if a.contains(c) {
                        let j = choose|j: int| 0 <= j < a.len() && a[j] == c;
                        assert(s.subrange(j, j + 1) =~= p);
                        assert(occurs_at(s, p, j));
                    }
                }
                assert(t =~= a + p + b.drop_last());
                assert(b.last() == '\r');
                lemma_split_at(a, c, b.drop_last());
            },
            None => {
                if t.contains(c) {
                    let j = choose|j: int| 0 <= j < t.len() && t[j] == c;
                    assert(s.subrange(j, j + 1) =~= p);
                    assert(occurs_at(s, p, j));
                }
                lemma_no_split(t, c);
            },
        }
    } else if find_from(s, p, 0) is Some {
        let b = s.skip(find_from(s, p, 0)->0 + 1);
        if b.len() > 0 {
            assert(b.last() == s.last());
        }
        assert(without_cr(b) == b);
    }
}

// ---- entries by key ----

proof fn lemma_place_of<A>(a: Seq<A>, b: Seq<A>, i: int) -> (j: int)
    requires
        a.to_multiset() == b.to_multiset(),
        0 <= i < a.len(),
    ensures
        0 <= j < b.len(),
        b[j] == a[i],
{
    broadcast use vstd::seq_lib::group_to_multiset_ensures;

    assert(a.contains(a[i]));
    assert(b.to_multiset().count(a[i]) > 0);
    assert(b.contains(a[i]));
    choose|j: int| 0 <= j < b.len() && b[j] == a[i]
}

/// Entries in another order still differ in their keys.
pub proof fn lemma_keys_permuted<A>(a: Seq<(Seq<char>, A)>, b: Seq<(Seq<char>, A)>)
    requires
        a.to_multiset() == b.to_multiset(),
        distinct_keys(a),
    ensures
        distinct_keys(b),
{
    broadcast use {vstd::multiset::group_multiset_axioms, vstd::seq_lib::group_to_multiset_ensures};

    assert forall|i: int, j: int| 0 <= i < j < b.len() implies #[trigger] b[i].0
        != #[trigger] b[j].0 by {
        if b[i].0 == b[j].0 {
            let x = lemma_place_of(b, a, i);
            let y = lemma_place_of(b, a, j);
            if x < y {
                assert(a[x].0 != a[y].0);
            } else if y < x {
                assert(a[y].0 != a[x].0);
            } else {
                let e = b[i];
                let rest = b.remove(i);
                vstd::seq_lib::to_multiset_remove(b, i);
                assert(rest[j - 1] == e);
                assert(rest.contains(e));
                assert(rest.to_multiset().count(e) > 0);
                assert(b.contains(e));
                assert(b.to_multiset().count(e) >= 2);
                let other = a.remove(x);
                vstd::seq_lib::to_multiset_remove(a, x);
                assert(other.to_multiset().count(e) > 0);
                assert(other.contains(e));
                let c = choose|c: int| 0 <= c < other.len() && other[c] == e;
                let d = if c < x {
                    c
                } else {
                    c + 1
                };
                assert(a[d] == e);
                if d < x {
                    assert(a[d].0 != a[x].0);
                } else {
                    assert(a[x].0 != a[d].0);
                }
            }
        }
    }
}

/// Entries in another order hold the same under each key.
pub proof fn lemma_found_permuted<A>(
    a: Seq<(Seq<char>, A)>,
    b: Seq<(Seq<char>, A)>,
    k: Seq<char>,
)
    requires
        a.to_multiset() == b.to_multiset(),
        distinct_keys(a),
    ensures
        found(b, k) == found(a, k),
{
    lemma_key_from(a, k, 0);
    lemma_key_from(b, k, 0);
    match key_from(b, k, 0) {
        Some(j) => {
            let i = lemma_place_of(b, a, j);
            assert(a[i].0 == k);
            let h = key_from(a, k, 0)->0;
            if h < i {
                assert(a[h].0 != a[i].0);
            } else if i < h {
                assert(a[i].0 != k);
            }
        },
        None => {
            if key_from(a, k, 0) is Some {
                let i = key_from(a, k, 0)->0;
                let j = lemma_place_of(a, b, i);
                assert(b[j].0 != k);
            }
        },
    }
}

/// The entries put in one after the other.
pub open spec fn gathered<A>(s: Seq<(Seq<char>, A)>, n: int) -> Seq<(Seq<char>, A)>
    decreases n,
{
    if n <= 0 {
        Seq::empty()
    } else {
        inserted(gathered(s, n - 1), s[n - 1].0, s[n - 1].1)
    }
}

/// Entries of distinct keys that are put in one after the other are all there.
pub proof fn lemma_gathered<A>(s: Seq<(Seq<char>, A)>, n: int)
    requires
        0 <= n <= s.len(),
        distinct_keys(s),
    ensures
        gathered(s, n) == s.take(n),
    decreases n,
{
    if n > 0 {
        lemma_gathered(s, n - 1);
        let before = gathered(s, n - 1);
        lemma_key_from(before, s[n - 1].0, 0);
        if key_from(before, s[n - 1].0, 0) is Some {
            let i = key_from(before, s[n - 1].0, 0)->0;
            assert(before[i] == s[i]);
            assert(s[i].0 != s[n - 1].0);
        }
        assert(gathered(s, n) =~= s.take(n));
    } else {
        assert(gathered(s, 0) =~= s.take(0));
    }
}

} // verus!
