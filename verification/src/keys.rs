//! The spellings under which labels and names are compared, and the shape of an INI text.
use vstd::prelude::*;
use crate::list;
use crate::text;
#[allow(unused_imports)]
use crate::text::{ascii_lowered, begins, finishes, is_alnum, joined, trimmed};

verus! {

/// Where the run of ASCII letters and digits ends.
pub open spec fn run_end(s: Seq<char>, i: int) -> int
    decreases s.len() - i,
{
    if 0 <= i < s.len() && is_alnum(s[i]) {
        run_end(s, i + 1)
    } else {
        i
    }
}

pub proof fn lemma_run_end(s: Seq<char>, i: int)
    requires
        0 <= i <= s.len(),
    ensures
        i <= run_end(s, i) <= s.len(),
        i < s.len() && is_alnum(s[i]) ==> i < run_end(s, i),
    decreases s.len() - i,
{
    if i < s.len() && is_alnum(s[i]) {
        lemma_run_end(s, i + 1);
    }
}

/// The runs of ASCII letters and digits from index `i` on, in lower case.
pub open spec fn plain_words_from(s: Seq<char>, i: int) -> Seq<Seq<char>>
    decreases s.len() - i,
    when 0 <= i
    via plain_words_from_ends
{
    if i >= s.len() {
        Seq::empty()
    } else if !is_alnum(s[i]) {
        plain_words_from(s, i + 1)
    } else {
        seq![ascii_lowered(s.subrange(i, run_end(s, i)))] + plain_words_from(s, run_end(s, i))
    }
}

#[via_fn]
proof fn plain_words_from_ends(s: Seq<char>, i: int) {
    if i < s.len() {
        lemma_run_end(s, i);
    }
}

pub open spec fn plain_words_of(s: Seq<char>) -> Seq<Seq<char>> {
    plain_words_from(s, 0)
}

/// The words of a text: its runs of ASCII letters and digits, in lower case.
pub fn plain_words(s: &str) -> (r: Vec<String>)
    ensures
        r.deep_view() == plain_words_of(s@),
{
    let v = text::chars_of(s);
    let mut out: Vec<String> = list::none();
    let mut i: usize = 0;
    assert(out.deep_view() + plain_words_from(v@, 0) =~= plain_words_of(s@));
    while i < v.len()
        invariant
            i <= v.len(),
            v@ == s@,
            out.deep_view() + plain_words_from(v@, i as int) == plain_words_of(s@),
        decreases v.len() - i,
    {
        if !text::alnum(v[i]) {
            i = i + 1;
        } else {
            let ghost before = out.deep_view();
            let mut j: usize = i;
            while j < v.len() && text::alnum(v[j])
                invariant
                    i <= j <= v.len(),
                    run_end(v@, j as int) == run_end(v@, i as int),
                decreases v.len() - j,
            {
                j = j + 1;
            }
            proof {
                lemma_run_end(v@, i as int);
            }
            let piece = text::part(&v, i, j);
            let word = text::ascii_lower(piece.as_str());
            list::put(&mut out, word);
            assert(before + (seq![word@] + plain_words_from(v@, j as int)) =~= out.deep_view()
                + plain_words_from(v@, j as int));
            i = j;
        }
    }
    assert(out.deep_view() + plain_words_from(v@, i as int) =~= out.deep_view());
    out
}

/// The words with hyphens between them.
pub open spec fn slug_of(s: Seq<char>) -> Seq<char> {
    joined(plain_words_of(s), "-"@)
}

pub fn slug(s: &str) -> (r: String)
    ensures
        r@ == slug_of(s@),
{
    let w = plain_words(s);
    text::join(&w, "-")
}

/// The ASCII letters and digits of the first `n` characters, in lower case.
pub open spec fn squeezed_first(s: Seq<char>, n: int) -> Seq<char>
    decreases n,
{
    if n <= 0 {
        Seq::empty()
    } else if is_alnum(s[n - 1]) {
        squeezed_first(s, n - 1).push(text::lower_char(s[n - 1]))
    } else {
        squeezed_first(s, n - 1)
    }
}

pub open spec fn squeezed(s: Seq<char>) -> Seq<char> {
    squeezed_first(s, s.len() as int)
}

/// The ASCII letters and digits of a text, in lower case.
pub fn squeeze(s: &str) -> (r: String)
    ensures
        r@ == squeezed(s@),
{
    let v = text::chars_of(s);
    let mut out = String::new();
    let mut i: usize = 0;
    assert(out@ =~= Seq::<char>::empty());
    while i < v.len()
        invariant
            i <= v.len(),
            v@ == s@,
            out@ == squeezed_first(s@, i as int),
        decreases v.len() - i,
    {
        if text::alnum(v[i]) {
            out.push(text::lowered_char(v[i]));
        }
        i = i + 1;
    }
    out
}

/// The text with every character but ASCII letters and digits replaced by `_`.
pub open spec fn safe_of(s: Seq<char>) -> Seq<char> {
    Seq::new(
        s.len(),
        |i: int|
            if is_alnum(s[i]) {
                s[i]
            } else {
                '_'
            },
    )
}

pub fn safe_name(s: &str) -> (r: String)
    ensures
        r@ == safe_of(s@),
{
    let v = text::chars_of(s);
    let mut out = String::new();
    let mut i: usize = 0;
    assert(out@ =~= safe_of(s@).take(0));
    while i < v.len()
        invariant
            i <= v.len(),
            v@ == s@,
            out@ == safe_of(s@).take(i as int),
        decreases v.len() - i,
    {
        if text::alnum(v[i]) {
            out.push(v[i]);
        } else {
            out.push('_');
        }
        i = i + 1;
        assert(out@ =~= safe_of(s@).take(i as int));
    }
    assert(out@ =~= safe_of(s@));
    out
}

/// The trimmed text in lower case.
pub open spec fn folded(s: Seq<char>) -> Seq<char> {
    ascii_lowered(trimmed(s))
}

pub fn fold(s: &str) -> (r: String)
    ensures
        r@ == folded(s@),
{
    let t = text::trim(s);
    text::ascii_lower(t.as_str())
}

/// The name in a section header, `[name]`.
pub open spec fn header_of(line: Seq<char>) -> Option<Seq<char>> {
    if begins(line, "["@) && finishes(line, "]"@) {
        Some(line.subrange(1, line.len() - 1))
    } else {
        None
    }
}

pub fn header(line: &str) -> (r: Option<String>)
    ensures
        r.deep_view() == header_of(line@),
{
    proof {
        reveal_strlit("[");
        reveal_strlit("]");
    }
    if text::starts_with(line, "[") && text::ends_with(line, "]") {
        let v = text::chars_of(line);
        assert(v@[0] == '[') by {
            assert(v@.subrange(0, 1)[0] == v@[0]);
        }
        assert(v@[v.len() - 1] == ']') by {
            assert(v@.subrange(v.len() - 1, v.len() as int)[0] == v@[v.len() - 1]);
        }
        Some(text::part(&v, 1, v.len() - 1))
    } else {
        None
    }
}

/// A line that starts with `#` or `;`.
pub open spec fn is_comment(line: Seq<char>) -> bool {
    begins(line, "#"@) || begins(line, ";"@)
}

pub fn comment(line: &str) -> (r: bool)
    ensures
        r == is_comment(line@),
{
    text::starts_with(line, "#") || text::starts_with(line, ";")
}

/// The section that the first `n` lines leave open.
pub open spec fn section_after(lines: Seq<Seq<char>>, n: int) -> Seq<char>
    decreases n,
{
    if n <= 0 {
        Seq::empty()
    } else {
        match header_of(trimmed(lines[n - 1])) {
            Some(h) => h,
            None => section_after(lines, n - 1),
        }
    }
}

/// The items with `x` at the end, unless it is there.
pub open spec fn with_item(s: Seq<Seq<char>>, x: Seq<char>) -> Seq<Seq<char>> {
    if s.contains(x) {
        s
    } else {
        s.push(x)
    }
}

pub fn add_item(v: &mut Vec<String>, x: String)
    ensures
        final(v).deep_view() == with_item(old(v).deep_view(), x@),
{
    if !list::holds(v, x.as_str()) {
        list::put(v, x);
    }
}

/// The first text from `i` on that equals `x` but for the case of ASCII letters.
pub open spec fn place_like(s: Seq<Seq<char>>, x: Seq<char>, i: int) -> Option<int>
    decreases s.len() - i,
{
    if i < 0 || i >= s.len() {
        None
    } else if ascii_lowered(s[i]) == ascii_lowered(x) {
        Some(i)
    } else {
        place_like(s, x, i + 1)
    }
}

pub fn find_like(s: &[String], x: &str) -> (r: Option<usize>)
    ensures
        match r {
            Some(i) => place_like(s.deep_view(), x@, 0) == Some(i as int) && i < s.len(),
            None => place_like(s.deep_view(), x@, 0) is None,
        },
{
    let ghost v = s.deep_view();
    let mut i: usize = 0;
    while i < s.len()
        invariant
            i <= s.len(),
            v == s.deep_view(),
            place_like(v, x@, i as int) == place_like(v, x@, 0),
        decreases s.len() - i,
    {
        assert(v[i as int] == s@[i as int]@);
        if text::same_ignoring_case(s[i].as_str(), x) {
            return Some(i);
        }
        i = i + 1;
    }
    None
}

/// The first text from `i` on with the same ASCII letters and digits as `x`.
pub open spec fn place_alike(s: Seq<Seq<char>>, x: Seq<char>, i: int) -> Option<int>
    decreases s.len() - i,
{
    if i < 0 || i >= s.len() {
        None
    } else if squeezed(s[i]) == squeezed(x) {
        Some(i)
    } else {
        place_alike(s, x, i + 1)
    }
}

pub fn find_alike(s: &[String], x: &str) -> (r: Option<usize>)
    ensures
        match r {
            Some(i) => place_alike(s.deep_view(), x@, 0) == Some(i as int) && i < s.len(),
            None => place_alike(s.deep_view(), x@, 0) is None,
        },
{
    let ghost v = s.deep_view();
    let want = squeeze(x);
    let mut i: usize = 0;
    while i < s.len()
        invariant
            i <= s.len(),
            v == s.deep_view(),
            want@ == squeezed(x@),
            place_alike(v, x@, i as int) == place_alike(v, x@, 0),
        decreases s.len() - i,
    {
        assert(v[i as int] == s@[i as int]@);
        let here = squeeze(s[i].as_str());
        if here == want {
            return Some(i);
        }
        i = i + 1;
    }
    None
}

} // verus!
