//! Text on characters: every executable function here is stated over the
//! sequence of characters that a string holds.
use vstd::prelude::*;
#[allow(unused_imports)]
use vstd::string::*;

verus! {

/// `String::push` appends one character at the end.
pub assume_specification[ String::push ](s: &mut String, c: char)
    ensures
        final(s)@ == old(s)@.push(c),
;

/// What `str::to_lowercase` gives: the Unicode lowercase form.
pub uninterp spec fn lowercase(s: Seq<char>) -> Seq<char>;

/// `str::to_lowercase`: a function of the text alone, which on ASCII text maps
/// `A`..`Z` to `a`..`z` and keeps every other character.
pub assume_specification[ str::to_lowercase ](s: &str) -> (r: String)
    ensures
        r@ == lowercase(s@),
        all_ascii(s@) ==> r@ == ascii_lowered(s@),
;

/// What `char::is_alphanumeric` answers: the Unicode property.
pub uninterp spec fn alphanumeric(c: char) -> bool;

/// `char::is_alphanumeric`: a function of the character alone, which on ASCII
/// holds of the letters and the digits.
pub assume_specification[ char::is_alphanumeric ](c: char) -> (r: bool)
    ensures
        r == alphanumeric(c),
        (c as u32) < 128 ==> r == is_alnum(c),
;

/// The length in UTF-8 bytes, as `str::len` gives it.
pub open spec fn byte_len(s: Seq<char>) -> usize {
    vstd::utf8::encode_utf8(s).len() as usize
}

pub fn bytes_in(s: &str) -> (r: usize)
    ensures
        r == byte_len(s@),
{
    s.len()
}

// ---- character classes ----

pub open spec fn all_ascii(s: Seq<char>) -> bool {
    forall|i: int| 0 <= i < s.len() ==> (#[trigger] s[i] as u32) < 128
}

pub open spec fn is_digit(c: char) -> bool {
    '0' <= c <= '9'
}

pub open spec fn is_alnum(c: char) -> bool {
    '0' <= c <= '9' || 'a' <= c <= 'z' || 'A' <= c <= 'Z'
}

/// The Unicode `White_Space` property.
pub open spec fn is_white(c: char) -> bool {
    let n = c as u32;
    9 <= n <= 13 || n == 32 || n == 0x85 || n == 0xa0 || n == 0x1680 || 0x2000 <= n <= 0x200a || n
        == 0x2028 || n == 0x2029 || n == 0x202f || n == 0x205f || n == 0x3000
}

pub open spec fn lower_char(c: char) -> char {
    if 'A' <= c <= 'Z' {
        ((c as u32) + 32) as char
    } else {
        c
    }
}

/// The text with `A`..`Z` replaced by `a`..`z`.
pub open spec fn ascii_lowered(s: Seq<char>) -> Seq<char> {
    Seq::new(s.len(), |i: int| lower_char(s[i]))
}

pub fn alnum(c: char) -> (r: bool)
    ensures
        r == is_alnum(c),
{
    ('0' <= c && c <= '9') || ('a' <= c && c <= 'z') || ('A' <= c && c <= 'Z')
}

pub fn white(c: char) -> (r: bool)
    ensures
        r == is_white(c),
{
    let n: u32 = c as u32;
    (9 <= n && n <= 13) || n == 32 || n == 0x85 || n == 0xa0 || n == 0x1680 || (0x2000 <= n && n
        <= 0x200a) || n == 0x2028 || n == 0x2029 || n == 0x202f || n == 0x205f || n == 0x3000
}

pub fn lowered_char(c: char) -> (r: char)
    ensures
        r == lower_char(c),
{
    if 'A' <= c && c <= 'Z' {
        ((c as u8) + 32) as char
    } else {
        c
    }
}

// ---- between strings and vectors of characters ----

pub fn chars_of(s: &str) -> (r: Vec<char>)
    ensures
        r@ == s@,
{
    let mut r: Vec<char> = Vec::new();
    for c in it: s.chars()
        invariant
            it.seq() == s@,
            r@ == s@.take(it.index()),
    {
        r.push(c);
    }
    r
}

pub fn part(v: &Vec<char>, from: usize, to: usize) -> (r: String)
    requires
        from <= to <= v.len(),
    ensures
        r@ == v@.subrange(from as int, to as int),
{
    let mut r = String::new();
    let mut i: usize = from;
    while i < to
        invariant
            from <= i <= to <= v.len(),
            r@ == v@.subrange(from as int, i as int),
        decreases to - i,
    {
        r.push(v[i]);
        i = i + 1;
    }
    r
}

pub fn ascii_lower(s: &str) -> (r: String)
    ensures
        r@ == ascii_lowered(s@),
{
    let mut r = String::new();
    for c in it: s.chars()
        invariant
            it.seq() == s@,
            r@ == ascii_lowered(s@.take(it.index())),
    {
        r.push(lowered_char(c));
    }
    assert(s@.take(s@.len() as int) =~= s@);
    r
}

pub fn same(a: &str, b: &str) -> (r: bool)
    ensures
        r == (a@ == b@),
{
    let x = a.to_string();
    let y = b.to_string();
    x == y
}

/// Equal but for the case of `A`..`Z`.
pub fn same_ignoring_case(a: &str, b: &str) -> (r: bool)
    ensures
        r == (ascii_lowered(a@) == ascii_lowered(b@)),
{
    let x = ascii_lower(a);
    let y = ascii_lower(b);
    x == y
}

/// The two texts, one after the other.
pub fn cat(a: &str, b: &str) -> (r: String)
    ensures
        r@ == a@ + b@,
{
    let mut r = a.to_string();
    r.append(b);
    r
}

pub fn cat3(a: &str, b: &str, c: &str) -> (r: String)
    ensures
        r@ == a@ + b@ + c@,
{
    let mut r = a.to_string();
    r.append(b);
    r.append(c);
    r
}

// ---- trimming ----

/// The first index from `i` on whose character is not in `set`.
pub open spec fn past_set(s: Seq<char>, set: Seq<char>, i: int) -> int
    decreases s.len() - i,
{
    if 0 <= i < s.len() && set.contains(s[i]) {
        past_set(s, set, i + 1)
    } else {
        i
    }
}

/// How much of `s[..n]` is left once trailing characters in `set` are dropped.
pub open spec fn before_set(s: Seq<char>, set: Seq<char>, n: int) -> int
    decreases n,
{
    if 0 < n <= s.len() && set.contains(s[n - 1]) {
        before_set(s, set, n - 1)
    } else {
        n
    }
}

pub open spec fn past_white(s: Seq<char>, i: int) -> int
    decreases s.len() - i,
{
    if 0 <= i < s.len() && is_white(s[i]) {
        past_white(s, i + 1)
    } else {
        i
    }
}

pub open spec fn before_white(s: Seq<char>, n: int) -> int
    decreases n,
{
    if 0 < n <= s.len() && is_white(s[n - 1]) {
        before_white(s, n - 1)
    } else {
        n
    }
}

pub open spec fn trimmed_start(s: Seq<char>) -> Seq<char> {
    s.skip(past_white(s, 0))
}

pub open spec fn trimmed_end(s: Seq<char>) -> Seq<char> {
    s.take(before_white(s, s.len() as int))
}

pub open spec fn trimmed(s: Seq<char>) -> Seq<char> {
    trimmed_end(trimmed_start(s))
}

pub open spec fn set_trimmed_start(s: Seq<char>, set: Seq<char>) -> Seq<char> {
    s.skip(past_set(s, set, 0))
}

pub open spec fn set_trimmed_end(s: Seq<char>, set: Seq<char>) -> Seq<char> {
    s.take(before_set(s, set, s.len() as int))
}

pub open spec fn set_trimmed(s: Seq<char>, set: Seq<char>) -> Seq<char> {
    set_trimmed_end(set_trimmed_start(s, set), set)
}

pub proof fn lemma_past_white(s: Seq<char>, i: int)
    requires
        0 <= i <= s.len(),
    ensures
        i <= past_white(s, i) <= s.len(),
        past_white(s, i) < s.len() ==> !is_white(s[past_white(s, i)]),
    decreases s.len() - i,
{
    if i < s.len() && is_white(s[i]) {
        lemma_past_white(s, i + 1);
    }
}

pub proof fn lemma_before_white(s: Seq<char>, n: int)
    requires
        0 <= n <= s.len(),
    ensures
        0 <= before_white(s, n) <= n,
        before_white(s, n) > 0 ==> !is_white(s[before_white(s, n) - 1]),
    decreases n,
{
    if 0 < n && is_white(s[n - 1]) {
        lemma_before_white(s, n - 1);
    }
}

pub proof fn lemma_past_set(s: Seq<char>, set: Seq<char>, i: int)
    requires
        0 <= i <= s.len(),
    ensures
        i <= past_set(s, set, i) <= s.len(),
        past_set(s, set, i) < s.len() ==> !set.contains(s[past_set(s, set, i)]),
    decreases s.len() - i,
{
    if i < s.len() && set.contains(s[i]) {
        lemma_past_set(s, set, i + 1);
    }
}

pub proof fn lemma_before_set(s: Seq<char>, set: Seq<char>, n: int)
    requires
        0 <= n <= s.len(),
    ensures
        0 <= before_set(s, set, n) <= n,
        before_set(s, set, n) > 0 ==> !set.contains(s[before_set(s, set, n) - 1]),
    decreases n,
{
    if 0 < n && set.contains(s[n - 1]) {
        lemma_before_set(s, set, n - 1);
    }
}

fn white_run(v: &Vec<char>, from: usize) -> (r: usize)
    requires
        from <= v.len(),
    ensures
        r == past_white(v@, from as int),
        from <= r <= v.len(),
{
    let mut i: usize = from;
    while i < v.len() && white(v[i])
        invariant
            from <= i <= v.len(),
            past_white(v@, i as int) == past_white(v@, from as int),
        decreases v.len() - i,
    {
        i = i + 1;
    }
    i
}

fn white_tail(v: &Vec<char>, n: usize) -> (r: usize)
    requires
        n <= v.len(),
    ensures
        r == before_white(v@, n as int),
        r <= n,
{
    let mut i: usize = n;
    while i > 0 && white(v[i - 1])
        invariant
            i <= n <= v.len(),
            before_white(v@, i as int) == before_white(v@, n as int),
        decreases i,
    {
        i = i - 1;
    }
    i
}

pub fn trim_start(s: &str) -> (r: String)
    ensures
        r@ == trimmed_start(s@),
{
    let v = chars_of(s);
    let a = white_run(&v, 0);
    part(&v, a, v.len())
}

pub fn trim_end(s: &str) -> (r: String)
    ensures
        r@ == trimmed_end(s@),
{
    let v = chars_of(s);
    let b = white_tail(&v, v.len());
    part(&v, 0, b)
}

pub fn trim(s: &str) -> (r: String)
    ensures
        r@ == trimmed(s@),
{
    let a = trim_start(s);
    trim_end(a.as_str())
}

pub fn in_set(set: &Vec<char>, c: char) -> (r: bool)
    ensures
        r == set@.contains(c),
{
    let mut i: usize = 0;
    while i < set.len()
        invariant
            i <= set.len(),
            forall|j: int| 0 <= j < i ==> set@[j] != c,
        decreases set.len() - i,
    {
        if set[i] == c {
            assert(set@[i as int] == c);
            return true;
        }
        i = i + 1;
    }
    false
}

/// Drops leading characters that occur in `set`.
pub fn trim_start_of(s: &str, set: &str) -> (r: String)
    ensures
        r@ == set_trimmed_start(s@, set@),
{
    let v = chars_of(s);
    let k = chars_of(set);
    let mut i: usize = 0;
    while i < v.len() && in_set(&k, v[i])
        invariant
            i <= v.len(),
            v@ == s@,
            k@ == set@,
            past_set(v@, k@, i as int) == past_set(v@, k@, 0),
        decreases v.len() - i,
    {
        i = i + 1;
    }
    part(&v, i, v.len())
}

/// Drops trailing characters that occur in `set`.
pub fn trim_end_of(s: &str, set: &str) -> (r: String)
    ensures
        r@ == set_trimmed_end(s@, set@),
{
    let v = chars_of(s);
    let k = chars_of(set);
    let mut i: usize = v.len();
    while i > 0 && in_set(&k, v[i - 1])
        invariant
            i <= v.len(),
            v@ == s@,
            k@ == set@,
            before_set(v@, k@, i as int) == before_set(v@, k@, v.len() as int),
        decreases i,
    {
        i = i - 1;
    }
    part(&v, 0, i)
}

pub fn trim_of(s: &str, set: &str) -> (r: String)
    ensures
        r@ == set_trimmed(s@, set@),
{
    let a = trim_start_of(s, set);
    trim_end_of(a.as_str(), set)
}

// ---- searching ----

pub open spec fn occurs_at(s: Seq<char>, p: Seq<char>, i: int) -> bool {
    0 <= i && i + p.len() <= s.len() && s.subrange(i, i + p.len()) == p
}

/// Where `p` first occurs in `s`, from index `i` on.
pub open spec fn find_from(s: Seq<char>, p: Seq<char>, i: int) -> Option<int>
    decreases s.len() + 1 - i,
{
    if i < 0 || i + p.len() > s.len() {
        None
    } else if occurs_at(s, p, i) {
        Some(i)
    } else {
        find_from(s, p, i + 1)
    }
}

/// Where `p` last occurs in `s`, at index `i` or before.
pub open spec fn rfind_from(s: Seq<char>, p: Seq<char>, i: int) -> Option<int>
    decreases i + 1,
{
    if i < 0 {
        None
    } else if occurs_at(s, p, i) {
        Some(i)
    } else {
        rfind_from(s, p, i - 1)
    }
}

pub open spec fn contains_text(s: Seq<char>, p: Seq<char>) -> bool {
    exists|i: int| #[trigger] occurs_at(s, p, i)
}

pub open spec fn begins(s: Seq<char>, p: Seq<char>) -> bool {
    p.len() <= s.len() && s.take(p.len() as int) == p
}

pub open spec fn finishes(s: Seq<char>, p: Seq<char>) -> bool {
    p.len() <= s.len() && s.skip(s.len() - p.len()) == p
}

pub proof fn lemma_find(s: Seq<char>, p: Seq<char>, i: int)
    requires
        0 <= i,
    ensures
        match find_from(s, p, i) {
            Some(k) => i <= k && occurs_at(s, p, k) && forall|j: int|
                i <= j < k ==> !#[trigger] occurs_at(s, p, j),
            None => forall|j: int| i <= j ==> !#[trigger] occurs_at(s, p, j),
        },
    decreases s.len() + 1 - i,
{
    if i + p.len() <= s.len() && !occurs_at(s, p, i) {
        lemma_find(s, p, i + 1);
    }
}

pub proof fn lemma_rfind(s: Seq<char>, p: Seq<char>, i: int)
    ensures
        match rfind_from(s, p, i) {
            Some(k) => 0 <= k <= i && occurs_at(s, p, k) && forall|j: int|
                k < j <= i ==> !#[trigger] occurs_at(s, p, j),
            None => forall|j: int| 0 <= j <= i ==> !#[trigger] occurs_at(s, p, j),
        },
    decreases i + 1,
{
    if i >= 0 && !occurs_at(s, p, i) {
        lemma_rfind(s, p, i - 1);
    }
}

fn match_at(v: &Vec<char>, p: &Vec<char>, i: usize) -> (r: bool)
    requires
        i <= v.len(),
    ensures
        r == occurs_at(v@, p@, i as int),
{
    if p.len() > v.len() - i {
        return false;
    }
    let mut k: usize = 0;
    while k < p.len()
        invariant
            k <= p.len(),
            i + p.len() <= v.len(),
            v@.subrange(i as int, i + k) == p@.take(k as int),
        decreases p.len() - k,
    {
        if v[i + k] != p[k] {
            assert(v@.subrange(i as int, i + p.len())[k as int] != p@[k as int]);
            return false;
        }
        k = k + 1;
        assert(v@.subrange(i as int, i + k) =~= p@.take(k as int));
    }
    assert(p@.take(k as int) =~= p@);
    true
}

fn seek(v: &Vec<char>, p: &Vec<char>, from: usize) -> (r: Option<usize>)
    requires
        from <= v.len(),
    ensures
        match r {
            Some(k) => find_from(v@, p@, from as int) == Some(k as int) && from <= k && k + p.len()
                <= v.len(),
            None => find_from(v@, p@, from as int) is None,
        },
{
    let mut i: usize = from;
    loop
        invariant
            from <= i <= v.len(),
            find_from(v@, p@, i as int) == find_from(v@, p@, from as int),
        decreases v.len() - i,
    {
        if p.len() > v.len() - i {
            return None;
        }
        if match_at(v, p, i) {
            return Some(i);
        }
        if i == v.len() {
            assert(find_from(v@, p@, i + 1) is None);
            return None;
        }
        i = i + 1;
    }
}

fn rseek(v: &Vec<char>, p: &Vec<char>) -> (r: Option<usize>)
    ensures
        match r {
            Some(k) => rfind_from(v@, p@, v.len() as int) == Some(k as int) && k + p.len()
                <= v.len(),
            None => rfind_from(v@, p@, v.len() as int) is None,
        },
{
    let mut i: usize = v.len();
    loop
        invariant
            i <= v.len(),
            rfind_from(v@, p@, i as int) == rfind_from(v@, p@, v.len() as int),
        decreases i,
    {
        if match_at(v, p, i) {
            return Some(i);
        }
        if i == 0 {
            assert(rfind_from(v@, p@, -1) is None);
            return None;
        }
        i = i - 1;
    }
}

/// Where `p` first occurs in `s`, counted in characters.
pub fn find(s: &str, p: &str) -> (r: Option<usize>)
    ensures
        match r {
            Some(k) => find_from(s@, p@, 0) == Some(k as int),
            None => find_from(s@, p@, 0) is None,
        },
{
    let v = chars_of(s);
    let q = chars_of(p);
    seek(&v, &q, 0)
}

/// Where `p` last occurs in `s`, counted in characters.
pub fn rfind(s: &str, p: &str) -> (r: Option<usize>)
    ensures
        match r {
            Some(k) => rfind_from(s@, p@, s@.len() as int) == Some(k as int),
            None => rfind_from(s@, p@, s@.len() as int) is None,
        },
{
    let v = chars_of(s);
    let q = chars_of(p);
    rseek(&v, &q)
}

pub fn contains(s: &str, p: &str) -> (r: bool)
    ensures
        r == contains_text(s@, p@),
{
    let v = chars_of(s);
    let q = chars_of(p);
    proof {
        lemma_find(s@, p@, 0);
    }
    match seek(&v, &q, 0) {
        Some(_) => true,
        None => false,
    }
}

pub fn starts_with(s: &str, p: &str) -> (r: bool)
    ensures
        r == begins(s@, p@),
{
    let v = chars_of(s);
    let q = chars_of(p);
    assert(s@.take(p@.len() as int) =~= s@.subrange(0, p@.len() as int));
    match_at(&v, &q, 0)
}

pub fn ends_with(s: &str, p: &str) -> (r: bool)
    ensures
        r == finishes(s@, p@),
{
    let v = chars_of(s);
    let q = chars_of(p);
    if q.len() > v.len() {
        return false;
    }
    assert(s@.skip(s@.len() - p@.len()) =~= s@.subrange(s@.len() - p@.len(), s@.len() as int));
    match_at(&v, &q, v.len() - q.len())
}

/// What follows the prefix `p`.
pub open spec fn after_prefix(s: Seq<char>, p: Seq<char>) -> Option<Seq<char>> {
    if begins(s, p) {
        Some(s.skip(p.len() as int))
    } else {
        None
    }
}

/// What stands before the suffix `p`.
pub open spec fn before_suffix(s: Seq<char>, p: Seq<char>) -> Option<Seq<char>> {
    if finishes(s, p) {
        Some(s.take(s.len() - p.len()))
    } else {
        None
    }
}

/// The two sides of the first `sep`.
pub open spec fn split_first(s: Seq<char>, sep: Seq<char>) -> Option<(Seq<char>, Seq<char>)> {
    match find_from(s, sep, 0) {
        Some(i) => Some((s.take(i), s.skip(i + sep.len()))),
        None => None,
    }
}

/// The two sides of the last `sep`.
pub open spec fn split_last(s: Seq<char>, sep: Seq<char>) -> Option<(Seq<char>, Seq<char>)> {
    match rfind_from(s, sep, s.len() as int) {
        Some(i) => Some((s.take(i), s.skip(i + sep.len()))),
        None => None,
    }
}

pub fn strip_prefix(s: &str, p: &str) -> (r: Option<String>)
    ensures
        r.deep_view() == after_prefix(s@, p@),
{
    let v = chars_of(s);
    let q = chars_of(p);
    assert(s@.take(p@.len() as int) =~= s@.subrange(0, p@.len() as int));
    if match_at(&v, &q, 0) {
        Some(part(&v, q.len(), v.len()))
    } else {
        None
    }
}

pub fn strip_suffix(s: &str, p: &str) -> (r: Option<String>)
    ensures
        r.deep_view() == before_suffix(s@, p@),
{
    let v = chars_of(s);
    let q = chars_of(p);
    if q.len() > v.len() {
        return None;
    }
    assert(s@.skip(s@.len() - p@.len()) =~= s@.subrange(s@.len() - p@.len(), s@.len() as int));
    if match_at(&v, &q, v.len() - q.len()) {
        Some(part(&v, 0, v.len() - q.len()))
    } else {
        None
    }
}

pub fn split_once(s: &str, sep: &str) -> (r: Option<(String, String)>)
    ensures
        r.deep_view() == split_first(s@, sep@),
{
    let v = chars_of(s);
    let q = chars_of(sep);
    match seek(&v, &q, 0) {
        Some(k) => Some((part(&v, 0, k), part(&v, k + q.len(), v.len()))),
        None => None,
    }
}

pub fn rsplit_once(s: &str, sep: &str) -> (r: Option<(String, String)>)
    ensures
        r.deep_view() == split_last(s@, sep@),
{
    let v = chars_of(s);
    let q = chars_of(sep);
    match rseek(&v, &q) {
        Some(k) => Some((part(&v, 0, k), part(&v, k + q.len(), v.len()))),
        None => None,
    }
}

/// Without any trailing occurrences of `p`.
pub open spec fn without_suffixes(s: Seq<char>, p: Seq<char>) -> Seq<char>
    decreases s.len(),
{
    if p.len() > 0 && finishes(s, p) {
        without_suffixes(s.take(s.len() - p.len()), p)
    } else {
        s
    }
}

pub fn trim_suffixes(s: &str, p: &str) -> (r: String)
    ensures
        r@ == without_suffixes(s@, p@),
{
    let v = chars_of(s);
    let q = chars_of(p);
    if q.len() == 0 {
        return s.to_string();
    }
    let mut n: usize = v.len();
    assert(v@.take(n as int) =~= s@);
    loop
        invariant
            n <= v.len(),
            q.len() > 0,
            q@ == p@,
            without_suffixes(v@.take(n as int), p@) == without_suffixes(s@, p@),
        decreases n,
    {
        let ghost rest = v@.take(n as int);
        if q.len() > n || !match_at(&v, &q, n - q.len()) {
            assert(q.len() <= n ==> rest.skip(n - q.len()) =~= v@.subrange(n - q.len(), n as int));
            return part(&v, 0, n);
        }
        assert(rest.skip(n - q.len()) =~= v@.subrange(n - q.len(), n as int));
        n = n - q.len();
        assert(v@.take(n as int) =~= rest.take(n as int));
    }
}

/// Without any leading occurrences of `p`.
pub open spec fn without_prefixes(s: Seq<char>, p: Seq<char>) -> Seq<char>
    decreases s.len(),
{
    if p.len() > 0 && begins(s, p) {
        without_prefixes(s.skip(p.len() as int), p)
    } else {
        s
    }
}

pub fn trim_prefixes(s: &str, p: &str) -> (r: String)
    ensures
        r@ == without_prefixes(s@, p@),
{
    let v = chars_of(s);
    let q = chars_of(p);
    if q.len() == 0 {
        return s.to_string();
    }
    let mut i: usize = 0;
    assert(v@.skip(0) =~= s@);
    loop
        invariant
            i <= v.len(),
            q.len() > 0,
            q@ == p@,
            without_prefixes(v@.skip(i as int), p@) == without_prefixes(s@, p@),
        decreases v.len() - i,
    {
        let ghost rest = v@.skip(i as int);
        assert(q.len() <= rest.len() ==> rest.take(q.len() as int) =~= v@.subrange(
            i as int,
            i + q.len(),
        ));
        if !match_at(&v, &q, i) {
            return part(&v, i, v.len());
        }
        i = i + q.len();
        assert(v@.skip(i as int) =~= rest.skip(q.len() as int));
    }
}

/// The number of bytes of a character in UTF-8.
pub open spec fn width(c: char) -> int {
    let n = c as u32;
    if n < 0x80 {
        1
    } else if n < 0x800 {
        2
    } else if n < 0x1_0000 {
        3
    } else {
        4
    }
}

/// The bytes of the white space that starts at `i`.
pub open spec fn white_width(s: Seq<char>, i: int) -> int
    decreases s.len() - i,
{
    if 0 <= i < s.len() && is_white(s[i]) {
        width(s[i]) + white_width(s, i + 1)
    } else {
        0
    }
}

/// How far a line is indented, in bytes.
pub open spec fn indent_of(s: Seq<char>) -> int {
    white_width(s, 0)
}

pub fn indent(s: &str) -> (r: u128)
    ensures
        r == indent_of(s@),
{
    let v = chars_of(s);
    let mut i: usize = 0;
    let mut n: u128 = 0;
    while i < v.len() && white(v[i])
        invariant
            i <= v.len(),
            n <= i * 4,
            n + white_width(v@, i as int) == white_width(v@, 0),
        decreases v.len() - i,
    {
        let c: u32 = v[i] as u32;
        let w: u128 = if c < 0x80 {
            1
        } else if c < 0x800 {
            2
        } else if c < 0x1_0000 {
            3
        } else {
            4
        };
        n = n + w;
        i = i + 1;
    }
    n
}

/// The text with zeros in front up to the given length.
pub open spec fn zero_padded(s: Seq<char>, width: nat) -> Seq<char>
    decreases width - s.len(),
{
    if s.len() >= width {
        s
    } else {
        zero_padded(seq!['0'] + s, width)
    }
}

pub fn zero_pad(s: String, width: usize) -> (r: String)
    ensures
        r@ == zero_padded(s@, width as nat),
{
    let mut r = s;
    let mut n: usize = chars_of(r.as_str()).len();
    while n < width
        invariant
            n == r@.len(),
            zero_padded(r@, width as nat) == zero_padded(s@, width as nat),
        decreases width - n,
    {
        let t = cat("0", r.as_str());
        proof {
            reveal_strlit("0");
            assert("0"@ =~= seq!['0']);
        }
        r = t;
        n = n + 1;
    }
    r
}

// ---- splitting and joining ----

/// The pieces between the occurrences of `sep`, taken from the left.
pub open spec fn split_on(s: Seq<char>, sep: Seq<char>) -> Seq<Seq<char>>
    decreases s.len(),
{
    match find_from(s, sep, 0) {
        Some(i) => if sep.len() > 0 && i + sep.len() <= s.len() && 0 <= i {
            seq![s.take(i)] + split_on(s.skip(i + sep.len()), sep)
        } else {
            seq![s]
        },
        None => seq![s],
    }
}

/// There is always a first piece.
pub proof fn lemma_split_nonempty(s: Seq<char>, sep: Seq<char>)
    ensures
        split_on(s, sep).len() >= 1,
{
}

/// Without one carriage return at the end.
pub open spec fn without_cr(s: Seq<char>) -> Seq<char> {
    if s.len() > 0 && s.last() == '\r' {
        s.drop_last()
    } else {
        s
    }
}

/// The first line feed from `i` on.
pub open spec fn line_end(s: Seq<char>, i: int) -> Option<int>
    decreases s.len() - i,
{
    if i < 0 || i >= s.len() {
        None
    } else if s[i] == '\n' {
        Some(i)
    } else {
        line_end(s, i + 1)
    }
}

pub proof fn lemma_line_end(s: Seq<char>, i: int)
    requires
        0 <= i,
    ensures
        match line_end(s, i) {
            Some(k) => i <= k < s.len() && s[k] == '\n' && forall|j: int| i <= j < k ==> s[j] != '\n',
            None => forall|j: int| i <= j < s.len() ==> s[j] != '\n',
        },
    decreases s.len() - i,
{
    if i < s.len() && s[i] != '\n' {
        lemma_line_end(s, i + 1);
    }
}

/// The lines of a text from index `from` on: a line feed ends a line, one
/// carriage return before it belongs to the ending, and the last line needs none.
pub open spec fn lines_from(s: Seq<char>, from: int) -> Seq<Seq<char>>
    decreases s.len() - from,
    when 0 <= from
    via lines_from_ends
{
    if from >= s.len() {
        Seq::empty()
    } else {
        match line_end(s, from) {
            Some(i) => seq![without_cr(s.subrange(from, i))] + lines_from(s, i + 1),
            None => seq![s.skip(from)],
        }
    }
}

#[via_fn]
proof fn lines_from_ends(s: Seq<char>, from: int) {
    lemma_line_end(s, from);
}

pub open spec fn lines_of(s: Seq<char>) -> Seq<Seq<char>> {
    lines_from(s, 0)
}

pub fn lines(s: &str) -> (r: Vec<String>)
    ensures
        r.deep_view() == lines_of(s@),
{
    let v = chars_of(s);
    let mut out: Vec<String> = Vec::new();
    let mut start: usize = 0;
    let mut i: usize = 0;
    while i < v.len()
        invariant
            start <= i <= v.len(),
            v@ == s@,
            line_end(v@, start as int) == line_end(v@, i as int),
            out.deep_view() + lines_from(v@, start as int) == lines_of(s@),
        decreases v.len() - i,
    {
        if v[i] == '\n' {
            let ghost before = out.deep_view();
            let stop: usize = if i > start && v[i - 1] == '\r' {
                i - 1
            } else {
                i
            };
            let line = part(&v, start, stop);
            assert(line@ =~= without_cr(v@.subrange(start as int, i as int)));
            out.push(line);
            assert(out.deep_view() =~= before.push(line@));
            i = i + 1;
            assert(before + (seq![line@] + lines_from(v@, i as int)) =~= out.deep_view()
                + lines_from(v@, i as int));
            start = i;
        } else {
            i = i + 1;
        }
    }
    if start < v.len() {
        let ghost before = out.deep_view();
        let line = part(&v, start, v.len());
        out.push(line);
        assert(line@ =~= v@.skip(start as int));
        assert(out.deep_view() =~= before + seq![line@]);
    }
    out
}

pub fn split(s: &str, sep: &str) -> (r: Vec<String>)
    ensures
        r.deep_view() == split_on(s@, sep@),
{
    let mut out: Vec<String> = Vec::new();
    let mut rest: Vec<char> = chars_of(s);
    let q = chars_of(sep);
    loop
        invariant
            q@ == sep@,
            out.deep_view() + split_on(rest@, sep@) == split_on(s@, sep@),
        decreases rest.len(),
    {
        let ghost before = out.deep_view();
        let found = if q.len() == 0 {
            None
        } else {
            seek(&rest, &q, 0)
        };
        match found {
            Some(k) => {
                let piece = part(&rest, 0, k);
                let next = rest.split_off(k + q.len());
                out.push(piece);
                assert(out.deep_view() =~= before.push(piece@));
                assert(before + (seq![piece@] + split_on(next@, sep@)) =~= out.deep_view()
                    + split_on(next@, sep@));
                rest = next;
            },
            None => {
                let piece = part(&rest, 0, rest.len());
                out.push(piece);
                assert(piece@ =~= rest@);
                assert(out.deep_view() =~= before + seq![piece@]);
                return out;
            },
        }
    }
}

/// Where the run of characters that are not white ends.
pub open spec fn word_end(s: Seq<char>, i: int) -> int
    decreases s.len() - i,
{
    if 0 <= i < s.len() && !is_white(s[i]) {
        word_end(s, i + 1)
    } else {
        i
    }
}

pub proof fn lemma_word_end(s: Seq<char>, i: int)
    requires
        0 <= i <= s.len(),
    ensures
        i <= word_end(s, i) <= s.len(),
        forall|j: int| i <= j < word_end(s, i) ==> !is_white(#[trigger] s[j]),
        word_end(s, i) < s.len() ==> is_white(s[word_end(s, i)]),
        i < s.len() && !is_white(s[i]) ==> i < word_end(s, i),
    decreases s.len() - i,
{
    if i < s.len() && !is_white(s[i]) {
        lemma_word_end(s, i + 1);
    }
}

/// The words of `s` from index `i` on: runs of characters that are not white.
pub open spec fn words_from(s: Seq<char>, i: int) -> Seq<Seq<char>>
    decreases s.len() - i,
    when 0 <= i
    via words_from_ends
{
    if i >= s.len() {
        Seq::empty()
    } else if is_white(s[i]) {
        words_from(s, i + 1)
    } else {
        seq![s.subrange(i, word_end(s, i))] + words_from(s, word_end(s, i))
    }
}

#[via_fn]
proof fn words_from_ends(s: Seq<char>, i: int) {
    if i < s.len() {
        lemma_word_end(s, i);
    }
}

pub open spec fn words_of(s: Seq<char>) -> Seq<Seq<char>> {
    words_from(s, 0)
}

pub fn words(s: &str) -> (r: Vec<String>)
    ensures
        r.deep_view() == words_of(s@),
{
    let v = chars_of(s);
    let mut out: Vec<String> = Vec::new();
    let mut i: usize = 0;
    while i < v.len()
        invariant
            i <= v.len(),
            v@ == s@,
            out.deep_view() + words_from(v@, i as int) == words_of(s@),
        decreases v.len() - i,
    {
        if white(v[i]) {
            i = i + 1;
        } else {
            let ghost before = out.deep_view();
            let mut j: usize = i;
            while j < v.len() && !white(v[j])
                invariant
                    i <= j <= v.len(),
                    word_end(v@, j as int) == word_end(v@, i as int),
                decreases v.len() - j,
            {
                j = j + 1;
            }
            proof {
                lemma_word_end(v@, i as int);
            }
            let word = part(&v, i, j);
            out.push(word);
            assert(out.deep_view() =~= before.push(word@));
            assert(before + (seq![word@] + words_from(v@, j as int)) =~= out.deep_view()
                + words_from(v@, j as int));
            i = j;
        }
    }
    out
}

/// The two sides of the first white character.
pub fn split_white(s: &str) -> (r: Option<(String, String)>)
    ensures
        r.deep_view() == (if word_end(s@, 0) < s@.len() {
            Some((s@.take(word_end(s@, 0)), s@.skip(word_end(s@, 0) + 1)))
        } else {
            None
        }),
{
    let v = chars_of(s);
    let mut j: usize = 0;
    while j < v.len() && !white(v[j])
        invariant
            j <= v.len(),
            word_end(v@, j as int) == word_end(v@, 0),
        decreases v.len() - j,
    {
        j = j + 1;
    }
    if j < v.len() {
        Some((part(&v, 0, j), part(&v, j + 1, v.len())))
    } else {
        None
    }
}

/// Where the run of alphanumeric characters ends.
pub open spec fn alnum_end(s: Seq<char>, i: int) -> int
    decreases s.len() - i,
{
    if 0 <= i < s.len() && alphanumeric(s[i]) {
        alnum_end(s, i + 1)
    } else {
        i
    }
}

pub proof fn lemma_alnum_end(s: Seq<char>, i: int)
    requires
        0 <= i <= s.len(),
    ensures
        i <= alnum_end(s, i) <= s.len(),
        i < s.len() && alphanumeric(s[i]) ==> i < alnum_end(s, i),
    decreases s.len() - i,
{
    if i < s.len() && alphanumeric(s[i]) {
        lemma_alnum_end(s, i + 1);
    }
}

/// The runs of alphanumeric characters from index `i` on.
pub open spec fn alnum_words_from(s: Seq<char>, i: int) -> Seq<Seq<char>>
    decreases s.len() - i,
    when 0 <= i
    via alnum_words_from_ends
{
    if i >= s.len() {
        Seq::empty()
    } else if !alphanumeric(s[i]) {
        alnum_words_from(s, i + 1)
    } else {
        seq![s.subrange(i, alnum_end(s, i))] + alnum_words_from(s, alnum_end(s, i))
    }
}

#[via_fn]
proof fn alnum_words_from_ends(s: Seq<char>, i: int) {
    if i < s.len() {
        lemma_alnum_end(s, i);
    }
}

/// The words of `s`: its runs of alphanumeric characters.
pub open spec fn alnum_words_of(s: Seq<char>) -> Seq<Seq<char>> {
    alnum_words_from(s, 0)
}

pub fn alnum_words(s: &str) -> (r: Vec<String>)
    ensures
        r.deep_view() == alnum_words_of(s@),
{
    let v = chars_of(s);
    let mut out: Vec<String> = Vec::new();
    let mut i: usize = 0;
    while i < v.len()
        invariant
            i <= v.len(),
            v@ == s@,
            out.deep_view() + alnum_words_from(v@, i as int) == alnum_words_of(s@),
        decreases v.len() - i,
    {
        if !v[i].is_alphanumeric() {
            i = i + 1;
        } else {
            let ghost before = out.deep_view();
            let mut j: usize = i;
            while j < v.len() && v[j].is_alphanumeric()
                invariant
                    i <= j <= v.len(),
                    alnum_end(v@, j as int) == alnum_end(v@, i as int),
                decreases v.len() - j,
            {
                j = j + 1;
            }
            proof {
                lemma_alnum_end(v@, i as int);
            }
            let word = part(&v, i, j);
            out.push(word);
            assert(out.deep_view() =~= before.push(word@));
            assert(before + (seq![word@] + alnum_words_from(v@, j as int)) =~= out.deep_view()
                + alnum_words_from(v@, j as int));
            i = j;
        }
    }
    out
}

/// The first `n` parts with `sep` between them.
pub open spec fn joined_first(parts: Seq<Seq<char>>, sep: Seq<char>, n: int) -> Seq<char>
    decreases n,
{
    if n <= 0 {
        Seq::empty()
    } else if n == 1 {
        parts[0]
    } else {
        joined_first(parts, sep, n - 1) + sep + parts[n - 1]
    }
}

/// The parts with `sep` between them.
pub open spec fn joined(parts: Seq<Seq<char>>, sep: Seq<char>) -> Seq<char> {
    joined_first(parts, sep, parts.len() as int)
}

pub fn join(parts: &Vec<String>, sep: &str) -> (r: String)
    ensures
        r@ == joined(parts.deep_view(), sep@),
{
    let mut r = String::new();
    let mut i: usize = 0;
    while i < parts.len()
        invariant
            i <= parts.len(),
            r@ == joined_first(parts.deep_view(), sep@, i as int),
        decreases parts.len() - i,
    {
        if i > 0 {
            r.append(sep);
        }
        r.append(parts[i].as_str());
        assert(r@ =~= joined_first(parts.deep_view(), sep@, i + 1));
        i = i + 1;
    }
    r
}

/// Every character `from` replaced by the character `to`.
pub open spec fn char_replaced(s: Seq<char>, from: char, to: char) -> Seq<char> {
    Seq::new(
        s.len(),
        |i: int| if s[i] == from {
            to
        } else {
            s[i]
        },
    )
}

pub fn replace_char(s: &str, from: char, to: char) -> (r: String)
    ensures
        r@ == char_replaced(s@, from, to),
{
    let mut r = String::new();
    for c in it: s.chars()
        invariant
            it.seq() == s@,
            r@ == char_replaced(s@.take(it.index()), from, to),
    {
        r.push(
            if c == from {
                to
            } else {
                c
            },
        );
    }
    assert(s@.take(s@.len() as int) =~= s@);
    r
}

/// Every occurrence of `from`, taken from the left, replaced by `to`.
pub open spec fn replaced(s: Seq<char>, from: Seq<char>, to: Seq<char>) -> Seq<char> {
    joined(split_on(s, from), to)
}

pub fn replace(s: &str, from: &str, to: &str) -> (r: String)
    ensures
        r@ == replaced(s@, from@, to@),
{
    let parts = split(s, from);
    join(&parts, to)
}

/// The first `n` lines, each ended by a line feed.
pub open spec fn ended_first(lines: Seq<Seq<char>>, n: int) -> Seq<char>
    decreases n,
{
    if n <= 0 {
        Seq::empty()
    } else {
        ended_first(lines, n - 1) + lines[n - 1] + seq!['\n']
    }
}

pub open spec fn ended(lines: Seq<Seq<char>>) -> Seq<char> {
    ended_first(lines, lines.len() as int)
}

pub proof fn lemma_ended_append(a: Seq<Seq<char>>, b: Seq<Seq<char>>, n: int)
    requires
        0 <= n <= b.len(),
    ensures
        ended_first(a + b, a.len() + n) == ended(a) + ended_first(b, n),
    decreases n,
{
    if n > 0 {
        lemma_ended_append(a, b, n - 1);
        assert((a + b)[a.len() + n - 1] == b[n - 1]);
        assert(ended_first(a + b, a.len() + n) =~= ended(a) + ended_first(b, n));
    } else {
        lemma_ended_prefix(a, b, a.len() as int);
    }
}

pub proof fn lemma_ended_prefix(a: Seq<Seq<char>>, b: Seq<Seq<char>>, n: int)
    requires
        0 <= n <= a.len(),
    ensures
        ended_first(a + b, n) == ended_first(a, n),
    decreases n,
{
    if n > 0 {
        lemma_ended_prefix(a, b, n - 1);
        assert((a + b)[n - 1] == a[n - 1]);
    }
}

pub(crate) fn add_line(out: &mut String, line: &str, lines: Ghost<Seq<Seq<char>>>)
    requires
        old(out)@ == ended(lines@),
    ensures
        final(out)@ == ended(lines@.push(line@)),
{
    out.append(line);
    out.push('\n');
    proof {
        lemma_ended_prefix(lines@, seq![line@], lines@.len() as int);
        assert(lines@ + seq![line@] =~= lines@.push(line@));
        assert(out@ =~= ended(lines@) + line@ + seq!['\n']);
    }
}

pub(crate) fn add_lines(out: &mut String, more: &Vec<String>, lines: Ghost<Seq<Seq<char>>>)
    requires
        old(out)@ == ended(lines@),
    ensures
        final(out)@ == ended(lines@ + more.deep_view()),
{
    let mut i: usize = 0;
    assert(lines@ + more.deep_view().take(0) =~= lines@);
    while i < more.len()
        invariant
            i <= more.len(),
            out@ == ended(lines@ + more.deep_view().take(i as int)),
        decreases more.len() - i,
    {
        let ghost so_far = lines@ + more.deep_view().take(i as int);
        add_line(out, more[i].as_str(), Ghost(so_far));
        i = i + 1;
        assert(lines@ + more.deep_view().take(i as int) =~= so_far.push(more@[i - 1]@));
    }
    assert(more.deep_view().take(i as int) =~= more.deep_view());
}

/// The lines, each ended by a line feed.
pub fn end_lines(lines: &Vec<String>) -> (r: String)
    ensures
        r@ == ended(lines.deep_view()),
{
    let mut out = String::new();
    assert(out@ =~= ended(Seq::<Seq<char>>::empty()));
    add_lines(&mut out, lines, Ghost(Seq::empty()));
    assert(Seq::<Seq<char>>::empty() + lines.deep_view() =~= lines.deep_view());
    out
}

/// A text that can stand as a line: it holds no line feed, and no carriage return ends it.
pub open spec fn is_line(s: Seq<char>) -> bool {
    !s.contains('\n') && !(s.len() > 0 && s.last() == '\r')
}

proof fn lemma_line_end_at(s: Seq<char>, i: int, k: int)
    requires
        0 <= i <= k < s.len(),
        s[k] == '\n',
        forall|j: int| i <= j < k ==> s[j] != '\n',
    ensures
        line_end(s, i) == Some(k),
    decreases k - i,
{
    if i < k {
        lemma_line_end_at(s, i + 1, k);
    }
}

/// The lines, each without one carriage return at its end.
pub open spec fn cut(lines: Seq<Seq<char>>) -> Seq<Seq<char>> {
    Seq::new(lines.len(), |i: int| without_cr(lines[i]))
}

proof fn lemma_lines_after(pre: Seq<char>, lines: Seq<Seq<char>>)
    requires
        forall|i: int| 0 <= i < lines.len() ==> !(#[trigger] lines[i]).contains('\n'),
    ensures
        lines_from(pre + ended(lines), pre.len() as int) == cut(lines),
    decreases lines.len(),
{
    let s = pre + ended(lines);
    let from = pre.len() as int;
    if lines.len() == 0 {
        assert(s.len() == from);
        assert(lines_from(s, from) =~= cut(lines));
    } else {
        let line = lines[0];
        let rest = lines.skip(1);
        assert(lines =~= seq![line] + rest);
        lemma_ended_append(seq![line], rest, rest.len() as int);
        assert(ended(seq![line]) =~= line + seq!['\n']) by {
            assert(ended_first(seq![line], 0) =~= Seq::empty());
        }
        let next = pre + line + seq!['\n'];
        assert(s =~= next + ended(rest));
        let k = from + line.len();
        assert(s[k] == '\n');
        assert forall|j: int| from <= j < k implies s[j] != '\n' by {
            assert(s[j] == line[j - from]);
            assert(line.contains(line[j - from]));
        }
        lemma_line_end_at(s, from, k);
        assert(s.subrange(from, k) =~= line);
        assert forall|i: int| 0 <= i < rest.len() implies !(#[trigger] rest[i]).contains('\n') by {
            assert(rest[i] == lines[i + 1]);
        }
        lemma_lines_after(next, rest);
        assert(lines_from(s, from) =~= seq![without_cr(line)] + lines_from(s, k + 1));
        assert(cut(lines) =~= seq![without_cr(line)] + cut(rest));
    }
}

/// Lines that are written are read back, but for a carriage return at their end.
pub proof fn lemma_lines_cut(lines: Seq<Seq<char>>)
    requires
        forall|i: int| 0 <= i < lines.len() ==> !(#[trigger] lines[i]).contains('\n'),
    ensures
        lines_of(ended(lines)) == cut(lines),
{
    lemma_lines_after(Seq::empty(), lines);
    assert(Seq::<char>::empty() + ended(lines) =~= ended(lines));
}

/// Lines that are written are read back.
pub proof fn lemma_lines_read_back(lines: Seq<Seq<char>>)
    requires
        forall|i: int| 0 <= i < lines.len() ==> is_line(#[trigger] lines[i]),
    ensures
        lines_of(ended(lines)) == lines,
{
    lemma_lines_cut(lines);
    assert(cut(lines) =~= lines);
}

/// No line of a text holds a line feed.
pub proof fn lemma_lines_have_no_feed(s: Seq<char>, from: int)
    requires
        0 <= from,
    ensures
        forall|i: int|
            0 <= i < lines_from(s, from).len() ==> !(#[trigger] lines_from(s, from)[i]).contains('\n'),
    decreases s.len() - from,
{
    if from < s.len() {
        lemma_line_end(s, from);
        match line_end(s, from) {
            Some(k) => {
                lemma_lines_have_no_feed(s, k + 1);
                let rest = lines_from(s, k + 1);
                assert(lines_from(s, from) == seq![without_cr(s.subrange(from, k))] + rest);
                assert forall|i: int| 0 <= i < lines_from(s, from).len() implies !(
                #[trigger] lines_from(s, from)[i]).contains('\n') by {
                    if i > 0 {
                        assert(lines_from(s, from)[i] == rest[i - 1]);
                    }
                }
            },
            None => {},
        }
    }
}

// ---- numbers ----

pub open spec fn digit(d: int) -> char {
    ((if d < 10 {
        48 + d
    } else {
        87 + d
    }) as u32) as char
}

/// The digits of `n` in the given base, without leading zeros.
pub open spec fn digits(n: nat, base: nat) -> Seq<char>
    decreases n,
    when base >= 2
    via digits_ends
{
    if n < base {
        seq![digit(n as int)]
    } else {
        digits(n / base, base).push(digit((n % base) as int))
    }
}

#[via_fn]
proof fn digits_ends(n: nat, base: nat) {
    assert(n >= base >= 2 ==> n / base < n) by (nonlinear_arith);
}

pub open spec fn decimal(n: nat) -> Seq<char> {
    digits(n, 10)
}

pub fn digit_char(d: u8, upper: bool) -> (r: char)
    requires
        d < 16,
    ensures
        !upper ==> r == digit(d as int),
        upper ==> r == upper_digit(d as int),
{
    if d < 10 {
        (48 + d) as char
    } else if upper {
        (55 + d) as char
    } else {
        (87 + d) as char
    }
}

pub open spec fn upper_digit(d: int) -> char {
    ((if d < 10 {
        48 + d
    } else {
        55 + d
    }) as u32) as char
}

pub fn dec(n: u128) -> (r: String)
    ensures
        r@ == decimal(n as nat),
    decreases n,
{
    if n < 10 {
        let mut r = String::new();
        r.push(digit_char(n as u8, false));
        assert(r@ =~= seq![digit(n as int)]);
        r
    } else {
        let mut r = dec(n / 10);
        r.push(digit_char((n % 10) as u8, false));
        r
    }
}

/// The last `width` hexadecimal digits of `n`.
pub open spec fn hex_fixed(n: nat, width: nat) -> Seq<char>
    decreases width,
{
    if width == 0 {
        Seq::empty()
    } else {
        hex_fixed(n / 16, (width - 1) as nat).push(digit((n % 16) as int))
    }
}

pub fn hex(n: u128, width: usize) -> (r: String)
    ensures
        r@ == hex_fixed(n as nat, width as nat),
    decreases width,
{
    if width == 0 {
        String::new()
    } else {
        let mut r = hex(n / 16, width - 1);
        r.push(digit_char((n % 16) as u8, false));
        r
    }
}

/// The value that the first `n` characters of `s` spell in decimal, if each is a digit.
pub open spec fn value_first(s: Seq<char>, n: int) -> Option<nat>
    decreases n,
{
    if n <= 0 {
        Some(0)
    } else {
        match value_first(s, n - 1) {
            Some(v) => if is_digit(s[n - 1]) {
                Some((v * 10 + (s[n - 1] as u32 - 48)) as nat)
            } else {
                None
            },
            None => None,
        }
    }
}

/// The number that `s` spells: decimal digits, at least one, with an optional plus
/// sign in front, and no more than `max`.
pub open spec fn number(s: Seq<char>, max: nat) -> Option<nat> {
    let body = if s.len() > 1 && s[0] == '+' {
        s.skip(1)
    } else {
        s
    };
    if body.len() == 0 {
        None
    } else {
        match value_first(body, body.len() as int) {
            Some(v) => if v <= max {
                Some(v)
            } else {
                None
            },
            None => None,
        }
    }
}

proof fn lemma_value_monotone(s: Seq<char>, n: int, m: int)
    requires
        n <= m,
    ensures
        value_first(s, m) is Some ==> value_first(s, n) is Some && value_first(s, n)->0
            <= value_first(s, m)->0,
        value_first(s, n) is None ==> value_first(s, m) is None,
    decreases m,
{
    if n < m && m > 0 {
        lemma_value_monotone(s, n, m - 1);
    }
}

pub fn parse_number(s: &str, max: u128) -> (r: Option<u128>)
    ensures
        match r {
            Some(n) => number(s@, max as nat) == Some(n as nat) && n <= max,
            None => number(s@, max as nat) is None,
        },
{
    let all = chars_of(s);
    let ghost body = if s@.len() > 1 && s@[0] == '+' {
        s@.skip(1)
    } else {
        s@
    };
    let start: usize = if all.len() > 1 && all[0] == '+' {
        1
    } else {
        0
    };
    if all.len() == 0 {
        return None;
    }
    let mut i: usize = start;
    let mut n: u128 = 0;
    while i < all.len()
        invariant
            start <= i <= all.len(),
            body == all@.skip(start as int),
            body.len() > 0,
            n <= max,
            value_first(body, i - start) == Some(n as nat),
            number(s@, max as nat) == (match value_first(body, body.len() as int) {
                Some(v) => if v <= max {
                    Some(v)
                } else {
                    None
                },
                None => None,
            }),
        decreases all.len() - i,
    {
        let c = all[i];
        assert(c == body[i - start]);
        proof {
            lemma_value_monotone(body, i + 1 - start, body.len() as int);
        }
        if !('0' <= c && c <= '9') {
            return None;
        }
        let d: u128 = (c as u32 - 48) as u128;
        if d > max || n > (max - d) / 10 {
            return None;
        }
        n = n * 10 + d;
        i = i + 1;
    }
    Some(n)
}

// ---- order ----

/// Whether `a` stands strictly before `b`, comparing characters from index `i` on.
pub open spec fn before_from(a: Seq<char>, b: Seq<char>, i: int) -> bool
    decreases a.len() - i,
{
    if i < 0 || i >= b.len() {
        false
    } else if i >= a.len() {
        true
    } else if a[i] != b[i] {
        a[i] < b[i]
    } else {
        before_from(a, b, i + 1)
    }
}

/// Whether `a` stands strictly before `b` in the order of strings.
pub open spec fn before(a: Seq<char>, b: Seq<char>) -> bool {
    before_from(a, b, 0)
}

pub fn less(a: &str, b: &str) -> (r: bool)
    ensures
        r == before(a@, b@),
{
    let x = chars_of(a);
    let y = chars_of(b);
    let mut i: usize = 0;
    loop
        invariant
            i <= x.len(),
            i <= y.len(),
            before_from(x@, y@, i as int) == before_from(x@, y@, 0),
            x@ == a@,
            y@ == b@,
        decreases x.len() - i,
    {
        if i >= y.len() {
            return false;
        }
        if i >= x.len() {
            return true;
        }
        if x[i] != y[i] {
            return x[i] < y[i];
        }
        i = i + 1;
    }
}

pub proof fn lemma_before_total(a: Seq<char>, b: Seq<char>, i: int)
    requires
        0 <= i <= a.len(),
        i <= b.len(),
        a.take(i) == b.take(i),
    ensures
        !(before_from(a, b, i) && before_from(b, a, i)),
        a != b ==> before_from(a, b, i) || before_from(b, a, i),
    decreases a.len() - i,
{
    if i < a.len() && i < b.len() {
        if a[i] == b[i] {
            assert(a.take(i + 1) =~= b.take(i + 1));
            lemma_before_total(a, b, i + 1);
        }
    } else if i == a.len() && i == b.len() {
        assert(a =~= a.take(i));
        assert(b =~= b.take(i));
    }
}

pub proof fn lemma_before_transitive(a: Seq<char>, b: Seq<char>, c: Seq<char>, i: int)
    requires
        0 <= i,
        before_from(a, b, i),
        before_from(b, c, i),
    ensures
        before_from(a, c, i),
    decreases a.len() - i,
{
    if i < a.len() && i < b.len() && i < c.len() && a[i] == b[i] && b[i] == c[i] {
        lemma_before_transitive(a, b, c, i + 1);
    }
}

} // verus!
