//! A stable sort for anything with a total order of precedence.
use vstd::prelude::*;
use crate::list;
use crate::text;
#[allow(unused_imports)]
use crate::text::before;

verus! {

/// A type whose values have an order of precedence.
pub trait Ranked: DeepView + Sized {
    /// `a` may stand in front of `b`.
    spec fn precedes(a: Self::V, b: Self::V) -> bool;

    proof fn total(a: Self::V, b: Self::V)
        ensures
            Self::precedes(a, b) || Self::precedes(b, a),
    ;

    proof fn transitive(a: Self::V, b: Self::V, c: Self::V)
        requires
            Self::precedes(a, b),
            Self::precedes(b, c),
        ensures
            Self::precedes(a, c),
    ;

    fn goes_before(&self, other: &Self) -> (r: bool)
        ensures
            r == Self::precedes(self.deep_view(), other.deep_view()),
    ;
}

/// Where `x` goes in `s[..n]`: behind the last item that may stand in front of it.
pub open spec fn place<T: Ranked>(s: Seq<T::V>, x: T::V, n: int) -> int
    decreases n,
{
    if 0 < n <= s.len() && !T::precedes(s[n - 1], x) {
        place::<T>(s, x, n - 1)
    } else {
        n
    }
}

/// The first `n` items in order, equal ones in the order in which they stood.
pub open spec fn sorted_first<T: Ranked>(s: Seq<T::V>, n: int) -> Seq<T::V>
    decreases n,
{
    if n <= 0 {
        Seq::empty()
    } else {
        let t = sorted_first::<T>(s, n - 1);
        t.insert(place::<T>(t, s[n - 1], t.len() as int), s[n - 1])
    }
}

pub open spec fn sorted<T: Ranked>(s: Seq<T::V>) -> Seq<T::V> {
    sorted_first::<T>(s, s.len() as int)
}

pub open spec fn in_order<T: Ranked>(s: Seq<T::V>) -> bool {
    forall|i: int, j: int|
        0 <= i < j < s.len() ==> T::precedes(#[trigger] s[i], #[trigger] s[j])
}

pub proof fn lemma_place<T: Ranked>(s: Seq<T::V>, x: T::V, n: int)
    requires
        0 <= n <= s.len(),
    ensures
        0 <= place::<T>(s, x, n) <= n,
        place::<T>(s, x, n) > 0 ==> T::precedes(s[place::<T>(s, x, n) - 1], x),
        forall|i: int| place::<T>(s, x, n) <= i < n ==> !T::precedes(#[trigger] s[i], x),
    decreases n,
{
    if 0 < n && !T::precedes(s[n - 1], x) {
        lemma_place::<T>(s, x, n - 1);
    }
}

pub proof fn lemma_sorted_first<T: Ranked>(s: Seq<T::V>, n: int)
    requires
        0 <= n <= s.len(),
    ensures
        sorted_first::<T>(s, n).len() == n,
        in_order::<T>(sorted_first::<T>(s, n)),
        sorted_first::<T>(s, n).to_multiset() == s.take(n).to_multiset(),
    decreases n,
{
    broadcast use vstd::seq_lib::group_to_multiset_ensures;

    if n > 0 {
        lemma_sorted_first::<T>(s, n - 1);
        let t = sorted_first::<T>(s, n - 1);
        let x = s[n - 1];
        let p = place::<T>(t, x, t.len() as int);
        lemma_place::<T>(t, x, t.len() as int);
        let u = t.insert(p, x);
        assert forall|i: int, j: int| 0 <= i < j < u.len() implies T::precedes(
            #[trigger] u[i],
            #[trigger] u[j],
        ) by {
            if j < p {
                assert(u[i] == t[i] && u[j] == t[j]);
            } else if j == p {
                if i < p - 1 {
                    assert(T::precedes(t[i], t[p - 1]));
                    T::transitive(t[i], t[p - 1], x);
                }
            } else if i == p {
                T::total(t[j - 1], x);
                assert(!T::precedes(t[j - 1], x));
            } else if i < p {
                assert(T::precedes(t[i], t[j - 1]));
            } else {
                assert(T::precedes(t[i - 1], t[j - 1]));
            }
        }
        assert(s.take(n) =~= s.take(n - 1).push(x));
        vstd::seq_lib::to_multiset_insert(t, p, x);
    } else {
        assert(s.take(0) =~= Seq::<T::V>::empty());
    }
}

/// Sorting puts every item in order and keeps each as often as it was there.
pub proof fn sorting_orders_and_keeps<T: Ranked>(s: Seq<T::V>)
    ensures
        in_order::<T>(sorted::<T>(s)),
        sorted::<T>(s).to_multiset() == s.to_multiset(),
        sorted::<T>(s).len() == s.len(),
{
    lemma_sorted_first::<T>(s, s.len() as int);
    assert(s.take(s.len() as int) =~= s);
}

pub fn sort<T: Ranked>(v: Vec<T>) -> (r: Vec<T>)
    ensures
        r.deep_view() == sorted::<T>(v.deep_view()),
{
    let ghost s = v.deep_view();
    let mut rest = v;
    let mut todo: Vec<T> = list::none();
    // Reversed, so that the next item is at the end.
    while rest.len() > 0
        invariant
            rest.deep_view() + todo.deep_view().reverse() == s,
        decreases rest.len(),
    {
        let ghost r0 = rest.deep_view();
        let ghost t0 = todo.deep_view();
        let n: usize = rest.len() - 1;
        let x = list::take_at(&mut rest, n);
        list::put(&mut todo, x);
        assert(rest.deep_view() + todo.deep_view().reverse() =~= r0 + t0.reverse());
    }
    assert(todo.deep_view().reverse() =~= s);
    let mut out: Vec<T> = list::none();
    let ghost mut done: int = 0;
    while todo.len() > 0
        invariant
            0 <= done <= s.len(),
            todo.deep_view().reverse() == s.skip(done),
            out.deep_view() == sorted_first::<T>(s, done),
        decreases todo.len(),
    {
        let ghost t0 = todo.deep_view();
        assert(t0.reverse().len() == t0.len());
        let n: usize = todo.len() - 1;
        let x = list::take_at(&mut todo, n);
        assert(t0.reverse()[0] == t0[n as int]);
        assert(x.deep_view() == s[done]);
        let mut p: usize = out.len();
        assert(out.deep_view().len() == out.len());
        while p > 0 && !out[p - 1].goes_before(&x)
            invariant
                p <= out.len(),
                place::<T>(out.deep_view(), x.deep_view(), p as int) == place::<T>(
                    out.deep_view(),
                    x.deep_view(),
                    out.len() as int,
                ),
            decreases p,
        {
            assert(out.deep_view()[p - 1] == out@[p - 1].deep_view());
            p = p - 1;
        }
        assert(p > 0 ==> out.deep_view()[p - 1] == out@[p - 1].deep_view());
        list::put_at(&mut out, p, x);
        assert(todo.deep_view().reverse() =~= s.skip(done + 1)) by {
            assert forall|i: int| 0 <= i < n implies todo.deep_view().reverse()[i] == s.skip(done + 1)[i] by {
                assert(t0.reverse()[i + 1] == s.skip(done)[i + 1]);
            }
        }
        proof {
            done = done + 1;
        }
    }
    assert(done == s.len());
    out
}

impl Ranked for String {
    open spec fn precedes(a: Seq<char>, b: Seq<char>) -> bool {
        !before(b, a)
    }

    proof fn total(a: Seq<char>, b: Seq<char>) {
        assert(a.take(0) =~= b.take(0));
        text::lemma_before_total(a, b, 0);
    }

    proof fn transitive(a: Seq<char>, b: Seq<char>, c: Seq<char>) {
        assert(a.take(0) =~= b.take(0));
        assert(b.take(0) =~= c.take(0));
        assert(c.take(0) =~= a.take(0));
        text::lemma_before_total(a, b, 0);
        text::lemma_before_total(b, c, 0);
        text::lemma_before_total(a, c, 0);
        if before(c, a) && a != b && b != c {
            text::lemma_before_transitive(a, b, c, 0);
        }
    }

    fn goes_before(&self, other: &String) -> (r: bool) {
        !text::less(other.as_str(), self.as_str())
    }
}

/// Sorting forgets the order in which the texts stood: the same texts give the same
/// sequence.
pub proof fn sorting_forgets_the_order(s: Seq<Seq<char>>, t: Seq<Seq<char>>)
    requires
        s.to_multiset() == t.to_multiset(),
    ensures
        sorted::<String>(s) == sorted::<String>(t),
{
    let leq = |a: Seq<char>, b: Seq<char>| <String as Ranked>::precedes(a, b);
    sorting_orders_and_keeps::<String>(s);
    sorting_orders_and_keeps::<String>(t);
    assert forall|a: Seq<char>, b: Seq<char>| #[trigger] leq(a, b) || #[trigger] leq(b, a) by {
        <String as Ranked>::total(a, b);
    }
    assert forall|a: Seq<char>, b: Seq<char>|
        #[trigger] leq(a, b) && #[trigger] leq(b, a) implies a == b by {
        assert(a.take(0) =~= b.take(0));
        text::lemma_before_total(a, b, 0);
    }
    assert forall|a: Seq<char>, b: Seq<char>, c: Seq<char>|
        #[trigger] leq(a, b) && #[trigger] leq(b, c) implies leq(a, c) by {
        <String as Ranked>::transitive(a, b, c);
    }
    vstd::seq_lib::lemma_sorted_unique(sorted::<String>(s), sorted::<String>(t), leq);
}

impl<A: DeepView> Ranked for (String, A) {
    open spec fn precedes(a: (Seq<char>, A::V), b: (Seq<char>, A::V)) -> bool {
        <String as Ranked>::precedes(a.0, b.0)
    }

    proof fn total(a: (Seq<char>, A::V), b: (Seq<char>, A::V)) {
        <String as Ranked>::total(a.0, b.0);
    }

    proof fn transitive(a: (Seq<char>, A::V), b: (Seq<char>, A::V), c: (Seq<char>, A::V)) {
        <String as Ranked>::transitive(a.0, b.0, c.0);
    }

    fn goes_before(&self, other: &(String, A)) -> (r: bool) {
        self.0.goes_before(&other.0)
    }
}

/// The sequence without an item that equals the one before it.
pub open spec fn deduped_first<A>(s: Seq<A>, n: int) -> Seq<A>
    decreases n,
{
    if n <= 0 {
        Seq::empty()
    } else if n >= 2 && s[n - 1] == s[n - 2] {
        deduped_first(s, n - 1)
    } else {
        deduped_first(s, n - 1).push(s[n - 1])
    }
}

pub open spec fn deduped<A>(s: Seq<A>) -> Seq<A> {
    deduped_first(s, s.len() as int)
}

pub fn dedup(v: &Vec<String>) -> (r: Vec<String>)
    ensures
        r.deep_view() == deduped(v.deep_view()),
{
    let mut out: Vec<String> = list::none();
    let mut i: usize = 0;
    while i < v.len()
        invariant
            i <= v.len(),
            out.deep_view() == deduped_first(v.deep_view(), i as int),
        decreases v.len() - i,
    {
        assert(v.deep_view()[i as int] == v@[i as int]@);
        if i >= 1 {
            assert(v.deep_view()[i - 1] == v@[i - 1]@);
        }
        if i == 0 || !(v[i] == v[i - 1]) {
            list::put(&mut out, v[i].clone());
        }
        i = i + 1;
    }
    out
}

} // verus!
