//! A map from text to values that keeps its entries in the order of insertion, with
//! an index by key.
use vstd::prelude::*;
use vstd::hash_map::StringHashMap;
use crate::list;

verus! {

/// The index of the first entry from `i` on whose key is `k`.
pub open spec fn key_from<A>(s: Seq<(Seq<char>, A)>, k: Seq<char>, i: int) -> Option<int>
    decreases s.len() - i,
{
    if i < 0 || i >= s.len() {
        None
    } else if s[i].0 == k {
        Some(i)
    } else {
        key_from(s, k, i + 1)
    }
}

/// The value under the key `k`.
pub open spec fn found<A>(s: Seq<(Seq<char>, A)>, k: Seq<char>) -> Option<A> {
    match key_from(s, k, 0) {
        Some(i) => Some(s[i].1),
        None => None,
    }
}

/// The entries once `k` has the value `a`: an entry under `k` keeps its place.
pub open spec fn inserted<A>(s: Seq<(Seq<char>, A)>, k: Seq<char>, a: A) -> Seq<(Seq<char>, A)> {
    match key_from(s, k, 0) {
        Some(i) => s.update(i, (k, a)),
        None => s.push((k, a)),
    }
}

pub open spec fn distinct_keys<A>(s: Seq<(Seq<char>, A)>) -> bool {
    forall|i: int, j: int| 0 <= i < j < s.len() ==> #[trigger] s[i].0 != #[trigger] s[j].0
}

pub proof fn lemma_key_from<A>(s: Seq<(Seq<char>, A)>, k: Seq<char>, i: int)
    requires
        0 <= i,
    ensures
        match key_from(s, k, i) {
            Some(j) => i <= j < s.len() && s[j].0 == k && forall|h: int|
                i <= h < j ==> #[trigger] s[h].0 != k,
            None => forall|h: int| i <= h < s.len() ==> #[trigger] s[h].0 != k,
        },
    decreases s.len() - i,
{
    if i < s.len() && s[i].0 != k {
        lemma_key_from(s, k, i + 1);
    }
}

pub proof fn lemma_key_at<A>(s: Seq<(Seq<char>, A)>, k: Seq<char>, i: int, j: int)
    requires
        0 <= i <= j < s.len(),
        s[j].0 == k,
        forall|h: int| i <= h < j ==> #[trigger] s[h].0 != k,
    ensures
        key_from(s, k, i) == Some(j),
    decreases j - i,
{
    if i < j {
        lemma_key_at(s, k, i + 1, j);
    }
}

/// What was put under a key is found under it, other keys keep what they had, and
/// keys stay distinct.
pub proof fn insert_then_get<A>(s: Seq<(Seq<char>, A)>, k: Seq<char>, a: A, q: Seq<char>)
    ensures
        found(inserted(s, k, a), k) == Some(a),
        q != k ==> found(inserted(s, k, a), q) == found(s, q),
        distinct_keys(s) ==> distinct_keys(inserted(s, k, a)),
{
    let t = inserted(s, k, a);
    lemma_key_from(s, k, 0);
    lemma_key_from(s, q, 0);
    lemma_key_from(t, k, 0);
    lemma_key_from(t, q, 0);
    match key_from(s, k, 0) {
        Some(i) => {
            lemma_key_at(t, k, 0, i);
            if q != k {
                match key_from(s, q, 0) {
                    Some(j) => {
                        assert forall|h: int| 0 <= h < j implies #[trigger] t[h].0 != q by {
                            assert(s[h].0 != q);
                        }
                        lemma_key_at(t, q, 0, j);
                    },
                    None => {
                        if key_from(t, q, 0) is Some {
                            let j = key_from(t, q, 0)->0;
                            assert(s[j].0 != q);
                        }
                    },
                }
            }
        },
        None => {
            lemma_key_at(t, k, 0, s.len() as int);
            if q != k {
                match key_from(s, q, 0) {
                    Some(j) => {
                        assert forall|h: int| 0 <= h < j implies #[trigger] t[h].0 != q by {
                            assert(s[h].0 != q);
                        }
                        lemma_key_at(t, q, 0, j);
                    },
                    None => {
                        if key_from(t, q, 0) is Some {
                            let j = key_from(t, q, 0)->0;
                            if j < s.len() {
                                assert(s[j].0 != q);
                            }
                        }
                    },
                }
            }
        },
    }
}

/// The index names, for each key, the place of its entry.
pub open spec fn indexed<A>(s: Seq<(Seq<char>, A)>, m: Map<Seq<char>, usize>) -> bool {
    &&& forall|k: Seq<char>| #[trigger]
        m.contains_key(k) ==> m[k] < s.len() && s[m[k] as int].0 == k
    &&& forall|i: int|
        0 <= i < s.len() ==> m.contains_key((#[trigger] s[i]).0) && m[s[i].0] == i
}

proof fn lemma_indexed<A>(s: Seq<(Seq<char>, A)>, m: Map<Seq<char>, usize>, k: Seq<char>)
    requires
        indexed(s, m),
    ensures
        m.contains_key(k) ==> key_from(s, k, 0) == Some(m[k] as int),
        !m.contains_key(k) ==> key_from(s, k, 0) is None,
{
    lemma_key_from(s, k, 0);
    if m.contains_key(k) {
        assert forall|h: int| 0 <= h < m[k] implies #[trigger] s[h].0 != k by {
            assert(m[s[h].0] == h);
        }
        lemma_key_at(s, k, 0, m[k] as int);
    } else if key_from(s, k, 0) is Some {
        let i = key_from(s, k, 0)->0;
        assert(m.contains_key(s[i].0));
    }
}

pub struct TextMap<A: DeepView> {
    entries: Vec<(String, A)>,
    index: StringHashMap<usize>,
}

impl<A: DeepView> DeepView for TextMap<A> {
    type V = Seq<(Seq<char>, A::V)>;

    closed spec fn deep_view(&self) -> Seq<(Seq<char>, A::V)> {
        self.entries.deep_view()
    }
}

impl<A: DeepView> TextMap<A> {
    #[verifier::type_invariant]
    spec fn well_formed(self) -> bool {
        indexed(self.entries.deep_view(), self.index@)
    }

    pub fn new() -> (r: TextMap<A>)
        ensures
            r.deep_view() == Seq::<(Seq<char>, A::V)>::empty(),
    {
        TextMap { entries: list::none(), index: StringHashMap::new() }
    }

    pub fn len(&self) -> (n: usize)
        ensures
            n == self.deep_view().len(),
    {
        self.entries.len()
    }

    /// The entry at place `i`.
    pub fn at(&self, i: usize) -> (r: &(String, A))
        requires
            i < self.deep_view().len(),
        ensures
            r.deep_view() == self.deep_view()[i as int],
    {
        assert(self.deep_view()[i as int] == self.entries@[i as int].deep_view());
        &self.entries[i]
    }

    /// Where the key stands among the entries.
    pub fn place(&self, k: &str) -> (r: Option<usize>)
        ensures
            match r {
                Some(i) => key_from(self.deep_view(), k@, 0) == Some(i as int) && i
                    < self.deep_view().len(),
                None => key_from(self.deep_view(), k@, 0) is None,
            },
    {
        proof {
            use_type_invariant(self);
            lemma_indexed(self.deep_view(), self.index@, k@);
        }
        match self.index.get(k) {
            Some(i) => Some(*i),
            None => None,
        }
    }

    pub fn get(&self, k: &str) -> (r: Option<&A>)
        ensures
            r.deep_view() == found(self.deep_view(), k@),
    {
        match self.place(k) {
            Some(i) => {
                assert(self.deep_view()[i as int] == self.entries@[i as int].deep_view());
                Some(&self.entries[i].1)
            },
            None => None,
        }
    }

    pub fn contains_key(&self, k: &str) -> (r: bool)
        ensures
            r == (found(self.deep_view(), k@) is Some),
    {
        match self.place(k) {
            Some(_) => true,
            None => false,
        }
    }

    pub fn insert(&mut self, k: String, a: A)
        ensures
            final(self).deep_view() == inserted(old(self).deep_view(), k@, a.deep_view()),
    {
        let spot = self.place(k.as_str());
        let mut m: TextMap<A> = TextMap::new();
        std::mem::swap(self, &mut m);
        proof {
            use_type_invariant(&m);
        }
        let ghost before = m.entries.deep_view();
        let ghost places = m.index@;
        let mut entries = m.entries;
        let mut index = m.index;
        match spot {
            Some(i) => {
                list::set_at(&mut entries, i, (k, a));
                assert(indexed(entries.deep_view(), index@)) by {
                    lemma_key_from(before, k@, 0);
                    assert(before[i as int].0 == k@);
                }
            },
            None => {
                let n: usize = entries.len();
                index.insert(k.clone(), n);
                list::put(&mut entries, (k, a));
                assert(indexed(entries.deep_view(), index@)) by {
                    lemma_key_from(before, k@, 0);
                    let s = entries.deep_view();
                    assert forall|j: int| 0 <= j < s.len() implies index@.contains_key(
                        (#[trigger] s[j]).0,
                    ) && index@[s[j].0] == j by {
                        if j < n {
                            assert(before[j].0 != k@);
                            assert(s[j] == before[j]);
                        }
                    }
                    assert forall|q: Seq<char>| #[trigger]
                        index@.contains_key(q) implies index@[q] < s.len() && s[index@[q] as int].0
                        == q by {
                        if q != k@ {
                            assert(places.contains_key(q));
                        }
                    }
                }
            },
        }
        *self = TextMap { entries, index };
    }

    /// Exchanges the value at place `i` with `a`.
    pub fn swap_at(&mut self, i: usize, a: &mut A)
        requires
            i < old(self).deep_view().len(),
        ensures
            final(self).deep_view() == old(self).deep_view().update(
                i as int,
                (old(self).deep_view()[i as int].0, old(a).deep_view()),
            ),
            final(a).deep_view() == old(self).deep_view()[i as int].1,
    {
        let mut m: TextMap<A> = TextMap::new();
        std::mem::swap(self, &mut m);
        proof {
            use_type_invariant(&m);
        }
        let ghost before = m.entries.deep_view();
        let mut entries = m.entries;
        let index = m.index;
        assert(before[i as int] == entries@[i as int].deep_view());
        let ghost held = entries@;
        let ghost given = a.deep_view();
        std::mem::swap(&mut entries[i].1, a);
        assert(entries.deep_view() =~= before.update(i as int, (before[i as int].0, given)));
        *self = TextMap { entries, index };
    }

    /// No two entries have the same key.
    pub fn keys_are_distinct(&self)
        ensures
            distinct_keys(self.deep_view()),
    {
        proof {
            use_type_invariant(self);
            let s = self.deep_view();
            assert forall|i: int, j: int| 0 <= i < j < s.len() implies #[trigger] s[i].0
                != #[trigger] s[j].0 by {
                assert(self.index@[s[i].0] == i);
            }
        }
    }
}

} // verus!
