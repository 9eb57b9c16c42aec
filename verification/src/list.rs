//! Vectors, stated over the deep views of what they hold.
use vstd::prelude::*;

verus! {

pub fn none<T: DeepView>() -> (r: Vec<T>)
    ensures
        r@ == Seq::<T>::empty(),
        r.deep_view() == Seq::<T::V>::empty(),
{
    let r: Vec<T> = Vec::new();
    assert(r.deep_view() =~= Seq::<T::V>::empty());
    r
}

/// The first part of each pair.
pub open spec fn firsts(pairs: Seq<(Seq<char>, Seq<char>)>) -> Seq<Seq<char>> {
    Seq::new(pairs.len(), |i: int| pairs[i].0)
}

/// Adds `x` at the end.
pub fn put<T: DeepView>(v: &mut Vec<T>, x: T)
    ensures
        final(v)@ == old(v)@.push(x),
        final(v).deep_view() == old(v).deep_view().push(x.deep_view()),
{
    let ghost before = v.deep_view();
    v.push(x);
    assert(v.deep_view() =~= before.push(x.deep_view()));
}

/// Puts `x` at index `i`, moving what stood there one up.
pub fn put_at<T: DeepView>(v: &mut Vec<T>, i: usize, x: T)
    requires
        i <= old(v).len(),
    ensures
        final(v)@ == old(v)@.insert(i as int, x),
        final(v).deep_view() == old(v).deep_view().insert(i as int, x.deep_view()),
{
    let ghost before = v.deep_view();
    v.insert(i, x);
    assert(v.deep_view() =~= before.insert(i as int, x.deep_view()));
}

/// Takes the item at index `i` out.
pub fn take_at<T: DeepView>(v: &mut Vec<T>, i: usize) -> (x: T)
    requires
        i < old(v).len(),
    ensures
        x == old(v)@[i as int],
        final(v)@ == old(v)@.remove(i as int),
        x.deep_view() == old(v).deep_view()[i as int],
        final(v).deep_view() == old(v).deep_view().remove(i as int),
{
    let ghost before = v.deep_view();
    let x = v.remove(i);
    assert(v.deep_view() =~= before.remove(i as int));
    x
}

/// Replaces the item at index `i`.
pub fn set_at<T: DeepView>(v: &mut Vec<T>, i: usize, x: T)
    requires
        i < old(v).len(),
    ensures
        final(v)@ == old(v)@.update(i as int, x),
        final(v).deep_view() == old(v).deep_view().update(i as int, x.deep_view()),
{
    let ghost before = v.deep_view();
    v.set(i, x);
    assert(v.deep_view() =~= before.update(i as int, x.deep_view()));
}

/// Moves the items of `more` to the end of `v`.
pub fn put_all<T: DeepView>(v: &mut Vec<T>, more: Vec<T>)
    ensures
        final(v)@ == old(v)@ + more@,
        final(v).deep_view() == old(v).deep_view() + more.deep_view(),
{
    let ghost before = v.deep_view();
    let mut more = more;
    let ghost tail = more.deep_view();
    let ghost m = more@;
    let ghost old_v = v@;
    v.append(&mut more);
    assert(v@ =~= old_v + m);
    assert(v.deep_view() =~= before + tail);
}

pub fn copy(v: &Vec<String>) -> (r: Vec<String>)
    ensures
        r.deep_view() == v.deep_view(),
{
    let mut out: Vec<String> = none();
    let mut i: usize = 0;
    while i < v.len()
        invariant
            i <= v.len(),
            out.deep_view() == v.deep_view().take(i as int),
        decreases v.len() - i,
    {
        put(&mut out, v[i].clone());
        i = i + 1;
        assert(out.deep_view() =~= v.deep_view().take(i as int));
    }
    assert(v.deep_view().take(i as int) =~= v.deep_view());
    out
}

pub fn copy_pairs(v: &Vec<(String, String)>) -> (r: Vec<(String, String)>)
    ensures
        r.deep_view() == v.deep_view(),
{
    let mut out: Vec<(String, String)> = none();
    let mut i: usize = 0;
    while i < v.len()
        invariant
            i <= v.len(),
            out.deep_view() == v.deep_view().take(i as int),
        decreases v.len() - i,
    {
        put(&mut out, (v[i].0.clone(), v[i].1.clone()));
        i = i + 1;
        assert(out.deep_view() =~= v.deep_view().take(i as int));
    }
    assert(v.deep_view().take(i as int) =~= v.deep_view());
    out
}

/// Whether `x` occurs in `v`.
pub fn holds(v: &Vec<String>, x: &str) -> (r: bool)
    ensures
        r == v.deep_view().contains(x@),
{
    let key = x.to_string();
    let mut i: usize = 0;
    while i < v.len()
        invariant
            i <= v.len(),
            key@ == x@,
            forall|j: int| 0 <= j < i ==> v.deep_view()[j] != x@,
        decreases v.len() - i,
    {
        if v[i] == key {
            assert(v.deep_view()[i as int] == x@);
            return true;
        }
        i = i + 1;
    }
    false
}

} // verus!
