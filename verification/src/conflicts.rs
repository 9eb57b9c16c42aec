//! The conflict index: which mods share files, how many, and who wins them.
//!
//! The winner of a shared file is the mod of higher priority, so a pair is stored as
//! winner over loser. The index is kept as text, one `Winner > Loser = count` line
//! for each pair.
use vstd::prelude::*;
use crate::list;
use crate::map::TextMap;
#[allow(unused_imports)]
use crate::map::{distinct_keys, found, inserted, key_from, lemma_key_from};
#[allow(unused_imports)]
use crate::readback::{lemma_number_read_back, lemma_split_at, lemma_trim_padded, lemma_trim_tight, tight};
use crate::sort;
use crate::sort::Ranked;
#[allow(unused_imports)]
use crate::sort::sorted;
use crate::text;
#[allow(unused_imports)]
use crate::text::{begins, char_replaced, decimal, ended, is_digit, is_line, lines_of, lowercase, number, split_first, trimmed};

verus! {

/// A file that more mods provide says nothing about two of them.
pub const MAX_PROVIDERS: usize = 12;

/// Fewer shared files are noise.
pub const MIN_SHARED: u32 = 3;

pub struct ConflictIndex {
    /// By winner, then by loser: the number of shared files.
    pub pairs: TextMap<TextMap<u32>>,
    pub files_indexed: usize,
    pub mods_scanned: usize,
}

pub type PairsView = Seq<(Seq<char>, Seq<(Seq<char>, u32)>)>;

#[verifier::ext_equal]
pub struct ConflictView {
    pub pairs: PairsView,
    pub files_indexed: usize,
    pub mods_scanned: usize,
}

impl DeepView for ConflictIndex {
    type V = ConflictView;

    open spec fn deep_view(&self) -> ConflictView {
        ConflictView {
            pairs: self.pairs.deep_view(),
            files_indexed: self.files_indexed,
            mods_scanned: self.mods_scanned,
        }
    }
}

pub open spec fn changed_after(time: Option<u128>, t: u128) -> bool {
    match time {
        Some(x) => x > t,
        None => false,
    }
}

/// How many files `w` wins over `l`.
pub open spec fn wins(pairs: PairsView, w: Seq<char>, l: Seq<char>) -> Option<u32> {
    match found(pairs, w) {
        Some(m) => found(m, l),
        None => None,
    }
}

/// The pairs once `w` wins `n` files over `l`.
pub open spec fn with_pair(pairs: PairsView, w: Seq<char>, l: Seq<char>, n: u32) -> PairsView {
    match found(pairs, w) {
        Some(m) => inserted(pairs, w, inserted(m, l, n)),
        None => inserted(pairs, w, inserted(Seq::empty(), l, n)),
    }
}

/// The winner of two mods that share files, and how many they share.
pub open spec fn shared_files(pairs: PairsView, a: Seq<char>, b: Seq<char>) -> Option<
    (Seq<char>, u32),
> {
    if wins(pairs, a, b) is Some {
        Some((a, wins(pairs, a, b)->0))
    } else if wins(pairs, b, a) is Some {
        Some((b, wins(pairs, b, a)->0))
    } else {
        None
    }
}

// ---- building ----

/// The name under which a file is compared; a mod's own `meta.ini` is no content.
pub open spec fn file_name(rel: Seq<char>) -> Option<Seq<char>> {
    let k = lowercase(char_replaced(rel, '\\', '/'));
    if k == "meta.ini"@ {
        None
    } else {
        Some(k)
    }
}

pub type ProvidersView = Seq<(Seq<char>, Seq<usize>)>;

pub open spec fn with_provider(m: ProvidersView, path: Seq<char>, mod_index: usize) -> ProvidersView {
    match found(m, path) {
        Some(ps) => inserted(m, path, ps.push(mod_index)),
        None => inserted(m, path, seq![mod_index]),
    }
}

/// The providers once the first `n` files of a mod are counted.
pub open spec fn with_files(
    m: ProvidersView,
    files: Seq<Seq<char>>,
    mod_index: usize,
    n: int,
) -> ProvidersView
    decreases n,
{
    if n <= 0 {
        m
    } else {
        let before = with_files(m, files, mod_index, n - 1);
        match file_name(files[n - 1]) {
            Some(k) => with_provider(before, k, mod_index),
            None => before,
        }
    }
}

/// How many of the first `n` files are content.
pub open spec fn content_first(files: Seq<Seq<char>>, n: int) -> nat
    decreases n,
{
    if n <= 0 {
        0
    } else if file_name(files[n - 1]) is Some {
        content_first(files, n - 1) + 1
    } else {
        content_first(files, n - 1)
    }
}

/// Who provides which file, for the first `n` mods.
pub open spec fn providers_first(mods: Seq<(usize, Seq<Seq<char>>)>, n: int) -> ProvidersView
    decreases n,
{
    if n <= 0 {
        Seq::empty()
    } else {
        with_files(
            providers_first(mods, n - 1),
            mods[n - 1].1,
            mods[n - 1].0,
            mods[n - 1].1.len() as int,
        )
    }
}

pub open spec fn files_first(mods: Seq<(usize, Seq<Seq<char>>)>, n: int) -> nat
    decreases n,
{
    if n <= 0 {
        0
    } else {
        files_first(mods, n - 1) + content_first(mods[n - 1].1, mods[n - 1].1.len() as int)
    }
}

/// The smallest of the first `n` numbers.
pub open spec fn least_first(s: Seq<usize>, n: int) -> usize
    decreases n,
{
    if n <= 1 {
        s[0]
    } else {
        let m = least_first(s, n - 1);
        if s[n - 1] < m {
            s[n - 1]
        } else {
            m
        }
    }
}

pub open spec fn least(s: Seq<usize>) -> usize {
    least_first(s, s.len() as int)
}

/// One more file that `w` wins over `l`.
pub open spec fn with_win(pairs: PairsView, w: Seq<char>, l: Seq<char>) -> PairsView {
    with_pair(
        pairs,
        w,
        l,
        match wins(pairs, w, l) {
            Some(n) => (n + 1) as u32,
            None => 1,
        },
    )
}

/// The pairs once the winner has won a file over the first `n` of its providers.
pub open spec fn with_losers(
    pairs: PairsView,
    active: Seq<Seq<char>>,
    winner: usize,
    providers: Seq<usize>,
    n: int,
) -> PairsView
    decreases n,
{
    if n <= 0 {
        pairs
    } else {
        let before = with_losers(pairs, active, winner, providers, n - 1);
        if providers[n - 1] == winner {
            before
        } else {
            with_win(before, active[winner as int], active[providers[n - 1] as int])
        }
    }
}

/// Whether a file with these providers is contested: by two at least, and by no more
/// than still says something.
pub open spec fn contested(providers: Seq<usize>) -> bool {
    2 <= providers.len() <= MAX_PROVIDERS
}

/// The pairs that the first `n` files give.
pub open spec fn pairs_first(files: ProvidersView, active: Seq<Seq<char>>, n: int) -> PairsView
    decreases n,
{
    if n <= 0 {
        Seq::empty()
    } else {
        let before = pairs_first(files, active, n - 1);
        let ps = files[n - 1].1;
        if contested(ps) {
            with_losers(before, active, least(ps), ps, ps.len() as int)
        } else {
            before
        }
    }
}

/// Over how many of the first `n` providers of a file `w` wins it as the mod at `winner`,
/// where the loser is called `l`.
pub open spec fn losses_first(
    active: Seq<Seq<char>>,
    winner: usize,
    providers: Seq<usize>,
    w: Seq<char>,
    l: Seq<char>,
    n: int,
) -> nat
    decreases n,
{
    if n <= 0 {
        0
    } else {
        losses_first(active, winner, providers, w, l, n - 1) + (if providers[n - 1] != winner
            && active[winner as int] == w && active[providers[n - 1] as int] == l {
            1nat
        } else {
            0
        })
    }
}

/// How many of the first `n` files `w` wins over `l`.
pub open spec fn shared_first(
    files: ProvidersView,
    active: Seq<Seq<char>>,
    w: Seq<char>,
    l: Seq<char>,
    n: int,
) -> nat
    decreases n,
{
    if n <= 0 {
        0
    } else {
        let ps = files[n - 1].1;
        shared_first(files, active, w, l, n - 1) + (if contested(ps) {
            losses_first(active, least(ps), ps, w, l, ps.len() as int)
        } else {
            0
        })
    }
}

pub open spec fn count_or_zero(n: Option<u32>) -> nat {
    match n {
        Some(n) => n as nat,
        None => 0,
    }
}

/// The places are those of active mods, the files can be counted, and no two mods share
/// more of them than the index can hold.
pub open spec fn countable(active: Seq<Seq<char>>, mods: Seq<(usize, Seq<Seq<char>>)>) -> bool {
    let files = providers_first(mods, mods.len() as int);
    &&& in_range(mods, active.len())
    &&& files_first(mods, mods.len() as int) <= usize::MAX
    &&& forall|w: Seq<char>, l: Seq<char>| #[trigger]
        shared_first(files, active, w, l, files.len() as int) <= u32::MAX
}

proof fn lemma_with_pair(pairs: PairsView, w: Seq<char>, l: Seq<char>, n: u32, a: Seq<char>, b: Seq<char>)
    ensures
        wins(with_pair(pairs, w, l, n), a, b) == (if a == w && b == l {
            Some(n)
        } else {
            wins(pairs, a, b)
        }),
{
    let inner = match found(pairs, w) {
        Some(m) => m,
        None => Seq::empty(),
    };
    crate::map::insert_then_get(pairs, w, inserted(inner, l, n), a);
    crate::map::insert_then_get(inner, l, n, b);
    if found(pairs, w) is None {
        assert(found(inner, b) is None);
    }
}

/// The mod names in the first `n` entries, each once.
pub open spec fn names_seen(active: Seq<Seq<char>>, n: int) -> Seq<(Seq<char>, usize)>
    decreases n,
{
    if n <= 0 {
        Seq::empty()
    } else {
        inserted(names_seen(active, n - 1), active[n - 1], (n - 1) as usize)
    }
}

/// The index that the files of the active mods give. `mods` holds, for each mod
/// folder that is there, its place in `active` and the paths of its files within it.
pub open spec fn built(active: Seq<Seq<char>>, mods: Seq<(usize, Seq<Seq<char>>)>) -> ConflictView {
    let files = providers_first(mods, mods.len() as int);
    ConflictView {
        pairs: pairs_first(files, active, files.len() as int),
        files_indexed: files_first(mods, mods.len() as int) as usize,
        mods_scanned: names_seen(active, active.len() as int).len() as usize,
    }
}

pub open spec fn in_range(mods: Seq<(usize, Seq<Seq<char>>)>, n: nat) -> bool {
    forall|i: int| 0 <= i < mods.len() ==> (#[trigger] mods[i]).0 < n
}

pub open spec fn providers_in_range(m: ProvidersView, n: nat) -> bool {
    forall|i: int, j: int|
        0 <= i < m.len() && 0 <= j < m[i].1.len() ==> (#[trigger] m[i].1[j]) < n
}

fn copy_indices(v: &Vec<usize>) -> (r: Vec<usize>)
    ensures
        r@ == v@,
        r.deep_view() == v.deep_view(),
{
    let mut out: Vec<usize> = Vec::new();
    let mut i: usize = 0;
    while i < v.len()
        invariant
            i <= v.len(),
            out@ == v@.take(i as int),
        decreases v.len() - i,
    {
        out.push(v[i]);
        i = i + 1;
    }
    assert(out.deep_view() =~= v.deep_view());
    out
}

fn add_provider(m: &mut TextMap<Vec<usize>>, path: String, mod_index: usize)
    ensures
        final(m).deep_view() == with_provider(old(m).deep_view(), path@, mod_index),
{
    let mut ps = match m.get(path.as_str()) {
        Some(ps) => copy_indices(ps),
        None => list::none(),
    };
    let ghost before = ps.deep_view();
    list::put(&mut ps, mod_index);
    assert(before.len() == 0 ==> before.push(mod_index) =~= seq![mod_index]);
    m.insert(path, ps);
}

fn least_of(v: &Vec<usize>) -> (r: usize)
    requires
        v.len() > 0,
    ensures
        r == least(v.deep_view()),
{
    let mut m: usize = v[0];
    assert(v.deep_view()[0] == v@[0]);
    let mut i: usize = 1;
    while i < v.len()
        invariant
            1 <= i <= v.len(),
            m == least_first(v.deep_view(), i as int),
        decreases v.len() - i,
    {
        assert(v.deep_view()[i as int] == v@[i as int]);
        if v[i] < m {
            m = v[i];
        }
        i = i + 1;
    }
    m
}

proof fn lemma_least(s: Seq<usize>, n: int)
    requires
        1 <= n <= s.len(),
    ensures
        exists|i: int| 0 <= i < n && s[i] == least_first(s, n),
        forall|i: int| 0 <= i < n ==> least_first(s, n) <= #[trigger] s[i],
    decreases n,
{
    if n > 1 {
        lemma_least(s, n - 1);
        let i = choose|i: int| 0 <= i < n - 1 && s[i] == least_first(s, n - 1);
        if s[n - 1] < least_first(s, n - 1) {
            assert(s[n - 1] == least_first(s, n));
        } else {
            assert(s[i] == least_first(s, n));
        }
    } else {
        assert(s[0] == least_first(s, n));
    }
}

fn set_pair(pairs: &mut TextMap<TextMap<u32>>, w: &str, l: &str, n: u32)
    ensures
        final(pairs).deep_view() == with_pair(old(pairs).deep_view(), w@, l@, n),
{
    let mut inner: TextMap<u32> = TextMap::new();
    let ghost before = pairs.deep_view();
    match pairs.place(w) {
        Some(i) => {
            let ghost m = before[i as int].1;
            proof {
                crate::map::lemma_key_from(before, w@, 0);
            }
            pairs.swap_at(i, &mut inner);
            inner.insert(l.to_string(), n);
            pairs.swap_at(i, &mut inner);
            assert(pairs.deep_view() =~= before.update(i as int, (w@, inserted(m, l@, n))));
        },
        None => {
            inner.insert(l.to_string(), n);
            pairs.insert(w.to_string(), inner);
        },
    }
}

fn pair_count(pairs: &TextMap<TextMap<u32>>, w: &str, l: &str) -> (r: Option<u32>)
    ensures
        r == wins(pairs.deep_view(), w@, l@),
{
    match pairs.get(w) {
        Some(m) => match m.get(l) {
            Some(n) => Some(*n),
            None => None,
        },
        None => None,
    }
}

proof fn lemma_provider_range(m: ProvidersView, path: Seq<char>, mod_index: usize, n: nat)
    requires
        providers_in_range(m, n),
        mod_index < n,
    ensures
        providers_in_range(with_provider(m, path, mod_index), n),
{
    crate::map::lemma_key_from(m, path, 0);
    let r = with_provider(m, path, mod_index);
    assert forall|i: int, j: int| 0 <= i < r.len() && 0 <= j < r[i].1.len() implies (
    #[trigger] r[i].1[j]) < n by {
        match key_from_place(m, path) {
            Some(k) => {
                if i == k {
                    let ps = m[k].1;
                    assert(r[i].1 == ps.push(mod_index));
                    if j < ps.len() {
                        assert(m[k].1[j] < n);
                    }
                } else {
                    assert(m[i].1[j] < n);
                }
            },
            None => {
                if i < m.len() {
                    assert(m[i].1[j] < n);
                }
            },
        }
    }
}

spec fn key_from_place(m: ProvidersView, path: Seq<char>) -> Option<int> {
    crate::map::key_from(m, path, 0)
}

/// What was counted of every pair is what was seen so far.
spec fn counts(pairs: PairsView, seen: spec_fn(Seq<char>, Seq<char>) -> nat) -> bool {
    forall|w: Seq<char>, l: Seq<char>| #[trigger] count_or_zero(wins(pairs, w, l)) == seen(w, l)
}

proof fn lemma_losses_monotone(
    active: Seq<Seq<char>>,
    winner: usize,
    providers: Seq<usize>,
    w: Seq<char>,
    l: Seq<char>,
    n: int,
    m: int,
)
    requires
        n <= m,
    ensures
        losses_first(active, winner, providers, w, l, n) <= losses_first(
            active,
            winner,
            providers,
            w,
            l,
            m,
        ),
    decreases m,
{
    if n < m && m > 0 {
        lemma_losses_monotone(active, winner, providers, w, l, n, m - 1);
    }
}

proof fn lemma_shared_monotone(
    files: ProvidersView,
    active: Seq<Seq<char>>,
    w: Seq<char>,
    l: Seq<char>,
    n: int,
    m: int,
)
    requires
        n <= m,
    ensures
        shared_first(files, active, w, l, n) <= shared_first(files, active, w, l, m),
    decreases m,
{
    if n < m && m > 0 {
        lemma_shared_monotone(files, active, w, l, n, m - 1);
    }
}

/// The pairs that the files give, if the count of each fits.
fn count_pairs(active: &Vec<String>, by_path: &TextMap<Vec<usize>>) -> (r: Option<
    TextMap<TextMap<u32>>,
>)
    requires
        providers_in_range(by_path.deep_view(), active.len() as nat),
    ensures
        ({
            let files = by_path.deep_view();
            let a = active.deep_view();
            let fits = forall|w: Seq<char>, l: Seq<char>| #[trigger]
                shared_first(files, a, w, l, files.len() as int) <= u32::MAX;
            match r {
                Some(pairs) => fits && pairs.deep_view() == pairs_first(
                    files,
                    a,
                    files.len() as int,
                ),
                None => !fits,
            }
        }),
{
    let ghost files = by_path.deep_view();
    let ghost a = active.deep_view();
    assert(a.len() == active.len());
    let mut pairs: TextMap<TextMap<u32>> = TextMap::new();
    assert(counts(pairs.deep_view(), |w: Seq<char>, l: Seq<char>| shared_first(files, a, w, l, 0)))
        by {
        assert forall|w: Seq<char>, l: Seq<char>| #[trigger]
            count_or_zero(wins(pairs.deep_view(), w, l)) == 0 by {
            assert(found(pairs.deep_view(), w) is None);
        }
    }
    let mut i: usize = 0;
    while i < by_path.len()
        invariant
            i <= files.len(),
            files == by_path.deep_view(),
            a == active.deep_view(),
            a.len() == active.len(),
            providers_in_range(files, a.len()),
            pairs.deep_view() == pairs_first(files, a, i as int),
            counts(
                pairs.deep_view(),
                |w: Seq<char>, l: Seq<char>| shared_first(files, a, w, l, i as int),
            ),
        decreases files.len() - i,
    {
        let ps = &by_path.at(i).1;
        let ghost pv = ps.deep_view();
        assert(files[i as int].1 == pv);
        assert(pv.len() == ps.len());
        if 2 <= ps.len() && ps.len() <= MAX_PROVIDERS {
            let winner = least_of(ps);
            proof {
                lemma_least(pv, ps.len() as int);
                let k = choose|k: int| 0 <= k < pv.len() && pv[k] == winner;
                assert(files[i as int].1[k] < a.len());
            }
            let ghost start = pairs.deep_view();
            let mut j: usize = 0;
            assert(counts(
                start,
                |w: Seq<char>, l: Seq<char>|
                    shared_first(files, a, w, l, i as int) + losses_first(a, winner, pv, w, l, 0),
            )) by {
                assert forall|w: Seq<char>, l: Seq<char>| #[trigger]
                    count_or_zero(wins(start, w, l)) == shared_first(files, a, w, l, i as int)
                        + losses_first(a, winner, pv, w, l, 0) by {
                    let seen = |w: Seq<char>, l: Seq<char>| shared_first(files, a, w, l, i as int);
                    assert(count_or_zero(wins(start, w, l)) == seen(w, l));
                }
            }
            while j < ps.len()
                invariant
                    i < files.len(),
                    j <= ps.len() == pv.len(),
                    pv == ps.deep_view(),
                    files[i as int].1 == pv,
                    files == by_path.deep_view(),
                    contested(pv),
                    winner == least(pv),
                    a == active.deep_view(),
                    a.len() == active.len(),
                    winner < a.len(),
                    providers_in_range(files, a.len()),
                    pairs.deep_view() == with_losers(start, a, winner, pv, j as int),
                    counts(
                        pairs.deep_view(),
                        |w: Seq<char>, l: Seq<char>|
                            shared_first(files, a, w, l, i as int) + losses_first(
                                a,
                                winner,
                                pv,
                                w,
                                l,
                                j as int,
                            ),
                    ),
                decreases ps.len() - j,
            {
                let p: usize = ps[j];
                let ghost before = pairs.deep_view();
                let ghost seen = |w: Seq<char>, l: Seq<char>|
                    shared_first(files, a, w, l, i as int) + losses_first(
                        a,
                        winner,
                        pv,
                        w,
                        l,
                        j as int,
                    );
                assert(pv[j as int] == p);
                assert(files[i as int].1[j as int] < a.len());
                if p != winner {
                    assert(a[winner as int] == active@[winner as int]@);
                    assert(a[p as int] == active@[p as int]@);
                    let ghost w = a[winner as int];
                    let ghost l = a[p as int];
                    let known = pair_count(&pairs, active[winner].as_str(), active[p].as_str());
                    assert(count_or_zero(wins(before, w, l)) == seen(w, l));
                    let n: u32 = match known {
                        Some(n) => {
                            if n == u32::MAX {
                                proof {
                                    lemma_losses_monotone(a, winner, pv, w, l, j + 1, pv.len() as int);
                                    lemma_shared_monotone(
                                        files,
                                        a,
                                        w,
                                        l,
                                        i + 1,
                                        files.len() as int,
                                    );
                                    assert(shared_first(files, a, w, l, files.len() as int)
                                        > u32::MAX);
                                }
                                return None;
                            }
                            n + 1
                        },
                        None => 1,
                    };
                    set_pair(&mut pairs, active[winner].as_str(), active[p].as_str(), n);
                    assert forall|x: Seq<char>, y: Seq<char>| #[trigger]
                        count_or_zero(wins(pairs.deep_view(), x, y)) == shared_first(
                            files,
                            a,
                            x,
                            y,
                            i as int,
                        ) + losses_first(a, winner, pv, x, y, j + 1) by {
                        lemma_with_pair(before, w, l, n, x, y);
                        assert(count_or_zero(wins(before, x, y)) == seen(x, y));
                    }
                } else {
                    assert forall|x: Seq<char>, y: Seq<char>| #[trigger]
                        count_or_zero(wins(before, x, y)) == shared_first(files, a, x, y, i as int)
                            + losses_first(a, winner, pv, x, y, j + 1) by {
                        assert(count_or_zero(wins(before, x, y)) == seen(x, y));
                    }
                }
                j = j + 1;
            }
            assert forall|x: Seq<char>, y: Seq<char>| #[trigger]
                count_or_zero(wins(pairs.deep_view(), x, y)) == shared_first(files, a, x, y, i + 1) by {
                let seen = |w: Seq<char>, l: Seq<char>|
                    shared_first(files, a, w, l, i as int) + losses_first(
                        a,
                        winner,
                        pv,
                        w,
                        l,
                        j as int,
                    );
                assert(count_or_zero(wins(pairs.deep_view(), x, y)) == seen(x, y));
            }
        } else {
            assert forall|x: Seq<char>, y: Seq<char>| #[trigger]
                count_or_zero(wins(pairs.deep_view(), x, y)) == shared_first(files, a, x, y, i + 1) by {
                let seen = |w: Seq<char>, l: Seq<char>| shared_first(files, a, w, l, i as int);
                assert(count_or_zero(wins(pairs.deep_view(), x, y)) == seen(x, y));
            }
        }
        i = i + 1;
    }
    assert forall|w: Seq<char>, l: Seq<char>| #[trigger]
        shared_first(files, a, w, l, files.len() as int) <= u32::MAX by {
        let seen = |w: Seq<char>, l: Seq<char>| shared_first(files, a, w, l, i as int);
        assert(count_or_zero(wins(pairs.deep_view(), w, l)) == seen(w, l));
    }
    Some(pairs)
}

impl ConflictIndex {
    /// Builds the index. `active` are the mods in priority order: the first wins.
    pub fn build(active: &Vec<String>, mods: &Vec<(usize, Vec<String>)>) -> (r: ConflictIndex)
        requires
            countable(active.deep_view(), mods.deep_view()),
        ensures
            r.deep_view() == built(active.deep_view(), mods.deep_view()),
    {
        match ConflictIndex::try_build(active, mods) {
            Some(index) => index,
            None => {
                assert(false);
                ConflictIndex { pairs: TextMap::new(), files_indexed: 0, mods_scanned: 0 }
            },
        }
    }

    /// Builds the index, if everything can be counted.
    pub fn try_build(active: &Vec<String>, mods: &Vec<(usize, Vec<String>)>) -> (r: Option<
        ConflictIndex,
    >)
        ensures
            match r {
                Some(index) => countable(active.deep_view(), mods.deep_view()) && index.deep_view()
                    == built(active.deep_view(), mods.deep_view()),
                None => !countable(active.deep_view(), mods.deep_view()),
            },
    {
        let ghost a = active.deep_view();
        let ghost ms = mods.deep_view();
        assert(a.len() == active.len() && ms.len() == mods.len());
        let mut by_path: TextMap<Vec<usize>> = TextMap::new();
        let mut files_indexed: usize = 0;
        let mut i: usize = 0;
        while i < mods.len()
            invariant
                i <= mods.len() == ms.len(),
                ms == mods.deep_view(),
                a == active.deep_view(),
                a.len() == active.len(),
                forall|k: int| 0 <= k < i ==> (#[trigger] ms[k]).0 < a.len(),
                by_path.deep_view() == providers_first(ms, i as int),
                providers_in_range(by_path.deep_view(), a.len()),
                files_indexed == files_first(ms, i as int),
            decreases mods.len() - i,
        {
            let files = &mods[i].1;
            let idx: usize = mods[i].0;
            assert(ms[i as int] == mods@[i as int].deep_view());
            if idx >= active.len() {
                assert(!in_range(ms, a.len())) by {
                    assert(ms[i as int].0 >= a.len());
                }
                return None;
            }
            proof {
                lemma_files_monotone(ms, i + 1, ms.len() as int);
            }
            let ghost start = by_path.deep_view();
            let mut j: usize = 0;
            while j < files.len()
                invariant
                    j <= files.len(),
                    i < ms.len(),
                    a == active.deep_view(),
                    ms == mods.deep_view(),
                    idx < a.len(),
                    ms[i as int].1 == files.deep_view(),
                    files.deep_view().len() == files.len(),
                    files_first(ms, i as int) + content_first(
                        files.deep_view(),
                        files.len() as int,
                    ) <= files_first(ms, ms.len() as int),
                    by_path.deep_view() == with_files(start, files.deep_view(), idx, j as int),
                    providers_in_range(by_path.deep_view(), a.len()),
                    files_indexed == files_first(ms, i as int) + content_first(
                        files.deep_view(),
                        j as int,
                    ),
                decreases files.len() - j,
            {
                assert(files.deep_view()[j as int] == files@[j as int]@);
                proof {
                    lemma_content_monotone(files.deep_view(), j + 1, files.len() as int);
                }
                if let Some(k) = file_key(files[j].as_str()) {
                    if files_indexed == usize::MAX {
                        return None;
                    }
                    proof {
                        lemma_provider_range(by_path.deep_view(), k@, idx, a.len());
                    }
                    add_provider(&mut by_path, k, idx);
                    files_indexed = files_indexed + 1;
                }
                j = j + 1;
            }
            i = i + 1;
        }
        assert(in_range(ms, a.len()));
        let pairs = match count_pairs(active, &by_path) {
            Some(pairs) => pairs,
            None => {
                return None;
            },
        };
        let mods_scanned = count_names(active);
        Some(ConflictIndex { pairs, files_indexed, mods_scanned })
    }

    /// Whether a stored index still holds: it exists, and neither the list nor the
    /// folder of the mods was changed after it. A time that cannot be read is none.
    pub fn is_fresh(index: Option<u128>, list: Option<u128>, mods: Option<u128>) -> (r: bool)
        ensures
            r == (match index {
                Some(t) => !changed_after(list, t) && !changed_after(mods, t),
                None => false,
            }),
    {
        match index {
            Some(t) => {
                let list_changed = match list {
                    Some(l) => l > t,
                    None => false,
                };
                let mods_changed = match mods {
                    Some(m) => m > t,
                    None => false,
                };
                !list_changed && !mods_changed
            },
            None => false,
        }
    }

    /// The winner of two mods that share files, and the number of files.
    pub fn shared<'a>(&'a self, a: &'a str, b: &'a str) -> (r: Option<(&'a str, u32)>)
        ensures
            r.deep_view() == shared_files(self.deep_view().pairs, a@, b@),
    {
        if let Some(n) = pair_count(&self.pairs, a, b) {
            return Some((a, n));
        }
        if let Some(n) = pair_count(&self.pairs, b, a) {
            return Some((b, n));
        }
        None
    }

    /// The number of pairs.
    pub fn count(&self) -> (n: u128)
        ensures
            n == pairs_count(self.deep_view().pairs, self.deep_view().pairs.len() as int),
    {
        let ghost ps = self.deep_view().pairs;
        let total: usize = self.pairs.len();
        let mut n: u128 = 0;
        let mut i: usize = 0;
        while i < total
            invariant
                i <= total == ps.len(),
                ps == self.pairs.deep_view(),
                ps == self.deep_view().pairs,
                n == pairs_count(ps, i as int),
                n <= i * usize::MAX,
            decreases ps.len() - i,
        {
            let more: usize = self.pairs.at(i).1.len();
            assert(i * usize::MAX + usize::MAX == (i + 1) * usize::MAX) by (nonlinear_arith);
            assert((i + 1) * usize::MAX <= u128::MAX) by (nonlinear_arith)
                requires
                    i + 1 <= usize::MAX,
                    usize::MAX <= u64::MAX,
            ;
            n = n + more as u128;
            i = i + 1;
        }
        n
    }
}

pub open spec fn pairs_count(pairs: PairsView, n: int) -> nat
    decreases n,
{
    if n <= 0 {
        0
    } else {
        pairs_count(pairs, n - 1) + pairs[n - 1].1.len()
    }
}

proof fn lemma_files_monotone(ms: Seq<(usize, Seq<Seq<char>>)>, n: int, m: int)
    requires
        n <= m,
    ensures
        files_first(ms, n) <= files_first(ms, m),
    decreases m,
{
    if n < m && m > 0 {
        lemma_files_monotone(ms, n, m - 1);
    }
}

proof fn lemma_content_monotone(files: Seq<Seq<char>>, n: int, m: int)
    requires
        n <= m,
    ensures
        content_first(files, n) <= content_first(files, m),
    decreases m,
{
    if n < m && m > 0 {
        lemma_content_monotone(files, n, m - 1);
    }
}

/// The name under which a file is compared, if it is content.
pub fn file_key(rel: &str) -> (r: Option<String>)
    ensures
        r.deep_view() == file_name(rel@),
{
    let slashed = text::replace_char(rel, '\\', '/');
    let k = slashed.as_str().to_lowercase();
    if text::same(k.as_str(), "meta.ini") {
        None
    } else {
        Some(k)
    }
}

fn count_names(active: &Vec<String>) -> (r: usize)
    ensures
        r == names_seen(active.deep_view(), active.len() as int).len(),
{
    let mut seen: TextMap<usize> = TextMap::new();
    let mut i: usize = 0;
    while i < active.len()
        invariant
            i <= active.len(),
            seen.deep_view() == names_seen(active.deep_view(), i as int),
        decreases active.len() - i,
    {
        assert(active.deep_view()[i as int] == active@[i as int]@);
        seen.insert(active[i].clone(), i);
        i = i + 1;
    }
    seen.len()
}

// ---- the text of an index ----

/// A pair and its count, the larger count first.
pub struct PairRow {
    pub winner: String,
    pub loser: String,
    pub count: u32,
}

#[verifier::ext_equal]
pub struct RowView {
    pub winner: Seq<char>,
    pub loser: Seq<char>,
    pub count: u32,
}

impl DeepView for PairRow {
    type V = RowView;

    open spec fn deep_view(&self) -> RowView {
        RowView { winner: self.winner@, loser: self.loser@, count: self.count }
    }
}

impl Ranked for PairRow {
    open spec fn precedes(a: RowView, b: RowView) -> bool {
        a.count >= b.count
    }

    proof fn total(a: RowView, b: RowView) {
    }

    proof fn transitive(a: RowView, b: RowView, c: RowView) {
    }

    fn goes_before(&self, other: &PairRow) -> (r: bool) {
        self.count >= other.count
    }
}

/// The rows of the first `n` losers of a winner.
pub open spec fn rows_of(w: Seq<char>, m: Seq<(Seq<char>, u32)>, n: int) -> Seq<RowView>
    decreases n,
{
    if n <= 0 {
        Seq::empty()
    } else {
        rows_of(w, m, n - 1).push(RowView { winner: w, loser: m[n - 1].0, count: m[n - 1].1 })
    }
}

/// The rows of the first `n` winners.
pub open spec fn rows_first(pairs: PairsView, n: int) -> Seq<RowView>
    decreases n,
{
    if n <= 0 {
        Seq::empty()
    } else {
        rows_first(pairs, n - 1) + rows_of(pairs[n - 1].0, pairs[n - 1].1, pairs[n - 1].1.len() as int)
    }
}

pub open spec fn row_line(r: RowView) -> Seq<char> {
    r.winner + " > "@ + r.loser + " = "@ + decimal(r.count as nat)
}

/// The lines of the first `n` rows that are no noise.
pub open spec fn row_lines(rows: Seq<RowView>, n: int) -> Seq<Seq<char>>
    decreases n,
{
    if n <= 0 {
        Seq::empty()
    } else if rows[n - 1].count >= MIN_SHARED {
        row_lines(rows, n - 1).push(row_line(rows[n - 1]))
    } else {
        row_lines(rows, n - 1)
    }
}

pub open spec fn sorted_rows(pairs: PairsView) -> Seq<RowView> {
    sorted::<PairRow>(rows_first(pairs, pairs.len() as int))
}

pub open spec fn index_lines(c: ConflictView) -> Seq<Seq<char>> {
    seq![
        "# modslut conflict index v1 - delete this file to force a rescan"@,
        "# "@ + decimal(c.files_indexed as nat) + " files indexed across "@ + decimal(
            c.mods_scanned as nat,
        ) + " mods; Winner > Loser = shared files (winner has higher priority)"@,
    ] + row_lines(sorted_rows(c.pairs), sorted_rows(c.pairs).len() as int)
}

pub open spec fn index_text(c: ConflictView) -> Seq<char> {
    ended(index_lines(c))
}

/// What a line of the text adds to the pairs.
pub open spec fn read_pair(line: Seq<char>) -> Option<(Seq<char>, Seq<char>, u32)> {
    let l = trimmed(line);
    if l.len() == 0 || begins(l, "#"@) {
        None
    } else {
        match split_first(l, "="@) {
            Some((names, n)) => match split_first(names, ">"@) {
                Some((w, lose)) => match number(trimmed(n), u32::MAX as nat) {
                    Some(v) => Some((trimmed(w), trimmed(lose), v as u32)),
                    None => None,
                },
                None => None,
            },
            None => None,
        }
    }
}

pub open spec fn read_first(lines: Seq<Seq<char>>, n: int) -> PairsView
    decreases n,
{
    if n <= 0 {
        Seq::empty()
    } else {
        let before = read_first(lines, n - 1);
        match read_pair(lines[n - 1]) {
            Some((w, l, v)) => with_pair(before, w, l, v),
            None => before,
        }
    }
}

pub open spec fn index_from(text: Seq<char>) -> ConflictView {
    ConflictView {
        pairs: read_first(lines_of(text), lines_of(text).len() as int),
        files_indexed: 0,
        mods_scanned: 0,
    }
}

fn rows_in(w: &str, m: &TextMap<u32>) -> (r: Vec<PairRow>)
    ensures
        r.deep_view() == rows_of(w@, m.deep_view(), m.deep_view().len() as int),
{
    let mut out: Vec<PairRow> = list::none();
    let mut i: usize = 0;
    while i < m.len()
        invariant
            i <= m.deep_view().len(),
            out.deep_view() == rows_of(w@, m.deep_view(), i as int),
        decreases m.deep_view().len() - i,
    {
        let e = m.at(i);
        list::put(&mut out, PairRow { winner: w.to_string(), loser: e.0.clone(), count: e.1 });
        i = i + 1;
    }
    out
}

fn row_text(r: &PairRow) -> (s: String)
    ensures
        s@ == row_line(r.deep_view()),
{
    let mut s = r.winner.clone();
    s.append(" > ");
    s.append(r.loser.as_str());
    s.append(" = ");
    let n = text::dec(r.count as u128);
    s.append(n.as_str());
    s
}

fn read_row(line: &str) -> (r: Option<(String, String, u32)>)
    ensures
        r.deep_view() == read_pair(line@),
{
    let l = text::trim(line);
    if l.as_str().is_empty() || text::starts_with(l.as_str(), "#") {
        return None;
    }
    match text::split_once(l.as_str(), "=") {
        Some((names, n)) => match text::split_once(names.as_str(), ">") {
            Some((w, lose)) => {
                let t = text::trim(n.as_str());
                match text::parse_number(t.as_str(), 0xffff_ffff) {
                    Some(v) => Some((text::trim(w.as_str()), text::trim(lose.as_str()), v as u32)),
                    None => None,
                }
            },
            None => None,
        },
        None => None,
    }
}

impl ConflictIndex {
    /// The text of the index: pairs that share enough files, most files first.
    pub fn save(&self) -> (r: String)
        ensures
            r@ == index_text(self.deep_view()),
    {
        let ghost ps = self.pairs.deep_view();
        let mut rows: Vec<PairRow> = list::none();
        let mut i: usize = 0;
        while i < self.pairs.len()
            invariant
                i <= ps.len(),
                ps == self.pairs.deep_view(),
                rows.deep_view() == rows_first(ps, i as int),
            decreases ps.len() - i,
        {
            let e = self.pairs.at(i);
            list::put_all(&mut rows, rows_in(e.0.as_str(), &e.1));
            i = i + 1;
        }
        let rows = sort::sort(rows);
        let mut lines: Vec<String> = list::none();
        list::put(
            &mut lines,
            "# modslut conflict index v1 - delete this file to force a rescan".to_string(),
        );
        let mut head = "# ".to_string();
        let files = text::dec(self.files_indexed as u128);
        head.append(files.as_str());
        head.append(" files indexed across ");
        let mods = text::dec(self.mods_scanned as u128);
        head.append(mods.as_str());
        head.append(" mods; Winner > Loser = shared files (winner has higher priority)");
        list::put(&mut lines, head);
        let ghost top = lines.deep_view();
        let mut j: usize = 0;
        assert(top + row_lines(rows.deep_view(), 0) =~= top);
        while j < rows.len()
            invariant
                j <= rows.len(),
                lines.deep_view() == top + row_lines(rows.deep_view(), j as int),
            decreases rows.len() - j,
        {
            assert(rows.deep_view()[j as int] == rows@[j as int].deep_view());
            let ghost before = lines.deep_view();
            if rows[j].count >= MIN_SHARED {
                list::put(&mut lines, row_text(&rows[j]));
            }
            j = j + 1;
            assert(lines.deep_view() =~= top + row_lines(rows.deep_view(), j as int));
        }
        assert(lines.deep_view() =~= index_lines(self.deep_view()));
        text::end_lines(&lines)
    }

    /// The index that a text holds.
    pub fn load(text: &str) -> (r: ConflictIndex)
        ensures
            r.deep_view() == index_from(text@),
    {
        let lines = text::lines(text);
        let mut pairs: TextMap<TextMap<u32>> = TextMap::new();
        let mut i: usize = 0;
        while i < lines.len()
            invariant
                i <= lines.len(),
                pairs.deep_view() == read_first(lines.deep_view(), i as int),
            decreases lines.len() - i,
        {
            assert(lines.deep_view()[i as int] == lines@[i as int]@);
            if let Some((w, l, n)) = read_row(lines[i].as_str()) {
                set_pair(&mut pairs, w.as_str(), l.as_str(), n);
            }
            i = i + 1;
        }
        ConflictIndex { pairs, files_indexed: 0, mods_scanned: 0 }
    }
}

// ---- laws ----

/// A name that a row can hold: nothing is to be trimmed, and no separator is in it.
pub open spec fn is_plain(s: Seq<char>) -> bool {
    tight(s) && s.len() > 0 && !s.contains('=') && !s.contains('>') && !s.contains('\n')
        && !s.contains('\r') && s[0] != '#'
}

/// A row that is written is read back.
proof fn lemma_row(r: RowView)
    requires
        is_plain(r.winner),
        is_plain(r.loser),
    ensures
        read_pair(row_line(r)) == Some((r.winner, r.loser, r.count)),
        is_line(row_line(r)),
{
    reveal_strlit(" > ");
    reveal_strlit(" = ");
    reveal_strlit("=");
    reveal_strlit(">");
    reveal_strlit("#");
    let n = decimal(r.count as nat);
    lemma_number_read_back(r.count as nat, u32::MAX as nat);
    let sp = seq![' '];
    let none = Seq::<char>::empty();
    let left = r.winner + sp;
    let right = sp + r.loser + sp;
    let names = left + seq!['>'] + right;
    let tail = sp + n;
    let line = row_line(r);
    assert(line =~= names + seq!['='] + tail);
    assert(" > "@ =~= seq![' ', '>', ' '] && " = "@ =~= seq![' ', '=', ' ']);
    assert("="@ =~= seq!['='] && ">"@ =~= seq!['>'] && "#"@ =~= seq!['#']);
    assert(line[0] == r.winner[0]);
    assert(line.last() == n.last());
    assert(n.contains(n.last()));
    assert(is_digit(n.last()));
    lemma_trim_tight(line);
    assert(!begins(line, "#"@)) by {
        assert(line.take(1)[0] == r.winner[0]);
    }
    assert(!names.contains('=')) by {
        assert forall|i: int| 0 <= i < names.len() implies names[i] != '=' by {
            if i < r.winner.len() {
                assert(names[i] == r.winner[i]);
            } else if r.winner.len() + 3 <= i < r.winner.len() + 3 + r.loser.len() {
                assert(names[i] == r.loser[i - r.winner.len() - 3]);
            }
        }
    }
    lemma_split_at(names, '=', tail);
    assert(!left.contains('>')) by {
        assert forall|i: int| 0 <= i < left.len() implies left[i] != '>' by {
            if i < r.winner.len() {
                assert(left[i] == r.winner[i]);
            }
        }
    }
    lemma_split_at(left, '>', right);
    lemma_trim_padded(none, r.winner, sp);
    assert(none + r.winner + sp =~= left);
    lemma_trim_padded(sp, r.loser, sp);
    lemma_trim_padded(sp, n, none);
    assert(sp + n + none =~= tail);
    assert forall|i: int| 0 <= i < line.len() implies line[i] != '\n' && line[i] != '\r' by {
        if i < r.winner.len() {
            assert(line[i] == r.winner[i]);
        } else if r.winner.len() + 3 <= i < r.winner.len() + 3 + r.loser.len() {
            assert(line[i] == r.loser[i - r.winner.len() - 3]);
        } else if i >= r.winner.len() + r.loser.len() + 6 {
            assert(line[i] == n[i - r.winner.len() - r.loser.len() - 6]);
            assert(n.contains(line[i]));
            assert(is_digit(line[i]));
        }
    }
}

/// The last of the first `n` rows of that pair that is no noise.
pub open spec fn row_from(rows: Seq<RowView>, w: Seq<char>, l: Seq<char>, n: int) -> Option<u32>
    decreases n,
{
    if n <= 0 {
        None
    } else {
        let r = rows[n - 1];
        if r.winner == w && r.loser == l && r.count >= MIN_SHARED {
            Some(r.count)
        } else {
            row_from(rows, w, l, n - 1)
        }
    }
}

proof fn lemma_lines(rows: Seq<RowView>, n: int, w: Seq<char>, l: Seq<char>)
    requires
        0 <= n <= rows.len(),
        forall|i: int|
            0 <= i < rows.len() ==> is_plain((#[trigger] rows[i]).winner) && is_plain(rows[i].loser),
    ensures
        ({
            let lines = row_lines(rows, n);
            &&& wins(read_first(lines, lines.len() as int), w, l) == row_from(rows, w, l, n)
            &&& forall|i: int| 0 <= i < lines.len() ==> is_line(#[trigger] lines[i])
        }),
    decreases n,
{
    if n > 0 {
        lemma_lines(rows, n - 1, w, l);
        let before = row_lines(rows, n - 1);
        let lines = row_lines(rows, n);
        let r = rows[n - 1];
        if r.count >= MIN_SHARED {
            lemma_row(r);
            assert(lines == before.push(row_line(r)));
            assert(lines.take(before.len() as int) =~= before.take(before.len() as int));
            lemma_read_prefix(lines, before, before.len() as int);
            lemma_with_pair(
                read_first(before, before.len() as int),
                r.winner,
                r.loser,
                r.count,
                w,
                l,
            );
            assert forall|i: int| 0 <= i < lines.len() implies is_line(#[trigger] lines[i]) by {
                if i < before.len() {
                    assert(lines[i] == before[i]);
                }
            }
        }
    } else {
        lemma_key_from(read_first(row_lines(rows, 0), 0), w, 0);
    }
}

proof fn lemma_read_prefix(a: Seq<Seq<char>>, b: Seq<Seq<char>>, n: int)
    requires
        0 <= n <= a.len(),
        n <= b.len(),
        a.take(n) == b.take(n),
    ensures
        read_first(a, n) == read_first(b, n),
    decreases n,
{
    if n > 0 {
        assert(a.take(n - 1) =~= a.take(n).take(n - 1));
        assert(b.take(n - 1) =~= b.take(n).take(n - 1));
        assert(a[n - 1] == a.take(n)[n - 1]);
        assert(b[n - 1] == b.take(n)[n - 1]);
        lemma_read_prefix(a, b, n - 1);
    }
}

/// No two rows are of one pair.
pub open spec fn rows_differ(rows: Seq<RowView>) -> bool {
    forall|i: int, j: int|
        #![trigger rows[i], rows[j]]
        0 <= i < j < rows.len() ==> !(rows[i].winner == rows[j].winner && rows[i].loser
            == rows[j].loser)
}

proof fn lemma_row_from(rows: Seq<RowView>, w: Seq<char>, l: Seq<char>, n: int)
    requires
        0 <= n <= rows.len(),
    ensures
        match row_from(rows, w, l, n) {
            Some(c) => c >= MIN_SHARED && exists|i: int|
                0 <= i < n && #[trigger] rows[i] == (RowView { winner: w, loser: l, count: c }),
            None => forall|i: int|
                0 <= i < n && (#[trigger] rows[i]).winner == w && rows[i].loser == l
                    ==> rows[i].count < MIN_SHARED,
        },
    decreases n,
{
    if n > 0 {
        lemma_row_from(rows, w, l, n - 1);
        let r = rows[n - 1];
        if r.winner == w && r.loser == l && r.count >= MIN_SHARED {
            assert(rows[n - 1] == (RowView { winner: w, loser: l, count: r.count }));
        }
    }
}

proof fn lemma_rows_of(w: Seq<char>, m: Seq<(Seq<char>, u32)>, n: int)
    requires
        0 <= n <= m.len(),
    ensures
        rows_of(w, m, n).len() == n,
        forall|i: int|
            0 <= i < n ==> #[trigger] rows_of(w, m, n)[i] == (RowView {
                winner: w,
                loser: m[i].0,
                count: m[i].1,
            }),
    decreases n,
{
    if n > 0 {
        lemma_rows_of(w, m, n - 1);
    }
}

/// No key is twice among the winners, nor among the losers of one.
pub open spec fn pairs_keyed(pairs: PairsView) -> bool {
    distinct_keys(pairs) && forall|i: int|
        0 <= i < pairs.len() ==> distinct_keys((#[trigger] pairs[i]).1)
}

/// The rows of an index are its pairs, each once.
proof fn lemma_rows_first(pairs: PairsView, n: int)
    requires
        0 <= n <= pairs.len(),
        pairs_keyed(pairs),
    ensures
        rows_differ(rows_first(pairs, n)),
        forall|i: int|
            0 <= i < rows_first(pairs, n).len() ==> exists|a: int, b: int|
                0 <= a < n && 0 <= b < pairs[a].1.len() && #[trigger] rows_first(pairs, n)[i] == (
                RowView {
                    winner: pairs[a].0,
                    loser: (#[trigger] pairs[a].1[b]).0,
                    count: pairs[a].1[b].1,
                }),
        forall|a: int, b: int|
            0 <= a < n && 0 <= b < pairs[a].1.len() ==> rows_first(pairs, n).contains(
                RowView {
                    winner: pairs[a].0,
                    loser: (#[trigger] pairs[a].1[b]).0,
                    count: pairs[a].1[b].1,
                },
            ),
    decreases n,
{
    if n > 0 {
        lemma_rows_first(pairs, n - 1);
        let before = rows_first(pairs, n - 1);
        let (w, m) = pairs[n - 1];
        let here = rows_of(w, m, m.len() as int);
        lemma_rows_of(w, m, m.len() as int);
        let rows = rows_first(pairs, n);
        assert forall|i: int| 0 <= i < rows.len() implies exists|a: int, b: int|
            0 <= a < n && 0 <= b < pairs[a].1.len() && #[trigger] rows[i] == (RowView {
                winner: pairs[a].0,
                loser: (#[trigger] pairs[a].1[b]).0,
                count: pairs[a].1[b].1,
            }) by {
            if i < before.len() {
                let (a, b) = choose|a: int, b: int|
                    0 <= a < n - 1 && 0 <= b < pairs[a].1.len() && #[trigger] before[i] == (RowView {
                        winner: pairs[a].0,
                        loser: (#[trigger] pairs[a].1[b]).0,
                        count: pairs[a].1[b].1,
                    });
                assert(rows[i] == before[i]);
                assert(pairs[a].1[b].0 == rows[i].loser);
            } else {
                let b = i - before.len();
                assert(rows[i] == here[b]);
                assert(pairs[n - 1].1[b].0 == rows[i].loser);
            }
        }
        assert forall|a: int, b: int| 0 <= a < n && 0 <= b < pairs[a].1.len() implies rows.contains(
            RowView {
                winner: pairs[a].0,
                loser: (#[trigger] pairs[a].1[b]).0,
                count: pairs[a].1[b].1,
            },
        ) by {
            let r = RowView {
                winner: pairs[a].0,
                loser: pairs[a].1[b].0,
                count: pairs[a].1[b].1,
            };
            if a < n - 1 {
                assert(before.contains(r));
                let i = choose|i: int| 0 <= i < before.len() && before[i] == r;
                assert(rows[i] == r);
            } else {
                assert(here[b] == r);
                assert(rows[before.len() + b] == r);
            }
        }
        assert forall|i: int, j: int|
            #![trigger rows[i], rows[j]]
            0 <= i < j < rows.len() implies !(rows[i].winner == rows[j].winner && rows[i].loser
            == rows[j].loser) by {
            if j < before.len() {
                assert(rows[i] == before[i] && rows[j] == before[j]);
            } else {
                let bj = j - before.len();
                assert(rows[j] == here[bj]);
                if i < before.len() {
                    assert(rows[i] == before[i]);
                    let (a, b) = choose|a: int, b: int|
                        0 <= a < n - 1 && 0 <= b < pairs[a].1.len() && #[trigger] before[i] == (
                        RowView {
                            winner: pairs[a].0,
                            loser: (#[trigger] pairs[a].1[b]).0,
                            count: pairs[a].1[b].1,
                        });
                    assert(pairs[a].0 != pairs[n - 1].0);
                } else {
                    let bi = i - before.len();
                    assert(rows[i] == here[bi]);
                    assert(m[bi].0 != m[bj].0);
                }
            }
        }
    }
}

proof fn lemma_index_plain_lines(a: nat, b: nat)
    ensures
        ({
            let head = "# "@ + decimal(a) + " files indexed across "@ + decimal(b)
                + " mods; Winner > Loser = shared files (winner has higher priority)"@;
            &&& is_line(head)
            &&& read_pair(head) is None
        }),
{
    reveal_strlit("# ");
    reveal_strlit("#");
    reveal_strlit(" files indexed across ");
    reveal_strlit(" mods; Winner > Loser = shared files (winner has higher priority)");
    let x = decimal(a);
    let y = decimal(b);
    lemma_number_read_back(a, a);
    lemma_number_read_back(b, b);
    let p = "# "@;
    let q = " files indexed across "@;
    let r = " mods; Winner > Loser = shared files (winner has higher priority)"@;
    let head = p + x + q + y + r;
    assert(head[0] == '#');
    assert(head.last() == ')');
    lemma_trim_tight(head);
    assert("#"@ =~= seq!['#']);
    assert(begins(head, "#"@)) by {
        assert(head.take(1) =~= "#"@);
    }
    assert forall|i: int| 0 <= i < head.len() implies head[i] != '\n' by {
        if i < p.len() {
            assert(head[i] == p[i]);
        } else if i < p.len() + x.len() {
            assert(head[i] == x[i - p.len()]);
            assert(x.contains(head[i]));
            assert(is_digit(head[i]));
        } else if i < p.len() + x.len() + q.len() {
            assert(head[i] == q[i - p.len() - x.len()]);
        } else if i < p.len() + x.len() + q.len() + y.len() {
            assert(head[i] == y[i - p.len() - x.len() - q.len()]);
            assert(y.contains(head[i]));
            assert(is_digit(head[i]));
        } else {
            assert(head[i] == r[i - p.len() - x.len() - q.len() - y.len()]);
        }
    }
}

proof fn lemma_found_pair(pairs: PairsView, w: Seq<char>, l: Seq<char>)
    requires
        pairs_keyed(pairs),
    ensures
        match wins(pairs, w, l) {
            Some(c) => exists|a: int, b: int|
                0 <= a < pairs.len() && 0 <= b < pairs[a].1.len() && pairs[a].0 == w
                    && (#[trigger] pairs[a].1[b]) == (l, c),
            None => forall|a: int, b: int|
                0 <= a < pairs.len() && 0 <= b < pairs[a].1.len() && pairs[a].0 == w
                    ==> (#[trigger] pairs[a].1[b]).0 != l,
        },
{
    lemma_key_from(pairs, w, 0);
    if found(pairs, w) is Some {
        let a = key_from(pairs, w, 0)->0;
        let m = pairs[a].1;
        lemma_key_from(m, l, 0);
        if found(m, l) is Some {
            let b = key_from(m, l, 0)->0;
            assert(pairs[a].1[b] == (l, m[b].1));
        } else {
            assert forall|x: int, b: int|
                0 <= x < pairs.len() && 0 <= b < pairs[x].1.len() && pairs[x].0 == w implies (
            #[trigger] pairs[x].1[b]).0 != l by {
                if x < a {
                    assert(pairs[x].0 != pairs[a].0);
                } else if a < x {
                    assert(pairs[a].0 != pairs[x].0);
                } else {
                    assert(m[b].0 != l);
                }
            }
        }
    } else {
        assert forall|a: int, b: int|
            0 <= a < pairs.len() && 0 <= b < pairs[a].1.len() && pairs[a].0 == w implies (
        #[trigger] pairs[a].1[b]).0 != l by {
            assert(pairs[a].0 != w);
        }
    }
}

/// An index that is saved and loaded knows the pairs that share enough files, and only
/// those, as long as no name holds a sign that the rows are written with.
pub proof fn saved_pairs_are_loaded(c: ConflictView, w: Seq<char>, l: Seq<char>)
    requires
        pairs_keyed(c.pairs),
        forall|a: int, b: int|
            0 <= a < c.pairs.len() && 0 <= b < c.pairs[a].1.len() ==> is_plain(c.pairs[a].0)
                && is_plain((#[trigger] c.pairs[a].1[b]).0),
    ensures
        wins(index_from(index_text(c)).pairs, w, l) == (match wins(c.pairs, w, l) {
            Some(n) => if n >= MIN_SHARED {
                Some(n)
            } else {
                None
            },
            None => None,
        }),
{
    broadcast use vstd::seq_lib::group_to_multiset_ensures;

    let raw = rows_first(c.pairs, c.pairs.len() as int);
    let rows = sorted_rows(c.pairs);
    lemma_rows_first(c.pairs, c.pairs.len() as int);
    crate::sort::sorting_orders_and_keeps::<PairRow>(raw);
    assert forall|r: RowView| rows.contains(r) <==> raw.contains(r) by {
        assert(rows.to_multiset().count(r) == raw.to_multiset().count(r));
    }
    assert forall|i: int| 0 <= i < rows.len() implies is_plain((#[trigger] rows[i]).winner)
        && is_plain(rows[i].loser) by {
        assert(rows.contains(rows[i]));
        let j = choose|j: int| 0 <= j < raw.len() && raw[j] == rows[i];
        let (a, b) = choose|a: int, b: int|
            0 <= a < c.pairs.len() && 0 <= b < c.pairs[a].1.len() && #[trigger] raw[j] == (RowView {
                winner: c.pairs[a].0,
                loser: (#[trigger] c.pairs[a].1[b]).0,
                count: c.pairs[a].1[b].1,
            });
    }
    let body = row_lines(rows, rows.len() as int);
    let lines = index_lines(c);
    lemma_lines(rows, rows.len() as int, w, l);
    lemma_index_plain_lines(c.files_indexed as nat, c.mods_scanned as nat);
    let first = "# modslut conflict index v1 - delete this file to force a rescan"@;
    assert(is_line(first) && read_pair(first) is None) by {
        reveal_strlit("# modslut conflict index v1 - delete this file to force a rescan");
        reveal_strlit("#");
        lemma_trim_tight(first);
        assert(first.take(1) =~= "#"@);
    }
    assert(lines[0] == first);
    assert(lines =~= seq![lines[0], lines[1]] + body);
    assert forall|i: int| 0 <= i < lines.len() implies is_line(#[trigger] lines[i]) by {
        if i >= 2 {
            assert(lines[i] == body[i - 2]);
        }
    }
    text::lemma_lines_read_back(lines);
    lemma_read_behind(lines, body, body.len() as int);
    // Which pairs the rows hold.
    lemma_row_from(rows, w, l, rows.len() as int);
    lemma_found_pair(c.pairs, w, l);
    let n = rows.len() as int;
    match wins(c.pairs, w, l) {
        Some(k) => {
            let (a, b) = choose|a: int, b: int|
                0 <= a < c.pairs.len() && 0 <= b < c.pairs[a].1.len() && c.pairs[a].0 == w
                    && (#[trigger] c.pairs[a].1[b]) == (l, k);
            let r = RowView { winner: w, loser: l, count: k };
            assert(c.pairs[a].1[b].0 == l);
            assert(raw.contains(r));
            assert(rows.contains(r));
            let i = choose|i: int| 0 <= i < rows.len() && rows[i] == r;
            if row_from(rows, w, l, n) is Some {
                let other = RowView { winner: w, loser: l, count: row_from(rows, w, l, n)->0 };
                let j = choose|j: int| 0 <= j < rows.len() && #[trigger] rows[j] == other;
                assert(rows.contains(other));
                assert(raw.contains(other));
                let x = choose|x: int| 0 <= x < raw.len() && raw[x] == r;
                let y = choose|y: int| 0 <= y < raw.len() && raw[y] == other;
                if x < y {
                    assert(!(raw[x].winner == raw[y].winner && raw[x].loser == raw[y].loser));
                } else if y < x {
                    assert(!(raw[y].winner == raw[x].winner && raw[y].loser == raw[x].loser));
                }
            } else {
                assert(rows[i].count < MIN_SHARED);
            }
        },
        None => {
            if row_from(rows, w, l, n) is Some {
                let r = RowView { winner: w, loser: l, count: row_from(rows, w, l, n)->0 };
                let j = choose|j: int| 0 <= j < rows.len() && #[trigger] rows[j] == r;
                assert(rows.contains(r));
                assert(raw.contains(r));
                let x = choose|x: int| 0 <= x < raw.len() && raw[x] == r;
                let (a, b) = choose|a: int, b: int|
                    0 <= a < c.pairs.len() && 0 <= b < c.pairs[a].1.len() && #[trigger] raw[x] == (
                    RowView {
                        winner: c.pairs[a].0,
                        loser: (#[trigger] c.pairs[a].1[b]).0,
                        count: c.pairs[a].1[b].1,
                    });
                assert(c.pairs[a].1[b].0 != l);
            }
        },
    }
}

/// Two lines that hold no pair make no difference.
proof fn lemma_read_behind(lines: Seq<Seq<char>>, body: Seq<Seq<char>>, n: int)
    requires
        0 <= n <= body.len(),
        lines.len() >= 2,
        lines == seq![lines[0], lines[1]] + body,
        read_pair(lines[0]) is None,
        read_pair(lines[1]) is None,
    ensures
        read_first(lines, n + 2) == read_first(body, n),
    decreases n,
{
    if n > 0 {
        lemma_read_behind(lines, body, n - 1);
        assert(lines[n + 1] == body[n - 1]);
    } else {
        assert(read_first(lines, 0) =~= Seq::empty());
        assert(read_first(lines, 1) == read_first(lines, 0));
    }
}

/// Of two mods that share files the one of higher priority wins: a winner's place in the
/// list of active mods is the lowest of all that provide the file.
pub proof fn winner_is_first_in_priority(providers: Seq<usize>, i: int)
    requires
        0 <= i < providers.len(),
    ensures
        least(providers) <= providers[i],
        providers.contains(least(providers)),
{
    lemma_least(providers, providers.len() as int);
}

} // verus!
