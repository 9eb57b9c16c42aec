//! The second pass of a sort: the order inside a section.
//!
//! Inside a section everything is said in load order: index 0 loads first, the last
//! index loads last and wins. A pinned mod keeps its slot for good; all constraints
//! work on the others, which fill the slots that are free, until nothing changes.
use vstd::prelude::*;
use crate::conflicts::ConflictIndex;
#[allow(unused_imports)]
use crate::conflicts::{shared_files, ConflictView, MIN_SHARED};
#[allow(unused_imports)]
use crate::decide::canon;
use crate::decide;
use crate::keywords::Keywords;
#[allow(unused_imports)]
use crate::keywords::{never_match, KeywordsView};
use crate::list;
#[allow(unused_imports)]
use crate::loot::{places_first, Edges};
use crate::map::TextMap;
#[allow(unused_imports)]
use crate::map::{found, inserted};
use crate::masters;
use crate::masters::Census;
#[allow(unused_imports)]
use crate::masters::{is_esm_entry_of, place_or_zero};
use crate::matching;
#[allow(unused_imports)]
use crate::matching::patchy;
use crate::modlist;
use crate::modlist::ModEntry;
#[allow(unused_imports)]
use crate::modlist::{names, EntryView};
use crate::plan::{Change, ChangeKind, Plan};
#[allow(unused_imports)]
use crate::plan::{bumped, counted, listed, listed_once, traced, ChangeView, PlanView};
#[allow(unused_imports)]
use crate::plugins::CensusView;
use crate::rules::Rules;
#[allow(unused_imports)]
use crate::rules::RulesView;
use crate::sort;
use crate::sort::Ranked;
#[allow(unused_imports)]
use crate::sort::sorted;
use crate::suggest;
#[allow(unused_imports)]
use crate::suggest::is_enabled;
use crate::text;
#[allow(unused_imports)]
use crate::text::{byte_len, contains_text, decimal};

verus! {

pub type Mods = Seq<EntryView>;

pub type Known = Seq<(Seq<char>, Seq<char>)>;

// ---- families ----

/// The first parent from `i` on that stands in the section.
pub open spec fn parent_here(ps: Seq<Seq<char>>, here: Seq<(Seq<char>, usize)>, i: int) -> Option<
    usize,
>
    decreases ps.len() - i,
{
    if i < 0 || i >= ps.len() {
        None
    } else if found(here, ps[i]) is Some {
        found(here, ps[i])
    } else {
        parent_here(ps, here, i + 1)
    }
}

/// The mod among the first `n` whose long name this one's name contains: the longest,
/// and the first of equals.
pub open spec fn named_parent_first(
    work: Mods,
    i: int,
    known: Known,
    kw: KeywordsView,
    n: int,
) -> Option<usize>
    decreases n,
{
    if n <= 0 {
        None
    } else {
        let before = named_parent_first(work, i, known, kw, n - 1);
        let ca = canon(known, work[i]);
        let cb = canon(known, work[n - 1]);
        if n - 1 != i && ca != cb && byte_len(cb) >= 10 && contains_text(ca, cb) && !never_match(
            kw,
            work[i].name,
            work[n - 1].name,
        ) && (before is None || byte_len(canon(known, work[before->0 as int])) < byte_len(cb)) {
            Some((n - 1) as usize)
        } else {
            before
        }
    }
}

/// The parent of a mod inside its section: a plugin master if one is there, or else by
/// its name.
pub open spec fn parent_of(
    work: Mods,
    i: int,
    content: Edges,
    here: Seq<(Seq<char>, usize)>,
    known: Known,
    kw: KeywordsView,
) -> Option<usize> {
    let by_plugin = match found(content, work[i].name) {
        Some(ps) => parent_here(ps, here, 0),
        None => None,
    };
    if by_plugin is Some {
        by_plugin
    } else {
        named_parent_first(work, i, known, kw, work.len() as int)
    }
}

/// The place of each name; the last of equal names counts.
pub open spec fn name_places(work: Mods) -> Seq<(Seq<char>, usize)> {
    places_first(names(work), work.len() as int)
}

pub open spec fn parents_of(work: Mods, content: Edges, known: Known, kw: KeywordsView) -> Seq<
    Option<usize>,
> {
    Seq::new(
        work.len(),
        |i: int| parent_of(work, i, content, name_places(work), known, kw),
    )
}

pub open spec fn parent_at(parents: Seq<Option<usize>>, i: int) -> Option<usize> {
    if 0 <= i < parents.len() {
        parents[i]
    } else {
        None
    }
}

/// The depth of a mod below its root, and the root. No chain is followed for more
/// steps than there are mods.
pub open spec fn lineage(parents: Seq<Option<usize>>, cur: usize, depth: nat) -> (nat, usize)
    decreases parents.len() + 1 - depth,
{
    match parent_at(parents, cur as int) {
        Some(p) => if depth + 1 > parents.len() {
            (depth + 1, p)
        } else {
            lineage(parents, p, depth + 1)
        },
        None => (depth, cur),
    }
}

/// A place in the order of families: by the root, then parents first, then the later
/// place first.
pub struct FamilyKey {
    pub root: usize,
    pub depth: u128,
    pub load: usize,
    pub index: usize,
}

impl DeepView for FamilyKey {
    type V = FamilyKey;

    open spec fn deep_view(&self) -> FamilyKey {
        *self
    }
}

impl Ranked for FamilyKey {
    open spec fn precedes(a: FamilyKey, b: FamilyKey) -> bool {
        a.root < b.root || (a.root == b.root && (a.depth < b.depth || (a.depth == b.depth && a.load
            >= b.load)))
    }

    proof fn total(a: FamilyKey, b: FamilyKey) {
    }

    proof fn transitive(a: FamilyKey, b: FamilyKey, c: FamilyKey) {
    }

    fn goes_before(&self, other: &FamilyKey) -> (r: bool) {
        self.root < other.root || (self.root == other.root && (self.depth < other.depth || (
        self.depth == other.depth && self.load >= other.load)))
    }
}

pub open spec fn family_key(work: Mods, parents: Seq<Option<usize>>, i: int) -> FamilyKey {
    let (depth, root) = lineage(parents, i as usize, 0);
    FamilyKey {
        root,
        depth: depth as u128,
        load: place_or_zero(name_places(work), work[i].name),
        index: i as usize,
    }
}

pub open spec fn family_keys(work: Mods, parents: Seq<Option<usize>>) -> Seq<FamilyKey> {
    Seq::new(work.len(), |i: int| family_key(work, parents, i))
}

/// Every family together: the root first, then its children by depth; families keep
/// their relative place.
pub open spec fn by_family(work: Mods, parents: Seq<Option<usize>>) -> Mods {
    let order = sorted::<FamilyKey>(family_keys(work, parents));
    Seq::new(order.len(), |k: int| work[order[k].index as int])
}

fn place_map(work: &Vec<ModEntry>) -> (r: TextMap<usize>)
    ensures
        r.deep_view() == name_places(work.deep_view()),
{
    let ghost w = work.deep_view();
    let mut out: TextMap<usize> = TextMap::new();
    let mut i: usize = 0;
    while i < work.len()
        invariant
            i <= work.len(),
            w == work.deep_view(),
            out.deep_view() == places_first(names(w), i as int),
        decreases work.len() - i,
    {
        assert(w[i as int] == work@[i as int].deep_view());
        assert(names(w)[i as int] == work@[i as int].name@);
        out.insert(work[i].name.clone(), i);
        i = i + 1;
    }
    assert(w.len() == work.len());
    out
}

fn place_found(m: &TextMap<usize>, k: &str) -> (r: usize)
    ensures
        r == place_or_zero(m.deep_view(), k@),
{
    match m.get(k) {
        Some(i) => *i,
        None => 0,
    }
}

fn find_here(ps: &Vec<String>, here: &TextMap<usize>) -> (r: Option<usize>)
    ensures
        r == parent_here(ps.deep_view(), here.deep_view(), 0),
{
    let ghost pv = ps.deep_view();
    let mut i: usize = 0;
    while i < ps.len()
        invariant
            i <= ps.len(),
            pv == ps.deep_view(),
            parent_here(pv, here.deep_view(), i as int) == parent_here(pv, here.deep_view(), 0),
        decreases ps.len() - i,
    {
        assert(pv[i as int] == ps@[i as int]@);
        if let Some(p) = here.get(ps[i].as_str()) {
            return Some(*p);
        }
        i = i + 1;
    }
    None
}

fn find_named(work: &Vec<ModEntry>, i: usize, canons: &Vec<String>, kw: &Keywords, known: Ghost<Known>) -> (r:
    Option<usize>)
    requires
        i < work.len(),
        canons.len() == work.len(),
        forall|j: int|
            0 <= j < work.len() ==> (#[trigger] canons@[j])@ == canon(known@, work.deep_view()[j]),
    ensures
        r == named_parent_first(
            work.deep_view(),
            i as int,
            known@,
            kw.deep_view(),
            work.len() as int,
        ),
{
    let ghost w = work.deep_view();
    let mut best: Option<usize> = None;
    let mut j: usize = 0;
    while j < work.len()
        invariant
            i < work.len(),
            j <= work.len(),
            w == work.deep_view(),
            canons.len() == work.len(),
            forall|k: int|
                0 <= k < work.len() ==> (#[trigger] canons@[k])@ == canon(known@, w[k]),
            best is Some ==> best->0 < j,
            best == named_parent_first(w, i as int, known@, kw.deep_view(), j as int),
        decreases work.len() - j,
    {
        assert(w[i as int] == work@[i as int].deep_view());
        assert(w[j as int] == work@[j as int].deep_view());
        let ca = &canons[i];
        let cb = &canons[j];
        assert(ca@ == canon(known@, w[i as int]));
        assert(cb@ == canon(known@, w[j as int]));
        if j != i && !(*ca == *cb) && text::bytes_in(cb.as_str()) >= 10 && text::contains(
            ca.as_str(),
            cb.as_str(),
        ) && !kw.is_never(work[i].name.as_str(), work[j].name.as_str()) {
            let better = match best {
                None => true,
                Some(k) => {
                    assert(canons@[k as int]@ == canon(known@, w[k as int]));
                    text::bytes_in(canons[k].as_str()) < text::bytes_in(cb.as_str())
                },
            };
            if better {
                best = Some(j);
            }
        }
        j = j + 1;
    }
    best
}

fn find_parents(
    work: &Vec<ModEntry>,
    content: &TextMap<Vec<String>>,
    known: &TextMap<String>,
    kw: &Keywords,
) -> (r: Vec<Option<usize>>)
    ensures
        r@ == parents_of(
            work.deep_view(),
            content.deep_view(),
            known.deep_view(),
            kw.deep_view(),
        ),
{
    let ghost w = work.deep_view();
    let ghost kn = known.deep_view();
    let here = place_map(work);
    let mut canons: Vec<String> = Vec::new();
    let mut i: usize = 0;
    while i < work.len()
        invariant
            i <= work.len(),
            w == work.deep_view(),
            kn == known.deep_view(),
            canons.len() == i,
            forall|k: int| 0 <= k < i ==> (#[trigger] canons@[k])@ == canon(kn, w[k]),
        decreases work.len() - i,
    {
        assert(w[i as int] == work@[i as int].deep_view());
        canons.push(decide::canon_of(known, &work[i]));
        i = i + 1;
    }
    let ghost goal = parents_of(w, content.deep_view(), kn, kw.deep_view());
    let mut out: Vec<Option<usize>> = Vec::new();
    let mut i: usize = 0;
    while i < work.len()
        invariant
            i <= work.len(),
            w == work.deep_view(),
            kn == known.deep_view(),
            here.deep_view() == name_places(w),
            canons.len() == work.len(),
            forall|k: int| 0 <= k < work.len() ==> (#[trigger] canons@[k])@ == canon(kn, w[k]),
            goal == parents_of(w, content.deep_view(), kn, kw.deep_view()),
            out@ == goal.take(i as int),
        decreases work.len() - i,
    {
        assert(w[i as int] == work@[i as int].deep_view());
        let by_plugin = match content.get(work[i].name.as_str()) {
            Some(ps) => find_here(ps, &here),
            None => None,
        };
        let p = match by_plugin {
            Some(p) => Some(p),
            None => find_named(work, i, &canons, kw, Ghost(kn)),
        };
        assert(w.len() == work.len());
        assert(p == goal[i as int]);
        out.push(p);
        i = i + 1;
        assert(out@ =~= goal.take(i as int));
    }
    assert(goal.take(i as int) =~= goal);
    out
}

fn trace_lineage(parents: &Vec<Option<usize>>, from: usize) -> (r: (u128, usize))
    ensures
        (r.0 as nat, r.1) == lineage(parents@, from, 0),
{
    let mut cur: usize = from;
    let mut depth: u128 = 0;
    loop
        invariant
            depth <= parents.len(),
            lineage(parents@, cur, depth as nat) == lineage(parents@, from, 0),
        decreases parents.len() + 1 - depth,
    {
        if cur >= parents.len() {
            return (depth, cur);
        }
        match parents[cur] {
            Some(p) => {
                depth = depth + 1;
                if depth > parents.len() as u128 {
                    return (depth, p);
                }
                cur = p;
            },
            None => {
                return (depth, cur);
            },
        }
    }
}

fn group_families(work: &Vec<ModEntry>, parents: &Vec<Option<usize>>) -> (r: Vec<ModEntry>)
    requires
        parents.len() == work.len(),
    ensures
        r.deep_view() == by_family(work.deep_view(), parents@),
{
    let ghost w = work.deep_view();
    let loads = place_map(work);
    let ghost goal = family_keys(w, parents@);
    let mut keys: Vec<FamilyKey> = list::none();
    let mut i: usize = 0;
    while i < work.len()
        invariant
            i <= work.len(),
            w == work.deep_view(),
            parents.len() == work.len(),
            loads.deep_view() == name_places(w),
            goal == family_keys(w, parents@),
            keys.deep_view() == goal.take(i as int),
        decreases work.len() - i,
    {
        assert(w[i as int] == work@[i as int].deep_view());
        let (depth, root) = trace_lineage(parents, i);
        let key = FamilyKey {
            root,
            depth,
            load: place_found(&loads, work[i].name.as_str()),
            index: i,
        };
        assert(key == goal[i as int]);
        list::put(&mut keys, key);
        i = i + 1;
        assert(keys.deep_view() =~= goal.take(i as int));
    }
    assert(goal.take(i as int) =~= goal);
    let order = sort::sort(keys);
    let ghost sorted_keys = sorted::<FamilyKey>(goal);
    proof {
        sort::sorting_orders_and_keeps::<FamilyKey>(goal);
        lemma_indices_in_range(w, parents@);
    }
    let mut out: Vec<ModEntry> = list::none();
    let mut k: usize = 0;
    while k < order.len()
        invariant
            k <= order.len(),
            w == work.deep_view(),
            order.deep_view() == sorted_keys,
            sorted_keys == sorted::<FamilyKey>(family_keys(w, parents@)),
            forall|j: int|
                0 <= j < sorted_keys.len() ==> (#[trigger] sorted_keys[j]).index < work.len(),
            out.deep_view() == by_family(w, parents@).take(k as int),
        decreases order.len() - k,
    {
        assert(sorted_keys[k as int] == order@[k as int].deep_view());
        let at: usize = order[k].index;
        assert(w[at as int] == work@[at as int].deep_view());
        list::put(&mut out, work[at].clone());
        k = k + 1;
        assert(out.deep_view() =~= by_family(w, parents@).take(k as int));
    }
    assert(order.deep_view().len() == order.len());
    assert(by_family(w, parents@).take(k as int) =~= by_family(w, parents@));
    out
}

proof fn lemma_indices_in_range(work: Mods, parents: Seq<Option<usize>>)
    requires
        work.len() <= usize::MAX,
    ensures
        ({
            let order = sorted::<FamilyKey>(family_keys(work, parents));
            &&& order.len() == work.len()
            &&& forall|j: int| 0 <= j < order.len() ==> (#[trigger] order[j]).index < work.len()
        }),
{
    let keys = family_keys(work, parents);
    let order = sorted::<FamilyKey>(keys);
    sort::sorting_orders_and_keeps::<FamilyKey>(keys);
    assert forall|j: int| 0 <= j < order.len() implies (#[trigger] order[j]).index < work.len() by {
        broadcast use vstd::seq_lib::group_to_multiset_ensures;

        assert(order.contains(order[j]));
        assert(order.to_multiset().count(order[j]) > 0);
        assert(keys.to_multiset().count(order[j]) > 0);
        assert(keys.contains(order[j]));
        let i = choose|i: int| 0 <= i < keys.len() && keys[i] == order[j];
        assert(keys[i].index == i);
    }
}

// ---- slots ----

/// The slots of a section: pinned mods at theirs, and the others in their order. Of two
/// pinned mods of one name the second is one of the others: no mod is lost.
pub struct Slots {
    pub owner: Seq<Option<EntryView>>,
    pub loose: Mods,
}

/// The slot of a pinned mod.
pub open spec fn pin_slot(load: Seq<(Seq<char>, usize)>, n: int, m: EntryView) -> int {
    let at = place_or_zero(load, m.name);
    if at < n - 1 {
        at as int
    } else {
        n - 1
    }
}

pub open spec fn slots_first(
    work: Mods,
    load: Seq<(Seq<char>, usize)>,
    pins: Seq<Seq<char>>,
    n: int,
) -> Slots
    decreases n,
{
    if n <= 0 {
        Slots { owner: Seq::new(work.len(), |i: int| None), loose: Seq::empty() }
    } else {
        let before = slots_first(work, load, pins, n - 1);
        let m = work[n - 1];
        let slot = pin_slot(load, work.len() as int, m);
        if pins.contains(m.name) && before.owner[slot] is None {
            Slots { owner: before.owner.update(slot, Some(m)), ..before }
        } else {
            Slots { loose: before.loose.push(m), ..before }
        }
    }
}

/// The slots among the first `n` that no pinned mod holds.
pub open spec fn free_first(owner: Seq<Option<EntryView>>, n: int) -> Seq<usize>
    decreases n,
{
    if n <= 0 {
        Seq::empty()
    } else if owner[n - 1] is None {
        free_first(owner, n - 1).push((n - 1) as usize)
    } else {
        free_first(owner, n - 1)
    }
}

/// The slots of the pinned mods by name.
pub open spec fn pinned_first(owner: Seq<Option<EntryView>>, n: int) -> Seq<(Seq<char>, usize)>
    decreases n,
{
    if n <= 0 {
        Seq::empty()
    } else {
        match owner[n - 1] {
            Some(m) => inserted(pinned_first(owner, n - 1), m.name, (n - 1) as usize),
            None => pinned_first(owner, n - 1),
        }
    }
}

/// What the constraints of a section go by.
pub struct Bench {
    pub label: Seq<char>,
    pub owner: Seq<Option<EntryView>>,
    pub free: Seq<usize>,
    pub pinned: Seq<(Seq<char>, usize)>,
}

pub open spec fn bench(label: Seq<char>, owner: Seq<Option<EntryView>>) -> Bench {
    Bench {
        label,
        owner,
        free: free_first(owner, owner.len() as int),
        pinned: pinned_first(owner, owner.len() as int),
    }
}

/// The slot of rank `r` among the free ones.
pub open spec fn slot_at(free: Seq<usize>, r: int) -> usize {
    if free.len() == 0 {
        0
    } else if r < free.len() {
        free[r]
    } else {
        free.last()
    }
}

/// Where a mod of that name first stands, from `i` on.
pub open spec fn mod_from(u: Mods, name: Seq<char>, i: int) -> Option<int>
    decreases u.len() - i,
{
    if i < 0 || i >= u.len() {
        None
    } else if u[i].name == name {
        Some(i)
    } else {
        mod_from(u, name, i + 1)
    }
}

/// The slot of a mod: a pinned one has its own, any other that of its rank.
pub open spec fn slot_of(b: Bench, u: Mods, name: Seq<char>) -> Option<usize> {
    if found(b.pinned, name) is Some {
        found(b.pinned, name)
    } else {
        match mod_from(u, name, 0) {
            Some(r) => Some(slot_at(b.free, r)),
            None => None,
        }
    }
}

/// How many free slots from rank `i` on lie at `slot` or before.
pub open spec fn rank_past(free: Seq<usize>, slot: usize, i: int) -> int
    decreases free.len() - i,
{
    if 0 <= i < free.len() && free[i] <= slot {
        rank_past(free, slot, i + 1)
    } else {
        i
    }
}

/// The mods with the one at `from` moved to the first free slot past `slot`.
pub open spec fn moved_past(free: Seq<usize>, u: Mods, from: int, slot: usize) -> Mods {
    let rest = u.remove(from);
    let r = rank_past(free, slot, 0);
    rest.insert(
        if r < rest.len() {
            r
        } else {
            rest.len() as int
        },
        u[from],
    )
}

pub struct Table {
    pub label: String,
    pub owner: Vec<Option<ModEntry>>,
    pub free: Vec<usize>,
    pub pinned: TextMap<usize>,
}

impl Table {
    pub open spec fn view(&self) -> Bench {
        Bench {
            label: self.label@,
            owner: self.owner.deep_view(),
            free: self.free@,
            pinned: self.pinned.deep_view(),
        }
    }
}

pub fn find_mod(u: &Vec<ModEntry>, name: &str) -> (r: Option<usize>)
    ensures
        match r {
            Some(i) => mod_from(u.deep_view(), name@, 0) == Some(i as int) && i < u.len()
                && u.deep_view()[i as int].name == name@,
            None => mod_from(u.deep_view(), name@, 0) is None,
        },
{
    let key = name.to_string();
    let ghost uv = u.deep_view();
    let mut i: usize = 0;
    while i < u.len()
        invariant
            i <= u.len(),
            key@ == name@,
            uv == u.deep_view(),
            mod_from(uv, name@, i as int) == mod_from(uv, name@, 0),
        decreases u.len() - i,
    {
        assert(uv[i as int] == u@[i as int].deep_view());
        if u[i].name == key {
            return Some(i);
        }
        i = i + 1;
    }
    None
}

impl Table {
    fn slot_at(&self, r: usize) -> (s: usize)
        ensures
            s == slot_at(self.view().free, r as int),
    {
        if self.free.len() == 0 {
            0
        } else if r < self.free.len() {
            self.free[r]
        } else {
            self.free[self.free.len() - 1]
        }
    }

    fn slot_of(&self, u: &Vec<ModEntry>, name: &str) -> (s: Option<usize>)
        ensures
            s == slot_of(self.view(), u.deep_view(), name@),
    {
        if let Some(s) = self.pinned.get(name) {
            return Some(*s);
        }
        match find_mod(u, name) {
            Some(r) => Some(self.slot_at(r)),
            None => None,
        }
    }

    fn move_past(&self, u: &mut Vec<ModEntry>, from: usize, slot: usize)
        requires
            from < old(u).len(),
        ensures
            final(u).deep_view() == moved_past(
                self.view().free,
                old(u).deep_view(),
                from as int,
                slot,
            ),
            final(u).len() == old(u).len(),
    {
        let ghost start = u.deep_view();
        let e = list::take_at(u, from);
        let mut r: usize = 0;
        while r < self.free.len() && self.free[r] <= slot
            invariant
                r <= self.free.len(),
                rank_past(self.free@, slot, r as int) == rank_past(self.free@, slot, 0),
            decreases self.free.len() - r,
        {
            r = r + 1;
        }
        let at: usize = if r < u.len() {
            r
        } else {
            u.len()
        };
        assert(u.deep_view().len() == u.len());
        list::put_at(u, at, e);
    }
}

/// Clears the table: pinned mods take their slots, the others line up.
fn set_table(
    label: &str,
    work: Vec<ModEntry>,
    load: &TextMap<usize>,
    pins: &Vec<String>,
) -> (r: (Table, Vec<ModEntry>))
    requires
        work.len() > 0,
    ensures
        ({
            let s = slots_first(
                work.deep_view(),
                load.deep_view(),
                pins.deep_view(),
                work.len() as int,
            );
            &&& r.0.view() == bench(label@, s.owner)
            &&& r.1.deep_view() == s.loose
        }),
{
    let ghost w = work.deep_view();
    let ghost lv = load.deep_view();
    let ghost pv = pins.deep_view();
    let n: usize = work.len();
    let mut owner: Vec<Option<ModEntry>> = list::none();
    let mut i: usize = 0;
    while i < n
        invariant
            i <= n,
            owner.len() == i,
            forall|j: int| 0 <= j < i ==> (#[trigger] owner@[j]) is None,
        decreases n - i,
    {
        owner.push(None);
        i = i + 1;
    }
    assert(owner.deep_view() =~= slots_first(w, lv, pv, 0).owner);
    let mut loose: Vec<ModEntry> = list::none();
    let mut i: usize = 0;
    while i < n
        invariant
            i <= n,
            n == work.len(),
            n > 0,
            w == work.deep_view(),
            lv == load.deep_view(),
            pv == pins.deep_view(),
            owner.len() == n,
            slots_first(w, lv, pv, i as int) == (Slots {
                owner: owner.deep_view(),
                loose: loose.deep_view(),
            }),
        decreases n - i,
    {
        let m = &work[i];
        assert(w[i as int] == m.deep_view());
        let at = place_found(load, m.name.as_str());
        let slot: usize = if at < n - 1 {
            at
        } else {
            n - 1
        };
        assert(w.len() == n);
        assert(owner.deep_view()[slot as int] == owner@[slot as int].deep_view());
        if list::holds(pins, m.name.as_str()) && owner[slot].is_none() {
            list::set_at(&mut owner, slot, Some(m.clone()));
        } else {
            list::put(&mut loose, m.clone());
        }
        i = i + 1;
    }
    let ghost ov = owner.deep_view();
    let mut free: Vec<usize> = Vec::new();
    let mut pinned: TextMap<usize> = TextMap::new();
    let mut i: usize = 0;
    while i < n
        invariant
            i <= n,
            n == owner.len(),
            ov == owner.deep_view(),
            free@ == free_first(ov, i as int),
            pinned.deep_view() == pinned_first(ov, i as int),
        decreases n - i,
    {
        assert(ov[i as int] == owner@[i as int].deep_view());
        match &owner[i] {
            Some(m) => pinned.insert(m.name.clone(), i),
            None => free.push(i),
        }
        i = i + 1;
    }
    assert(ov.len() == n);
    (Table { label: label.to_string(), owner, free, pinned }, loose)
}

// ---- constraints ----

/// The loose mods, and the plan.
pub struct Work {
    pub u: Mods,
    pub plan: PlanView,
}

pub open spec fn at_text(label: Seq<char>, name: Seq<char>, rank: int) -> Seq<char> {
    "  ["@ + label + "] "@ + name + "@rank "@ + decimal(rank as nat) + ": "@
}

/// A promote rule: the winner loads after the loser.
pub open spec fn promote_one(w: Work, rule: (Seq<char>, Seq<char>), label: Seq<char>) -> Work {
    let (win, lose) = rule;
    match (mod_from(w.u, win, 0), mod_from(w.u, lose, 0)) {
        (Some(wi), Some(li)) => {
            let plan = traced(
                w.plan,
                "  ["@ + label + "] "@ + win + "@"@ + decimal(wi as nat) + " vs "@ + lose + "@"@
                    + decimal(li as nat) + " (load order, later wins): "@ + (if wi < li {
                    "PROMOTE winner"@
                } else {
                    "already correct"@
                }),
            );
            if wi < li {
                let rest = w.u.remove(wi);
                Work {
                    u: rest.insert(mod_from(rest, lose, 0)->0 + 1, w.u[wi]),
                    plan: listed_once(
                        bumped(plan, "PROM  "@ + win + " loads after "@ + lose),
                        ChangeView {
                            kind: ChangeKind::Promote,
                            name: win,
                            detail: "loads after "@ + lose,
                            section: label,
                        },
                    ),
                }
            } else {
                Work { plan, ..w }
            }
        },
        _ => w,
    }
}

pub open spec fn promote_first(w: Work, rules: Seq<(Seq<char>, Seq<char>)>, label: Seq<char>, n: int) -> Work
    decreases n,
{
    if n <= 0 {
        w
    } else {
        promote_one(promote_first(w, rules, label, n - 1), rules[n - 1], label)
    }
}

/// A sink rule: the mod loads first among the loose mods of its section.
pub open spec fn sink_one(w: Work, rule: (Seq<char>, Seq<char>), label: Seq<char>) -> Work {
    let (name, sec) = rule;
    match mod_from(w.u, name, 0) {
        Some(i) => if label != sec {
            w
        } else {
            let plan = traced(
                w.plan,
                at_text(sec, name, i) + (if i == 0 {
                    "already sunk"@
                } else {
                    "SINK to section top (ui)"@
                }),
            );
            if i != 0 {
                Work {
                    u: w.u.remove(i).insert(0, w.u[i]),
                    plan: listed_once(
                        bumped(
                            plan,
                            "SINK  "@ + name + " to top of ["@ + sec + "] (loses in-section)"@,
                        ),
                        ChangeView {
                            kind: ChangeKind::Sink,
                            name,
                            detail: "top of ["@ + sec + "] - loses to everything below it"@,
                            section: sec,
                        },
                    ),
                }
            } else {
                Work { plan, ..w }
            }
        },
        None => w,
    }
}

pub open spec fn sink_first(w: Work, rules: Seq<(Seq<char>, Seq<char>)>, label: Seq<char>, n: int) -> Work
    decreases n,
{
    if n <= 0 {
        w
    } else {
        sink_one(sink_first(w, rules, label, n - 1), rules[n - 1], label)
    }
}

/// A sink rule without a section: the mod loads first wherever it stands.
pub open spec fn sink_any_one(w: Work, name: Seq<char>, label: Seq<char>) -> Work {
    match mod_from(w.u, name, 0) {
        Some(i) => {
            let plan = traced(
                w.plan,
                at_text(label, name, i) + (if i == 0 {
                    "already sunk"@
                } else {
                    "SINK (framework, loads early)"@
                }),
            );
            if i != 0 {
                Work {
                    u: w.u.remove(i).insert(0, w.u[i]),
                    plan: listed_once(
                        bumped(
                            plan,
                            "SINK  "@ + name + " loads first in ["@ + label + "] (framework)"@,
                        ),
                        ChangeView {
                            kind: ChangeKind::Sink,
                            name,
                            detail: "top of ["@ + label + "] - framework, loads early"@,
                            section: label,
                        },
                    ),
                }
            } else {
                Work { plan, ..w }
            }
        },
        None => w,
    }
}

pub open spec fn sink_any_first(w: Work, names: Seq<Seq<char>>, label: Seq<char>, n: int) -> Work
    decreases n,
{
    if n <= 0 {
        w
    } else {
        sink_any_one(sink_any_first(w, names, label, n - 1), names[n - 1], label)
    }
}

/// A float rule: the mod loads last among the loose mods of its section.
pub open spec fn float_one(w: Work, rule: (Seq<char>, Seq<char>), label: Seq<char>) -> Work {
    let (name, sec) = rule;
    match mod_from(w.u, name, 0) {
        Some(i) => if label != sec {
            w
        } else {
            let last = i == w.u.len() - 1;
            let plan = traced(
                w.plan,
                at_text(sec, name, i) + (if last {
                    "already floated"@
                } else {
                    "FLOAT to section bottom (ui)"@
                }),
            );
            if !last {
                Work {
                    u: w.u.remove(i).push(w.u[i]),
                    plan: listed_once(
                        bumped(
                            plan,
                            "FLOT  "@ + name + " to bottom of ["@ + sec + "] (wins in-section)"@,
                        ),
                        ChangeView {
                            kind: ChangeKind::Float,
                            name,
                            detail: "bottom of ["@ + sec + "] - wins everything in-section"@,
                            section: sec,
                        },
                    ),
                }
            } else {
                Work { plan, ..w }
            }
        },
        None => w,
    }
}

pub open spec fn float_first(w: Work, rules: Seq<(Seq<char>, Seq<char>)>, label: Seq<char>, n: int) -> Work
    decreases n,
{
    if n <= 0 {
        w
    } else {
        float_one(float_first(w, rules, label, n - 1), rules[n - 1], label)
    }
}

pub open spec fn later(a: Option<usize>, b: Option<usize>) -> Option<usize> {
    match (a, b) {
        (Some(x), Some(y)) => if y > x {
            Some(y)
        } else {
            Some(x)
        },
        (Some(x), None) => Some(x),
        (None, y) => y,
    }
}

/// The latest slot among the first `n` parents that stand in the section.
pub open spec fn latest_first(ps: Seq<Seq<char>>, b: Bench, u: Mods, n: int) -> Option<usize>
    decreases n,
{
    if n <= 0 {
        None
    } else {
        later(latest_first(ps, b, u, n - 1), slot_of(b, u, ps[n - 1]))
    }
}

pub open spec fn latest_parent(ps: Option<Seq<Seq<char>>>, b: Bench, u: Mods) -> Option<usize> {
    match ps {
        Some(list) => latest_first(list, b, u, list.len() as int),
        None => None,
    }
}

pub open spec fn slot_text(from: usize, past: usize) -> Seq<char> {
    " (slot "@ + decimal(from as nat) + " -> past "@ + decimal(past as nat) + ")"@
}

/// The mod at rank `ci` moves past the latest of its plugin masters, where it stands
/// before it.
pub open spec fn parents_one(
    w: Work,
    moved: bool,
    ci: int,
    b: Bench,
    content: Edges,
    loot: Edges,
) -> (Work, bool) {
    let name = w.u[ci].name;
    let cps = found(content, name);
    let lps = found(loot, name);
    match later(latest_parent(cps, b, w.u), latest_parent(lps, b, w.u)) {
        Some(latest) => {
            let slot = slot_at(b.free, ci);
            if slot < latest {
                (
                    Work {
                        u: moved_past(b.free, w.u, ci, latest),
                        plan: traced(
                            w.plan,
                            "  ["@ + b.label + "] "@ + name + " | "@ + (if lps is Some && cps is None {
                                "loot"@
                            } else {
                                "content DAG"@
                            }) + ": loads after all parents"@ + slot_text(slot, latest),
                        ),
                    },
                    true,
                )
            } else {
                (w, moved)
            }
        },
        None => (w, moved),
    }
}

pub open spec fn parents_first(w: Work, b: Bench, content: Edges, loot: Edges, n: int) -> (Work, bool)
    decreases n,
{
    if n <= 0 {
        (w, false)
    } else {
        let (v, moved) = parents_first(w, b, content, loot, n - 1);
        parents_one(v, moved, n - 1, b, content, loot)
    }
}

/// Sweeps until no mod stands before a master of its own, six times at most.
pub open spec fn parents_sweeps(w: Work, b: Bench, content: Edges, loot: Edges, fuel: nat) -> Work
    decreases fuel,
{
    if fuel == 0 {
        w
    } else {
        let (v, moved) = parents_first(w, b, content, loot, w.u.len() as int);
        if moved {
            parents_sweeps(v, b, content, loot, (fuel - 1) as nat)
        } else {
            v
        }
    }
}

/// The rank of a free slot.
pub open spec fn rank_from(free: Seq<usize>, slot: usize, i: int) -> Option<int>
    decreases free.len() - i,
{
    if i < 0 || i >= free.len() {
        None
    } else if free[i] == slot {
        Some(i)
    } else {
        rank_from(free, slot, i + 1)
    }
}

/// The name of the mod at a slot.
pub open spec fn name_at(b: Bench, u: Mods, slot: int) -> Option<Seq<char>> {
    match b.owner[slot] {
        Some(m) => Some(m.name),
        None => match rank_from(b.free, slot as usize, 0) {
            Some(r) => if r < u.len() {
                Some(u[r].name)
            } else {
                None
            },
            None => None,
        },
    }
}

pub open spec fn esm_at(b: Bench, u: Mods, census: CensusView, slot: int) -> bool {
    match name_at(b, u, slot) {
        Some(name) => is_esm_entry_of(name, Some(census)),
        None => false,
    }
}

/// The last of the first `n` slots that holds a master file.
pub open spec fn last_esm_first(b: Bench, u: Mods, census: CensusView, n: int) -> Option<usize>
    decreases n,
{
    if n <= 0 {
        None
    } else if esm_at(b, u, census, n - 1) {
        Some((n - 1) as usize)
    } else {
        last_esm_first(b, u, census, n - 1)
    }
}

/// The first rank from `i` on whose mod is no master file and stands before `slot`.
pub open spec fn early_from(b: Bench, u: Mods, census: CensusView, slot: usize, i: int) -> Option<int>
    decreases u.len() - i,
{
    if i < 0 || i >= u.len() {
        None
    } else if !is_esm_entry_of(u[i].name, Some(census)) && slot_at(b.free, i) < slot {
        Some(i)
    } else {
        early_from(b, u, census, slot, i + 1)
    }
}

/// Master files load before the others, in six steps at most.
pub open spec fn esm_steps(w: Work, b: Bench, census: CensusView, fuel: nat) -> Work
    decreases fuel,
{
    if fuel == 0 {
        w
    } else {
        match last_esm_first(b, w.u, census, b.owner.len() as int) {
            Some(latest) => match early_from(b, w.u, census, latest, 0) {
                Some(ci) => esm_steps(
                    Work {
                        u: moved_past(b.free, w.u, ci, latest),
                        plan: traced(
                            w.plan,
                            "  ["@ + b.label + "] "@ + w.u[ci].name
                                + " | ESM DAG: non-ESM loads after ESM"@ + slot_text(
                                slot_at(b.free, ci),
                                latest,
                            ),
                        ),
                    },
                    b,
                    census,
                    (fuel - 1) as nat,
                ),
                None => w,
            },
            None => w,
        }
    }
}

/// A patch, the mod that it must win over, and the number of files they share.
pub struct Duel {
    pub patch: String,
    pub base: String,
    pub shared: u32,
}

#[verifier::ext_equal]
pub struct DuelView {
    pub patch: Seq<char>,
    pub base: Seq<char>,
    pub shared: u32,
}

impl DeepView for Duel {
    type V = DuelView;

    open spec fn deep_view(&self) -> DuelView {
        DuelView { patch: self.patch@, base: self.base@, shared: self.shared }
    }
}

/// The duel between two ticked mods: they share enough files, and just one is a patch.
pub open spec fn duel(a: EntryView, b: EntryView, c: ConflictView) -> Option<DuelView> {
    if !is_enabled(a) || !is_enabled(b) {
        None
    } else {
        match shared_files(c.pairs, a.name, b.name) {
            Some((_, shared)) => if shared < MIN_SHARED || patchy(a.lower) == patchy(b.lower) {
                None
            } else if patchy(a.lower) {
                Some(DuelView { patch: a.name, base: b.name, shared })
            } else {
                Some(DuelView { patch: b.name, base: a.name, shared })
            },
            None => None,
        }
    }
}

pub open spec fn names_patch(duels: Seq<DuelView>, name: Seq<char>) -> bool {
    exists|i: int| 0 <= i < duels.len() && (#[trigger] duels[i]).patch == name
}

pub open spec fn duel_line(label: Seq<char>, d: DuelView) -> Seq<char> {
    "  ["@ + label + "] "@ + d.patch + " vs "@ + d.base + ": "@ + decimal(d.shared as nat)
        + " shared files -> patch must load after"@
}

/// The duels of the pairs from (`i`, `j`) on, one for each patch.
pub open spec fn duels_from(
    u: Mods,
    c: ConflictView,
    label: Seq<char>,
    i: int,
    j: int,
    duels: Seq<DuelView>,
    plan: PlanView,
) -> (Seq<DuelView>, PlanView)
    decreases u.len() - i, u.len() - j,
{
    if i < 0 || i >= u.len() {
        (duels, plan)
    } else if j >= u.len() {
        duels_from(u, c, label, i + 1, i + 2, duels, plan)
    } else {
        match duel(u[i], u[j], c) {
            Some(d) => if names_patch(duels, d.patch) {
                duels_from(u, c, label, i, j + 1, duels, plan)
            } else {
                duels_from(
                    u,
                    c,
                    label,
                    i,
                    j + 1,
                    duels.push(d),
                    traced(plan, duel_line(label, d)),
                )
            },
            None => duels_from(u, c, label, i, j + 1, duels, plan),
        }
    }
}

/// A patch that loads before its base moves past it.
pub open spec fn duel_one(w: Work, moved: bool, d: DuelView, b: Bench) -> (Work, bool) {
    match (slot_of(b, w.u, d.patch), slot_of(b, w.u, d.base), mod_from(w.u, d.patch, 0)) {
        (Some(ps), Some(bs), Some(pi)) => if ps < bs {
            (
                Work {
                    u: moved_past(b.free, w.u, pi, bs),
                    plan: listed_once(
                        bumped(
                            w.plan,
                            "REOR  "@ + d.patch + " loads after "@ + d.base + " (conflict-proven: "@
                                + decimal(d.shared as nat) + " shared files)"@,
                        ),
                        ChangeView {
                            kind: ChangeKind::Reorder,
                            name: d.patch,
                            detail: "conflict-proven: shares "@ + decimal(d.shared as nat)
                                + " files with "@ + d.base + ", patch must win"@,
                            section: b.label,
                        },
                    ),
                },
                true,
            )
        } else {
            (w, moved)
        },
        _ => (w, moved),
    }
}

pub open spec fn duels_first(w: Work, duels: Seq<DuelView>, b: Bench, n: int) -> (Work, bool)
    decreases n,
{
    if n <= 0 {
        (w, false)
    } else {
        let (v, moved) = duels_first(w, duels, b, n - 1);
        duel_one(v, moved, duels[n - 1], b)
    }
}

pub open spec fn duel_sweeps(w: Work, duels: Seq<DuelView>, b: Bench, fuel: nat) -> Work
    decreases fuel,
{
    if fuel == 0 {
        w
    } else {
        let (v, moved) = duels_first(w, duels, b, duels.len() as int);
        if moved {
            duel_sweeps(v, duels, b, (fuel - 1) as nat)
        } else {
            v
        }
    }
}

/// What the constraints draw on.
pub struct Facts {
    pub rules: RulesView,
    pub content: Edges,
    pub loot: Edges,
    pub census: Option<CensusView>,
    pub conflicts: Option<ConflictView>,
}

pub open spec fn by_rules(w: Work, f: Facts, b: Bench) -> Work {
    let r = f.rules;
    let a = promote_first(w, r.promote, b.label, r.promote.len() as int);
    let c = sink_first(a, r.sink, b.label, r.sink.len() as int);
    let d = sink_any_first(c, r.sink_any, b.label, r.sink_any.len() as int);
    float_first(d, r.float, b.label, r.float.len() as int)
}

pub open spec fn by_conflicts(w: Work, f: Facts, b: Bench) -> Work {
    match f.conflicts {
        Some(c) => {
            let (duels, plan) = duels_from(w.u, c, b.label, 0, 1, Seq::empty(), w.plan);
            duel_sweeps(Work { plan, ..w }, duels, b, 6)
        },
        None => w,
    }
}

/// One round of all constraints.
pub open spec fn round(w: Work, f: Facts, b: Bench) -> Work {
    let a = by_rules(w, f, b);
    let c = if f.content.len() > 0 || f.loot.len() > 0 {
        parents_sweeps(a, b, f.content, f.loot, 6)
    } else {
        a
    };
    let d = match f.census {
        Some(census) => esm_steps(c, b, census, 6),
        None => c,
    };
    by_conflicts(d, f, b)
}

/// Rounds until the order no longer changes, six at most.
pub open spec fn rounds(w: Work, f: Facts, b: Bench, fuel: nat) -> Work
    decreases fuel,
{
    if fuel == 0 {
        w
    } else {
        let v = round(w, f, b);
        if names(v.u) == names(w.u) {
            v
        } else {
            rounds(v, f, b, (fuel - 1) as nat)
        }
    }
}

pub proof fn lemma_mod_from(u: Mods, name: Seq<char>, i: int)
    requires
        0 <= i,
    ensures
        match mod_from(u, name, i) {
            Some(k) => i <= k < u.len() && u[k].name == name && forall|j: int|
                i <= j < k ==> (#[trigger] u[j]).name != name,
            None => forall|j: int| i <= j < u.len() ==> (#[trigger] u[j]).name != name,
        },
    decreases u.len() - i,
{
    if i < u.len() && u[i].name != name {
        lemma_mod_from(u, name, i + 1);
    }
}

fn show_at(label: &str, name: &str, rank: usize, verdict: &str) -> (r: String)
    ensures
        r@ == at_text(label@, name@, rank as int) + verdict@,
{
    let mut r = text::cat3("  [", label, "] ");
    r.append(name);
    r.append("@rank ");
    let n = text::dec(rank as u128);
    r.append(n.as_str());
    r.append(": ");
    r.append(verdict);
    r
}

fn show_slots(line: &mut String, from: usize, past: usize)
    ensures
        final(line)@ == old(line)@ + slot_text(from, past),
{
    let a = text::dec(from as u128);
    let b = text::dec(past as u128);
    let mut t = text::cat3(" (slot ", a.as_str(), " -> past ");
    t.append(b.as_str());
    t.append(")");
    line.append(t.as_str());
}

fn promote(u: &mut Vec<ModEntry>, plan: &mut Plan, win: &str, lose: &str, label: &str)
    requires
        counted(old(plan).deep_view()),
    ensures
        (Work { u: final(u).deep_view(), plan: final(plan).deep_view() }) == promote_one(
            Work { u: old(u).deep_view(), plan: old(plan).deep_view() },
            (win@, lose@),
            label@,
        ),
        counted(final(plan).deep_view()),
        final(u).len() == old(u).len(),
{
    let wi = match find_mod(u, win) {
        Some(i) => i,
        None => {
            return ;
        },
    };
    let li = match find_mod(u, lose) {
        Some(i) => i,
        None => {
            return ;
        },
    };
    let a = text::dec(wi as u128);
    let b = text::dec(li as u128);
    let mut line = text::cat3("  [", label, "] ");
    line.append(win);
    line.append("@");
    line.append(a.as_str());
    line.append(" vs ");
    line.append(lose);
    line.append("@");
    line.append(b.as_str());
    line.append(" (load order, later wins): ");
    line.append(
        if wi < li {
            "PROMOTE winner"
        } else {
            "already correct"
        },
    );
    plan.trace_line(line);
    if wi < li {
        let ghost start = u.deep_view();
        let e = list::take_at(u, wi);
        proof {
            let rest = u.deep_view();
            lemma_mod_from(start, lose@, 0);
            lemma_mod_from(rest, lose@, 0);
            assert(rest[li - 1] == start[li as int]);
        }
        if let Some(nl) = find_mod(u, lose) {
            list::put_at(u, nl + 1, e);
            plan.count_change(text::cat(text::cat3("PROM  ", win, " loads after ").as_str(), lose));
            plan.list_change_once(
                Change {
                    kind: ChangeKind::Promote,
                    name: win.to_string(),
                    detail: text::cat("loads after ", lose),
                    section: label.to_string(),
                },
            );
        }
    }
}

fn sink(u: &mut Vec<ModEntry>, plan: &mut Plan, name: &str, sec: &str, label: &str)
    requires
        counted(old(plan).deep_view()),
    ensures
        (Work { u: final(u).deep_view(), plan: final(plan).deep_view() }) == sink_one(
            Work { u: old(u).deep_view(), plan: old(plan).deep_view() },
            (name@, sec@),
            label@,
        ),
        counted(final(plan).deep_view()),
        final(u).len() == old(u).len(),
{
    if !text::same(label, sec) {
        return ;
    }
    let i = match find_mod(u, name) {
        Some(i) => i,
        None => {
            return ;
        },
    };
    plan.trace_line(
        show_at(
            sec,
            name,
            i,
            if i == 0 {
                "already sunk"
            } else {
                "SINK to section top (ui)"
            },
        ),
    );
    if i != 0 {
        let e = list::take_at(u, i);
        list::put_at(u, 0, e);
        let mut line = text::cat3("SINK  ", name, " to top of [");
        line.append(sec);
        line.append("] (loses in-section)");
        plan.count_change(line);
        plan.list_change_once(
            Change {
                kind: ChangeKind::Sink,
                name: name.to_string(),
                detail: text::cat3("top of [", sec, "] - loses to everything below it"),
                section: sec.to_string(),
            },
        );
    }
}

fn sink_any(u: &mut Vec<ModEntry>, plan: &mut Plan, name: &str, label: &str)
    requires
        counted(old(plan).deep_view()),
    ensures
        (Work { u: final(u).deep_view(), plan: final(plan).deep_view() }) == sink_any_one(
            Work { u: old(u).deep_view(), plan: old(plan).deep_view() },
            name@,
            label@,
        ),
        counted(final(plan).deep_view()),
        final(u).len() == old(u).len(),
{
    let i = match find_mod(u, name) {
        Some(i) => i,
        None => {
            return ;
        },
    };
    plan.trace_line(
        show_at(
            label,
            name,
            i,
            if i == 0 {
                "already sunk"
            } else {
                "SINK (framework, loads early)"
            },
        ),
    );
    if i != 0 {
        let e = list::take_at(u, i);
        list::put_at(u, 0, e);
        let mut line = text::cat3("SINK  ", name, " loads first in [");
        line.append(label);
        line.append("] (framework)");
        plan.count_change(line);
        plan.list_change_once(
            Change {
                kind: ChangeKind::Sink,
                name: name.to_string(),
                detail: text::cat3("top of [", label, "] - framework, loads early"),
                section: label.to_string(),
            },
        );
    }
}

fn float(u: &mut Vec<ModEntry>, plan: &mut Plan, name: &str, sec: &str, label: &str)
    requires
        counted(old(plan).deep_view()),
    ensures
        (Work { u: final(u).deep_view(), plan: final(plan).deep_view() }) == float_one(
            Work { u: old(u).deep_view(), plan: old(plan).deep_view() },
            (name@, sec@),
            label@,
        ),
        counted(final(plan).deep_view()),
        final(u).len() == old(u).len(),
{
    if !text::same(label, sec) {
        return ;
    }
    let i = match find_mod(u, name) {
        Some(i) => i,
        None => {
            return ;
        },
    };
    assert(u.deep_view().len() == u.len());
    let last = i == u.len() - 1;
    plan.trace_line(
        show_at(
            sec,
            name,
            i,
            if last {
                "already floated"
            } else {
                "FLOAT to section bottom (ui)"
            },
        ),
    );
    if !last {
        let e = list::take_at(u, i);
        list::put(u, e);
        let mut line = text::cat3("FLOT  ", name, " to bottom of [");
        line.append(sec);
        line.append("] (wins in-section)");
        plan.count_change(line);
        plan.list_change_once(
            Change {
                kind: ChangeKind::Float,
                name: name.to_string(),
                detail: text::cat3("bottom of [", sec, "] - wins everything in-section"),
                section: sec.to_string(),
            },
        );
    }
}

fn later_of(a: Option<usize>, b: Option<usize>) -> (r: Option<usize>)
    ensures
        r == later(a, b),
{
    match (a, b) {
        (Some(x), Some(y)) => if y > x {
            Some(y)
        } else {
            Some(x)
        },
        (Some(x), None) => Some(x),
        (None, y) => y,
    }
}

/// The inputs of the constraints of a run.
pub struct Inputs<'a> {
    pub rules: &'a Rules,
    pub content: &'a TextMap<Vec<String>>,
    pub loot: &'a TextMap<Vec<String>>,
    pub census: Option<&'a Census>,
    pub conflicts: Option<&'a ConflictIndex>,
}

impl<'a> Inputs<'a> {
    pub open spec fn view(&self) -> Facts {
        Facts {
            rules: self.rules.deep_view(),
            content: self.content.deep_view(),
            loot: self.loot.deep_view(),
            census: self.census.deep_view(),
            conflicts: self.conflicts.deep_view(),
        }
    }
}

impl Table {
    fn latest_of(&self, ps: Option<&Vec<String>>, u: &Vec<ModEntry>) -> (r: Option<usize>)
        ensures
            r == latest_parent(ps.deep_view(), self.view(), u.deep_view()),
    {
        match ps {
            Some(list) => {
                let ghost pv = list.deep_view();
                let mut best: Option<usize> = None;
                let mut i: usize = 0;
                while i < list.len()
                    invariant
                        i <= list.len(),
                        pv == list.deep_view(),
                        best == latest_first(pv, self.view(), u.deep_view(), i as int),
                    decreases list.len() - i,
                {
                    assert(pv[i as int] == list@[i as int]@);
                    best = later_of(best, self.slot_of(u, list[i].as_str()));
                    i = i + 1;
                }
                assert(pv.len() == list.len());
                best
            },
            None => None,
        }
    }

    fn move_after_parents(
        &self,
        u: &mut Vec<ModEntry>,
        plan: &mut Plan,
        ci: usize,
        content: &TextMap<Vec<String>>,
        loot: &TextMap<Vec<String>>,
        moved: bool,
    ) -> (r: bool)
        requires
            ci < old(u).len(),
            counted(old(plan).deep_view()),
        ensures
            (Work { u: final(u).deep_view(), plan: final(plan).deep_view() }, r) == parents_one(
                Work { u: old(u).deep_view(), plan: old(plan).deep_view() },
                moved,
                ci as int,
                self.view(),
                content.deep_view(),
                loot.deep_view(),
            ),
            counted(final(plan).deep_view()),
            final(u).len() == old(u).len(),
    {
        assert(u.deep_view()[ci as int] == u@[ci as int].deep_view());
        let name = u[ci].name.clone();
        let cps = content.get(name.as_str());
        let lps = loot.get(name.as_str());
        match later_of(self.latest_of(cps, u), self.latest_of(lps, u)) {
            Some(latest) => {
                let slot = self.slot_at(ci);
                if slot < latest {
                    self.move_past(u, ci, latest);
                    let mut line = text::cat3("  [", self.label.as_str(), "] ");
                    line.append(name.as_str());
                    line.append(" | ");
                    line.append(
                        if lps.is_some() && cps.is_none() {
                            "loot"
                        } else {
                            "content DAG"
                        },
                    );
                    line.append(": loads after all parents");
                    show_slots(&mut line, slot, latest);
                    plan.trace_line(line);
                    true
                } else {
                    moved
                }
            },
            None => moved,
        }
    }

    fn sweep_parents(
        &self,
        u: &mut Vec<ModEntry>,
        plan: &mut Plan,
        content: &TextMap<Vec<String>>,
        loot: &TextMap<Vec<String>>,
    )
        requires
            counted(old(plan).deep_view()),
        ensures
            (Work { u: final(u).deep_view(), plan: final(plan).deep_view() }) == parents_sweeps(
                Work { u: old(u).deep_view(), plan: old(plan).deep_view() },
                self.view(),
                content.deep_view(),
                loot.deep_view(),
                6,
            ),
            counted(final(plan).deep_view()),
            final(u).len() == old(u).len(),
    {
        let ghost b = self.view();
        let ghost cv = content.deep_view();
        let ghost lv = loot.deep_view();
        let ghost goal = parents_sweeps(
            Work { u: u.deep_view(), plan: plan.deep_view() },
            b,
            cv,
            lv,
            6,
        );
        let mut fuel: usize = 6;
        loop
            invariant
                b == self.view(),
                cv == content.deep_view(),
                lv == loot.deep_view(),
                counted(plan.deep_view()),
                u.len() == old(u).len(),
                goal == parents_sweeps(
                    Work { u: old(u).deep_view(), plan: old(plan).deep_view() },
                    b,
                    cv,
                    lv,
                    6,
                ),
                parents_sweeps(
                    Work { u: u.deep_view(), plan: plan.deep_view() },
                    b,
                    cv,
                    lv,
                    fuel as nat,
                ) == goal,
            decreases fuel,
        {
            if fuel == 0 {
                return ;
            }
            let ghost start = Work { u: u.deep_view(), plan: plan.deep_view() };
            let n: usize = u.len();
            let mut moved = false;
            let mut ci: usize = 0;
            while ci < n
                invariant
                    ci <= n,
                    u.len() == n,
                    b == self.view(),
                    cv == content.deep_view(),
                    lv == loot.deep_view(),
                    counted(plan.deep_view()),
                    (Work { u: u.deep_view(), plan: plan.deep_view() }, moved) == parents_first(
                        start,
                        b,
                        cv,
                        lv,
                        ci as int,
                    ),
                decreases n - ci,
            {
                moved = self.move_after_parents(u, plan, ci, content, loot, moved);
                ci = ci + 1;
            }
            assert(start.u.len() == n);
            if !moved {
                return ;
            }
            fuel = fuel - 1;
        }
    }

    fn holds_esm(&self, u: &Vec<ModEntry>, census: &Census, slot: usize) -> (r: bool)
        requires
            slot < self.owner.len(),
        ensures
            r == esm_at(self.view(), u.deep_view(), census.deep_view(), slot as int),
    {
        assert(self.view().owner[slot as int] == self.owner@[slot as int].deep_view());
        match &self.owner[slot] {
            Some(m) => masters::is_esm_entry(m.name.as_str(), Some(census)),
            None => {
                let mut r: usize = 0;
                while r < self.free.len() && self.free[r] != slot
                    invariant
                        r <= self.free.len(),
                        rank_from(self.free@, slot, r as int) == rank_from(self.free@, slot, 0),
                    decreases self.free.len() - r,
                {
                    r = r + 1;
                }
                assert(u.deep_view().len() == u.len());
                if r < self.free.len() && r < u.len() {
                    assert(u.deep_view()[r as int] == u@[r as int].deep_view());
                    masters::is_esm_entry(u[r].name.as_str(), Some(census))
                } else {
                    false
                }
            },
        }
    }

    fn last_esm(&self, u: &Vec<ModEntry>, census: &Census) -> (r: Option<usize>)
        ensures
            r == last_esm_first(
                self.view(),
                u.deep_view(),
                census.deep_view(),
                self.view().owner.len() as int,
            ),
    {
        let ghost b = self.view();
        let mut n: usize = self.owner.len();
        assert(b.owner.len() == n);
        while n > 0
            invariant
                n <= self.owner.len(),
                b == self.view(),
                last_esm_first(b, u.deep_view(), census.deep_view(), n as int) == last_esm_first(
                    b,
                    u.deep_view(),
                    census.deep_view(),
                    b.owner.len() as int,
                ),
            decreases n,
        {
            if self.holds_esm(u, census, n - 1) {
                return Some(n - 1);
            }
            n = n - 1;
        }
        None
    }

    fn find_early(&self, u: &Vec<ModEntry>, census: &Census, slot: usize) -> (r: Option<usize>)
        ensures
            match r {
                Some(i) => early_from(
                    self.view(),
                    u.deep_view(),
                    census.deep_view(),
                    slot,
                    0,
                ) == Some(i as int) && i < u.len(),
                None => early_from(
                    self.view(),
                    u.deep_view(),
                    census.deep_view(),
                    slot,
                    0,
                ) is None,
            },
    {
        let ghost uv = u.deep_view();
        let ghost cv = census.deep_view();
        let mut i: usize = 0;
        while i < u.len()
            invariant
                i <= u.len(),
                uv == u.deep_view(),
                cv == census.deep_view(),
                early_from(self.view(), uv, cv, slot, i as int) == early_from(
                    self.view(),
                    uv,
                    cv,
                    slot,
                    0,
                ),
            decreases u.len() - i,
        {
            assert(uv[i as int] == u@[i as int].deep_view());
            if !masters::is_esm_entry(u[i].name.as_str(), Some(census)) && self.slot_at(i) < slot {
                return Some(i);
            }
            i = i + 1;
        }
        None
    }

    fn step_esm(&self, u: &mut Vec<ModEntry>, plan: &mut Plan, census: &Census)
        requires
            counted(old(plan).deep_view()),
        ensures
            (Work { u: final(u).deep_view(), plan: final(plan).deep_view() }) == esm_steps(
                Work { u: old(u).deep_view(), plan: old(plan).deep_view() },
                self.view(),
                census.deep_view(),
                6,
            ),
            counted(final(plan).deep_view()),
            final(u).len() == old(u).len(),
    {
        let ghost b = self.view();
        let ghost cv = census.deep_view();
        let mut fuel: usize = 6;
        loop
            invariant
                b == self.view(),
                cv == census.deep_view(),
                counted(plan.deep_view()),
                u.len() == old(u).len(),
                esm_steps(
                    Work { u: u.deep_view(), plan: plan.deep_view() },
                    b,
                    cv,
                    fuel as nat,
                ) == esm_steps(
                    Work { u: old(u).deep_view(), plan: old(plan).deep_view() },
                    b,
                    cv,
                    6,
                ),
            decreases fuel,
        {
            if fuel == 0 {
                return ;
            }
            let latest = match self.last_esm(u, census) {
                Some(s) => s,
                None => {
                    return ;
                },
            };
            let ci = match self.find_early(u, census, latest) {
                Some(i) => i,
                None => {
                    return ;
                },
            };
            assert(u.deep_view()[ci as int] == u@[ci as int].deep_view());
            let name = u[ci].name.clone();
            let slot = self.slot_at(ci);
            self.move_past(u, ci, latest);
            let mut line = text::cat3("  [", self.label.as_str(), "] ");
            line.append(name.as_str());
            line.append(" | ESM DAG: non-ESM loads after ESM");
            show_slots(&mut line, slot, latest);
            plan.trace_line(line);
            fuel = fuel - 1;
        }
    }

    fn settle_duel(&self, u: &mut Vec<ModEntry>, plan: &mut Plan, d: &Duel, moved: bool) -> (r: bool)
        requires
            counted(old(plan).deep_view()),
        ensures
            (Work { u: final(u).deep_view(), plan: final(plan).deep_view() }, r) == duel_one(
                Work { u: old(u).deep_view(), plan: old(plan).deep_view() },
                moved,
                d.deep_view(),
                self.view(),
            ),
            counted(final(plan).deep_view()),
            final(u).len() == old(u).len(),
    {
        let ps = self.slot_of(u, d.patch.as_str());
        let bs = self.slot_of(u, d.base.as_str());
        let pi = find_mod(u, d.patch.as_str());
        match (ps, bs, pi) {
            (Some(ps), Some(bs), Some(pi)) => {
                if ps < bs {
                    self.move_past(u, pi, bs);
                    let n = text::dec(d.shared as u128);
                    let mut line = text::cat3("REOR  ", d.patch.as_str(), " loads after ");
                    line.append(d.base.as_str());
                    line.append(" (conflict-proven: ");
                    line.append(n.as_str());
                    line.append(" shared files)");
                    plan.count_change(line);
                    let mut detail = text::cat3(
                        "conflict-proven: shares ",
                        n.as_str(),
                        " files with ",
                    );
                    detail.append(d.base.as_str());
                    detail.append(", patch must win");
                    plan.list_change_once(
                        Change {
                            kind: ChangeKind::Reorder,
                            name: d.patch.clone(),
                            detail,
                            section: self.label.clone(),
                        },
                    );
                    true
                } else {
                    moved
                }
            },
            _ => moved,
        }
    }

    fn sweep_duels(&self, u: &mut Vec<ModEntry>, plan: &mut Plan, duels: &Vec<Duel>)
        requires
            counted(old(plan).deep_view()),
        ensures
            (Work { u: final(u).deep_view(), plan: final(plan).deep_view() }) == duel_sweeps(
                Work { u: old(u).deep_view(), plan: old(plan).deep_view() },
                duels.deep_view(),
                self.view(),
                6,
            ),
            counted(final(plan).deep_view()),
            final(u).len() == old(u).len(),
    {
        let ghost b = self.view();
        let ghost dv = duels.deep_view();
        let mut fuel: usize = 6;
        loop
            invariant
                b == self.view(),
                dv == duels.deep_view(),
                counted(plan.deep_view()),
                u.len() == old(u).len(),
                duel_sweeps(
                    Work { u: u.deep_view(), plan: plan.deep_view() },
                    dv,
                    b,
                    fuel as nat,
                ) == duel_sweeps(
                    Work { u: old(u).deep_view(), plan: old(plan).deep_view() },
                    dv,
                    b,
                    6,
                ),
            decreases fuel,
        {
            if fuel == 0 {
                return ;
            }
            let ghost start = Work { u: u.deep_view(), plan: plan.deep_view() };
            let ghost len = u.len();
            let mut moved = false;
            let mut k: usize = 0;
            while k < duels.len()
                invariant
                    k <= duels.len(),
                    b == self.view(),
                    dv == duels.deep_view(),
                    counted(plan.deep_view()),
                    u.len() == len,
                    (Work { u: u.deep_view(), plan: plan.deep_view() }, moved) == duels_first(
                        start,
                        dv,
                        b,
                        k as int,
                    ),
                decreases duels.len() - k,
            {
                assert(dv[k as int] == duels@[k as int].deep_view());
                moved = self.settle_duel(u, plan, &duels[k], moved);
                k = k + 1;
            }
            assert(dv.len() == duels.len());
            if !moved {
                return ;
            }
            fuel = fuel - 1;
        }
    }
}

fn duel_of(a: &ModEntry, b: &ModEntry, c: &ConflictIndex) -> (r: Option<Duel>)
    ensures
        r.deep_view() == duel(a.deep_view(), b.deep_view(), c.deep_view()),
{
    if !suggest::enabled(a) || !suggest::enabled(b) {
        return None;
    }
    match c.shared(a.name.as_str(), b.name.as_str()) {
        Some((_, shared)) => {
            let pa = matching::patch_flavored(a.lower.as_str());
            let pb = matching::patch_flavored(b.lower.as_str());
            if shared < MIN_SHARED || pa == pb {
                None
            } else if pa {
                Some(Duel { patch: a.name.clone(), base: b.name.clone(), shared })
            } else {
                Some(Duel { patch: b.name.clone(), base: a.name.clone(), shared })
            }
        },
        None => None,
    }
}

fn has_patch(duels: &Vec<Duel>, name: &str) -> (r: bool)
    ensures
        r == names_patch(duels.deep_view(), name@),
{
    let key = name.to_string();
    let ghost dv = duels.deep_view();
    let mut i: usize = 0;
    while i < duels.len()
        invariant
            i <= duels.len(),
            key@ == name@,
            dv == duels.deep_view(),
            forall|j: int| 0 <= j < i ==> (#[trigger] dv[j]).patch != name@,
        decreases duels.len() - i,
    {
        assert(dv[i as int] == duels@[i as int].deep_view());
        if duels[i].patch == key {
            return true;
        }
        i = i + 1;
    }
    false
}

fn find_duels(u: &Vec<ModEntry>, c: &ConflictIndex, label: &str, plan: &mut Plan) -> (r: Vec<Duel>)
    requires
        counted(old(plan).deep_view()),
    ensures
        (r.deep_view(), final(plan).deep_view()) == duels_from(
            u.deep_view(),
            c.deep_view(),
            label@,
            0,
            1,
            Seq::empty(),
            old(plan).deep_view(),
        ),
        counted(final(plan).deep_view()),
{
    let ghost uv = u.deep_view();
    let ghost cv = c.deep_view();
    let ghost goal = duels_from(uv, cv, label@, 0, 1, Seq::empty(), plan.deep_view());
    let mut duels: Vec<Duel> = list::none();
    let mut i: usize = 0;
    while i < u.len()
        invariant
            i <= u.len(),
            uv == u.deep_view(),
            cv == c.deep_view(),
            counted(plan.deep_view()),
            duels_from(
                uv,
                cv,
                label@,
                i as int,
                i + 1,
                duels.deep_view(),
                plan.deep_view(),
            ) == goal,
        decreases u.len() - i,
    {
        assert(uv[i as int] == u@[i as int].deep_view());
        assert(uv.len() == u.len());
        let mut j: usize = i + 1;
        while j < u.len()
            invariant
                i < j <= u.len(),
                uv == u.deep_view(),
                uv.len() == u.len(),
                cv == c.deep_view(),
                counted(plan.deep_view()),
                duels_from(
                    uv,
                    cv,
                    label@,
                    i as int,
                    j as int,
                    duels.deep_view(),
                    plan.deep_view(),
                ) == goal,
            decreases u.len() - j,
        {
            assert(uv[i as int] == u@[i as int].deep_view());
            assert(uv[j as int] == u@[j as int].deep_view());
            if let Some(d) = duel_of(&u[i], &u[j], c) {
                if !has_patch(&duels, d.patch.as_str()) {
                    let n = text::dec(d.shared as u128);
                    let mut line = text::cat3("  [", label, "] ");
                    line.append(d.patch.as_str());
                    line.append(" vs ");
                    line.append(d.base.as_str());
                    line.append(": ");
                    line.append(n.as_str());
                    line.append(" shared files -> patch must load after");
                    plan.trace_line(line);
                    list::put(&mut duels, d);
                }
            }
            j = j + 1;
        }
        i = i + 1;
    }
    assert(uv.len() == u.len());
    duels
}

fn apply_rules(u: &mut Vec<ModEntry>, plan: &mut Plan, rules: &Rules, label: &str, f: Ghost<Facts>, b: Ghost<Bench>)
    requires
        counted(old(plan).deep_view()),
        f@.rules == rules.deep_view(),
        b@.label == label@,
    ensures
        (Work { u: final(u).deep_view(), plan: final(plan).deep_view() }) == by_rules(
            Work { u: old(u).deep_view(), plan: old(plan).deep_view() },
            f@,
            b@,
        ),
        counted(final(plan).deep_view()),
        final(u).len() == old(u).len(),
{
    let ghost r = rules.deep_view();
    let ghost len = u.len();
    let ghost w0 = Work { u: u.deep_view(), plan: plan.deep_view() };
    let mut i: usize = 0;
    while i < rules.promote.len()
        invariant
            i <= rules.promote.len(),
            r == rules.deep_view(),
            counted(plan.deep_view()),
            u.len() == len,
            (Work { u: u.deep_view(), plan: plan.deep_view() }) == promote_first(
                w0,
                r.promote,
                label@,
                i as int,
            ),
        decreases rules.promote.len() - i,
    {
        let rule = &rules.promote[i];
        assert(r.promote[i as int] == rule.deep_view());
        promote(u, plan, rule.0.as_str(), rule.1.as_str(), label);
        i = i + 1;
    }
    assert(r.promote.len() == rules.promote.len());
    let ghost w1 = Work { u: u.deep_view(), plan: plan.deep_view() };
    let mut i: usize = 0;
    while i < rules.sink.len()
        invariant
            i <= rules.sink.len(),
            r == rules.deep_view(),
            counted(plan.deep_view()),
            u.len() == len,
            (Work { u: u.deep_view(), plan: plan.deep_view() }) == sink_first(
                w1,
                r.sink,
                label@,
                i as int,
            ),
        decreases rules.sink.len() - i,
    {
        let rule = &rules.sink[i];
        assert(r.sink[i as int] == rule.deep_view());
        sink(u, plan, rule.0.as_str(), rule.1.as_str(), label);
        i = i + 1;
    }
    assert(r.sink.len() == rules.sink.len());
    let ghost w2 = Work { u: u.deep_view(), plan: plan.deep_view() };
    let mut i: usize = 0;
    while i < rules.sink_any.len()
        invariant
            i <= rules.sink_any.len(),
            r == rules.deep_view(),
            counted(plan.deep_view()),
            u.len() == len,
            (Work { u: u.deep_view(), plan: plan.deep_view() }) == sink_any_first(
                w2,
                r.sink_any,
                label@,
                i as int,
            ),
        decreases rules.sink_any.len() - i,
    {
        assert(r.sink_any[i as int] == rules.sink_any@[i as int]@);
        sink_any(u, plan, rules.sink_any[i].as_str(), label);
        i = i + 1;
    }
    assert(r.sink_any.len() == rules.sink_any.len());
    let ghost w3 = Work { u: u.deep_view(), plan: plan.deep_view() };
    let mut i: usize = 0;
    while i < rules.float.len()
        invariant
            i <= rules.float.len(),
            r == rules.deep_view(),
            counted(plan.deep_view()),
            u.len() == len,
            (Work { u: u.deep_view(), plan: plan.deep_view() }) == float_first(
                w3,
                r.float,
                label@,
                i as int,
            ),
        decreases rules.float.len() - i,
    {
        let rule = &rules.float[i];
        assert(r.float[i as int] == rule.deep_view());
        float(u, plan, rule.0.as_str(), rule.1.as_str(), label);
        i = i + 1;
    }
    assert(r.float.len() == rules.float.len());
}

fn do_round(u: &mut Vec<ModEntry>, plan: &mut Plan, t: &Table, f: &Inputs)
    requires
        counted(old(plan).deep_view()),
    ensures
        (Work { u: final(u).deep_view(), plan: final(plan).deep_view() }) == round(
            Work { u: old(u).deep_view(), plan: old(plan).deep_view() },
            f.view(),
            t.view(),
        ),
        counted(final(plan).deep_view()),
        final(u).len() == old(u).len(),
{
    apply_rules(u, plan, f.rules, t.label.as_str(), Ghost(f.view()), Ghost(t.view()));
    if f.content.len() > 0 || f.loot.len() > 0 {
        t.sweep_parents(u, plan, f.content, f.loot);
    }
    if let Some(census) = f.census {
        t.step_esm(u, plan, census);
    }
    if let Some(c) = f.conflicts {
        let duels = find_duels(u, c, t.label.as_str(), plan);
        t.sweep_duels(u, plan, &duels);
    }
}

fn same_names(a: &Vec<ModEntry>, b: &Vec<String>) -> (r: bool)
    ensures
        r == (names(a.deep_view()) == b.deep_view()),
{
    let ghost x = names(a.deep_view());
    let ghost y = b.deep_view();
    if a.len() != b.len() {
        assert(x.len() != y.len());
        return false;
    }
    let mut i: usize = 0;
    while i < a.len()
        invariant
            i <= a.len() == b.len(),
            x == names(a.deep_view()),
            y == b.deep_view(),
            forall|j: int| 0 <= j < i ==> x[j] == y[j],
        decreases a.len() - i,
    {
        assert(x[i as int] == a@[i as int].name@);
        assert(y[i as int] == b@[i as int]@);
        if !(a[i].name == b[i]) {
            return false;
        }
        i = i + 1;
    }
    assert(x =~= y);
    true
}

fn do_rounds(u: &mut Vec<ModEntry>, plan: &mut Plan, t: &Table, f: &Inputs)
    requires
        counted(old(plan).deep_view()),
    ensures
        (Work { u: final(u).deep_view(), plan: final(plan).deep_view() }) == rounds(
            Work { u: old(u).deep_view(), plan: old(plan).deep_view() },
            f.view(),
            t.view(),
            6,
        ),
        counted(final(plan).deep_view()),
{
    let ghost b = t.view();
    let ghost fv = f.view();
    let mut fuel: usize = 6;
    loop
        invariant
            b == t.view(),
            fv == f.view(),
            counted(plan.deep_view()),
            rounds(
                Work { u: u.deep_view(), plan: plan.deep_view() },
                fv,
                b,
                fuel as nat,
            ) == rounds(Work { u: old(u).deep_view(), plan: old(plan).deep_view() }, fv, b, 6),
        decreases fuel,
    {
        if fuel == 0 {
            return ;
        }
        let before = modlist::mod_names(u);
        do_round(u, plan, t, f);
        if same_names(u, &before) {
            return ;
        }
        fuel = fuel - 1;
    }
}

// ---- putting a section together ----

/// The mods in their slots from `slot` on: pinned ones in theirs, the loose ones from
/// rank `k` on in the gaps, and any that are left behind.
pub open spec fn filled(
    owner: Seq<Option<EntryView>>,
    u: Mods,
    slot: int,
    k: int,
    done: Mods,
) -> Mods
    decreases owner.len() - slot,
{
    if slot < 0 || slot >= owner.len() {
        done + u.skip(k)
    } else {
        match owner[slot] {
            Some(m) => filled(owner, u, slot + 1, k, done.push(m)),
            None => if k < u.len() {
                filled(owner, u, slot + 1, k + 1, done.push(u[k]))
            } else {
                filled(owner, u, slot + 1, k, done)
            },
        }
    }
}

/// The place from the other end of `n`.
pub open spec fn from_end(n: int, i: int) -> int {
    if i < n {
        n - 1 - i
    } else {
        0
    }
}

pub struct Report {
    pub plan: PlanView,
    pub begun: bool,
}

pub open spec fn parent_text(snapshot: Mods, parents: Seq<Option<usize>>, load: int) -> Seq<char> {
    match parent_at(parents, load) {
        Some(p) => if p < snapshot.len() {
            snapshot[snapshot.len() - 1 - p].name
        } else {
            "<none>"@
        },
        None => "<none>"@,
    }
}

/// A mod whose place in the file changed is reported, with its parent and depth.
pub open spec fn report_one(
    r: Report,
    label: Seq<char>,
    snapshot: Mods,
    m: EntryView,
    at: int,
    parents: Seq<Option<usize>>,
) -> Report {
    match mod_from(snapshot, m.name, 0) {
        Some(old_at) => if old_at == at {
            r
        } else {
            let n = snapshot.len() as int;
            let a = listed(
                bumped(r.plan, "REOR  "@ + m.name + "   ["@ + label + "]"@),
                ChangeView {
                    kind: ChangeKind::Reorder,
                    name: m.name,
                    detail: "within ["@ + label + "]"@,
                    section: label,
                },
            );
            let b = if r.begun {
                a
            } else {
                traced(a, "\n--- constraint placement ["@ + label + "] ---"@)
            };
            let load = from_end(n, old_at);
            Report {
                plan: traced(
                    b,
                    "  "@ + m.name + " | parent "@ + parent_text(snapshot, parents, load)
                        + " | depth "@ + decimal(lineage(parents, load as usize, 0).0)
                        + " | load index "@ + decimal(load as nat) + " -> "@ + decimal(
                        from_end(n, at) as nat,
                    ) + " (loads later = wins)"@,
                ),
                begun: true,
            }
        },
        None => r,
    }
}

pub open spec fn report_first(
    plan: PlanView,
    label: Seq<char>,
    snapshot: Mods,
    file: Mods,
    parents: Seq<Option<usize>>,
    n: int,
) -> Report
    decreases n,
{
    if n <= 0 {
        Report { plan, begun: false }
    } else {
        report_one(
            report_first(plan, label, snapshot, file, parents, n - 1),
            label,
            snapshot,
            file[n - 1],
            n - 1,
            parents,
        )
    }
}

/// The mods of a section in their final file order, and the plan with it.
pub open spec fn arranged(
    label: Seq<char>,
    mods: Mods,
    f: Facts,
    known: Known,
    kw: KeywordsView,
    pins: Seq<Seq<char>>,
    solo: bool,
    plan: PlanView,
) -> (Mods, PlanView) {
    if mods.len() == 0 {
        (mods, plan)
    } else {
        let work = mods.reverse();
        let parents = parents_of(work, f.content, known, kw);
        let grouped = if solo {
            work
        } else {
            by_family(work, parents)
        };
        let s = slots_first(grouped, name_places(work), pins, grouped.len() as int);
        let w = rounds(Work { u: s.loose, plan }, f, bench(label, s.owner), 6);
        let file = filled(s.owner, w.u, 0, 0, Seq::empty()).reverse();
        (file, report_first(w.plan, label, mods, file, parents, file.len() as int).plan)
    }
}

fn reversed(v: &Vec<ModEntry>) -> (r: Vec<ModEntry>)
    ensures
        r.deep_view() == v.deep_view().reverse(),
{
    let ghost s = v.deep_view();
    let mut out: Vec<ModEntry> = list::none();
    let mut i: usize = v.len();
    while i > 0
        invariant
            i <= v.len(),
            s == v.deep_view(),
            out.deep_view() == s.reverse().take(v.len() - i),
        decreases i,
    {
        i = i - 1;
        assert(s[i as int] == v@[i as int].deep_view());
        list::put(&mut out, v[i].clone());
        assert(out.deep_view() =~= s.reverse().take(v.len() - i));
    }
    assert(s.reverse().take(v.len() as int) =~= s.reverse());
    out
}

fn fill(t: &Table, u: &Vec<ModEntry>) -> (r: Vec<ModEntry>)
    ensures
        r.deep_view() == filled(t.view().owner, u.deep_view(), 0, 0, Seq::empty()),
{
    let ghost ov = t.view().owner;
    let ghost uv = u.deep_view();
    let ghost goal = filled(ov, uv, 0, 0, Seq::empty());
    let mut out: Vec<ModEntry> = list::none();
    let mut slot: usize = 0;
    let mut k: usize = 0;
    while slot < t.owner.len()
        invariant
            slot <= t.owner.len(),
            k <= u.len(),
            ov == t.view().owner,
            uv == u.deep_view(),
            filled(ov, uv, slot as int, k as int, out.deep_view()) == goal,
        decreases t.owner.len() - slot,
    {
        assert(ov[slot as int] == t.owner@[slot as int].deep_view());
        match &t.owner[slot] {
            Some(m) => list::put(&mut out, m.clone()),
            None => {
                if k < u.len() {
                    assert(uv[k as int] == u@[k as int].deep_view());
                    list::put(&mut out, u[k].clone());
                    k = k + 1;
                }
            },
        }
        slot = slot + 1;
    }
    assert(ov.len() == t.owner.len());
    let ghost done = out.deep_view();
    let ghost from = k as int;
    assert(done + uv.subrange(from, from) =~= done);
    while k < u.len()
        invariant
            0 <= from <= k <= u.len(),
            uv == u.deep_view(),
            out.deep_view() == done + uv.subrange(from, k as int),
        decreases u.len() - k,
    {
        assert(uv[k as int] == u@[k as int].deep_view());
        list::put(&mut out, u[k].clone());
        k = k + 1;
        assert(out.deep_view() =~= done + uv.subrange(from, k as int));
    }
    assert(uv.subrange(from, k as int) =~= uv.skip(from));
    out
}

fn report(plan: &mut Plan, label: &str, snapshot: &Vec<ModEntry>, file: &Vec<ModEntry>, parents: &Vec<Option<usize>>)
    requires
        counted(old(plan).deep_view()),
    ensures
        final(plan).deep_view() == report_first(
            old(plan).deep_view(),
            label@,
            snapshot.deep_view(),
            file.deep_view(),
            parents@,
            file.len() as int,
        ).plan,
        counted(final(plan).deep_view()),
{
    let ghost start = plan.deep_view();
    let ghost sv = snapshot.deep_view();
    let ghost fv = file.deep_view();
    let n: usize = snapshot.len();
    let mut begun = false;
    let mut at: usize = 0;
    while at < file.len()
        invariant
            at <= file.len(),
            n == snapshot.len() == sv.len(),
            sv == snapshot.deep_view(),
            fv == file.deep_view(),
            counted(plan.deep_view()),
            (Report { plan: plan.deep_view(), begun }) == report_first(
                start,
                label@,
                sv,
                fv,
                parents@,
                at as int,
            ),
        decreases file.len() - at,
    {
        let m = &file[at];
        assert(fv[at as int] == m.deep_view());
        if let Some(old_at) = find_mod(snapshot, m.name.as_str()) {
            if old_at != at {
                let name = m.name.as_str();
                let mut line = text::cat3("REOR  ", name, "   [");
                line.append(label);
                line.append("]");
                plan.count_change(line);
                plan.list_change(
                    Change {
                        kind: ChangeKind::Reorder,
                        name: m.name.clone(),
                        detail: text::cat3("within [", label, "]"),
                        section: label.to_string(),
                    },
                );
                if !begun {
                    plan.trace_line(text::cat3("\n--- constraint placement [", label, "] ---"));
                }
                begun = true;
                let load: usize = n - 1 - old_at;
                let new_load: usize = if at < n {
                    n - 1 - at
                } else {
                    0
                };
                let parent = if load < parents.len() {
                    parents[load]
                } else {
                    None
                };
                let parent_name = match parent {
                    Some(p) => if p < n {
                        assert(sv[n - 1 - p] == snapshot@[n - 1 - p].deep_view());
                        snapshot[n - 1 - p].name.clone()
                    } else {
                        "<none>".to_string()
                    },
                    None => "<none>".to_string(),
                };
                let (depth, _) = trace_lineage(parents, load);
                let d = text::dec(depth);
                let a = text::dec(load as u128);
                let b = text::dec(new_load as u128);
                let mut line = text::cat3("  ", name, " | parent ");
                line.append(parent_name.as_str());
                line.append(" | depth ");
                line.append(d.as_str());
                line.append(" | load index ");
                line.append(a.as_str());
                line.append(" -> ");
                line.append(b.as_str());
                line.append(" (loads later = wins)");
                plan.trace_line(line);
            }
        }
        at = at + 1;
    }
    assert(fv.len() == file.len());
}

/// Arranges the mods of one section.
pub fn arrange(
    label: &str,
    mods: &Vec<ModEntry>,
    f: &Inputs,
    known: &TextMap<String>,
    kw: &Keywords,
    pins: &Vec<String>,
    solo: bool,
    plan: &mut Plan,
) -> (r: Vec<ModEntry>)
    requires
        counted(old(plan).deep_view()),
    ensures
        (r.deep_view(), final(plan).deep_view()) == arranged(
            label@,
            mods.deep_view(),
            f.view(),
            known.deep_view(),
            kw.deep_view(),
            pins.deep_view(),
            solo,
            old(plan).deep_view(),
        ),
        counted(final(plan).deep_view()),
{
    let ghost mv = mods.deep_view();
    assert(mv.len() == mods.len());
    let work = reversed(mods);
    if mods.len() == 0 {
        assert(work.deep_view() =~= mv);
        return work;
    }
    let ghost wv = work.deep_view();
    assert(wv.len() == work.len());
    let parents = find_parents(&work, f.content, known, kw);
    let load = place_map(&work);
    let grouped = if solo {
        work
    } else {
        group_families(&work, &parents)
    };
    proof {
        lemma_indices_in_range(wv, parents@);
    }
    assert(grouped.deep_view().len() == grouped.len());
    let (t, loose) = set_table(label, grouped, &load, pins);
    let mut u = loose;
    do_rounds(&mut u, plan, &t, f);
    let filled_slots = fill(&t, &u);
    let file = reversed(&filled_slots);
    report(plan, label, mods, &file, &parents);
    assert(file.deep_view().len() == file.len());
    file
}

} // verus!
