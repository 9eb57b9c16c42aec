//! The separators load in the order of the list: each group comes after the one before it.
use vstd::prelude::*;
#[allow(unused_imports)]
use crate::keys::squeezed;
#[allow(unused_imports)]
use crate::libloot_adapter::{group_at, group_name, group_place, groups_first, links_first, names_first, names_of, previous_group, GroupNames, SectionGroupView};
#[allow(unused_imports)]
use crate::map::{found, key_from, lemma_key_at, lemma_key_from};
#[allow(unused_imports)]
use crate::readback::lemma_decimal;
#[allow(unused_imports)]
use crate::text::{decimal, is_digit, value_first, zero_padded};

verus! {

// ---- numbers of groups ----

/// A zero in front does not change the value.
proof fn lemma_value_behind_zero(s: Seq<char>, n: int)
    requires
        0 <= n <= s.len(),
    ensures
        value_first(seq!['0'] + s, n + 1) == value_first(s, n),
    decreases n,
{
    let t = seq!['0'] + s;
    if n > 0 {
        lemma_value_behind_zero(s, n - 1);
        assert(t[n] == s[n - 1]);
    } else {
        assert(value_first(t, 0) == Some(0nat));
        assert(t[0] == '0');
        assert(is_digit('0'));
    }
}

proof fn lemma_padded_value(s: Seq<char>, width: nat)
    ensures
        value_first(zero_padded(s, width), zero_padded(s, width).len() as int) == value_first(
            s,
            s.len() as int,
        ),
    decreases width - s.len(),
{
    if s.len() < width {
        let t = seq!['0'] + s;
        lemma_value_behind_zero(s, s.len() as int);
        lemma_padded_value(t, width);
    }
}

/// Groups with different numbers have different names.
pub proof fn group_names_differ(a: nat, b: nat)
    requires
        a != b,
    ensures
        group_name(a) != group_name(b),
{
    let x = zero_padded(decimal(a), 3);
    let y = zero_padded(decimal(b), 3);
    lemma_decimal(a);
    lemma_decimal(b);
    lemma_padded_value(decimal(a), 3);
    lemma_padded_value(decimal(b), 3);
    let front = "modslut-separator-"@;
    if group_name(a) == group_name(b) {
        assert(group_name(a).skip(front.len() as int) =~= x);
        assert(group_name(b).skip(front.len() as int) =~= y);
        assert(x == y);
    }
}

// ---- the chain ----

/// Every label has a key of its own.
pub open spec fn keyed_apart(labels: Seq<Seq<char>>) -> bool {
    &&& forall|i: int| 0 <= i < labels.len() ==> squeezed(#[trigger] labels[i]).len() > 0
    &&& forall|i: int, j: int|
        #![trigger labels[i], labels[j]]
        0 <= i < j < labels.len() ==> squeezed(labels[i]) != squeezed(labels[j])
}

proof fn lemma_names(labels: Seq<Seq<char>>, n: int)
    requires
        keyed_apart(labels),
        0 <= n <= labels.len(),
    ensures
        names_first(labels, n).len() == n,
        forall|i: int|
            0 <= i < n ==> #[trigger] names_first(labels, n)[i] == (
                squeezed(labels[i]),
                group_name(i as nat),
            ),
    decreases n,
{
    if n > 0 {
        lemma_names(labels, n - 1);
        let before = names_first(labels, n - 1);
        let key = squeezed(labels[n - 1]);
        assert(squeezed(labels[n - 1]).len() > 0);
        lemma_key_from(before, key, 0);
        if key_from(before, key, 0) is Some {
            let k = key_from(before, key, 0)->0;
            assert(before[k] == (squeezed(labels[k]), group_name(k as nat)));
            assert(squeezed(labels[k]) != squeezed(labels[n - 1]));
        }
    }
}

proof fn lemma_name_found(labels: Seq<Seq<char>>, i: int)
    requires
        keyed_apart(labels),
        0 <= i < labels.len(),
    ensures
        found(names_of(labels), squeezed(labels[i])) == Some(group_name(i as nat)),
{
    let names = names_of(labels);
    lemma_names(labels, labels.len() as int);
    assert(names[i] == (squeezed(labels[i]), group_name(i as nat)));
    assert forall|h: int| 0 <= h < i implies #[trigger] names[h].0 != squeezed(labels[i]) by {
        assert(names[h] == (squeezed(labels[h]), group_name(h as nat)));
        assert(squeezed(labels[h]) != squeezed(labels[i]));
    }
    lemma_key_at(names, squeezed(labels[i]), 0, i);
}

proof fn lemma_no_group(groups: Seq<SectionGroupView>, name: Seq<char>, i: int)
    requires
        0 <= i,
        forall|j: int| 0 <= j < groups.len() ==> (#[trigger] groups[j]).name != name,
    ensures
        group_place(groups, name, i) is None,
    decreases groups.len() - i,
{
    if i < groups.len() {
        assert(groups[i].name != name);
        lemma_no_group(groups, name, i + 1);
    }
}

proof fn lemma_groups(
    labels: Seq<Seq<char>>,
    links: Seq<(Seq<char>, Seq<char>)>,
    n: int,
)
    requires
        keyed_apart(labels),
        0 <= n <= labels.len(),
    ensures
        groups_first(labels, names_of(labels), links, n).len() == n,
        forall|i: int|
            0 <= i < n ==> #[trigger] groups_first(labels, names_of(labels), links, n)[i]
                == group_at(labels, names_of(labels), links, i, group_name(i as nat)),
    decreases n,
{
    if n > 0 {
        lemma_groups(labels, links, n - 1);
        let names = names_of(labels);
        let before = groups_first(labels, names, links, n - 1);
        lemma_name_found(labels, n - 1);
        let name = group_name((n - 1) as nat);
        assert forall|j: int| 0 <= j < before.len() implies (#[trigger] before[j]).name != name by {
            group_names_differ(j as nat, (n - 1) as nat);
        }
        lemma_no_group(before, name, 0);
    }
}

proof fn lemma_links_keep(
    after: Seq<Seq<char>>,
    names: GroupNames,
    links: Seq<(Seq<char>, Seq<char>)>,
    key: Seq<char>,
    n: int,
)
    ensures
        after.len() <= links_first(after, names, links, key, n).len(),
        links_first(after, names, links, key, n).take(after.len() as int) == after,
    decreases n,
{
    if n > 0 {
        lemma_links_keep(after, names, links, key, n - 1);
        let before = links_first(after, names, links, key, n - 1);
        let now = links_first(after, names, links, key, n);
        assert(now.take(after.len() as int) =~= before.take(after.len() as int));
    } else {
        assert(after.take(after.len() as int) =~= after);
    }
}

/// Each separator is a group of its own, and loads first of all after the one before it.
/// Labels that say the same, or hold neither letters nor digits, have no group of their
/// own.
pub proof fn separators_load_in_order(
    labels: Seq<Seq<char>>,
    links: Seq<(Seq<char>, Seq<char>)>,
    i: int,
)
    requires
        keyed_apart(labels),
        0 <= i < labels.len(),
    ensures
        ({
            let groups = groups_first(labels, names_of(labels), links, labels.len() as int);
            &&& groups.len() == labels.len()
            &&& groups[i].description == labels[i]
            &&& i > 0 ==> groups[i].after.len() > 0 && groups[i].after[0] == groups[i - 1].name
        }),
{
    let names = names_of(labels);
    let groups = groups_first(labels, names, links, labels.len() as int);
    lemma_groups(labels, links, labels.len() as int);
    assert(groups[i] == group_at(labels, names, links, i, group_name(i as nat)));
    if i > 0 {
        assert(groups[i - 1] == group_at(labels, names, links, i - 1, group_name((i - 1) as nat)));
        lemma_name_found(labels, i - 1);
        let start = previous_group(labels, names, i);
        lemma_links_keep(start, names, links, squeezed(labels[i]), links.len() as int);
        assert(groups[i].after.take(1)[0] == start[0]);
    }
}

} // verus!
