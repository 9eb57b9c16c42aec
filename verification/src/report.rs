//! The category report: which categories a list uses, and where they lead.
use vstd::prelude::*;
use crate::categories::Categories;
#[allow(unused_imports)]
use crate::categories::{category_name, CategoriesView};
use crate::decide;
#[allow(unused_imports)]
use crate::decide::{placed, Placed};
use crate::list;
use crate::map::TextMap;
#[allow(unused_imports)]
use crate::map::{found, inserted};
use crate::matching;
use crate::modlist;
use crate::modlist::{Modlist, Section};
#[allow(unused_imports)]
use crate::modlist::SectionView;
#[allow(unused_imports)]
use crate::plan::WhyView;
use crate::rules::Rules;
#[allow(unused_imports)]
use crate::rules::RulesView;
use crate::sort;
#[allow(unused_imports)]
use crate::sort::{sorted, Ranked};
use crate::suggest;
#[allow(unused_imports)]
use crate::suggest::by_category;
use crate::text;
#[allow(unused_imports)]
use crate::text::{decimal, ended};

verus! {

/// A category and the number of its mods.
pub struct CategoryCount {
    pub name: String,
    pub mods: usize,
}

#[verifier::ext_equal]
pub struct CountView {
    pub name: Seq<char>,
    pub mods: usize,
}

impl DeepView for CategoryCount {
    type V = CountView;

    open spec fn deep_view(&self) -> CountView {
        CountView { name: self.name@, mods: self.mods }
    }
}

/// The category with more mods first.
impl Ranked for CategoryCount {
    open spec fn precedes(a: CountView, b: CountView) -> bool {
        a.mods >= b.mods
    }

    proof fn total(a: CountView, b: CountView) {
    }

    proof fn transitive(a: CountView, b: CountView, c: CountView) {
    }

    fn goes_before(&self, other: &CategoryCount) -> (r: bool) {
        self.mods >= other.mods
    }
}

pub open spec fn count_or_zero(n: Option<usize>) -> usize {
    match n {
        Some(n) => n,
        None => 0,
    }
}

/// How often each category occurs among the first `n` mods.
pub open spec fn counts_first(mods: Placed, cats: CategoriesView, n: int) -> Seq<(Seq<char>, usize)>
    decreases n,
{
    if n <= 0 {
        Seq::empty()
    } else {
        let before = counts_first(mods, cats, n - 1);
        match category_name(cats, mods[n - 1].1.name) {
            Some(c) => inserted(before, c, (count_or_zero(found(before, c)) + 1) as usize),
            None => before,
        }
    }
}

/// How many of the first `n` mods have no category.
pub open spec fn bare_first(mods: Placed, cats: CategoriesView, n: int) -> nat
    decreases n,
{
    if n <= 0 {
        0
    } else {
        bare_first(mods, cats, n - 1) + (if category_name(cats, mods[n - 1].1.name) is None {
            1nat
        } else {
            0
        })
    }
}

pub open spec fn rows_of(counts: Seq<(Seq<char>, usize)>) -> Seq<CountView> {
    Seq::new(counts.len(), |i: int| CountView { name: counts[i].0, mods: counts[i].1 })
}

/// Where a category leads, by the bridge that a sort goes by: the section of a rule, the
/// section of that name, or the one with words in common.
pub open spec fn category_target(name: Seq<char>, sections: Seq<SectionView>, rules: RulesView) -> Seq<
    char,
> {
    match by_category(name, rules, sections) {
        Some((s, WhyView::CategoryRule(_))) => "@ "@ + s,
        Some((s, WhyView::CategoryFuzzy(_, _))) => "~ "@ + s + " (fuzzy)"@,
        Some((s, _)) => s,
        None => "- no matching separator (add an @ rule)"@,
    }
}

/// The text with spaces behind it up to a width.
pub open spec fn left_aligned(s: Seq<char>, width: nat) -> Seq<char>
    decreases width - s.len(),
{
    if s.len() >= width {
        s
    } else {
        left_aligned(s.push(' '), width)
    }
}

/// The text with spaces in front of it up to a width.
pub open spec fn right_aligned(s: Seq<char>, width: nat) -> Seq<char>
    decreases width - s.len(),
{
    if s.len() >= width {
        s
    } else {
        right_aligned(seq![' '] + s, width)
    }
}

pub open spec fn report_line(name: Seq<char>, count: Seq<char>, target: Seq<char>) -> Seq<char> {
    left_aligned(name, 40) + " "@ + right_aligned(count, 5) + "   "@ + target
}

/// The lines of the first `n` categories.
pub open spec fn lines_first(
    rows: Seq<CountView>,
    sections: Seq<SectionView>,
    rules: RulesView,
    n: int,
) -> Seq<Seq<char>>
    decreases n,
{
    if n <= 0 {
        seq![report_line("category"@, "mods"@, "maps to"@)]
    } else {
        let r = rows[n - 1];
        lines_first(rows, sections, rules, n - 1).push(
            report_line(
                r.name,
                decimal(r.mods as nat),
                category_target(r.name, sections, rules),
            ),
        )
    }
}

/// The lines of the report, the most used category first.
pub open spec fn report_lines(sections: Seq<SectionView>, cats: CategoriesView, rules: RulesView) -> Seq<
    Seq<char>,
> {
    let mods = placed(sections);
    let n = mods.len() as int;
    let rows = sorted::<CategoryCount>(rows_of(counts_first(mods, cats, n)));
    lines_first(rows, sections, rules, rows.len() as int).push(
        "\n"@ + decimal(bare_first(mods, cats, n)) + " mod(s) have no category assigned"@,
    )
}

fn align_left(s: &str, width: usize) -> (r: String)
    ensures
        r@ == left_aligned(s@, width as nat),
{
    let mut r = s.to_string();
    let mut n: usize = text::chars_of(s).len();
    while n < width
        invariant
            n == r@.len(),
            left_aligned(r@, width as nat) == left_aligned(s@, width as nat),
        decreases width - n,
    {
        r.push(' ');
        n = n + 1;
    }
    r
}

fn align_right(s: &str, width: usize) -> (r: String)
    ensures
        r@ == right_aligned(s@, width as nat),
{
    let mut r = s.to_string();
    let mut n: usize = text::chars_of(s).len();
    while n < width
        invariant
            n == r@.len(),
            right_aligned(r@, width as nat) == right_aligned(s@, width as nat),
        decreases width - n,
    {
        let t = text::cat(" ", r.as_str());
        proof {
            reveal_strlit(" ");
            assert(" "@ =~= seq![' ']);
        }
        r = t;
        n = n + 1;
    }
    r
}

fn show_line(name: &str, count: &str, target: &str) -> (r: String)
    ensures
        r@ == report_line(name@, count@, target@),
{
    let a = align_left(name, 40);
    let b = align_right(count, 5);
    let mut r = text::cat3(a.as_str(), " ", b.as_str());
    r.append("   ");
    r.append(target);
    r
}

fn find_target(name: &str, sections: &Vec<Section>, rules: &Rules) -> (r: String)
    ensures
        r@ == category_target(name@, sections.deep_view(), rules.deep_view()),
{
    let lower = name.to_lowercase();
    if let Some(s) = suggest::pair_value(&rules.category, lower.as_str()) {
        return text::cat("@ ", s.as_str());
    }
    let slice = sections.as_slice();
    assert(slice.deep_view() =~= sections.deep_view());
    let cn = modlist::norm(name);
    if let Some(i) = matching::find_norm_label(slice, cn.as_str()) {
        assert(sections.deep_view()[i as int] == sections@[i as int].deep_view());
        return sections[i].label.clone();
    }
    if matching::junk_category(lower.as_str()) {
        return "- no matching separator (add an @ rule)".to_string();
    }
    match matching::fuzzy_match_scored(name, slice, true) {
        Some((l, _)) => text::cat3("~ ", l, " (fuzzy)"),
        None => "- no matching separator (add an @ rule)".to_string(),
    }
}

/// Every category that the mods of a list have, with their number and where it leads.
pub fn category_report(ml: &Modlist, cats: &Categories, rules: &Rules) -> (r: String)
    ensures
        r@ == ended(report_lines(ml.deep_view().sections, cats.deep_view(), rules.deep_view())),
{
    let ghost cv = cats.deep_view();
    let ghost rv = rules.deep_view();
    let ghost secs = ml.deep_view().sections;
    let mods = decide::all_placed(&ml.sections);
    let ghost mv = mods.deep_view();
    assert(mv.len() == mods.len());
    let mut counts: TextMap<usize> = TextMap::new();
    let mut bare: usize = 0;
    let mut i: usize = 0;
    while i < mods.len()
        invariant
            i <= mods.len(),
            mv == mods.deep_view(),
            cv == cats.deep_view(),
            bare <= i,
            bare == bare_first(mv, cv, i as int),
            counts.deep_view() == counts_first(mv, cv, i as int),
            forall|k: Seq<char>|
                #![trigger found(counts.deep_view(), k)]
                found(counts.deep_view(), k) is Some ==> found(counts.deep_view(), k)->0 <= i,
        decreases mods.len() - i,
    {
        assert(mv[i as int] == mods@[i as int].deep_view());
        match cats.category_of(mods[i].1.name.as_str()) {
            Some(c) => {
                let n: usize = match counts.get(c.as_str()) {
                    Some(n) => *n,
                    None => 0,
                };
                assert(n <= i) by {
                    assert(found(counts.deep_view(), c@) is Some ==> found(
                        counts.deep_view(),
                        c@,
                    )->0 <= i);
                }
                let ghost before = counts.deep_view();
                let ghost key = c@;
                counts.insert(c, n + 1);
                assert forall|k: Seq<char>|
                    #![trigger found(counts.deep_view(), k)]
                    found(counts.deep_view(), k) is Some implies found(counts.deep_view(), k)->0 <= i
                    + 1 by {
                    crate::map::insert_then_get(before, key, (n + 1) as usize, k);
                    assert(found(before, k) is Some ==> found(before, k)->0 <= i);
                }
            },
            None => {
                bare = bare + 1;
                assert forall|k: Seq<char>|
                    #![trigger found(counts.deep_view(), k)]
                    found(counts.deep_view(), k) is Some implies found(counts.deep_view(), k)->0 <= i
                    + 1 by {}
            },
        }
        i = i + 1;
    }
    let ghost all = counts.deep_view();
    let mut rows: Vec<CategoryCount> = list::none();
    let mut i: usize = 0;
    assert(rows_of(all).take(0) =~= Seq::<CountView>::empty());
    while i < counts.len()
        invariant
            i <= all.len(),
            all == counts.deep_view(),
            rows.deep_view() == rows_of(all).take(i as int),
        decreases all.len() - i,
    {
        let e = counts.at(i);
        list::put(&mut rows, CategoryCount { name: e.0.clone(), mods: e.1 });
        i = i + 1;
        assert(rows.deep_view() =~= rows_of(all).take(i as int));
    }
    assert(rows_of(all).take(i as int) =~= rows_of(all));
    let rows = sort::sort(rows);
    let ghost sv = rows.deep_view();
    let mut out: Vec<String> = list::none();
    list::put(&mut out, show_line("category", "mods", "maps to"));
    let mut i: usize = 0;
    assert(out.deep_view() =~= lines_first(sv, secs, rv, 0));
    while i < rows.len()
        invariant
            i <= rows.len(),
            sv == rows.deep_view(),
            secs == ml.sections.deep_view(),
            rv == rules.deep_view(),
            out.deep_view() == lines_first(sv, secs, rv, i as int),
        decreases rows.len() - i,
    {
        let row = &rows[i];
        assert(sv[i as int] == row.deep_view());
        let target = find_target(row.name.as_str(), &ml.sections, rules);
        let n = text::dec(row.mods as u128);
        list::put(&mut out, show_line(row.name.as_str(), n.as_str(), target.as_str()));
        i = i + 1;
    }
    assert(sv.len() == rows.len());
    let n = text::dec(bare as u128);
    list::put(&mut out, text::cat3("\n", n.as_str(), " mod(s) have no category assigned"));
    text::end_lines(&out)
}

} // verus!
