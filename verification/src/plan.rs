//! The plan of a sort: the lists as they stand so far, what was changed, and why.
use vstd::prelude::*;
use crate::list;
use crate::modlist::Section;
#[allow(unused_imports)]
use crate::modlist::SectionView;
use crate::text;
#[allow(unused_imports)]
use crate::text::joined;

verus! {

#[derive(Clone, Copy, PartialEq, Eq, Hash, Debug, Structural)]
pub enum ChangeKind {
    Move,
    Reorder,
    Promote,
    Sink,
    Float,
    Warn,
    Rename,
}

/// One proposed change.
pub struct Change {
    pub kind: ChangeKind,
    pub name: String,
    pub detail: String,
    /// The section that the mod sits in.
    pub section: String,
}

#[verifier::ext_equal]
pub struct ChangeView {
    pub kind: ChangeKind,
    pub name: Seq<char>,
    pub detail: Seq<char>,
    pub section: Seq<char>,
}

impl DeepView for Change {
    type V = ChangeView;

    open spec fn deep_view(&self) -> ChangeView {
        ChangeView {
            kind: self.kind,
            name: self.name@,
            detail: self.detail@,
            section: self.section@,
        }
    }
}

impl Clone for Change {
    fn clone(&self) -> (r: Change)
        ensures
            r.deep_view() == self.deep_view(),
    {
        Change {
            kind: self.kind,
            name: self.name.clone(),
            detail: self.detail.clone(),
            section: self.section.clone(),
        }
    }
}

/// Which tier decided where a mod belongs.
pub enum Why {
    /// Generated output, which never moves.
    OutputGuard,
    ExactRule,
    /// A category rule, by the category.
    CategoryRule(String),
    /// A category with the name of a separator.
    CategoryExactMatch(String),
    /// A category that shares words with a separator.
    CategoryFuzzy(String, Vec<String>),
    /// A keyword rule, by the phrase that hit.
    Keyword(String),
    NoMatch,
    /// The mod follows its master.
    FollowParent(String),
}

pub enum WhyView {
    OutputGuard,
    ExactRule,
    CategoryRule(Seq<char>),
    CategoryExactMatch(Seq<char>),
    CategoryFuzzy(Seq<char>, Seq<Seq<char>>),
    Keyword(Seq<char>),
    NoMatch,
    FollowParent(Seq<char>),
}

impl DeepView for Why {
    type V = WhyView;

    open spec fn deep_view(&self) -> WhyView {
        match self {
            Why::OutputGuard => WhyView::OutputGuard,
            Why::ExactRule => WhyView::ExactRule,
            Why::CategoryRule(c) => WhyView::CategoryRule(c@),
            Why::CategoryExactMatch(c) => WhyView::CategoryExactMatch(c@),
            Why::CategoryFuzzy(c, t) => WhyView::CategoryFuzzy(c@, t.deep_view()),
            Why::Keyword(k) => WhyView::Keyword(k@),
            Why::NoMatch => WhyView::NoMatch,
            Why::FollowParent(p) => WhyView::FollowParent(p@),
        }
    }
}

pub open spec fn why_text(w: WhyView) -> Seq<char> {
    match w {
        WhyView::OutputGuard => "guard: generated output, never moves"@,
        WhyView::ExactRule => "T1 exact name rule"@,
        WhyView::CategoryRule(c) => "T2 @category rule ["@ + c + "]"@,
        WhyView::CategoryExactMatch(c) => "T2 category==separator ["@ + c + "]"@,
        WhyView::CategoryFuzzy(c, t) => "T2 category~separator fuzzy ["@ + c + "] shared="@
            + joined(t, "+"@),
        WhyView::Keyword(k) => "T3 keyword ["@ + k + "]"@,
        WhyView::NoMatch => "T4 no rule, category, or keyword matched"@,
        WhyView::FollowParent(p) => "family: follows master ["@ + p + "]"@,
    }
}

impl Why {
    pub fn describe(&self) -> (r: String)
        ensures
            r@ == why_text(self.deep_view()),
    {
        match self {
            Why::OutputGuard => "guard: generated output, never moves".to_string(),
            Why::ExactRule => "T1 exact name rule".to_string(),
            Why::CategoryRule(c) => text::cat3("T2 @category rule [", c.as_str(), "]"),
            Why::CategoryExactMatch(c) => text::cat3("T2 category==separator [", c.as_str(), "]"),
            Why::CategoryFuzzy(c, t) => {
                let mut r = text::cat3("T2 category~separator fuzzy [", c.as_str(), "] shared=");
                let words = text::join(t, "+");
                r.append(words.as_str());
                r
            },
            Why::Keyword(k) => text::cat3("T3 keyword [", k.as_str(), "]"),
            Why::NoMatch => "T4 no rule, category, or keyword matched".to_string(),
            Why::FollowParent(p) => text::cat3("family: follows master [", p.as_str(), "]"),
        }
    }

    /// The tiers that guess from names, without a rule for this mod.
    pub fn is_guess(&self) -> (r: bool)
        ensures
            r == guessed(self.deep_view()),
    {
        match self {
            Why::CategoryExactMatch(_) => true,
            Why::CategoryFuzzy(_, _) => true,
            Why::Keyword(_) => true,
            _ => false,
        }
    }

    /// The tiers that need no rule at all.
    pub fn is_name_guess(&self) -> (r: bool)
        ensures
            r == name_guessed(self.deep_view()),
    {
        match self {
            Why::CategoryExactMatch(_) => true,
            Why::CategoryFuzzy(_, _) => true,
            _ => false,
        }
    }

    /// A rule that names the mod or its category.
    pub fn is_explicit(&self) -> (r: bool)
        ensures
            r == explicit(self.deep_view()),
    {
        match self {
            Why::ExactRule => true,
            Why::CategoryRule(_) => true,
            _ => false,
        }
    }

    pub fn is_anchored(&self) -> (r: bool)
        ensures
            r == anchored(self.deep_view()),
    {
        match self {
            Why::ExactRule => true,
            Why::OutputGuard => true,
            _ => false,
        }
    }
}

impl Clone for Why {
    fn clone(&self) -> (r: Why)
        ensures
            r.deep_view() == self.deep_view(),
    {
        match self {
            Why::OutputGuard => Why::OutputGuard,
            Why::ExactRule => Why::ExactRule,
            Why::CategoryRule(c) => Why::CategoryRule(c.clone()),
            Why::CategoryExactMatch(c) => Why::CategoryExactMatch(c.clone()),
            Why::CategoryFuzzy(c, t) => Why::CategoryFuzzy(c.clone(), list::copy(t)),
            Why::Keyword(k) => Why::Keyword(k.clone()),
            Why::NoMatch => Why::NoMatch,
            Why::FollowParent(p) => Why::FollowParent(p.clone()),
        }
    }
}

pub open spec fn guessed(w: WhyView) -> bool {
    w is CategoryExactMatch || w is CategoryFuzzy || w is Keyword
}

pub open spec fn name_guessed(w: WhyView) -> bool {
    w is CategoryExactMatch || w is CategoryFuzzy
}

pub open spec fn explicit(w: WhyView) -> bool {
    w is ExactRule || w is CategoryRule
}

pub open spec fn anchored(w: WhyView) -> bool {
    w is ExactRule || w is OutputGuard
}

/// The lists as they stand, and the record of what was done.
pub struct Plan {
    pub sections: Vec<Section>,
    pub parking: Vec<String>,
    /// The lines of the plan that is shown.
    pub log: Vec<String>,
    /// The lines of the full diagnostic.
    pub trace: Vec<String>,
    pub out: Vec<Change>,
    /// Kind, name and detail of the changes that are listed once only.
    pub seen: Vec<(ChangeKind, String, String)>,
    pub changes: usize,
}

pub type Seen = Seq<(ChangeKind, Seq<char>, Seq<char>)>;

#[verifier::ext_equal]
pub struct PlanView {
    pub sections: Seq<SectionView>,
    pub parking: Seq<Seq<char>>,
    pub log: Seq<Seq<char>>,
    pub trace: Seq<Seq<char>>,
    pub out: Seq<ChangeView>,
    pub seen: Seen,
    pub changes: nat,
}

impl DeepView for ChangeKind {
    type V = ChangeKind;

    open spec fn deep_view(&self) -> ChangeKind {
        *self
    }
}

impl DeepView for Plan {
    type V = PlanView;

    open spec fn deep_view(&self) -> PlanView {
        PlanView {
            sections: self.sections.deep_view(),
            parking: self.parking.deep_view(),
            log: self.log.deep_view(),
            trace: self.trace.deep_view(),
            out: self.out.deep_view(),
            seen: self.seen.deep_view(),
            changes: self.changes as nat,
        }
    }
}

/// Every change has its line in the log.
pub open spec fn counted(p: PlanView) -> bool {
    p.changes <= p.log.len() <= usize::MAX
}

pub open spec fn traced(p: PlanView, line: Seq<char>) -> PlanView {
    PlanView { trace: p.trace.push(line), ..p }
}

pub open spec fn logged(p: PlanView, line: Seq<char>) -> PlanView {
    PlanView { log: p.log.push(line), ..p }
}

/// One more change, with its line.
pub open spec fn bumped(p: PlanView, line: Seq<char>) -> PlanView {
    PlanView { log: p.log.push(line), changes: p.changes + 1, ..p }
}

pub open spec fn listed(p: PlanView, c: ChangeView) -> PlanView {
    PlanView { out: p.out.push(c), ..p }
}

/// A change that is listed unless an equal one was.
pub open spec fn listed_once(p: PlanView, c: ChangeView) -> PlanView {
    let key = (c.kind, c.name, c.detail);
    if p.seen.contains(key) {
        p
    } else {
        PlanView { out: p.out.push(c), seen: p.seen.push(key), ..p }
    }
}

impl Plan {
    pub fn trace_line(&mut self, line: String)
        ensures
            final(self).deep_view() == traced(old(self).deep_view(), line@),
    {
        list::put(&mut self.trace, line);
    }

    pub fn log_line(&mut self, line: String)
        ensures
            final(self).deep_view() == logged(old(self).deep_view(), line@),
    {
        list::put(&mut self.log, line);
    }

    pub fn count_change(&mut self, line: String)
        requires
            counted(old(self).deep_view()),
        ensures
            final(self).deep_view() == bumped(old(self).deep_view(), line@),
            counted(final(self).deep_view()),
    {
        list::put(&mut self.log, line);
        let n: usize = self.log.len();
        assert(self.log.deep_view().len() == n);
        self.changes = self.changes + 1;
    }

    pub fn list_change(&mut self, c: Change)
        ensures
            final(self).deep_view() == listed(old(self).deep_view(), c.deep_view()),
    {
        list::put(&mut self.out, c);
    }

    pub fn list_change_once(&mut self, c: Change)
        ensures
            final(self).deep_view() == listed_once(old(self).deep_view(), c.deep_view()),
    {
        let ghost seen = self.seen.deep_view();
        let ghost key = (c.kind, c.name@, c.detail@);
        let mut i: usize = 0;
        while i < self.seen.len()
            invariant
                i <= self.seen.len(),
                *self == *old(self),
                seen == self.seen.deep_view(),
                key == (c.kind, c.name@, c.detail@),
                forall|j: int| 0 <= j < i ==> seen[j] != key,
            decreases self.seen.len() - i,
        {
            let s = &self.seen[i];
            assert(seen[i as int] == s.deep_view());
            if s.0 == c.kind && s.1 == c.name && s.2 == c.detail {
                assert(seen[i as int] == key);
                return;
            }
            i = i + 1;
        }
        list::put(&mut self.seen, (c.kind, c.name.clone(), c.detail.clone()));
        list::put(&mut self.out, c);
    }
}

} // verus!
