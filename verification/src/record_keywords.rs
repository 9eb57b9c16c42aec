//! What the keywords of plugin records say of a mod.
use vstd::prelude::*;
use crate::keys;
#[allow(unused_imports)]
use crate::keys::is_comment;
use crate::list;
use crate::map::TextMap;
#[allow(unused_imports)]
use crate::map::{found, inserted};
use crate::plugins;
#[allow(unused_imports)]
use crate::plugins::fnv_bytes;
use crate::text;
#[allow(unused_imports)]
use crate::text::{after_prefix, lines_of, lowercase, number, split_first, trimmed};

verus! {

/// What a keyword is evidence of, and how strong it is.
pub struct KeywordRule {
    pub concept: String,
    pub confidence: u8,
}

#[verifier::ext_equal]
pub struct KeywordRuleView {
    pub concept: Seq<char>,
    pub confidence: u8,
}

impl DeepView for KeywordRule {
    type V = KeywordRuleView;

    open spec fn deep_view(&self) -> KeywordRuleView {
        KeywordRuleView { concept: self.concept@, confidence: self.confidence }
    }
}

pub struct RecordKeywords {
    pub rules: TextMap<Vec<KeywordRule>>,
    pub fingerprint: u64,
}

pub type KeywordRules = Seq<(Seq<char>, Seq<KeywordRuleView>)>;

/// The rules that hold where no file gives others.
pub const DEFAULT_RULES: &'static str = "# ModSlut record-keyword evidence (MS-owned copy).
#
# Format mirrors the useful bit of SkyGen's keyword grammar:
# filterByKeywords=master.esm|formid:concept=portable-concept:confidence=0..100
#
# These are evidence facts. They do NOT pick a separator unless the profile
# roadmap explicitly maps that concept.

[armor]
filterByKeywords=skyrim.esm|0006bbd2:concept=equipment-armor-heavy:confidence=96
filterByKeywords=skyrim.esm|0006bbd3:concept=equipment-armor-light:confidence=96
filterByKeywords=skyrim.esm|0006c0ec:concept=equipment-armor:confidence=92
filterByKeywords=skyrim.esm|0006c0ed:concept=equipment-armor:confidence=92
filterByKeywords=skyrim.esm|0006c0ee:concept=equipment-armor:confidence=92
filterByKeywords=skyrim.esm|0006c0ef:concept=equipment-armor:confidence=92

# Weapon evidence deliberately stays empty for now. SkyGen's weapon rules use
# animation-type logic, not the two guessed vanilla form IDs that were here.
# Add only verified KWDA IDs once we have the matching SkyGen provenance.
";

/// The hash of a text.
pub open spec fn fnv_of(s: Seq<char>) -> u64 {
    let b = vstd::utf8::encode_utf8(s);
    fnv_bytes(0xcbf29ce484222325, b, b.len() as int)
}

pub fn fnv(s: &str) -> (r: u64)
    ensures
        r == fnv_of(s@),
{
    let bytes = s.as_bytes();
    let mut h: u64 = 0xcbf29ce484222325;
    let mut i: usize = 0;
    while i < bytes.len()
        invariant
            i <= bytes@.len(),
            h == fnv_bytes(0xcbf29ce484222325, bytes@, i as int),
        decreases bytes@.len() - i,
    {
        h = plugins::mix(h, bytes[i] as u64);
        i = i + 1;
    }
    h
}

/// The key and the evidence of a line; a strength that is no number counts as 80.
pub open spec fn rule_of(line: Seq<char>) -> Option<(Seq<char>, KeywordRuleView)> {
    if line.len() == 0 || is_comment(line) {
        None
    } else {
        match after_prefix(line, "filterByKeywords="@) {
            Some(rest) => match split_first(rest, ":concept="@) {
                Some((key, tail)) => {
                    let (concept, confidence) = match split_first(tail, ":confidence="@) {
                        Some((c, score)) => (
                            trimmed(c),
                            match number(trimmed(score), 255) {
                                Some(n) => n as u8,
                                None => 80,
                            },
                        ),
                        None => (trimmed(tail), 80u8),
                    };
                    if trimmed(key).len() == 0 || concept.len() == 0 {
                        None
                    } else {
                        Some((lowercase(trimmed(key)), KeywordRuleView { concept, confidence }))
                    }
                },
                None => None,
            },
            None => None,
        }
    }
}

pub open spec fn rules_or_none(r: Option<Seq<KeywordRuleView>>) -> Seq<KeywordRuleView> {
    match r {
        Some(s) => s,
        None => Seq::empty(),
    }
}

pub open spec fn rules_first(lines: Seq<Seq<char>>, n: int) -> KeywordRules
    decreases n,
{
    if n <= 0 {
        Seq::empty()
    } else {
        let before = rules_first(lines, n - 1);
        match rule_of(trimmed(lines[n - 1])) {
            Some((key, rule)) => inserted(before, key, rules_or_none(found(before, key)).push(rule)),
            None => before,
        }
    }
}

pub open spec fn rules_of(s: Seq<char>) -> KeywordRules {
    rules_first(lines_of(s), lines_of(s).len() as int)
}

fn read_rule(line: &str) -> (r: Option<(String, KeywordRule)>)
    ensures
        r.deep_view() == rule_of(line@),
{
    let chars = text::chars_of(line);
    if chars.len() == 0 || keys::comment(line) {
        return None;
    }
    let rest = match text::strip_prefix(line, "filterByKeywords=") {
        Some(r) => r,
        None => {
            return None;
        },
    };
    let (key, tail) = match text::split_once(rest.as_str(), ":concept=") {
        Some(p) => p,
        None => {
            return None;
        },
    };
    let (concept, confidence) = match text::split_once(tail.as_str(), ":confidence=") {
        Some((c, score)) => {
            let score = text::trim(score.as_str());
            let n: u8 = match text::parse_number(score.as_str(), 255) {
                Some(n) => n as u8,
                None => 80,
            };
            (text::trim(c.as_str()), n)
        },
        None => (text::trim(tail.as_str()), 80),
    };
    let key = text::trim(key.as_str());
    let left = text::chars_of(key.as_str());
    let right = text::chars_of(concept.as_str());
    if left.len() == 0 || right.len() == 0 {
        return None;
    }
    Some((key.to_lowercase(), KeywordRule { concept, confidence }))
}

fn copy_rules(r: Option<&Vec<KeywordRule>>) -> (out: Vec<KeywordRule>)
    ensures
        out.deep_view() == rules_or_none(r.deep_view()),
{
    let mut out: Vec<KeywordRule> = list::none();
    match r {
        Some(v) => {
            let ghost all = v.deep_view();
            let mut i: usize = 0;
            assert(all.take(0) =~= Seq::<KeywordRuleView>::empty());
            while i < v.len()
                invariant
                    i <= v.len(),
                    all == v.deep_view(),
                    out.deep_view() == all.take(i as int),
                decreases v.len() - i,
            {
                assert(all[i as int] == v@[i as int].deep_view());
                list::put(
                    &mut out,
                    KeywordRule { concept: v[i].concept.clone(), confidence: v[i].confidence },
                );
                i = i + 1;
                assert(out.deep_view() =~= all.take(i as int));
            }
            assert(all.take(i as int) =~= all);
        },
        None => {},
    }
    out
}

/// Reads keyword rules.
pub fn parse(s: &str) -> (r: TextMap<Vec<KeywordRule>>)
    ensures
        r.deep_view() == rules_of(s@),
{
    let lines = text::lines(s);
    let ghost lv = lines.deep_view();
    let mut out: TextMap<Vec<KeywordRule>> = TextMap::new();
    let mut i: usize = 0;
    while i < lines.len()
        invariant
            i <= lines.len(),
            lv == lines.deep_view(),
            out.deep_view() == rules_first(lv, i as int),
        decreases lines.len() - i,
    {
        assert(lv[i as int] == lines@[i as int]@);
        let line = text::trim(lines[i].as_str());
        if let Some((key, rule)) = read_rule(line.as_str()) {
            let mut here = copy_rules(out.get(key.as_str()));
            list::put(&mut here, rule);
            out.insert(key, here);
        }
        i = i + 1;
    }
    assert(lv.len() == lines.len());
    out
}

impl RecordKeywords {
    /// The rules of a file, or those that hold without one.
    pub fn load(s: Option<&str>) -> (r: RecordKeywords)
        ensures
            ({
                let t = match s {
                    Some(t) => t@,
                    None => DEFAULT_RULES@,
                };
                r.rules.deep_view() == rules_of(t) && r.fingerprint == fnv_of(t)
            }),
    {
        let t = match s {
            Some(t) => t,
            None => DEFAULT_RULES,
        };
        RecordKeywords { rules: parse(t), fingerprint: fnv(t) }
    }

    /// What a keyword is evidence of.
    pub fn lookup(&self, key: &str) -> (r: Option<&[KeywordRule]>)
        ensures
            r.deep_view() == found(self.rules.deep_view(), lowercase(key@)),
    {
        let k = key.to_lowercase();
        match self.rules.get(k.as_str()) {
            Some(v) => {
                let s = v.as_slice();
                assert(s.deep_view() =~= v.deep_view());
                Some(s)
            },
            None => None,
        }
    }

    pub fn fingerprint(&self) -> (r: u64)
        ensures
            r == self.fingerprint,
    {
        self.fingerprint
    }
}

} // verus!
