//! What the plugins of a mod contain, as evidence of what the mod is about.
use vstd::prelude::*;
use crate::list;
use crate::map::TextMap;
#[allow(unused_imports)]
use crate::map::{found, inserted};
use crate::masters::Census;
use crate::plugins::PluginInfo;
#[allow(unused_imports)]
use crate::plugins::{CensusView, Counts, PluginView};
use crate::profile;
#[allow(unused_imports)]
use crate::profile::data_path;
use crate::record_keywords::{KeywordRule, RecordKeywords};
#[allow(unused_imports)]
use crate::record_keywords::{KeywordRuleView, KeywordRules};
use crate::sort;
#[allow(unused_imports)]
use crate::sort::{sorted, Ranked};
use crate::text;
#[allow(unused_imports)]
use crate::text::{before, begins, decimal, ended, hex_fixed, joined, lines_of, lowercase, number, split_last, split_on};

verus! {

/// Evidence of a concept, and how strong it is.
pub struct Fact {
    pub concept: String,
    pub confidence: u8,
}

#[verifier::ext_equal]
pub struct FactView {
    pub concept: Seq<char>,
    pub confidence: u8,
}

impl DeepView for Fact {
    type V = FactView;

    open spec fn deep_view(&self) -> FactView {
        FactView { concept: self.concept@, confidence: self.confidence }
    }
}

/// The stronger fact first; equally strong ones by concept.
impl Ranked for Fact {
    open spec fn precedes(a: FactView, b: FactView) -> bool {
        a.confidence > b.confidence || (a.confidence == b.confidence
            && <String as Ranked>::precedes(a.concept, b.concept))
    }

    proof fn total(a: FactView, b: FactView) {
        <String as Ranked>::total(a.concept, b.concept);
    }

    proof fn transitive(a: FactView, b: FactView, c: FactView) {
        if a.confidence == b.confidence && b.confidence == c.confidence {
            <String as Ranked>::transitive(a.concept, b.concept, c.concept);
        }
    }

    fn goes_before(&self, other: &Fact) -> (r: bool) {
        self.confidence > other.confidence || (self.confidence == other.confidence
            && self.concept.goes_before(&other.concept))
    }
}

/// What is known of one mod.
pub struct ModContent {
    pub facts: Vec<Fact>,
    /// The number of its plugins.
    pub plugins: usize,
}

#[verifier::ext_equal]
pub struct ContentView {
    pub facts: Seq<FactView>,
    pub plugins: nat,
}

impl DeepView for ModContent {
    type V = ContentView;

    open spec fn deep_view(&self) -> ContentView {
        ContentView { facts: self.facts.deep_view(), plugins: self.plugins as nat }
    }
}

pub struct ContentIndex {
    /// Where the index is kept.
    pub path: String,
    pub from_cache: bool,
    pub entries: TextMap<ModContent>,
}

pub type Contents = Seq<(Seq<char>, ContentView)>;

// ---- facts ----

/// The first fact on a concept from `i` on.
pub open spec fn fact_place(facts: Seq<FactView>, concept: Seq<char>, i: int) -> Option<int>
    decreases facts.len() - i,
{
    if i < 0 || i >= facts.len() {
        None
    } else if facts[i].concept == concept {
        Some(i)
    } else {
        fact_place(facts, concept, i + 1)
    }
}

/// The facts with one more; of two facts on one concept the stronger stays.
pub open spec fn with_fact(facts: Seq<FactView>, concept: Seq<char>, confidence: u8) -> Seq<FactView> {
    match fact_place(facts, concept, 0) {
        Some(i) => if facts[i].confidence < confidence {
            facts.update(i, FactView { concept, confidence })
        } else {
            facts
        },
        None => facts.push(FactView { concept, confidence }),
    }
}

pub fn add(facts: &mut Vec<Fact>, concept: &str, confidence: u8)
    ensures
        final(facts).deep_view() == with_fact(old(facts).deep_view(), concept@, confidence),
{
    let ghost before = facts.deep_view();
    let mut i: usize = 0;
    while i < facts.len()
        invariant
            i <= facts.len(),
            before == facts.deep_view(),
            before == old(facts).deep_view(),
            fact_place(before, concept@, i as int) == fact_place(before, concept@, 0),
        decreases facts.len() - i,
    {
        assert(before[i as int] == facts@[i as int].deep_view());
        if text::same(facts[i].concept.as_str(), concept) {
            if facts[i].confidence < confidence {
                list::set_at(facts, i, Fact { concept: concept.to_string(), confidence });
            }
            return;
        }
        i = i + 1;
    }
    list::put(facts, Fact { concept: concept.to_string(), confidence });
}

// ---- counts ----

/// How often a signature occurs among the first `n` counts.
pub open spec fn sum_of(counts: Counts, sig: Seq<char>, n: int) -> nat
    decreases n,
{
    if n <= 0 {
        0
    } else {
        sum_of(counts, sig, n - 1) + (if counts[n - 1].0 == sig {
            counts[n - 1].1 as nat
        } else {
            0
        })
    }
}

/// How often it occurs in the first `n` plugins.
pub open spec fn count_of(infos: Seq<PluginView>, sig: Seq<char>, n: int) -> nat
    decreases n,
{
    if n <= 0 {
        0
    } else {
        count_of(infos, sig, n - 1) + sum_of(
            infos[n - 1].records,
            sig,
            infos[n - 1].records.len() as int,
        )
    }
}

pub open spec fn sum_all(counts: Counts, n: int) -> nat
    decreases n,
{
    if n <= 0 {
        0
    } else {
        sum_all(counts, n - 1) + counts[n - 1].1 as nat
    }
}

/// The number of records in the first `n` plugins.
pub open spec fn total_of(infos: Seq<PluginView>, n: int) -> nat
    decreases n,
{
    if n <= 0 {
        0
    } else {
        total_of(infos, n - 1) + sum_all(infos[n - 1].records, infos[n - 1].records.len() as int)
    }
}

/// A number as it fits 32 bits.
pub open spec fn capped(n: nat) -> u32 {
    if n > u32::MAX {
        u32::MAX
    } else {
        n as u32
    }
}

fn plus(a: u32, b: u32) -> (r: u32)
    ensures
        r == capped((a + b) as nat),
        forall|n: nat| a == capped(n) ==> r == #[trigger] capped(n + b as nat),
{
    if a > u32::MAX - b {
        u32::MAX
    } else {
        a + b
    }
}

fn times(a: u32, b: u32) -> (r: u32)
    ensures
        r == capped((a * b) as nat),
{
    let x: u64 = a as u64;
    let y: u64 = b as u64;
    assert(x * y <= 0xffff_ffff * 0xffff_ffff) by (nonlinear_arith)
        requires
            x <= 0xffff_ffff,
            y <= 0xffff_ffff,
    ;
    let p: u64 = x * y;
    if p > u32::MAX as u64 {
        u32::MAX
    } else {
        p as u32
    }
}

fn count(infos: &[PluginInfo], sig: &str) -> (r: u32)
    ensures
        r == capped(count_of(infos.deep_view(), sig@, infos.len() as int)),
{
    let ghost iv = infos.deep_view();
    let mut n: u32 = 0;
    let mut i: usize = 0;
    while i < infos.len()
        invariant
            i <= infos.len(),
            iv == infos.deep_view(),
            n == capped(count_of(iv, sig@, i as int)),
        decreases infos.len() - i,
    {
        let records = &infos[i].records;
        let ghost rv = records.deep_view();
        assert(iv[i as int] == infos@[i as int].deep_view());
        assert(rv.len() == records.len());
        let ghost start = count_of(iv, sig@, i as int);
        let mut k: usize = 0;
        while k < records.len()
            invariant
                k <= records.len(),
                rv == records.deep_view(),
                n == capped(start + sum_of(rv, sig@, k as int)),
            decreases records.len() - k,
        {
            assert(rv[k as int] == records@[k as int].deep_view());
            if text::same(records[k].0.as_str(), sig) {
                let ghost before = start + sum_of(rv, sig@, k as int);
                let more: u32 = records[k].1;
                n = plus(n, more);
                assert(n == capped(before + more as nat));
            }
            k = k + 1;
        }
        i = i + 1;
    }
    n
}

fn count_all(infos: &[PluginInfo]) -> (r: u32)
    ensures
        r == capped(total_of(infos.deep_view(), infos.len() as int)),
{
    let ghost iv = infos.deep_view();
    let mut n: u32 = 0;
    let mut i: usize = 0;
    while i < infos.len()
        invariant
            i <= infos.len(),
            iv == infos.deep_view(),
            n == capped(total_of(iv, i as int)),
        decreases infos.len() - i,
    {
        let records = &infos[i].records;
        let ghost rv = records.deep_view();
        assert(iv[i as int] == infos@[i as int].deep_view());
        assert(rv.len() == records.len());
        let ghost start = total_of(iv, i as int);
        let mut k: usize = 0;
        while k < records.len()
            invariant
                k <= records.len(),
                rv == records.deep_view(),
                n == capped(start + sum_all(rv, k as int)),
            decreases records.len() - k,
        {
            assert(rv[k as int] == records@[k as int].deep_view());
            let ghost before = start + sum_all(rv, k as int);
            let more: u32 = records[k].1;
            n = plus(n, more);
            assert(n == capped(before + more as nat));
            k = k + 1;
        }
        i = i + 1;
    }
    n
}

/// A master that comes with the game.
pub open spec fn is_game_master(m: Seq<char>) -> bool {
    m == "skyrim.esm"@ || m == "update.esm"@ || m == "dawnguard.esm"@ || m == "hearthfires.esm"@
        || m == "dragonborn.esm"@ || m == "skyrimvr.esm"@
}

pub open spec fn others_in(masters: Seq<Seq<char>>, n: int) -> nat
    decreases n,
{
    if n <= 0 {
        0
    } else {
        others_in(masters, n - 1) + (if is_game_master(masters[n - 1]) {
            0nat
        } else {
            1
        })
    }
}

/// How many masters of the first `n` plugins do not come with the game.
pub open spec fn other_masters(infos: Seq<PluginView>, n: int) -> nat
    decreases n,
{
    if n <= 0 {
        0
    } else {
        other_masters(infos, n - 1) + others_in(
            infos[n - 1].masters,
            infos[n - 1].masters.len() as int,
        )
    }
}

fn game_master(m: &str) -> (r: bool)
    ensures
        r == is_game_master(m@),
{
    text::same(m, "skyrim.esm") || text::same(m, "update.esm") || text::same(m, "dawnguard.esm")
        || text::same(m, "hearthfires.esm") || text::same(m, "dragonborn.esm") || text::same(
        m,
        "skyrimvr.esm",
    )
}

fn several_masters(infos: &[PluginInfo]) -> (r: bool)
    ensures
        r == (other_masters(infos.deep_view(), infos.len() as int) >= 2),
{
    let ghost iv = infos.deep_view();
    let mut n: u8 = 0;
    let mut i: usize = 0;
    while i < infos.len()
        invariant
            i <= infos.len(),
            iv == infos.deep_view(),
            n <= 2,
            n < 2 ==> n == other_masters(iv, i as int),
            n == 2 ==> other_masters(iv, i as int) >= 2,
        decreases infos.len() - i,
    {
        let masters = &infos[i].masters;
        let ghost mv = masters.deep_view();
        assert(iv[i as int] == infos@[i as int].deep_view());
        assert(mv.len() == masters.len());
        let ghost start = other_masters(iv, i as int);
        let mut k: usize = 0;
        while k < masters.len()
            invariant
                k <= masters.len(),
                mv == masters.deep_view(),
                n <= 2,
                n < 2 ==> n == start + others_in(mv, k as int),
                n == 2 ==> start + others_in(mv, k as int) >= 2,
            decreases masters.len() - k,
        {
            assert(mv[k as int] == masters@[k as int]@);
            if !game_master(masters[k].as_str()) && n < 2 {
                n = n + 1;
            }
            k = k + 1;
        }
        i = i + 1;
    }
    n >= 2
}

// ---- the facts of a mod ----

/// A rule gives evidence; of armor, little where there are few such records.
pub open spec fn rule_confidence(rule: KeywordRuleView, armor: u32) -> u8 {
    if begins(rule.concept, "equipment-armor"@) && armor < 4 && rule.confidence > 55 {
        55
    } else {
        rule.confidence
    }
}

pub open spec fn rule_facts(
    facts: Seq<FactView>,
    rules: Seq<KeywordRuleView>,
    armor: u32,
    n: int,
) -> Seq<FactView>
    decreases n,
{
    if n <= 0 {
        facts
    } else {
        with_fact(
            rule_facts(facts, rules, armor, n - 1),
            rules[n - 1].concept,
            rule_confidence(rules[n - 1], armor),
        )
    }
}

pub open spec fn keyword_facts(
    facts: Seq<FactView>,
    keywords: Counts,
    rules: KeywordRules,
    armor: u32,
    n: int,
) -> Seq<FactView>
    decreases n,
{
    if n <= 0 {
        facts
    } else {
        let before = keyword_facts(facts, keywords, rules, armor, n - 1);
        match found(rules, lowercase(keywords[n - 1].0)) {
            Some(rs) => if keywords[n - 1].1 == 0 {
                before
            } else {
                rule_facts(before, rs, armor, rs.len() as int)
            },
            None => before,
        }
    }
}

/// The evidence of the keywords in the first `n` plugins.
pub open spec fn plugin_facts(
    infos: Seq<PluginView>,
    rules: KeywordRules,
    armor: u32,
    n: int,
) -> Seq<FactView>
    decreases n,
{
    if n <= 0 {
        Seq::empty()
    } else {
        keyword_facts(
            plugin_facts(infos, rules, armor, n - 1),
            infos[n - 1].keywords,
            rules,
            armor,
            infos[n - 1].keywords.len() as int,
        )
    }
}

/// At least so many, and at least that share of all.
pub open spec fn enough(n: u32, total: u32, floor: u32, percent: u32) -> bool {
    n >= floor && total > 0 && capped((n * 100) as nat) >= capped((total * percent) as nat)
}

pub open spec fn fact_if(facts: Seq<FactView>, holds: bool, concept: Seq<char>, confidence: u8) -> Seq<
    FactView,
> {
    if holds {
        with_fact(facts, concept, confidence)
    } else {
        facts
    }
}

pub open spec fn both(a: u32, b: u32) -> u32 {
    capped((a + b) as nat)
}

/// What the plugins of a mod are evidence of, before it is put in order.
pub open spec fn evidence(infos: Seq<PluginView>, rules: KeywordRules) -> Seq<FactView> {
    let m = infos.len() as int;
    let total = capped(total_of(infos, m));
    let npc = capped(count_of(infos, "NPC_"@, m));
    let faces = both(capped(count_of(infos, "HDPT"@, m)), capped(count_of(infos, "TXST"@, m)));
    let armor = capped(count_of(infos, "ARMO"@, m));
    let equipment = both(
        both(armor, capped(count_of(infos, "WEAP"@, m))),
        capped(count_of(infos, "ARMA"@, m)),
    );
    let world = both(
        both(
            both(capped(count_of(infos, "CELL"@, m)), capped(count_of(infos, "WRLD"@, m))),
            capped(count_of(infos, "REFR"@, m)),
        ),
        capped(count_of(infos, "LAND"@, m)),
    );
    let magic = both(
        both(capped(count_of(infos, "SPEL"@, m)), capped(count_of(infos, "PERK"@, m))),
        capped(count_of(infos, "MGEF"@, m)),
    );
    let quests = both(
        both(capped(count_of(infos, "QUST"@, m)), capped(count_of(infos, "DIAL"@, m))),
        capped(count_of(infos, "SCEN"@, m)),
    );
    let crafts = capped(count_of(infos, "COBJ"@, m));
    let a = plugin_facts(infos, rules, armor, m);
    let b = fact_if(a, enough(world, total, 12, 35), "worldspace"@, 86);
    let c = if faces >= 12 {
        fact_if(b, enough(npc, total, 12, 20), "npc-appearance"@, 92)
    } else {
        fact_if(b, enough(npc, total, 12, 20), "npc"@, 78)
    };
    let d = fact_if(c, enough(equipment, total, 12, 25), "equipment"@, 84);
    let e = fact_if(d, enough(quests, total, 8, 18), "quests-dialogue"@, 80);
    let f = fact_if(e, enough(magic, total, 10, 22), "magic-gameplay"@, 82);
    let g = fact_if(f, enough(crafts, total, 10, 30) && equipment < 12, "crafting"@, 72);
    fact_if(g, other_masters(infos, m) >= 2, "compatibility"@, 64)
}

fn add_rules(facts: &mut Vec<Fact>, rules: &[KeywordRule], armor: u32)
    ensures
        final(facts).deep_view() == rule_facts(
            old(facts).deep_view(),
            rules.deep_view(),
            armor,
            rules.len() as int,
        ),
{
    let ghost before = facts.deep_view();
    let ghost rv = rules.deep_view();
    let mut i: usize = 0;
    while i < rules.len()
        invariant
            i <= rules.len(),
            rv == rules.deep_view(),
            facts.deep_view() == rule_facts(before, rv, armor, i as int),
        decreases rules.len() - i,
    {
        let r = &rules[i];
        assert(rv[i as int] == r.deep_view());
        let confidence: u8 = if text::starts_with(r.concept.as_str(), "equipment-armor") && armor < 4
            && r.confidence > 55 {
            55
        } else {
            r.confidence
        };
        self::add(facts, r.concept.as_str(), confidence);
        i = i + 1;
    }
}

fn add_keywords(facts: &mut Vec<Fact>, info: &PluginInfo, rules: &RecordKeywords, armor: u32)
    ensures
        final(facts).deep_view() == keyword_facts(
            old(facts).deep_view(),
            info.deep_view().keywords,
            rules.rules.deep_view(),
            armor,
            info.deep_view().keywords.len() as int,
        ),
{
    let ghost before = facts.deep_view();
    let ghost kv = info.keywords.deep_view();
    let mut i: usize = 0;
    while i < info.keywords.len()
        invariant
            i <= info.keywords.len(),
            kv == info.keywords.deep_view(),
            facts.deep_view() == keyword_facts(before, kv, rules.rules.deep_view(), armor, i as int),
        decreases info.keywords.len() - i,
    {
        let k = &info.keywords[i];
        assert(kv[i as int] == k.deep_view());
        if k.1 != 0 {
            if let Some(rs) = rules.lookup(k.0.as_str()) {
                assert(rs.deep_view().len() == rs.len());
                add_rules(facts, rs, armor);
            }
        }
        i = i + 1;
    }
    assert(kv.len() == info.keywords.len());
}

fn is_enough(n: u32, total: u32, floor: u32, percent: u32) -> (r: bool)
    ensures
        r == enough(n, total, floor, percent),
{
    n >= floor && total > 0 && times(n, 100) >= times(total, percent)
}

fn add_if(facts: &mut Vec<Fact>, holds: bool, concept: &str, confidence: u8)
    ensures
        final(facts).deep_view() == fact_if(old(facts).deep_view(), holds, concept@, confidence),
{
    if holds {
        self::add(facts, concept, confidence);
    }
}

/// What the plugins of a mod are evidence of, the strongest first.
pub fn facts_for(infos: &[PluginInfo], keyword_rules: &RecordKeywords) -> (r: Vec<Fact>)
    ensures
        r.deep_view() == sorted::<Fact>(
            evidence(infos.deep_view(), keyword_rules.rules.deep_view()),
        ),
{
    let ghost iv = infos.deep_view();
    assert(iv.len() == infos.len());
    let total = count_all(infos);
    let npc = count(infos, "NPC_");
    let faces = plus(count(infos, "HDPT"), count(infos, "TXST"));
    let armor = count(infos, "ARMO");
    let equipment = plus(plus(armor, count(infos, "WEAP")), count(infos, "ARMA"));
    let world = plus(
        plus(plus(count(infos, "CELL"), count(infos, "WRLD")), count(infos, "REFR")),
        count(infos, "LAND"),
    );
    let magic = plus(plus(count(infos, "SPEL"), count(infos, "PERK")), count(infos, "MGEF"));
    let quests = plus(plus(count(infos, "QUST"), count(infos, "DIAL")), count(infos, "SCEN"));
    let crafts = count(infos, "COBJ");
    let mut facts: Vec<Fact> = list::none();
    let mut i: usize = 0;
    while i < infos.len()
        invariant
            i <= infos.len(),
            iv == infos.deep_view(),
            facts.deep_view() == plugin_facts(iv, keyword_rules.rules.deep_view(), armor, i as int),
        decreases infos.len() - i,
    {
        assert(iv[i as int] == infos@[i as int].deep_view());
        add_keywords(&mut facts, &infos[i], keyword_rules, armor);
        i = i + 1;
    }
    add_if(&mut facts, is_enough(world, total, 12, 35), "worldspace", 86);
    if faces >= 12 {
        add_if(&mut facts, is_enough(npc, total, 12, 20), "npc-appearance", 92);
    } else {
        add_if(&mut facts, is_enough(npc, total, 12, 20), "npc", 78);
    }
    add_if(&mut facts, is_enough(equipment, total, 12, 25), "equipment", 84);
    add_if(&mut facts, is_enough(quests, total, 8, 18), "quests-dialogue", 80);
    add_if(&mut facts, is_enough(magic, total, 10, 22), "magic-gameplay", 82);
    add_if(&mut facts, is_enough(crafts, total, 10, 30) && equipment < 12, "crafting", 72);
    add_if(&mut facts, several_masters(infos), "compatibility", 64);
    sort::sort(facts)
}

// ---- the index ----

/// The plugins of a mod among the first `n` rows.
pub open spec fn infos_of(census: CensusView, name: Seq<char>, n: int) -> Seq<PluginView>
    decreases n,
{
    if n <= 0 {
        Seq::empty()
    } else {
        let before = infos_of(census, name, n - 1);
        if census[n - 1].0 == name {
            before.push(census[n - 1].2)
        } else {
            before
        }
    }
}

pub open spec fn content_of(census: CensusView, rules: KeywordRules, name: Seq<char>) -> ContentView {
    let infos = infos_of(census, name, census.len() as int);
    ContentView { facts: sorted::<Fact>(evidence(infos, rules)), plugins: infos.len() }
}

/// The mods of the first `n` rows, with what is known of each.
pub open spec fn contents_first(census: CensusView, rules: KeywordRules, n: int) -> Contents
    decreases n,
{
    if n <= 0 {
        Seq::empty()
    } else {
        let before = contents_first(census, rules, n - 1);
        let name = census[n - 1].0;
        if found(before, name) is Some {
            before
        } else {
            inserted(before, name, content_of(census, rules, name))
        }
    }
}

pub open spec fn contents_of(census: CensusView, rules: KeywordRules) -> Contents {
    contents_first(census, rules, census.len() as int)
}

fn gather(census: &Census, name: &str) -> (r: Vec<PluginInfo>)
    ensures
        r.deep_view() == infos_of(census.deep_view(), name@, census.len() as int),
{
    let ghost cv = census.deep_view();
    let mut out: Vec<PluginInfo> = list::none();
    let mut i: usize = 0;
    while i < census.len()
        invariant
            i <= census.len(),
            cv == census.deep_view(),
            out.deep_view() == infos_of(cv, name@, i as int),
        decreases census.len() - i,
    {
        assert(cv[i as int] == census@[i as int].deep_view());
        if text::same(census[i].0.as_str(), name) {
            list::put(&mut out, census[i].2.clone());
        }
        i = i + 1;
    }
    out
}

pub fn derive(census: &Census, keyword_rules: &RecordKeywords) -> (r: TextMap<ModContent>)
    ensures
        r.deep_view() == contents_of(census.deep_view(), keyword_rules.rules.deep_view()),
{
    let ghost cv = census.deep_view();
    let ghost rv = keyword_rules.rules.deep_view();
    assert(cv.len() == census.len());
    let mut out: TextMap<ModContent> = TextMap::new();
    let mut i: usize = 0;
    while i < census.len()
        invariant
            i <= census.len(),
            cv == census.deep_view(),
            cv.len() == census.len(),
            rv == keyword_rules.rules.deep_view(),
            out.deep_view() == contents_first(cv, rv, i as int),
        decreases census.len() - i,
    {
        assert(cv[i as int] == census@[i as int].deep_view());
        let name = &census[i].0;
        if !out.contains_key(name.as_str()) {
            let infos = gather(census, name.as_str());
            let slice = infos.as_slice();
            assert(slice.deep_view() =~= infos.deep_view());
            let facts = facts_for(slice, keyword_rules);
            assert(infos.deep_view().len() == infos.len());
            out.insert(name.clone(), ModContent { facts, plugins: infos.len() });
        }
        i = i + 1;
    }
    out
}

/// How many of the first `n` mods have any facts.
pub open spec fn told_first(entries: Contents, n: int) -> nat
    decreases n,
{
    if n <= 0 {
        0
    } else {
        told_first(entries, n - 1) + (if entries[n - 1].1.facts.len() > 0 {
            1nat
        } else {
            0
        })
    }
}

impl ContentIndex {
    pub fn get(&self, mod_name: &str) -> (r: Option<&ModContent>)
        ensures
            r.deep_view() == found(self.entries.deep_view(), mod_name@),
    {
        self.entries.get(mod_name)
    }

    pub fn summary(&self) -> (r: String)
        ensures
            r@ == decimal(self.entries.deep_view().len()) + " plugin-bearing mod(s), "@ + decimal(
                told_first(
                    self.entries.deep_view(),
                    self.entries.deep_view().len() as int,
                ),
            ) + " with structural evidence"@,
    {
        let ghost ev = self.entries.deep_view();
        let mut told: usize = 0;
        let mut i: usize = 0;
        while i < self.entries.len()
            invariant
                told <= i <= ev.len(),
                ev == self.entries.deep_view(),
                told == told_first(ev, i as int),
            decreases ev.len() - i,
        {
            let e = self.entries.at(i);
            assert(e.1.facts.deep_view().len() == e.1.facts.len());
            if e.1.facts.len() > 0 {
                told = told + 1;
            }
            i = i + 1;
        }
        let a = text::dec(self.entries.len() as u128);
        let b = text::dec(told as u128);
        let mut r = text::cat3(a.as_str(), " plugin-bearing mod(s), ", b.as_str());
        r.append(" with structural evidence");
        r
    }
}

// ---- the cache ----

pub open spec fn header(fingerprint: u64) -> Seq<char> {
    "#modslut-content-index-v4 "@ + hex_fixed(fingerprint as nat, 16)
}

pub open spec fn fact_texts(facts: Seq<FactView>) -> Seq<Seq<char>> {
    Seq::new(facts.len(), |i: int| facts[i].concept + ":"@ + decimal(facts[i].confidence as nat))
}

pub open spec fn content_row(e: (Seq<char>, ContentView)) -> Seq<char> {
    e.0 + "\t"@ + decimal(e.1.plugins) + "\t"@ + joined(fact_texts(e.1.facts), ","@)
}

/// The lines that keep an index.
pub open spec fn cache_lines(entries: Contents, fingerprint: u64) -> Seq<Seq<char>> {
    seq![header(fingerprint)] + Seq::new(entries.len(), |i: int| content_row(entries[i]))
}

fn show_header(fingerprint: u64) -> (r: String)
    ensures
        r@ == header(fingerprint),
{
    let h = text::hex(fingerprint as u128, 16);
    text::cat("#modslut-content-index-v4 ", h.as_str())
}

fn show_row(name: &str, c: &ModContent) -> (r: String)
    ensures
        r@ == content_row((name@, c.deep_view())),
{
    let ghost fv = c.facts.deep_view();
    let ghost all = fact_texts(fv);
    let mut parts: Vec<String> = list::none();
    let mut i: usize = 0;
    assert(all.take(0) =~= Seq::<Seq<char>>::empty());
    while i < c.facts.len()
        invariant
            i <= c.facts.len(),
            fv == c.facts.deep_view(),
            all == fact_texts(fv),
            parts.deep_view() == all.take(i as int),
        decreases c.facts.len() - i,
    {
        let f = &c.facts[i];
        assert(fv[i as int] == f.deep_view());
        let n = text::dec(f.confidence as u128);
        list::put(&mut parts, text::cat3(f.concept.as_str(), ":", n.as_str()));
        i = i + 1;
        assert(parts.deep_view() =~= all.take(i as int));
    }
    assert(all.take(i as int) =~= all);
    let facts = text::join(&parts, ",");
    let n = text::dec(c.plugins as u128);
    let mut r = text::cat3(name, "\t", n.as_str());
    r.append("\t");
    r.append(facts.as_str());
    r
}

pub fn save(entries: &TextMap<ModContent>, fingerprint: u64) -> (r: String)
    ensures
        r@ == ended(cache_lines(entries.deep_view(), fingerprint)),
{
    let ghost ev = entries.deep_view();
    let ghost all = cache_lines(ev, fingerprint);
    let mut out: Vec<String> = list::none();
    list::put(&mut out, show_header(fingerprint));
    let mut i: usize = 0;
    assert(out.deep_view() =~= all.take(1));
    while i < entries.len()
        invariant
            i <= ev.len(),
            ev == entries.deep_view(),
            all == cache_lines(ev, fingerprint),
            out.deep_view() == all.take(1 + i),
        decreases ev.len() - i,
    {
        let e = entries.at(i);
        list::put(&mut out, show_row(e.0.as_str(), &e.1));
        i = i + 1;
        assert(out.deep_view() =~= all.take(1 + i));
    }
    assert(out.deep_view() =~= all);
    text::end_lines(&out)
}

/// The facts that the first `n` items of a row state.
pub open spec fn facts_first(items: Seq<Seq<char>>, n: int) -> Seq<FactView>
    decreases n,
{
    if n <= 0 {
        Seq::empty()
    } else {
        let before = facts_first(items, n - 1);
        match split_last(items[n - 1], ":"@) {
            Some((concept, score)) => match number(score, 255) {
                Some(c) => before.push(FactView { concept, confidence: c as u8 }),
                None => before,
            },
            None => before,
        }
    }
}

/// The mod and the content that a row keeps.
pub open spec fn kept_of(row: Seq<char>) -> Option<(Seq<char>, ContentView)> {
    let fields = split_on(row, "\t"@);
    if fields.len() != 3 {
        None
    } else {
        match number(fields[1], usize::MAX as nat) {
            Some(plugins) => {
                let items = split_on(fields[2], ","@);
                Some(
                    (
                        fields[0],
                        ContentView { facts: facts_first(items, items.len() as int), plugins },
                    ),
                )
            },
            None => None,
        }
    }
}

/// The content that the first `n` lines keep; the head is no row.
pub open spec fn kept_first(lines: Seq<Seq<char>>, n: int) -> Option<Contents>
    decreases n,
{
    if n <= 1 {
        Some(Seq::empty())
    } else {
        match kept_first(lines, n - 1) {
            Some(before) => match kept_of(lines[n - 1]) {
                Some((name, c)) => Some(inserted(before, name, c)),
                None => None,
            },
            None => None,
        }
    }
}

/// The index that a text keeps, if it was made for the same plugins and rules.
pub open spec fn index_of(s: Seq<char>, fingerprint: u64) -> Option<Contents> {
    let lines = lines_of(s);
    if lines.len() == 0 || lines[0] != header(fingerprint) {
        None
    } else {
        kept_first(lines, lines.len() as int)
    }
}

proof fn lemma_kept_stopped(lines: Seq<Seq<char>>, n: int, m: int)
    requires
        n <= m,
        kept_first(lines, n) is None,
    ensures
        kept_first(lines, m) is None,
    decreases m,
{
    if n < m {
        lemma_kept_stopped(lines, n, m - 1);
    }
}

fn read_row(row: &str) -> (r: Option<(String, ModContent)>)
    ensures
        r.deep_view() == kept_of(row@),
{
    let fields = text::split(row, "\t");
    let ghost fv = fields.deep_view();
    assert(fv.len() == fields.len());
    if fields.len() != 3 {
        return None;
    }
    assert(fv[0] == fields@[0]@ && fv[1] == fields@[1]@ && fv[2] == fields@[2]@);
    match text::parse_number(fields[1].as_str(), usize::MAX as u128) {
        Some(n) => {
            let items = text::split(fields[2].as_str(), ",");
            let ghost iv = items.deep_view();
            let mut facts: Vec<Fact> = list::none();
            let mut i: usize = 0;
            while i < items.len()
                invariant
                    i <= items.len(),
                    iv == items.deep_view(),
                    facts.deep_view() == facts_first(iv, i as int),
                decreases items.len() - i,
            {
                assert(iv[i as int] == items@[i as int]@);
                if let Some((concept, score)) = text::rsplit_once(items[i].as_str(), ":") {
                    if let Some(c) = text::parse_number(score.as_str(), 255) {
                        list::put(&mut facts, Fact { concept, confidence: c as u8 });
                    }
                }
                i = i + 1;
            }
            assert(iv.len() == items.len());
            Some((fields[0].clone(), ModContent { facts, plugins: n as usize }))
        },
        None => None,
    }
}

pub fn load(s: &str, fingerprint: u64) -> (r: Option<TextMap<ModContent>>)
    ensures
        r.deep_view() == index_of(s@, fingerprint),
{
    let lines = text::lines(s);
    let ghost lv = lines.deep_view();
    assert(lv.len() == lines.len());
    let head = show_header(fingerprint);
    if lines.len() == 0 {
        return None;
    }
    assert(lv[0] == lines@[0]@);
    if !(lines[0] == head) {
        return None;
    }
    let mut out: TextMap<ModContent> = TextMap::new();
    let mut i: usize = 1;
    while i < lines.len()
        invariant
            1 <= i <= lines.len(),
            lv == lines.deep_view(),
            lv.len() == lines.len(),
            lv == lines_of(s@),
            lv[0] == header(fingerprint),
            kept_first(lv, i as int) == Some(out.deep_view()),
        decreases lines.len() - i,
    {
        assert(lv[i as int] == lines@[i as int]@);
        match read_row(lines[i].as_str()) {
            Some((name, c)) => {
                out.insert(name, c);
            },
            None => {
                proof {
                    lemma_kept_stopped(lv, i + 1, lv.len() as int);
                }
                return None;
            },
        }
        i = i + 1;
    }
    Some(out)
}

/// The index of a profile, out of the cache where it is still good, and the text of the
/// cache where it is not.
pub fn load_or_build(
    cached: Option<&str>,
    path: &str,
    fingerprint: u64,
    census: &Census,
    keyword_rules: &RecordKeywords,
) -> (r: (ContentIndex, Option<String>))
    ensures
        r.0.path@ == path@,
        ({
            let fp = fingerprint ^ keyword_rules.fingerprint;
            let kept = match cached {
                Some(s) => index_of(s@, fp),
                None => None,
            };
            match kept {
                Some(entries) => r.0.entries.deep_view() == entries && r.0.from_cache && r.1 is None,
                None => {
                    let entries = contents_of(
                        census.deep_view(),
                        keyword_rules.rules.deep_view(),
                    );
                    &&& r.0.entries.deep_view() == entries
                    &&& !r.0.from_cache
                    &&& r.1.deep_view() == Some(ended(cache_lines(entries, fp)))
                },
            }
        }),
{
    let fp: u64 = fingerprint ^ keyword_rules.fingerprint();
    if let Some(s) = cached {
        if let Some(entries) = load(s, fp) {
            return (ContentIndex { path: path.to_string(), from_cache: true, entries }, None);
        }
    }
    let entries = derive(census, keyword_rules);
    let text = save(&entries, fp);
    (ContentIndex { path: path.to_string(), from_cache: false, entries }, Some(text))
}

/// Where the index of a profile is kept.
pub fn cache_path(folder: &str) -> (r: String)
    ensures
        r@ == data_path(folder@, "content_index.cache"@),
{
    profile::profile_data_path(folder, "content_index.cache")
}

} // verus!
