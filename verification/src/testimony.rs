//! What the records of a mod are evidence of: of every concept the strongest claim stands.
use vstd::prelude::*;
#[allow(unused_imports)]
use crate::content_index::{capped, count_of, enough, evidence, fact_if, fact_place, keyword_facts, other_masters, others_in, plugin_facts, rule_confidence, rule_facts, sum_all, sum_of, total_of, with_fact, FactView};
#[allow(unused_imports)]
use crate::map::found;
#[allow(unused_imports)]
use crate::plugins::{Counts, PluginView};
#[allow(unused_imports)]
use crate::record_keywords::{KeywordRuleView, KeywordRules};
#[allow(unused_imports)]
use crate::text::{begins, lowercase};

verus! {

// ---- facts ----

/// How strong the evidence of a concept is, and less than nothing where there is none.
pub open spec fn strength(facts: Seq<FactView>, concept: Seq<char>) -> int {
    match fact_place(facts, concept, 0) {
        Some(i) => facts[i].confidence as int,
        None => -1,
    }
}

/// No concept stands twice.
pub open spec fn single(facts: Seq<FactView>) -> bool {
    forall|i: int, j: int|
        0 <= i < j < facts.len() ==> #[trigger] facts[i].concept != #[trigger] facts[j].concept
}

proof fn lemma_place(facts: Seq<FactView>, concept: Seq<char>, i: int)
    requires
        0 <= i,
    ensures
        match fact_place(facts, concept, i) {
            Some(k) => i <= k < facts.len() && facts[k].concept == concept && forall|j: int|
                i <= j < k ==> #[trigger] facts[j].concept != concept,
            None => forall|j: int| i <= j < facts.len() ==> #[trigger] facts[j].concept != concept,
        },
    decreases facts.len() - i,
{
    if i < facts.len() && facts[i].concept != concept {
        lemma_place(facts, concept, i + 1);
    }
}

proof fn lemma_place_is(facts: Seq<FactView>, concept: Seq<char>, k: int)
    requires
        single(facts),
        0 <= k < facts.len(),
        facts[k].concept == concept,
    ensures
        fact_place(facts, concept, 0) == Some(k),
{
    lemma_place(facts, concept, 0);
    match fact_place(facts, concept, 0) {
        Some(i) => {
            if i < k {
                assert(facts[i].concept != facts[k].concept);
            } else if k < i {
                assert(facts[k].concept != concept);
            }
        },
        None => {
            assert(facts[k].concept != concept);
        },
    }
}

pub open spec fn larger(a: int, b: int) -> int {
    if a >= b {
        a
    } else {
        b
    }
}

proof fn lemma_with_fact(facts: Seq<FactView>, concept: Seq<char>, confidence: u8, c: Seq<char>)
    requires
        single(facts),
    ensures
        single(with_fact(facts, concept, confidence)),
        strength(with_fact(facts, concept, confidence), c) == (if c == concept {
            larger(strength(facts, c), confidence as int)
        } else {
            strength(facts, c)
        }),
{
    let t = with_fact(facts, concept, confidence);
    lemma_place(facts, concept, 0);
    lemma_place(facts, c, 0);
    lemma_place(t, c, 0);
    match fact_place(facts, concept, 0) {
        Some(i) => {
            if facts[i].confidence < confidence {
                assert forall|a: int, b: int| 0 <= a < b < t.len() implies #[trigger] t[a].concept
                    != #[trigger] t[b].concept by {
                    assert(t[a].concept == facts[a].concept);
                    assert(t[b].concept == facts[b].concept);
                }
                if fact_place(facts, c, 0) is Some {
                    let k = fact_place(facts, c, 0)->0;
                    assert(t[k].concept == c);
                    lemma_place_is(t, c, k);
                } else if fact_place(t, c, 0) is Some {
                    let k = fact_place(t, c, 0)->0;
                    assert(facts[k].concept == t[k].concept);
                }
            }
        },
        None => {
            assert forall|a: int, b: int| 0 <= a < b < t.len() implies #[trigger] t[a].concept
                != #[trigger] t[b].concept by {
                if b < facts.len() {
                    assert(facts[a].concept != facts[b].concept);
                } else {
                    assert(facts[a].concept != concept);
                }
            }
            if fact_place(facts, c, 0) is Some {
                let k = fact_place(facts, c, 0)->0;
                assert(t[k].concept == c);
                lemma_place_is(t, c, k);
            } else if c == concept {
                assert(t[facts.len() as int].concept == c);
                lemma_place_is(t, c, facts.len() as int);
            } else if fact_place(t, c, 0) is Some {
                let k = fact_place(t, c, 0)->0;
                if k < facts.len() {
                    assert(facts[k].concept != c);
                }
            }
        },
    }
}

proof fn lemma_fact_if(
    facts: Seq<FactView>,
    holds: bool,
    concept: Seq<char>,
    confidence: u8,
    c: Seq<char>,
)
    requires
        single(facts),
    ensures
        single(fact_if(facts, holds, concept, confidence)),
        strength(fact_if(facts, holds, concept, confidence), c) == claim(
            strength(facts, c),
            holds,
            concept,
            confidence as int,
            c,
        ),
{
    lemma_with_fact(facts, concept, confidence, c);
}

/// What was known of `c`, and the claim of a concept where it holds.
pub open spec fn claim(
    known: int,
    holds: bool,
    concept: Seq<char>,
    confidence: int,
    c: Seq<char>,
) -> int {
    if holds && c == concept {
        larger(known, confidence)
    } else {
        known
    }
}

// ---- keywords ----

/// A keyword that occurs is evidence by each of its rules: of armor no more than weak
/// evidence where there are few such records.
pub open spec fn ruled(
    known: int,
    rules: Seq<KeywordRuleView>,
    armor: u32,
    n: int,
    c: Seq<char>,
) -> int
    decreases n,
{
    if n <= 0 {
        known
    } else {
        let r = rules[n - 1];
        let weak = begins(r.concept, "equipment-armor"@) && armor < 4;
        claim(
            ruled(known, rules, armor, n - 1, c),
            true,
            r.concept,
            if weak && r.confidence > 55 {
                55
            } else {
                r.confidence as int
            },
            c,
        )
    }
}

pub open spec fn worded(
    known: int,
    keywords: Counts,
    rules: KeywordRules,
    armor: u32,
    n: int,
    c: Seq<char>,
) -> int
    decreases n,
{
    if n <= 0 {
        known
    } else {
        let before = worded(known, keywords, rules, armor, n - 1, c);
        match found(rules, lowercase(keywords[n - 1].0)) {
            Some(rs) => if keywords[n - 1].1 > 0 {
                ruled(before, rs, armor, rs.len() as int, c)
            } else {
                before
            },
            None => before,
        }
    }
}

pub open spec fn all_worded(
    infos: Seq<PluginView>,
    rules: KeywordRules,
    armor: u32,
    n: int,
    c: Seq<char>,
) -> int
    decreases n,
{
    if n <= 0 {
        -1
    } else {
        let k = infos[n - 1].keywords;
        worded(all_worded(infos, rules, armor, n - 1, c), k, rules, armor, k.len() as int, c)
    }
}

proof fn lemma_ruled(
    facts: Seq<FactView>,
    rules: Seq<KeywordRuleView>,
    armor: u32,
    n: int,
    c: Seq<char>,
)
    requires
        single(facts),
        0 <= n <= rules.len(),
    ensures
        single(rule_facts(facts, rules, armor, n)),
        strength(rule_facts(facts, rules, armor, n), c) == ruled(
            strength(facts, c),
            rules,
            armor,
            n,
            c,
        ),
    decreases n,
{
    if n > 0 {
        lemma_ruled(facts, rules, armor, n - 1, c);
        lemma_with_fact(
            rule_facts(facts, rules, armor, n - 1),
            rules[n - 1].concept,
            rule_confidence(rules[n - 1], armor),
            c,
        );
    }
}

proof fn lemma_worded(
    facts: Seq<FactView>,
    keywords: Counts,
    rules: KeywordRules,
    armor: u32,
    n: int,
    c: Seq<char>,
)
    requires
        single(facts),
        0 <= n <= keywords.len(),
    ensures
        single(keyword_facts(facts, keywords, rules, armor, n)),
        strength(keyword_facts(facts, keywords, rules, armor, n), c) == worded(
            strength(facts, c),
            keywords,
            rules,
            armor,
            n,
            c,
        ),
    decreases n,
{
    if n > 0 {
        lemma_worded(facts, keywords, rules, armor, n - 1, c);
        let before = keyword_facts(facts, keywords, rules, armor, n - 1);
        match found(rules, lowercase(keywords[n - 1].0)) {
            Some(rs) => {
                lemma_ruled(before, rs, armor, rs.len() as int, c);
            },
            None => {},
        }
    }
}

proof fn lemma_all_worded(
    infos: Seq<PluginView>,
    rules: KeywordRules,
    armor: u32,
    n: int,
    c: Seq<char>,
)
    requires
        0 <= n <= infos.len(),
    ensures
        single(plugin_facts(infos, rules, armor, n)),
        strength(plugin_facts(infos, rules, armor, n), c) == all_worded(infos, rules, armor, n, c),
    decreases n,
{
    if n > 0 {
        lemma_all_worded(infos, rules, armor, n - 1, c);
        let k = infos[n - 1].keywords;
        lemma_worded(
            plugin_facts(infos, rules, armor, n - 1),
            k,
            rules,
            armor,
            k.len() as int,
            c,
        );
    } else {
        assert(fact_place(Seq::empty(), c, 0) is None);
    }
}

// ---- records ----

/// How many records of a kind the first `n` entries count.
pub open spec fn records_of(counts: Counts, kind: Seq<char>, n: int) -> nat
    decreases n,
{
    if n <= 0 {
        0
    } else {
        records_of(counts, kind, n - 1) + (if counts[n - 1].0 == kind {
            counts[n - 1].1 as nat
        } else {
            0
        })
    }
}

/// How many records of a kind the plugins hold.
pub open spec fn records_in(infos: Seq<PluginView>, kind: Seq<char>, n: int) -> nat
    decreases n,
{
    if n <= 0 {
        0
    } else {
        let r = infos[n - 1].records;
        records_in(infos, kind, n - 1) + records_of(r, kind, r.len() as int)
    }
}

pub open spec fn all_of(counts: Counts, n: int) -> nat
    decreases n,
{
    if n <= 0 {
        0
    } else {
        all_of(counts, n - 1) + counts[n - 1].1 as nat
    }
}

/// How many records the plugins hold.
pub open spec fn all_in(infos: Seq<PluginView>, n: int) -> nat
    decreases n,
{
    if n <= 0 {
        0
    } else {
        all_in(infos, n - 1) + all_of(infos[n - 1].records, infos[n - 1].records.len() as int)
    }
}

/// Of the first `n` masters, those that do not come with the game.
pub open spec fn foreign_of(masters: Seq<Seq<char>>, n: int) -> nat
    decreases n,
{
    if n <= 0 {
        0
    } else {
        let m = masters[n - 1];
        foreign_of(masters, n - 1) + (if m == "skyrim.esm"@ || m == "update.esm"@ || m
            == "dawnguard.esm"@ || m == "hearthfires.esm"@ || m == "dragonborn.esm"@ || m
            == "skyrimvr.esm"@ {
            0nat
        } else {
            1
        })
    }
}

pub open spec fn foreign_in(infos: Seq<PluginView>, n: int) -> nat
    decreases n,
{
    if n <= 0 {
        0
    } else {
        let m = infos[n - 1].masters;
        foreign_in(infos, n - 1) + foreign_of(m, m.len() as int)
    }
}

proof fn lemma_records_of(counts: Counts, kind: Seq<char>, n: int)
    ensures
        sum_of(counts, kind, n) == records_of(counts, kind, n),
        sum_all(counts, n) == all_of(counts, n),
    decreases n,
{
    if n > 0 {
        lemma_records_of(counts, kind, n - 1);
    }
}

proof fn lemma_records_in(infos: Seq<PluginView>, kind: Seq<char>, n: int)
    ensures
        count_of(infos, kind, n) == records_in(infos, kind, n),
        total_of(infos, n) == all_in(infos, n),
    decreases n,
{
    if n > 0 {
        lemma_records_in(infos, kind, n - 1);
        lemma_records_of(infos[n - 1].records, kind, infos[n - 1].records.len() as int);
    }
}

proof fn lemma_foreign_of(masters: Seq<Seq<char>>, n: int)
    ensures
        others_in(masters, n) == foreign_of(masters, n),
    decreases n,
{
    if n > 0 {
        lemma_foreign_of(masters, n - 1);
    }
}

proof fn lemma_foreign_in(infos: Seq<PluginView>, n: int)
    ensures
        other_masters(infos, n) == foreign_in(infos, n),
    decreases n,
{
    if n > 0 {
        lemma_foreign_in(infos, n - 1);
        lemma_foreign_of(infos[n - 1].masters, infos[n - 1].masters.len() as int);
    }
}

/// At least so many, and at least that share of all.
pub open spec fn plenty(n: nat, total: nat, floor: int, percent: int) -> bool {
    n >= floor && total > 0 && n * 100 >= total * percent
}

/// What the records of a mod claim of a concept: the strongest of its keywords' claims and
/// of what the kinds of its records and its masters claim.
pub open spec fn claimed(infos: Seq<PluginView>, rules: KeywordRules, c: Seq<char>) -> int {
    let m = infos.len() as int;
    let total = all_in(infos, m);
    let npc = records_in(infos, "NPC_"@, m);
    let faces = records_in(infos, "HDPT"@, m) + records_in(infos, "TXST"@, m);
    let armor = records_in(infos, "ARMO"@, m);
    let equipment = armor + records_in(infos, "WEAP"@, m) + records_in(infos, "ARMA"@, m);
    let world = records_in(infos, "CELL"@, m) + records_in(infos, "WRLD"@, m) + records_in(
        infos,
        "REFR"@,
        m,
    ) + records_in(infos, "LAND"@, m);
    let magic = records_in(infos, "SPEL"@, m) + records_in(infos, "PERK"@, m) + records_in(
        infos,
        "MGEF"@,
        m,
    );
    let quests = records_in(infos, "QUST"@, m) + records_in(infos, "DIAL"@, m) + records_in(
        infos,
        "SCEN"@,
        m,
    );
    let crafts = records_in(infos, "COBJ"@, m);
    let people = plenty(npc, total, 12, 20);
    let a = all_worded(infos, rules, armor as u32, m, c);
    let b = claim(a, plenty(world, total, 12, 35), "worldspace"@, 86, c);
    let d = claim(b, people && faces >= 12, "npc-appearance"@, 92, c);
    let e = claim(d, people && faces < 12, "npc"@, 78, c);
    let f = claim(e, plenty(equipment, total, 12, 25), "equipment"@, 84, c);
    let g = claim(f, plenty(quests, total, 8, 18), "quests-dialogue"@, 80, c);
    let h = claim(g, plenty(magic, total, 10, 22), "magic-gameplay"@, 82, c);
    let k = claim(h, plenty(crafts, total, 10, 30) && equipment < 12, "crafting"@, 72, c);
    claim(k, foreign_in(infos, m) >= 2, "compatibility"@, 64, c)
}

/// Of every concept the strongest claim stands as a fact, once, and nothing stands that is
/// not claimed. The machine can hold thirty-five times the number of the records.
pub proof fn strongest_claims_stand(infos: Seq<PluginView>, rules: KeywordRules, c: Seq<char>)
    requires
        all_in(infos, infos.len() as int) * 35 <= u32::MAX,
    ensures
        single(evidence(infos, rules)),
        strength(evidence(infos, rules), c) == claimed(infos, rules, c),
{
    let m = infos.len() as int;
    let total = all_in(infos, m);
    let npc = lemma_kind(infos, "NPC_"@);
    let hdpt = lemma_kind(infos, "HDPT"@);
    let txst = lemma_kind(infos, "TXST"@);
    let armor = lemma_kind(infos, "ARMO"@);
    let weap = lemma_kind(infos, "WEAP"@);
    let arma = lemma_kind(infos, "ARMA"@);
    let cell = lemma_kind(infos, "CELL"@);
    let wrld = lemma_kind(infos, "WRLD"@);
    let refr = lemma_kind(infos, "REFR"@);
    let land = lemma_kind(infos, "LAND"@);
    let spel = lemma_kind(infos, "SPEL"@);
    let perk = lemma_kind(infos, "PERK"@);
    let mgef = lemma_kind(infos, "MGEF"@);
    let qust = lemma_kind(infos, "QUST"@);
    let dial = lemma_kind(infos, "DIAL"@);
    let scen = lemma_kind(infos, "SCEN"@);
    let crafts = lemma_kind(infos, "COBJ"@);
    lemma_foreign_in(infos, m);
    let faces = hdpt + txst;
    let equipment = armor + weap + arma;
    let world = cell + wrld + refr + land;
    let magic = spel + perk + mgef;
    let quests = qust + dial + scen;
    lemma_enough(world, total, 12, 35);
    lemma_enough(npc, total, 12, 20);
    lemma_enough(equipment, total, 12, 25);
    lemma_enough(quests, total, 8, 18);
    lemma_enough(magic, total, 10, 22);
    lemma_enough(crafts, total, 10, 30);
    lemma_all_worded(infos, rules, armor as u32, m, c);
    let a = plugin_facts(infos, rules, armor as u32, m);
    let on = plenty(world, total, 12, 35);
    lemma_fact_if(a, on, "worldspace"@, 86, c);
    let b = fact_if(a, on, "worldspace"@, 86);
    let people = plenty(npc, total, 12, 20);
    lemma_fact_if(b, people, "npc-appearance"@, 92, c);
    lemma_fact_if(b, people, "npc"@, 78, c);
    let d = if faces >= 12 {
        fact_if(b, people, "npc-appearance"@, 92)
    } else {
        fact_if(b, people, "npc"@, 78)
    };
    let on = plenty(equipment, total, 12, 25);
    lemma_fact_if(d, on, "equipment"@, 84, c);
    let f = fact_if(d, on, "equipment"@, 84);
    let on = plenty(quests, total, 8, 18);
    lemma_fact_if(f, on, "quests-dialogue"@, 80, c);
    let g = fact_if(f, on, "quests-dialogue"@, 80);
    let on = plenty(magic, total, 10, 22);
    lemma_fact_if(g, on, "magic-gameplay"@, 82, c);
    let h = fact_if(g, on, "magic-gameplay"@, 82);
    let on = plenty(crafts, total, 10, 30) && equipment < 12;
    lemma_fact_if(h, on, "crafting"@, 72, c);
    let k = fact_if(h, on, "crafting"@, 72);
    let on = foreign_in(infos, m) >= 2;
    lemma_fact_if(k, on, "compatibility"@, 64, c);
    assert(evidence(infos, rules) == fact_if(k, on, "compatibility"@, 64));
}

/// How many records of a kind there are, and that the machine can hold the number.
proof fn lemma_kind(infos: Seq<PluginView>, kind: Seq<char>) -> (n: nat)
    requires
        all_in(infos, infos.len() as int) * 35 <= u32::MAX,
    ensures
        n == records_in(infos, kind, infos.len() as int),
        n == count_of(infos, kind, infos.len() as int),
        capped(n) == n,
        n * 35 <= u32::MAX,
        capped(total_of(infos, infos.len() as int)) == all_in(infos, infos.len() as int),
{
    let m = infos.len() as int;
    lemma_records_in(infos, kind, m);
    lemma_bounded(infos, kind, m);
    records_in(infos, kind, m)
}

proof fn lemma_enough(n: nat, total: nat, floor: u32, percent: u32)
    requires
        n <= u32::MAX,
        total * 35 <= u32::MAX,
        percent <= 35,
    ensures
        enough(n as u32, total as u32, floor, percent) == plenty(
            n,
            total,
            floor as int,
            percent as int,
        ),
{
    assert(total * percent <= total * 35) by (nonlinear_arith)
        requires
            percent <= 35,
    ;
}

proof fn lemma_records_bounded(counts: Counts, kind: Seq<char>, n: int)
    ensures
        records_of(counts, kind, n) <= all_of(counts, n),
    decreases n,
{
    if n > 0 {
        lemma_records_bounded(counts, kind, n - 1);
    }
}

proof fn lemma_bounded(infos: Seq<PluginView>, kind: Seq<char>, n: int)
    ensures
        records_in(infos, kind, n) <= all_in(infos, n),
    decreases n,
{
    if n > 0 {
        lemma_bounded(infos, kind, n - 1);
        lemma_records_bounded(infos[n - 1].records, kind, infos[n - 1].records.len() as int);
    }
}

} // verus!
