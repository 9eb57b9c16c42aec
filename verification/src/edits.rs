//! What the window writes: switching a mod off, and the user's own rules.
use vstd::prelude::*;
use crate::list;
use crate::text;
#[allow(unused_imports)]
use crate::text::{after_prefix, ascii_lowered, before_suffix, begins, ended, finishes, joined, lines_of, lowercase, split_first, trimmed, trimmed_start, width};

verus! {

/// A new file of user rules.
pub const USER_RULES_TEMPLATE: &'static str = "# modslut user rules - checked BEFORE the built-in rules, so anything you\n# put here wins. save the file, then hit \"reload\" in modslut.\n#\n# syntax:\n#   !Exact Mod Name = Section Label     force one mod into a section\n#   @MO2 Category = Section Label       route a whole mo2 category\n#                                       (see the \"categories\" view for names)\n#   keyword !exclusion = Section Label  lowercase substring match, first hit wins\n#   >After Name = Before Name            After loads later than Before\n#   <Mod Name = Section Label           sink: pin to the TOP of that section in mo2\n#                                       (loses everything in-section - base replacers)\n#   ^Mod Name = Section Label           float: pin to the BOTTOM of that section\n#                                       (wins everything in-section)\n#\n# directives (a bare !line with no '=', put it anywhere):\n#   !proven-only                        only proven moves: your rules, loot,\n#                                       conflict data, plugin masters - no\n#                                       category/keyword guesses\n#   !rename-separators                  let modslut retitle separators to\n#                                       canonical concepts (off by default)\n#   !dump = Section Label               mark a separator as a waiting room:\n#                                       its contents get filed out, nothing\n#                                       ever moves IN (e.g. !dump = End of List)\n#\n# section labels must match your separator names exactly. examples:\n#   !Some Sexlab Mod - Argonian Addon = Skin and Body - Argonians and Khajiits\n#   @Clothing = Clothing and Jewelry\n#   <Glacierslab SSE = Glaciers, Ice, Snow and Ash\n#\n# lines below are appended by the right-click menu in the gui:\n";

// ---- switching a mod off ----

/// Whether a line switches the mod on.
pub open spec fn switches_on(line: Seq<char>, name: Seq<char>) -> bool {
    match after_prefix(trimmed(line), "+"@) {
        Some(rest) => trimmed(rest) == name,
        None => false,
    }
}

/// The first line from `i` on that switches the mod on.
pub open spec fn on_from(lines: Seq<Seq<char>>, name: Seq<char>, i: int) -> Option<int>
    decreases lines.len() - i,
{
    if i < 0 || i >= lines.len() {
        None
    } else if switches_on(lines[i], name) {
        Some(i)
    } else {
        on_from(lines, name, i + 1)
    }
}

/// The row with a minus in place of its plus. White space in front of the plus goes.
pub open spec fn switched_off(line: Seq<char>) -> Seq<char> {
    "-"@ + trimmed_start(line).skip(1)
}

/// The modlist with the mod switched off, where it is on.
pub open spec fn disabled(s: Seq<char>, name: Seq<char>) -> Option<Seq<char>> {
    let lines = lines_of(s);
    match on_from(lines, name, 0) {
        Some(i) => Some(ended(lines.update(i, switched_off(lines[i])))),
        None => None,
    }
}

fn turns_on(line: &str, name: &str) -> (r: bool)
    ensures
        r == switches_on(line@, name@),
{
    let line = text::trim(line);
    match text::strip_prefix(line.as_str(), "+") {
        Some(rest) => {
            let rest = text::trim(rest.as_str());
            text::same(rest.as_str(), name)
        },
        None => false,
    }
}

proof fn lemma_on_from(lines: Seq<Seq<char>>, name: Seq<char>, i: int)
    requires
        0 <= i,
    ensures
        match on_from(lines, name, i) {
            Some(j) => i <= j < lines.len() && switches_on(lines[j], name),
            None => true,
        },
    decreases lines.len() - i,
{
    if i < lines.len() && !switches_on(lines[i], name) {
        lemma_on_from(lines, name, i + 1);
    }
}

/// Unticks a mod: the plus of its first ticked row becomes a minus, also where white space
/// stands in front of it, so that the row still names the mod.
pub fn disable_mod(s: &str, name: &str) -> (r: Option<String>)
    ensures
        r.deep_view() == disabled(s@, name@),
{
    let mut lines = text::lines(s);
    let ghost lv = lines.deep_view();
    let mut i: usize = 0;
    while i < lines.len()
        invariant
            i <= lines.len(),
            lv == lines.deep_view(),
            lv == lines_of(s@),
            on_from(lv, name@, i as int) == on_from(lv, name@, 0),
        decreases lines.len() - i,
    {
        assert(lv[i as int] == lines@[i as int]@);
        if turns_on(lines[i].as_str(), name) {
            let t = text::trim_start(lines[i].as_str());
            let chars = text::chars_of(t.as_str());
            proof {
                lemma_begins_behind_white(lv[i as int]);
            }
            let rest = text::part(&chars, 1, chars.len());
            assert(rest@ =~= t@.skip(1));
            list::set_at(&mut lines, i, text::cat("-", rest.as_str()));
            return Some(text::end_lines(&lines));
        }
        i = i + 1;
    }
    assert(lv.len() == lines.len());
    None
}

proof fn lemma_begins_behind_white(line: Seq<char>)
    requires
        trimmed(line).len() > 0 || begins(trimmed(line), "+"@),
    ensures
        trimmed_start(line).len() > 0,
{
    reveal_strlit("+");
    text::lemma_past_white(line, 0);
    text::lemma_before_white(trimmed_start(line), trimmed_start(line).len() as int);
    text::lemma_before_white(line, line.len() as int);
}

// ---- the user's rules ----

/// What stands in front of ` = `.
pub open spec fn left_of(s: Seq<char>) -> Seq<char> {
    match split_first(s, " = "@) {
        Some((a, _)) => a,
        None => s,
    }
}

/// The mod that a rule is about, behind the sign in front of it.
pub open spec fn rule_name(line: Seq<char>) -> Option<Seq<char>> {
    if line.len() == 0 || width(line[0]) != 1 {
        None
    } else {
        Some(lowercase(trimmed(left_of(line.skip(1)))))
    }
}

/// Whether a line places the mod.
pub open spec fn places(line: Seq<char>, name: Seq<char>) -> bool {
    let l = trimmed_start(line);
    (begins(l, "!"@) || begins(l, "^"@) || begins(l, "<"@)) && rule_name(l) == Some(name)
}

/// The first `n` lines without those that place the mod.
pub open spec fn unplaced_first(lines: Seq<Seq<char>>, name: Seq<char>, n: int) -> Seq<Seq<char>>
    decreases n,
{
    if n <= 0 {
        Seq::empty()
    } else if places(lines[n - 1], name) {
        unplaced_first(lines, name, n - 1)
    } else {
        unplaced_first(lines, name, n - 1).push(lines[n - 1])
    }
}

pub open spec fn kept_rules(s: Seq<char>, line: Seq<char>) -> Seq<char> {
    match rule_name(line) {
        Some(name) => joined(
            unplaced_first(lines_of(s), name, lines_of(s).len() as int),
            "\n"@,
        ),
        None => s,
    }
}

/// The rules with one more, which takes the place of those that placed the same mod.
pub open spec fn with_rule(s: Seq<char>, line: Seq<char>) -> Seq<char> {
    let kept = kept_rules(s, line);
    (if finishes(kept, "\n"@) {
        kept
    } else {
        kept + "\n"@
    }) + line + "\n"@
}

fn front(s: &str) -> (r: String)
    ensures
        r@ == left_of(s@),
{
    match text::split_once(s, " = ") {
        Some((a, _)) => a,
        None => s.to_string(),
    }
}

fn name_of_rule(line: &str) -> (r: Option<String>)
    ensures
        r.deep_view() == rule_name(line@),
{
    let chars = text::chars_of(line);
    if chars.len() == 0 || chars[0] as u32 >= 0x80 {
        return None;
    }
    let rest = text::part(&chars, 1, chars.len());
    assert(rest@ =~= line@.skip(1));
    let name = front(rest.as_str());
    let name = text::trim(name.as_str());
    Some(name.as_str().to_lowercase())
}

fn places_mod(line: &str, name: &str) -> (r: bool)
    ensures
        r == places(line@, name@),
{
    let l = text::trim_start(line);
    if text::starts_with(l.as_str(), "!") || text::starts_with(l.as_str(), "^")
        || text::starts_with(l.as_str(), "<") {
        match name_of_rule(l.as_str()) {
            Some(n) => text::same(n.as_str(), name),
            None => false,
        }
    } else {
        false
    }
}

fn keep_rules(s: &str, line: &str) -> (r: String)
    ensures
        r@ == kept_rules(s@, line@),
{
    let name = match name_of_rule(line) {
        Some(n) => n,
        None => {
            return s.to_string();
        },
    };
    let lines = text::lines(s);
    let ghost lv = lines.deep_view();
    let mut out: Vec<String> = list::none();
    let mut i: usize = 0;
    while i < lines.len()
        invariant
            i <= lines.len(),
            lv == lines.deep_view(),
            out.deep_view() == unplaced_first(lv, name@, i as int),
        decreases lines.len() - i,
    {
        assert(lv[i as int] == lines@[i as int]@);
        if !places_mod(lines[i].as_str(), name.as_str()) {
            list::put(&mut out, lines[i].clone());
        }
        i = i + 1;
    }
    assert(lv.len() == lines.len());
    text::join(&out, "\n")
}

pub fn append_user_rule(s: &str, line: &str) -> (r: String)
    ensures
        r@ == with_rule(s@, line@),
{
    let mut r = keep_rules(s, line);
    if !text::ends_with(r.as_str(), "\n") {
        r.append("\n");
    }
    r.append(line);
    r.append("\n");
    r
}

/// A new rule for a mod leaves no older one that places the mod.
pub proof fn new_rule_replaces_old(lines: Seq<Seq<char>>, name: Seq<char>, n: int, i: int)
    requires
        0 <= n <= lines.len(),
        0 <= i < unplaced_first(lines, name, n).len(),
    ensures
        !places(unplaced_first(lines, name, n)[i], name),
        lines.contains(unplaced_first(lines, name, n)[i]),
    decreases n,
{
    if n > 0 {
        let before = unplaced_first(lines, name, n - 1);
        if i < before.len() {
            new_rule_replaces_old(lines, name, n - 1, i);
        } else {
            assert(lines[n - 1] == unplaced_first(lines, name, n)[i]);
        }
    }
}

// ---- forgetting a mod ----

/// What stands behind the sign of a rule.
pub open spec fn rule_body(line: Seq<char>) -> Option<Seq<char>> {
    if begins(line, "!"@) || begins(line, "^"@) || begins(line, "<"@) || begins(line, ">"@) {
        Some(line.skip(1))
    } else {
        None
    }
}

/// Whether a rule is about the mod: it stands on the left, or at either end of an ordering.
pub open spec fn about(line: Seq<char>, name: Seq<char>) -> bool {
    let l = trimmed_start(line);
    match rule_body(l) {
        Some(body) => match split_first(body, "="@) {
            Some((a, b)) => ascii_lowered(trimmed(a)) == ascii_lowered(name) || (begins(l, ">"@)
                && ascii_lowered(trimmed(b)) == ascii_lowered(name)),
            None => false,
        },
        None => false,
    }
}

pub open spec fn cleared_first(lines: Seq<Seq<char>>, name: Seq<char>, n: int) -> Seq<Seq<char>>
    decreases n,
{
    if n <= 0 {
        Seq::empty()
    } else if about(lines[n - 1], name) {
        cleared_first(lines, name, n - 1)
    } else {
        cleared_first(lines, name, n - 1).push(lines[n - 1])
    }
}

/// The rules without those about the mod.
pub open spec fn cleared(s: Seq<char>, name: Seq<char>) -> Seq<char> {
    joined(cleared_first(lines_of(s), name, lines_of(s).len() as int), "\n"@) + "\n"@
}

fn names_mod(line: &str, name: &str) -> (r: bool)
    ensures
        r == about(line@, name@),
{
    let l = text::trim_start(line);
    let ordering = text::starts_with(l.as_str(), ">");
    if ordering || text::starts_with(l.as_str(), "!") || text::starts_with(l.as_str(), "^")
        || text::starts_with(l.as_str(), "<") {
        proof {
            reveal_strlit(">");
            reveal_strlit("!");
            reveal_strlit("^");
            reveal_strlit("<");
        }
        let chars = text::chars_of(l.as_str());
        let body = text::part(&chars, 1, chars.len());
        assert(body@ =~= l@.skip(1));
        match text::split_once(body.as_str(), "=") {
            Some((a, b)) => {
                let a = text::trim(a.as_str());
                let b = text::trim(b.as_str());
                text::same_ignoring_case(a.as_str(), name) || (ordering
                    && text::same_ignoring_case(b.as_str(), name))
            },
            None => false,
        }
    } else {
        false
    }
}

/// The rules without those about the mod, where that changes them.
pub fn clear_rules(s: &str, name: &str) -> (r: Option<String>)
    ensures
        r.deep_view() == (if cleared(s@, name@) == s@ {
            None::<Seq<char>>
        } else {
            Some(cleared(s@, name@))
        }),
{
    let lines = text::lines(s);
    let ghost lv = lines.deep_view();
    let mut out: Vec<String> = list::none();
    let mut i: usize = 0;
    while i < lines.len()
        invariant
            i <= lines.len(),
            lv == lines.deep_view(),
            out.deep_view() == cleared_first(lv, name@, i as int),
        decreases lines.len() - i,
    {
        assert(lv[i as int] == lines@[i as int]@);
        if !names_mod(lines[i].as_str(), name) {
            list::put(&mut out, lines[i].clone());
        }
        i = i + 1;
    }
    assert(lv.len() == lines.len());
    let t = text::join(&out, "\n");
    let t = text::cat(t.as_str(), "\n");
    if text::same(t.as_str(), s) {
        None
    } else {
        Some(t)
    }
}

// ---- orderings in the making ----

/// The other mod of an ordering that is about `name`: the one that it loads after, or
/// before.
pub open spec fn other_end(edge: Seq<char>, name: Seq<char>, after: bool) -> Option<Seq<char>> {
    if after {
        after_prefix(edge, ">"@ + name + " = "@)
    } else {
        match after_prefix(edge, ">"@) {
            Some(body) => before_suffix(body, " = "@ + name),
            None => None,
        }
    }
}

pub open spec fn ends_first(
    edges: Seq<Seq<char>>,
    name: Seq<char>,
    after: bool,
    n: int,
) -> Seq<(usize, Seq<char>)>
    decreases n,
{
    if n <= 0 {
        Seq::empty()
    } else {
        match other_end(edges[n - 1], name, after) {
            Some(o) => ends_first(edges, name, after, n - 1).push(((n - 1) as usize, o)),
            None => ends_first(edges, name, after, n - 1),
        }
    }
}

/// The orderings of a mod that are not yet saved, each with its place.
pub fn pending(edges: &Vec<String>, name: &str, after: bool) -> (r: Vec<(usize, String)>)
    ensures
        r.deep_view() == ends_first(edges.deep_view(), name@, after, edges.len() as int),
{
    let ghost ev = edges.deep_view();
    let lead = text::cat3(">", name, " = ");
    let tail = text::cat(" = ", name);
    let mut out: Vec<(usize, String)> = list::none();
    let mut i: usize = 0;
    while i < edges.len()
        invariant
            i <= edges.len(),
            ev == edges.deep_view(),
            lead@ == ">"@ + name@ + " = "@,
            tail@ == " = "@ + name@,
            out.deep_view() == ends_first(ev, name@, after, i as int),
        decreases edges.len() - i,
    {
        let edge = edges[i].as_str();
        assert(ev[i as int] == edge@);
        let other = if after {
            text::strip_prefix(edge, lead.as_str())
        } else {
            match text::strip_prefix(edge, ">") {
                Some(body) => text::strip_suffix(body.as_str(), tail.as_str()),
                None => None,
            }
        };
        if let Some(o) = other {
            list::put(&mut out, (i, o));
        }
        i = i + 1;
    }
    out
}

/// The rule that puts `later` behind `earlier`.
pub fn ordering_rule(later: &str, earlier: &str) -> (r: String)
    ensures
        r@ == ">"@ + later@ + " = "@ + earlier@,
{
    let r = text::cat3(">", later, " = ");
    text::cat(r.as_str(), earlier)
}

} // verus!
