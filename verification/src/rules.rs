//! The rules file: which mod belongs in which section.
//!
//! ```text
//! # comment
//! keyword = Section Label          lowercase substring match, first hit wins
//! keyword !excl !excl = Section    exclusions: skip if any of these appear
//! !exact Mod Name = Section Label  exact name match, checked before keywords
//! !dump = Section Label            a waiting room: nothing is filed into it
//! !rename-separators               a switch
//! !proven-only                     a switch
//! @Category Name = Section Label   category match
//! >Winner Name = Loser Name        the winner sorts above the loser
//! <Mod Name                        load first in whatever section holds the mod
//! <Mod Name = Section Label        load first in that section
//! ^Mod Name = Section Label        load last in that section
//! ```
use vstd::prelude::*;
use crate::list;
use crate::text;
#[allow(unused_imports)]
use crate::text::{ascii_lowered, begins, lines_of, lowercase, split_first, split_on, trimmed};

verus! {

pub struct Rules {
    pub exact: Vec<(String, String)>,
    /// Phrase, exclusions, section.
    pub keyword: Vec<(String, Vec<String>, String)>,
    pub category: Vec<(String, String)>,
    pub promote: Vec<(String, String)>,
    pub sink: Vec<(String, String)>,
    pub float: Vec<(String, String)>,
    /// Mods that load first in whatever section holds them.
    pub sink_any: Vec<String>,
    /// Retitle separators after what they hold.
    pub rename_separators: bool,
    /// Only moves that a rule, a metadata entry, a conflict or a master proves.
    pub proven_only: bool,
    /// Waiting-room sections: rules never resolve into them.
    pub dump: Vec<String>,
}

#[verifier::ext_equal]
pub struct RulesView {
    pub exact: Seq<(Seq<char>, Seq<char>)>,
    pub keyword: Seq<(Seq<char>, Seq<Seq<char>>, Seq<char>)>,
    pub category: Seq<(Seq<char>, Seq<char>)>,
    pub promote: Seq<(Seq<char>, Seq<char>)>,
    pub sink: Seq<(Seq<char>, Seq<char>)>,
    pub float: Seq<(Seq<char>, Seq<char>)>,
    pub sink_any: Seq<Seq<char>>,
    pub rename_separators: bool,
    pub proven_only: bool,
    pub dump: Seq<Seq<char>>,
}

impl DeepView for Rules {
    type V = RulesView;

    open spec fn deep_view(&self) -> RulesView {
        RulesView {
            exact: self.exact.deep_view(),
            keyword: self.keyword.deep_view(),
            category: self.category.deep_view(),
            promote: self.promote.deep_view(),
            sink: self.sink.deep_view(),
            float: self.float.deep_view(),
            sink_any: self.sink_any.deep_view(),
            rename_separators: self.rename_separators,
            proven_only: self.proven_only,
            dump: self.dump.deep_view(),
        }
    }
}

pub open spec fn no_rules() -> RulesView {
    RulesView {
        exact: Seq::empty(),
        keyword: Seq::empty(),
        category: Seq::empty(),
        promote: Seq::empty(),
        sink: Seq::empty(),
        float: Seq::empty(),
        sink_any: Seq::empty(),
        rename_separators: false,
        proven_only: false,
        dump: Seq::empty(),
    }
}

/// The rules `user` in front of the rules `base`; a switch is on if either sets it.
pub open spec fn in_front(user: RulesView, base: RulesView) -> RulesView {
    RulesView {
        exact: user.exact + base.exact,
        keyword: user.keyword + base.keyword,
        category: user.category + base.category,
        promote: user.promote + base.promote,
        sink: user.sink + base.sink,
        float: user.float + base.float,
        sink_any: user.sink_any + base.sink_any,
        rename_separators: base.rename_separators || user.rename_separators,
        proven_only: base.proven_only || user.proven_only,
        dump: user.dump + base.dump,
    }
}

/// `a = b`, each side trimmed.
pub open spec fn sides(s: Seq<char>) -> Option<(Seq<char>, Seq<char>)> {
    match split_first(s, "="@) {
        Some((a, b)) => Some((trimmed(a), trimmed(b))),
        None => None,
    }
}

pub open spec fn tidy(s: Seq<char>) -> Seq<char> {
    lowercase(trimmed(s))
}

pub open spec fn tidied(parts: Seq<Seq<char>>) -> Seq<Seq<char>> {
    Seq::new(parts.len(), |i: int| tidy(parts[i]))
}

/// What a line that starts with `!` adds; `rest` is what follows the mark.
pub open spec fn with_bang(r: RulesView, rest: Seq<char>) -> RulesView {
    match sides(rest) {
        Some((a, b)) => if ascii_lowered(a) == ascii_lowered("dump"@) {
            RulesView { dump: r.dump.push(b), ..r }
        } else {
            RulesView { exact: r.exact.push((a, b)), ..r }
        },
        None => if tidy(rest) == "rename-separators"@ {
            RulesView { rename_separators: true, ..r }
        } else if tidy(rest) == "proven-only"@ {
            RulesView { proven_only: true, ..r }
        } else {
            r
        },
    }
}

/// What the trimmed line `l` adds, where it is neither blank nor a comment.
pub open spec fn with_rule(r: RulesView, l: Seq<char>) -> RulesView {
    if begins(l, "!"@) {
        with_bang(r, l.skip("!"@.len() as int))
    } else if begins(l, ">"@) {
        match sides(l.skip(">"@.len() as int)) {
            Some(p) => RulesView { promote: r.promote.push(p), ..r },
            None => r,
        }
    } else if begins(l, "<"@) {
        match sides(l.skip("<"@.len() as int)) {
            Some(p) => RulesView { sink: r.sink.push(p), ..r },
            None => RulesView { sink_any: r.sink_any.push(trimmed(l.skip("<"@.len() as int))), ..r },
        }
    } else if begins(l, "^"@) {
        match sides(l.skip("^"@.len() as int)) {
            Some(p) => RulesView { float: r.float.push(p), ..r },
            None => r,
        }
    } else if begins(l, "@"@) {
        match sides(l.skip("@"@.len() as int)) {
            Some((a, b)) => RulesView { category: r.category.push((lowercase(a), b)), ..r },
            None => r,
        }
    } else {
        match split_first(l, "="@) {
            Some((a, b)) => {
                let parts = split_on(a, " !"@);
                RulesView {
                    keyword: r.keyword.push((tidy(parts[0]), tidied(parts.skip(1)), trimmed(b))),
                    ..r
                }
            },
            None => r,
        }
    }
}

pub open spec fn with_line(r: RulesView, line: Seq<char>) -> RulesView {
    let l = trimmed(line);
    if l.len() == 0 || begins(l, "#"@) {
        r
    } else {
        with_rule(r, l)
    }
}

/// The rules `r` and those of the first `n` lines.
pub open spec fn with_lines(r: RulesView, lines: Seq<Seq<char>>, n: int) -> RulesView
    decreases n,
{
    if n <= 0 {
        r
    } else {
        with_line(with_lines(r, lines, n - 1), lines[n - 1])
    }
}

pub open spec fn with_text(r: RulesView, text: Seq<char>) -> RulesView {
    with_lines(r, lines_of(text), lines_of(text).len() as int)
}

fn sides_of(s: &str) -> (r: Option<(String, String)>)
    ensures
        r.deep_view() == sides(s@),
{
    match text::split_once(s, "=") {
        Some((a, b)) => Some((text::trim(a.as_str()), text::trim(b.as_str()))),
        None => None,
    }
}

fn tidy_text(s: &str) -> (r: String)
    ensures
        r@ == tidy(s@),
{
    let t = text::trim(s);
    t.as_str().to_lowercase()
}

impl Rules {
    pub fn empty() -> (r: Rules)
        ensures
            r.deep_view() == no_rules(),
    {
        Rules {
            exact: list::none(),
            keyword: list::none(),
            category: list::none(),
            promote: list::none(),
            sink: list::none(),
            float: list::none(),
            sink_any: list::none(),
            rename_separators: false,
            proven_only: false,
            dump: list::none(),
        }
    }

    /// User rules are checked first, so they go in front.
    pub fn prepend(&mut self, user: Rules)
        ensures
            final(self).deep_view() == in_front(user.deep_view(), old(self).deep_view()),
    {
        let mut user = user;
        let mut base = Rules::empty();
        std::mem::swap(self, &mut base);
        list::put_all(&mut user.exact, base.exact);
        list::put_all(&mut user.keyword, base.keyword);
        list::put_all(&mut user.category, base.category);
        list::put_all(&mut user.promote, base.promote);
        list::put_all(&mut user.sink, base.sink);
        list::put_all(&mut user.float, base.float);
        list::put_all(&mut user.sink_any, base.sink_any);
        user.rename_separators = base.rename_separators || user.rename_separators;
        user.proven_only = base.proven_only || user.proven_only;
        list::put_all(&mut user.dump, base.dump);
        *self = user;
    }
}

fn add_bang(r: &mut Rules, rest: &str)
    ensures
        final(r).deep_view() == with_bang(old(r).deep_view(), rest@),
{
    match sides_of(rest) {
        Some((a, b)) => {
            if text::same_ignoring_case(a.as_str(), "dump") {
                list::put(&mut r.dump, b);
            } else {
                list::put(&mut r.exact, (a, b));
            }
        },
        None => {
            let word = tidy_text(rest);
            if text::same(word.as_str(), "rename-separators") {
                r.rename_separators = true;
            } else if text::same(word.as_str(), "proven-only") {
                r.proven_only = true;
            }
        },
    }
}

fn add_keyword(r: &mut Rules, a: &str, b: &str)
    ensures
        final(r).deep_view() == (RulesView {
            keyword: old(r).deep_view().keyword.push(
                (
                    tidy(split_on(a@, " !"@)[0]),
                    tidied(split_on(a@, " !"@).skip(1)),
                    trimmed(b@),
                ),
            ),
            ..old(r).deep_view()
        }),
{
    let parts = text::split(a, " !");
    proof {
        text::lemma_split_nonempty(a@, " !"@);
    }
    let ghost tail = parts.deep_view().skip(1);
    assert(parts.deep_view()[0] == parts@[0]@);
    let phrase = tidy_text(parts[0].as_str());
    let mut excl: Vec<String> = list::none();
    let mut i: usize = 1;
    while i < parts.len()
        invariant
            1 <= i <= parts.len(),
            tail == parts.deep_view().skip(1),
            excl.deep_view() == tidied(tail.take(i - 1)),
        decreases parts.len() - i,
    {
        assert(tail[i - 1] == parts@[i as int]@);
        list::put(&mut excl, tidy_text(parts[i].as_str()));
        i = i + 1;
        assert(excl.deep_view() =~= tidied(tail.take(i - 1)));
    }
    assert(tail.take(i - 1) =~= tail);
    list::put(&mut r.keyword, (phrase, excl, text::trim(b)));
}

fn add_rule(r: &mut Rules, l: &str)
    ensures
        final(r).deep_view() == with_rule(old(r).deep_view(), l@),
{
    if let Some(rest) = text::strip_prefix(l, "!") {
        add_bang(r, rest.as_str());
    } else if let Some(rest) = text::strip_prefix(l, ">") {
        if let Some(p) = sides_of(rest.as_str()) {
            list::put(&mut r.promote, p);
        }
    } else if let Some(rest) = text::strip_prefix(l, "<") {
        match sides_of(rest.as_str()) {
            Some(p) => list::put(&mut r.sink, p),
            None => list::put(&mut r.sink_any, text::trim(rest.as_str())),
        }
    } else if let Some(rest) = text::strip_prefix(l, "^") {
        if let Some(p) = sides_of(rest.as_str()) {
            list::put(&mut r.float, p);
        }
    } else if let Some(rest) = text::strip_prefix(l, "@") {
        if let Some((a, b)) = sides_of(rest.as_str()) {
            list::put(&mut r.category, (a.as_str().to_lowercase(), b));
        }
    } else if let Some((a, b)) = text::split_once(l, "=") {
        add_keyword(r, a.as_str(), b.as_str());
    }
}

/// Adds the rules of a rules file to `r`.
pub fn parse_rules_into(text: &str, r: &mut Rules)
    ensures
        final(r).deep_view() == with_text(old(r).deep_view(), text@),
{
    let lines = text::lines(text);
    let ghost before = r.deep_view();
    let mut i: usize = 0;
    while i < lines.len()
        invariant
            i <= lines.len(),
            lines.deep_view() == lines_of(text@),
            r.deep_view() == with_lines(before, lines.deep_view(), i as int),
        decreases lines.len() - i,
    {
        let l = text::trim(lines[i].as_str());
        assert(lines.deep_view()[i as int] == lines@[i as int]@);
        if !l.as_str().is_empty() && !text::starts_with(l.as_str(), "#") {
            add_rule(r, l.as_str());
        }
        i = i + 1;
    }
}

/// User rules come first, each list keeping the order of its file.
pub proof fn user_rules_come_first(user: RulesView, base: RulesView)
    ensures
        ({
            let r = in_front(user, base);
            &&& r.exact.take(user.exact.len() as int) == user.exact
            &&& r.keyword.take(user.keyword.len() as int) == user.keyword
            &&& r.category.take(user.category.len() as int) == user.category
            &&& r.promote.take(user.promote.len() as int) == user.promote
            &&& r.sink.take(user.sink.len() as int) == user.sink
            &&& r.float.take(user.float.len() as int) == user.float
            &&& r.sink_any.take(user.sink_any.len() as int) == user.sink_any
            &&& r.dump.take(user.dump.len() as int) == user.dump
        }),
{
}

/// The rules of the first `n` texts, in their order.
pub open spec fn texts_first(texts: Seq<Seq<char>>, n: int) -> RulesView
    decreases n,
{
    if n <= 0 {
        no_rules()
    } else {
        with_text(texts_first(texts, n - 1), texts[n - 1])
    }
}

/// The rules that hold: those of the named file, or else the built-in ones unless they are
/// skipped, and in front of them those of the users' files.
pub open spec fn rules_for(
    named: Option<Seq<char>>,
    builtin: Seq<char>,
    skip_builtins: bool,
    users: Seq<Seq<char>>,
) -> RulesView {
    let base = match named {
        Some(t) => with_text(no_rules(), t),
        None => if skip_builtins {
            no_rules()
        } else {
            with_text(no_rules(), builtin)
        },
    };
    if users.len() == 0 {
        base
    } else {
        in_front(texts_first(users, users.len() as int), base)
    }
}

pub fn load_rules_for(
    named: Option<&str>,
    builtin: &str,
    skip_builtins: bool,
    users: &Vec<String>,
) -> (r: Rules)
    ensures
        r.deep_view() == rules_for(named.deep_view(), builtin@, skip_builtins, users.deep_view()),
{
    let mut r = Rules::empty();
    match named {
        Some(t) => {
            parse_rules_into(t, &mut r);
        },
        None => {
            if !skip_builtins {
                parse_rules_into(builtin, &mut r);
            }
        },
    }
    let ghost uv = users.deep_view();
    assert(uv.len() == users.len());
    if users.len() > 0 {
        let mut user = Rules::empty();
        let mut i: usize = 0;
        while i < users.len()
            invariant
                i <= users.len(),
                uv == users.deep_view(),
                user.deep_view() == texts_first(uv, i as int),
            decreases users.len() - i,
        {
            assert(uv[i as int] == users@[i as int]@);
            parse_rules_into(users[i].as_str(), &mut user);
            i = i + 1;
        }
        r.prepend(user);
    }
    r
}

} // verus!
