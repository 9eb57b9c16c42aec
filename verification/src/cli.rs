//! The command line, and the census that a diagnostic replays.
use vstd::prelude::*;
use crate::list;
use crate::plugins::PluginInfo;
#[allow(unused_imports)]
use crate::plugins::{place_from, CensusView, PluginView};
use crate::plugins;
use crate::text;
#[allow(unused_imports)]
use crate::text::{contains_text, lines_of, lowercase, split_first, split_on, trimmed, trimmed_start};

verus! {

#[derive(Clone, Copy, PartialEq, Eq, Debug, Structural)]
pub enum Command {
    /// No arguments: the window opens.
    Window,
    Rules,
    Check,
    Sort,
    Categories,
}

/// The command that the arguments give, and where the list's file stands among them. A
/// first argument that is no command is the file to sort.
pub open spec fn command_of(args: Seq<Seq<char>>) -> (Command, int) {
    if args.len() == 0 {
        (Command::Window, 0)
    } else if args[0] == "rules"@ {
        (Command::Rules, 0)
    } else if args[0] == "check"@ {
        (Command::Check, 1)
    } else if args[0] == "sort"@ {
        (Command::Sort, 1)
    } else if args[0] == "categories"@ {
        (Command::Categories, 1)
    } else {
        (Command::Sort, 0)
    }
}

pub fn command(args: &Vec<String>) -> (r: (Command, usize))
    ensures
        (r.0, r.1 as int) == command_of(args.deep_view()),
{
    assert(args.deep_view().len() == args.len());
    if args.len() == 0 {
        return (Command::Window, 0);
    }
    assert(args.deep_view()[0] == args@[0]@);
    let first = args[0].as_str();
    if text::same(first, "rules") {
        (Command::Rules, 0)
    } else if text::same(first, "check") {
        (Command::Check, 1)
    } else if text::same(first, "sort") {
        (Command::Sort, 1)
    } else if text::same(first, "categories") {
        (Command::Categories, 1)
    } else {
        (Command::Sort, 0)
    }
}

/// The argument behind a flag.
pub open spec fn option_of(args: Seq<Seq<char>>, flag: Seq<char>) -> Option<Seq<char>> {
    match place_from(args, flag, 0) {
        Some(i) => if i + 1 < args.len() {
            Some(args[i + 1])
        } else {
            None
        },
        None => None,
    }
}

pub fn option_value(args: &Vec<String>, flag: &str) -> (r: Option<String>)
    ensures
        r.deep_view() == option_of(args.deep_view(), flag@),
{
    let ghost av = args.deep_view();
    assert(av.len() == args.len());
    match plugins::place_of(args, flag) {
        Some(i) => {
            if i < args.len() && i + 1 < args.len() {
                assert(av[i + 1] == args@[i + 1]@);
                Some(args[i + 1].clone())
            } else {
                None
            }
        },
        None => None,
    }
}

/// Whether the answer is yes.
pub fn confirms(answer: &str) -> (r: bool)
    ensures
        r == (lowercase(trimmed(answer@)) == "y"@ || lowercase(trimmed(answer@)) == "yes"@),
{
    let t = text::trim(answer);
    let t = t.to_lowercase();
    text::same(t.as_str(), "y") || text::same(t.as_str(), "yes")
}

// ---- replay ----

/// The first `n` items without the white space around them.
pub open spec fn trimmed_items(items: Seq<Seq<char>>, n: int) -> Seq<Seq<char>>
    decreases n,
{
    if n <= 0 {
        Seq::empty()
    } else {
        trimmed_items(items, n - 1).push(trimmed(items[n - 1]))
    }
}

/// The masters of a line: what stands before the next bar, between commas. A dash names
/// none.
pub open spec fn masters_in(s: Seq<char>) -> Seq<Seq<char>> {
    let field = trimmed(split_on(s, "|"@)[0]);
    if field.len() == 0 || field == "-"@ {
        Seq::empty()
    } else {
        let items = split_on(field, ","@);
        trimmed_items(items, items.len() as int)
    }
}

/// The row of a line `plugin (mod) flags masters: names | ...`.
pub open spec fn row_of(line: Seq<char>) -> Option<(Seq<char>, Seq<char>, PluginView)> {
    match split_first(trimmed_start(line), " ("@) {
        Some((plugin, a)) => match split_first(a, ") "@) {
            Some((name, b)) => match split_first(b, "masters: "@) {
                Some((flags, c)) => Some(
                    (
                        name,
                        Seq::empty(),
                        PluginView {
                            plugin,
                            masters: masters_in(c),
                            is_esm: contains_text(flags, "esm"@),
                            is_esl: contains_text(flags, "esl"@),
                            record_count: 0,
                            groups: Seq::empty(),
                            records: Seq::empty(),
                            keywords: Seq::empty(),
                        },
                    ),
                ),
                None => None,
            },
            None => None,
        },
        None => None,
    }
}

pub open spec fn rows_first(lines: Seq<Seq<char>>, n: int) -> CensusView
    decreases n,
{
    if n <= 0 {
        Seq::empty()
    } else {
        let before = rows_first(lines, n - 1);
        match row_of(lines[n - 1]) {
            Some(row) => before.push(row),
            None => before,
        }
    }
}

/// The census that a diagnostic shows.
pub open spec fn replayed(s: Seq<char>) -> CensusView {
    rows_first(lines_of(s), lines_of(s).len() as int)
}

fn read_masters(s: &str) -> (r: Vec<String>)
    ensures
        r.deep_view() == masters_in(s@),
{
    let fields = text::split(s, "|");
    proof {
        text::lemma_split_nonempty(s@, "|"@);
    }
    assert(fields.deep_view().len() == fields.len());
    assert(fields.deep_view()[0] == fields@[0]@);
    let field = text::trim(fields[0].as_str());
    let chars = text::chars_of(field.as_str());
    let mut out: Vec<String> = list::none();
    if chars.len() == 0 || text::same(field.as_str(), "-") {
        return out;
    }
    let items = text::split(field.as_str(), ",");
    let ghost iv = items.deep_view();
    let mut i: usize = 0;
    while i < items.len()
        invariant
            i <= items.len(),
            iv == items.deep_view(),
            out.deep_view() == trimmed_items(iv, i as int),
        decreases items.len() - i,
    {
        assert(iv[i as int] == items@[i as int]@);
        list::put(&mut out, text::trim(items[i].as_str()));
        i = i + 1;
    }
    assert(iv.len() == items.len());
    out
}

fn read_row(line: &str) -> (r: Option<(String, String, PluginInfo)>)
    ensures
        r.deep_view() == row_of(line@),
{
    let l = text::trim_start(line);
    let (plugin, a) = match text::split_once(l.as_str(), " (") {
        Some(p) => p,
        None => {
            return None;
        },
    };
    let (name, b) = match text::split_once(a.as_str(), ") ") {
        Some(p) => p,
        None => {
            return None;
        },
    };
    let (flags, c) = match text::split_once(b.as_str(), "masters: ") {
        Some(p) => p,
        None => {
            return None;
        },
    };
    let section = String::new();
    assert(section@ =~= Seq::<char>::empty());
    Some(
        (
            name,
            section,
            PluginInfo {
                plugin,
                masters: read_masters(c.as_str()),
                is_esm: text::contains(flags.as_str(), "esm"),
                is_esl: text::contains(flags.as_str(), "esl"),
                record_count: 0,
                groups: list::none(),
                records: list::none(),
                keywords: list::none(),
            },
        ),
    )
}

/// Reads the census that a diagnostic shows; none where it shows no plugin.
pub fn census_from_log(s: &str) -> (r: Option<Vec<(String, String, PluginInfo)>>)
    ensures
        r.deep_view() == (if replayed(s@).len() > 0 {
            Some(replayed(s@))
        } else {
            None
        }),
{
    let lines = text::lines(s);
    let ghost lv = lines.deep_view();
    let mut out: Vec<(String, String, PluginInfo)> = list::none();
    let mut i: usize = 0;
    while i < lines.len()
        invariant
            i <= lines.len(),
            lv == lines.deep_view(),
            out.deep_view() == rows_first(lv, i as int),
        decreases lines.len() - i,
    {
        assert(lv[i as int] == lines@[i as int]@);
        if let Some(row) = read_row(lines[i].as_str()) {
            list::put(&mut out, row);
        }
        i = i + 1;
    }
    assert(lv.len() == lines.len());
    assert(out.deep_view().len() == out.len());
    if out.len() > 0 {
        Some(out)
    } else {
        None
    }
}

} // verus!
