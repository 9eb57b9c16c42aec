//! A profile's group graph: which separator must load after which.
use vstd::prelude::*;
use crate::keys;
#[allow(unused_imports)]
use crate::keys::{header_of, is_comment, place_like, section_after};
use crate::list;
use crate::profile;
#[allow(unused_imports)]
use crate::profile::data_path;
use crate::text;
#[allow(unused_imports)]
use crate::text::{ascii_lowered, ended, is_line, lines_of, split_first, trimmed};
#[allow(unused_imports)]
use crate::readback::{lemma_split_at, lemma_trim_padded, lemma_trim_tight, tight};

verus! {

pub type Links = Seq<(Seq<char>, Seq<char>)>;

/// Whether the link is there, whatever its case.
pub open spec fn linked(links: Links, later: Seq<char>, earlier: Seq<char>) -> bool {
    exists|i: int|
        0 <= i < links.len() && ascii_lowered((#[trigger] links[i]).0) == ascii_lowered(later)
            && ascii_lowered(links[i].1) == ascii_lowered(earlier)
}

/// The link of a row `later = earlier`: both are labels of the profile, and not the same.
pub open spec fn link_of(line: Seq<char>, labels: Seq<Seq<char>>) -> Option<(Seq<char>, Seq<char>)> {
    match split_first(line, "="@) {
        Some((a, b)) => {
            let later = trimmed(a);
            let earlier = trimmed(b);
            match (place_like(labels, later, 0), place_like(labels, earlier, 0)) {
                (Some(i), Some(j)) => if later.len() == 0 || earlier.len() == 0 || ascii_lowered(
                    later,
                ) == ascii_lowered(earlier) {
                    None
                } else {
                    Some((labels[i], labels[j]))
                },
                _ => None,
            }
        },
        None => None,
    }
}

/// The links of the first `n` lines, each once.
pub open spec fn links_first(lines: Seq<Seq<char>>, labels: Seq<Seq<char>>, n: int) -> Links
    decreases n,
{
    if n <= 0 {
        Seq::empty()
    } else {
        let before = links_first(lines, labels, n - 1);
        let line = trimmed(lines[n - 1]);
        if line.len() == 0 || is_comment(line) || header_of(line) is Some || ascii_lowered(
            section_after(lines, n),
        ) != ascii_lowered("after"@) {
            before
        } else {
            match link_of(line, labels) {
                Some((later, earlier)) => if linked(before, later, earlier) {
                    before
                } else {
                    before.push((later, earlier))
                },
                None => before,
            }
        }
    }
}

pub open spec fn links_of(s: Seq<char>, labels: Seq<Seq<char>>) -> Links {
    links_first(lines_of(s), labels, lines_of(s).len() as int)
}

fn has_link(links: &Vec<(String, String)>, later: &str, earlier: &str) -> (r: bool)
    ensures
        r == linked(links.deep_view(), later@, earlier@),
{
    let ghost lv = links.deep_view();
    let mut i: usize = 0;
    while i < links.len()
        invariant
            i <= links.len(),
            lv == links.deep_view(),
            forall|j: int|
                0 <= j < i ==> !(ascii_lowered((#[trigger] lv[j]).0) == ascii_lowered(later@)
                    && ascii_lowered(lv[j].1) == ascii_lowered(earlier@)),
        decreases links.len() - i,
    {
        assert(lv[i as int] == links@[i as int].deep_view());
        if text::same_ignoring_case(links[i].0.as_str(), later) && text::same_ignoring_case(
            links[i].1.as_str(),
            earlier,
        ) {
            return true;
        }
        i = i + 1;
    }
    assert(lv.len() == links.len());
    false
}

fn read_link(line: &str, labels: &[String]) -> (r: Option<(String, String)>)
    ensures
        r.deep_view() == link_of(line@, labels.deep_view()),
{
    match text::split_once(line, "=") {
        Some((a, b)) => {
            let later = text::trim(a.as_str());
            let earlier = text::trim(b.as_str());
            let left = text::chars_of(later.as_str());
            let right = text::chars_of(earlier.as_str());
            if left.len() == 0 || right.len() == 0 || text::same_ignoring_case(
                later.as_str(),
                earlier.as_str(),
            ) {
                return None;
            }
            match (keys::find_like(labels, later.as_str()), keys::find_like(labels, earlier.as_str())) {
                (Some(i), Some(j)) => {
                    assert(labels.deep_view()[i as int] == labels@[i as int]@);
                    assert(labels.deep_view()[j as int] == labels@[j as int]@);
                    Some((labels[i].clone(), labels[j].clone()))
                },
                _ => None,
            }
        },
        None => None,
    }
}

/// The links that a text states between the labels of a profile.
pub fn parse(s: &str, labels: &[String]) -> (r: Vec<(String, String)>)
    ensures
        r.deep_view() == links_of(s@, labels.deep_view()),
{
    let lines = text::lines(s);
    let ghost lv = lines.deep_view();
    let mut out: Vec<(String, String)> = list::none();
    let mut section = String::new();
    let mut i: usize = 0;
    assert(section@ =~= section_after(lv, 0));
    while i < lines.len()
        invariant
            i <= lines.len(),
            lv == lines.deep_view(),
            section@ == section_after(lv, i as int),
            out.deep_view() == links_first(lv, labels.deep_view(), i as int),
        decreases lines.len() - i,
    {
        assert(lv[i as int] == lines@[i as int]@);
        let line = text::trim(lines[i].as_str());
        let chars = text::chars_of(line.as_str());
        match keys::header(line.as_str()) {
            Some(h) => {
                section = h;
            },
            None => {
                if chars.len() > 0 && !keys::comment(line.as_str()) && text::same_ignoring_case(
                    section.as_str(),
                    "after",
                ) {
                    if let Some((later, earlier)) = read_link(line.as_str(), labels) {
                        if !has_link(&out, later.as_str(), earlier.as_str()) {
                            list::put(&mut out, (later, earlier));
                        }
                    }
                }
            },
        }
        i = i + 1;
    }
    assert(lv.len() == lines.len());
    out
}

pub open spec fn link_rows(links: Links) -> Seq<Seq<char>> {
    Seq::new(links.len(), |i: int| links[i].0 + " = "@ + links[i].1)
}

/// The lines of a graph.
pub open spec fn graph_lines(links: Links) -> Seq<Seq<char>> {
    seq![
        "# ModSlut separator group graph. Profile-local and safe to share."@,
        "# `later = earlier` means the later separator loads after the earlier one."@,
        ""@,
        "[after]"@,
    ] + link_rows(links)
}

/// The text of a graph.
pub fn save(edges: &Vec<(String, String)>) -> (r: String)
    ensures
        r@ == ended(graph_lines(edges.deep_view())),
{
    let ghost ev = edges.deep_view();
    let ghost rows = link_rows(ev);
    let mut out: Vec<String> = list::none();
    list::put(
        &mut out,
        "# ModSlut separator group graph. Profile-local and safe to share.".to_string(),
    );
    list::put(
        &mut out,
        "# `later = earlier` means the later separator loads after the earlier one.".to_string(),
    );
    list::put(&mut out, "".to_string());
    list::put(&mut out, "[after]".to_string());
    let ghost head = out.deep_view();
    let mut i: usize = 0;
    assert(head + rows.take(0) =~= head);
    while i < edges.len()
        invariant
            i <= edges.len(),
            ev == edges.deep_view(),
            rows == link_rows(ev),
            out.deep_view() == head + rows.take(i as int),
        decreases edges.len() - i,
    {
        assert(ev[i as int] == edges@[i as int].deep_view());
        list::put(&mut out, text::cat3(edges[i].0.as_str(), " = ", edges[i].1.as_str()));
        i = i + 1;
        assert(out.deep_view() =~= head + rows.take(i as int));
    }
    assert(ev.len() == edges.len());
    assert(out.deep_view() =~= graph_lines(ev));
    text::end_lines(&out)
}

/// The text of a graph without links.
pub fn clear() -> (r: String)
    ensures
        r@ == ended(graph_lines(Seq::empty())),
{
    save(&list::none())
}

/// The lines of a new graph: how a link would be written for every label.
pub open spec fn blank_lines(labels: Seq<Seq<char>>) -> Seq<Seq<char>> {
    seq![
        "# ModSlut separator group graph. Profile-local and safe to share."@,
        "#"@,
        "# Each group is one of this profile's separator labels."@,
        "# In [after], `later = earlier` means the later group loads after the earlier group."@,
        ""@,
        "[after]"@,
    ] + Seq::new(labels.len(), |i: int| "# "@ + labels[i] + " = <earlier separator>"@)
}

fn blank(labels: &[String]) -> (r: String)
    ensures
        r@ == ended(blank_lines(labels.deep_view())),
{
    let ghost lv = labels.deep_view();
    let ghost all = blank_lines(lv);
    let mut out: Vec<String> = list::none();
    list::put(
        &mut out,
        "# ModSlut separator group graph. Profile-local and safe to share.".to_string(),
    );
    list::put(&mut out, "#".to_string());
    list::put(&mut out, "# Each group is one of this profile's separator labels.".to_string());
    list::put(
        &mut out,
        "# In [after], `later = earlier` means the later group loads after the earlier group.".to_string(),
    );
    list::put(&mut out, "".to_string());
    list::put(&mut out, "[after]".to_string());
    let mut i: usize = 0;
    assert(out.deep_view() =~= all.take(6));
    while i < labels.len()
        invariant
            i <= labels.len(),
            lv == labels.deep_view(),
            all == blank_lines(lv),
            out.deep_view() == all.take(6 + i),
        decreases labels.len() - i,
    {
        assert(lv[i as int] == labels@[i as int]@);
        list::put(&mut out, text::cat3("# ", labels[i].as_str(), " = <earlier separator>"));
        i = i + 1;
        assert(out.deep_view() =~= all.take(6 + i));
    }
    assert(lv.len() == labels.len());
    assert(out.deep_view() =~= all);
    text::end_lines(&out)
}

/// The links of a profile, and the text of a new graph where it has none yet.
pub fn load_or_create(existing: Option<&str>, labels: &[String]) -> (r: (
    Vec<(String, String)>,
    Option<String>,
))
    ensures
        match existing {
            Some(s) => r.1 is None && r.0.deep_view() == links_of(s@, labels.deep_view()),
            None => r.1.deep_view() == Some(ended(blank_lines(labels.deep_view())))
                && r.0.deep_view() == links_of(
                ended(blank_lines(labels.deep_view())),
                labels.deep_view(),
            ),
        },
{
    match existing {
        Some(s) => (parse(s, labels), None),
        None => {
            let s = blank(labels);
            (parse(s.as_str(), labels), Some(s))
        },
    }
}

/// How many links of a source fit a profile, and the text of the graph with them.
pub fn import_for_profile(source: &str, labels: &[String]) -> (r: (usize, String))
    ensures
        r.0 == links_of(source@, labels.deep_view()).len(),
        r.1@ == ended(graph_lines(links_of(source@, labels.deep_view()))),
{
    let edges = parse(source, labels);
    assert(edges.deep_view().len() == edges.len());
    (edges.len(), save(&edges))
}

/// Where the graph of a profile is kept.
pub fn path_for(folder: &str) -> (r: String)
    ensures
        r@ == data_path(folder@, "groups.ini"@),
{
    profile::profile_data_path(folder, "groups.ini")
}

// ---- laws ----

/// A label that a row can hold, which the list of labels spells the same way.
pub open spec fn is_plain(label: Seq<char>, labels: Seq<Seq<char>>) -> bool {
    label.len() > 0 && tight(label) && !label.contains('=') && !label.contains('\n') && label[0]
        != '#' && label[0] != ';' && label[0] != '[' && place_like(labels, label, 0) is Some
        && labels[place_like(labels, label, 0)->0] == label
}

/// Links between labels of the profile, none from a label to itself, and none twice.
pub open spec fn links_valid(links: Links, labels: Seq<Seq<char>>) -> bool {
    &&& forall|i: int|
        0 <= i < links.len() ==> is_plain((#[trigger] links[i]).0, labels) && is_plain(
            links[i].1,
            labels,
        ) && ascii_lowered(links[i].0) != ascii_lowered(links[i].1)
    &&& forall|i: int, j: int|
        #![trigger links[i], links[j]]
        0 <= i < j < links.len() ==> !(ascii_lowered(links[i].0) == ascii_lowered(links[j].0)
            && ascii_lowered(links[i].1) == ascii_lowered(links[j].1))
}

proof fn lemma_link_row(a: Seq<char>, b: Seq<char>, labels: Seq<Seq<char>>)
    requires
        is_plain(a, labels),
        is_plain(b, labels),
        ascii_lowered(a) != ascii_lowered(b),
    ensures
        ({
            let row = a + " = "@ + b;
            &&& trimmed(row) == row
            &&& row.len() > 0
            &&& !is_comment(row)
            &&& header_of(row) is None
            &&& link_of(row, labels) == Some((a, b))
            &&& is_line(row)
        }),
{
    reveal_strlit(" = ");
    reveal_strlit("=");
    reveal_strlit("#");
    reveal_strlit(";");
    reveal_strlit("[");
    assert(" = "@ =~= seq![' ', '=', ' '] && "="@ =~= seq!['=']);
    let sp = seq![' '];
    let none = Seq::<char>::empty();
    let row = a + " = "@ + b;
    let left = a + sp;
    let right = sp + b;
    assert(row =~= left + seq!['='] + right);
    assert(row[0] == a[0] && row.last() == b.last());
    lemma_trim_tight(row);
    assert(row.take(1)[0] == a[0]);
    assert(!left.contains('=')) by {
        assert forall|i: int| 0 <= i < left.len() implies left[i] != '=' by {
            if i < a.len() {
                assert(left[i] == a[i]);
            }
        }
    }
    lemma_split_at(left, '=', right);
    lemma_trim_padded(none, a, sp);
    assert(none + a + sp =~= left);
    lemma_trim_padded(sp, b, none);
    assert(sp + b + none =~= right);
    assert forall|i: int| 0 <= i < row.len() implies row[i] != '\n' by {
        if i < a.len() {
            assert(row[i] == a[i]);
        } else if i >= a.len() + 3 {
            assert(row[i] == b[i - a.len() - 3]);
        }
    }
}

proof fn lemma_graph(links: Links, labels: Seq<Seq<char>>, n: int)
    requires
        0 <= n <= links.len(),
        links_valid(links, labels),
    ensures
        links_first(graph_lines(links), labels, n + 4) == links.take(n),
        section_after(graph_lines(links), n + 4) == "after"@,
    decreases n,
{
    let lines = graph_lines(links);
    if n > 0 {
        lemma_graph(links, labels, n - 1);
        let (a, b) = links[n - 1];
        lemma_link_row(a, b, labels);
        assert(lines[n + 3] == a + " = "@ + b);
        let before = links.take(n - 1);
        if linked(before, a, b) {
            let i = choose|i: int|
                0 <= i < before.len() && ascii_lowered((#[trigger] before[i]).0) == ascii_lowered(a)
                    && ascii_lowered(before[i].1) == ascii_lowered(b);
            assert(links[i] == before[i]);
            assert(!(ascii_lowered(links[i].0) == ascii_lowered(links[n - 1].0) && ascii_lowered(
                links[i].1,
            ) == ascii_lowered(links[n - 1].1)));
        }
        assert(links.take(n) =~= before.push((a, b)));
    } else {
        lemma_graph_head(links, labels);
        assert(links.take(0) =~= Seq::empty());
    }
}

proof fn lemma_graph_head(links: Links, labels: Seq<Seq<char>>)
    ensures
        links_first(graph_lines(links), labels, 4) == (Links::empty()),
        section_after(graph_lines(links), 4) == "after"@,
        forall|i: int| 0 <= i < 4 ==> is_line(#[trigger] graph_lines(links)[i]),
{
    let lines = graph_lines(links);
    reveal_strlit("# ModSlut separator group graph. Profile-local and safe to share.");
    reveal_strlit("# `later = earlier` means the later separator loads after the earlier one.");
    reveal_strlit("");
    reveal_strlit("[after]");
    reveal_strlit("after");
    reveal_strlit("#");
    reveal_strlit("[");
    reveal_strlit("]");
    let a = lines[0];
    let b = lines[1];
    let c = lines[2];
    let d = lines[3];
    assert(a == "# ModSlut separator group graph. Profile-local and safe to share."@);
    assert(b == "# `later = earlier` means the later separator loads after the earlier one."@);
    assert(c == ""@ && d == "[after]"@);
    lemma_trim_tight(a);
    lemma_trim_tight(b);
    lemma_trim_tight(c);
    lemma_trim_tight(d);
    assert(a.take(1) =~= "#"@ && b.take(1) =~= "#"@);
    assert(c.len() == 0);
    assert(d.take(1) =~= "["@ && d.skip(6) =~= "]"@);
    assert(d.subrange(1, 6) =~= "after"@);
    assert(header_of(d) == Some("after"@));
    assert(links_first(lines, labels, 0) =~= Seq::empty());
    assert(links_first(lines, labels, 1) == links_first(lines, labels, 0));
    assert(links_first(lines, labels, 2) == links_first(lines, labels, 1));
    assert(links_first(lines, labels, 3) == links_first(lines, labels, 2));
    assert(links_first(lines, labels, 4) == links_first(lines, labels, 3));
}

/// A graph that is saved is read back, link for link.
pub proof fn saved_links_are_read(links: Links, labels: Seq<Seq<char>>)
    requires
        links_valid(links, labels),
    ensures
        links_of(ended(graph_lines(links)), labels) == links,
{
    let lines = graph_lines(links);
    lemma_graph_head(links, labels);
    assert forall|i: int| 0 <= i < lines.len() implies is_line(#[trigger] lines[i]) by {
        if i >= 4 {
            assert(lines[i] == links[i - 4].0 + " = "@ + links[i - 4].1);
            lemma_link_row(links[i - 4].0, links[i - 4].1, labels);
        }
    }
    text::lemma_lines_read_back(lines);
    lemma_graph(links, labels, links.len() as int);
    assert(links.take(links.len() as int) =~= links);
}

/// No link that is read goes from a label to itself, and both ends are labels.
pub proof fn read_links_join_two_labels(s: Seq<char>, labels: Seq<Seq<char>>, i: int)
    requires
        0 <= i < links_of(s, labels).len(),
    ensures
        labels.contains(links_of(s, labels)[i].0),
        labels.contains(links_of(s, labels)[i].1),
        ascii_lowered(links_of(s, labels)[i].0) != ascii_lowered(links_of(s, labels)[i].1),
{
    lemma_links_first(lines_of(s), labels, lines_of(s).len() as int, i);
}

pub proof fn lemma_place_like(s: Seq<Seq<char>>, x: Seq<char>, i: int)
    requires
        0 <= i,
    ensures
        match place_like(s, x, i) {
            Some(j) => i <= j < s.len() && ascii_lowered(s[j]) == ascii_lowered(x),
            None => true,
        },
    decreases s.len() - i,
{
    if i < s.len() && ascii_lowered(s[i]) != ascii_lowered(x) {
        lemma_place_like(s, x, i + 1);
    }
}

proof fn lemma_links_first(lines: Seq<Seq<char>>, labels: Seq<Seq<char>>, n: int, i: int)
    requires
        0 <= n <= lines.len(),
        0 <= i < links_first(lines, labels, n).len(),
    ensures
        labels.contains(links_first(lines, labels, n)[i].0),
        labels.contains(links_first(lines, labels, n)[i].1),
        ascii_lowered(links_first(lines, labels, n)[i].0) != ascii_lowered(
            links_first(lines, labels, n)[i].1,
        ),
    decreases n,
{
    if n > 0 {
        let before = links_first(lines, labels, n - 1);
        if i < before.len() {
            lemma_links_first(lines, labels, n - 1, i);
        } else {
            let line = trimmed(lines[n - 1]);
            let (a, b) = split_first(line, "="@)->0;
            lemma_place_like(labels, trimmed(a), 0);
            lemma_place_like(labels, trimmed(b), 0);
        }
    }
}

// ---- editing ----

/// Two separators can be linked where both are chosen and they differ.
pub open spec fn can_link(later: Seq<char>, earlier: Seq<char>) -> bool {
    later.len() > 0 && earlier.len() > 0 && later != earlier
}

/// Adds a link that is not there yet, and says whether the two can be linked.
pub fn add_link(links: &mut Vec<(String, String)>, later: &str, earlier: &str) -> (r: bool)
    ensures
        r == can_link(later@, earlier@),
        final(links).deep_view() == if !r || old(links).deep_view().contains((later@, earlier@)) {
            old(links).deep_view()
        } else {
            old(links).deep_view().push((later@, earlier@))
        },
{
    let ghost before = links.deep_view();
    if later.is_empty() || earlier.is_empty() || text::same(later, earlier) {
        return false;
    }
    let mut i: usize = 0;
    while i < links.len()
        invariant
            i <= links.len(),
            before == links.deep_view(),
            before == old(links).deep_view(),
            can_link(later@, earlier@),
            forall|j: int| 0 <= j < i ==> (#[trigger] before[j]) != (later@, earlier@),
        decreases links.len() - i,
    {
        assert(before[i as int] == (links@[i as int].0@, links@[i as int].1@));
        if text::same(links[i].0.as_str(), later) && text::same(links[i].1.as_str(), earlier) {
            return true;
        }
        i = i + 1;
    }
    assert(before.len() == links.len());
    list::put(links, (later.to_string(), earlier.to_string()));
    true
}

} // verus!
