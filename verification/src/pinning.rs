//! What a new pin comes to: the rules that are read afterwards file the mod where the pin
//! says.
use vstd::prelude::*;
#[allow(unused_imports)]
use crate::edits;
#[allow(unused_imports)]
use crate::edits::{left_of, new_rule_replaces_old, places, rule_name, unplaced_first};
#[allow(unused_imports)]
use crate::map::{found, key_from, lemma_key_at, lemma_key_from};
#[allow(unused_imports)]
use crate::readback::{lemma_joined_lines, lemma_lines_append, lemma_split_at, lemma_trim_padded, lemma_trim_tight, lemma_trimmed_cut, tight};
#[allow(unused_imports)]
use crate::rules::{no_rules, sides, with_lines, with_rule, with_text};
#[allow(unused_imports)]
use crate::text::{ascii_lowered, begins, find_from, finishes, is_line, joined, joined_first, lemma_find, lemma_lines_have_no_feed, lines_of, lowercase, occurs_at, trimmed, without_cr};

verus! {

/// The rule that pins a mod to a section.
pub open spec fn pin_line(name: Seq<char>, section: Seq<char>) -> Seq<char> {
    "!"@ + name + " = "@ + section
}

/// A line that is read as an exact rule for a mod.
pub open spec fn pins(line: Seq<char>, name: Seq<char>) -> bool {
    let l = trimmed(line);
    begins(l, "!"@) && (match sides(l.skip(1)) {
        Some((a, _)) => a == name && ascii_lowered(a) != ascii_lowered("dump"@),
        None => false,
    })
}

/// What can stand as a name or a label in a rule.
pub open spec fn writable(s: Seq<char>) -> bool {
    s.len() > 0 && tight(s) && !s.contains('\n')
}

/// What stands in front of the first ` = `.
proof fn lemma_left(name: Seq<char>, section: Seq<char>)
    requires
        !name.contains('='),
    ensures
        left_of(name + " = "@ + section) == name,
{
    reveal_strlit(" = ");
    let p = " = "@;
    let rest = name + p + section;
    let n = name.len() as int;
    lemma_find(rest, p, 0);
    assert(rest.subrange(n, n + 3) =~= p);
    assert(occurs_at(rest, p, n));
    let k = find_from(rest, p, 0)->0;
    if k < n {
        assert(rest.subrange(k, k + 3)[1] == p[1]);
        assert(rest[k + 1] == '=');
        if k + 1 < n {
            assert(name[k + 1] == '=');
        } else {
            assert(rest[k + 1] == p[0]);
        }
    }
    assert(rest.take(k) =~= name);
}

/// The two sides of the equals sign.
proof fn lemma_sides(name: Seq<char>, section: Seq<char>)
    requires
        writable(name),
        writable(section),
        !name.contains('='),
    ensures
        sides(name + " = "@ + section) == Some((name, section)),
{
    reveal_strlit("=");
    reveal_strlit(" = ");
    let rest = name + " = "@ + section;
    let none = Seq::<char>::empty();
    assert("="@ =~= seq!['=']);
    let a = name + seq![' '];
    let b = seq![' '] + section;
    assert(rest =~= a + seq!['='] + b);
    if a.contains('=') {
        let i = choose|i: int| 0 <= i < a.len() && a[i] == '=';
        assert(i == name.len() || a[i] == name[i]);
    }
    lemma_split_at(a, '=', b);
    lemma_trim_padded(none, name, seq![' ']);
    assert(none + name + seq![' '] =~= a);
    lemma_trim_padded(seq![' '], section, none);
    assert(seq![' '] + section + none =~= b);
}

proof fn lemma_pin_line(name: Seq<char>, section: Seq<char>)
    requires
        writable(name),
        writable(section),
        !name.contains('='),
    ensures
        ({
            let line = pin_line(name, section);
            &&& rule_name(line) == Some(lowercase(name))
            &&& trimmed(line) == line
            &&& is_line(line)
            &&& line.len() > 0
            &&& begins(line, "!"@)
            &&& !begins(line, "#"@)
            &&& sides(line.skip(1)) == Some((name, section))
        }),
{
    reveal_strlit("!");
    reveal_strlit("#");
    let line = pin_line(name, section);
    let rest = name + " = "@ + section;
    assert(line.skip(1) =~= rest);
    assert(line[0] == '!');
    assert(line.take(1) =~= "!"@);
    assert(line.take(1)[0] != "#"@[0]);
    assert(line.last() == section.last());
    lemma_trim_tight(line);
    lemma_left(name, section);
    lemma_trim_tight(name);
    lemma_sides(name, section);
    assert(!line.contains('\n')) by {
        reveal_strlit(" = ");
        if line.contains('\n') {
            let i = choose|i: int| 0 <= i < line.len() && line[i] == '\n';
            if 0 < i <= name.len() {
                assert(line[i] == name[i - 1]);
            } else if name.len() < i < name.len() + 4 {
                assert(line[i] == " = "@[i - 1 - name.len()]);
            } else if i > 0 {
                assert(line[i] == section[i - 4 - name.len()]);
            }
        }
    }
}

/// Lines that are no exact rule for the mod leave it without one.
proof fn lemma_unpinned(lines: Seq<Seq<char>>, name: Seq<char>, n: int)
    requires
        0 <= n <= lines.len(),
        forall|i: int| 0 <= i < n ==> !pins(#[trigger] lines[i], name),
        ascii_lowered(name) != ascii_lowered("dump"@),
    ensures
        found(with_lines(no_rules(), lines, n).exact, name) is None,
    decreases n,
{
    let r = with_lines(no_rules(), lines, n);
    lemma_key_from(r.exact, name, 0);
    if n > 0 {
        lemma_unpinned(lines, name, n - 1);
        reveal_strlit("!");
        let before = with_lines(no_rules(), lines, n - 1);
        lemma_key_from(before.exact, name, 0);
        assert(!pins(lines[n - 1], name));
        let l = trimmed(lines[n - 1]);
        if r.exact != before.exact {
            assert(begins(l, "!"@));
            let (a, b) = sides(l.skip(1))->0;
            assert(r.exact == before.exact.push((a, b)));
            assert(a != name);
            if key_from(r.exact, name, 0) is Some {
                let k = key_from(r.exact, name, 0)->0;
                if k < before.exact.len() {
                    assert(before.exact[k].0 != name);
                }
            }
        }
    }
}

/// A text with a line feed at its end.
pub open spec fn closed_with_feed(s: Seq<char>) -> Seq<char> {
    if finishes(s, "\n"@) {
        s
    } else {
        s + "\n"@
    }
}

/// The lines in front of a new rule: those that stay, but for a carriage return at their
/// end, and blank ones.
proof fn lemma_lines_in_front(kept: Seq<Seq<char>>, name: Seq<char>)
    requires
        forall|i: int| 0 <= i < kept.len() ==> !(#[trigger] kept[i]).contains('\n'),
        forall|i: int| 0 <= i < kept.len() ==> !pins(#[trigger] kept[i], name),
    ensures
        ({
            let whole = joined(kept, "\n"@);
            let t = closed_with_feed(whole);
            &&& t.len() > 0
            &&& t.last() == '\n'
            &&& forall|i: int| 0 <= i < lines_of(t).len() ==> !pins(#[trigger] lines_of(t)[i], name)
        }),
{
    reveal_strlit("\n");
    reveal_strlit("!");
    assert("\n"@ =~= seq!['\n']);
    let whole = joined(kept, "\n"@);
    let m = kept.len() as int;
    let rows = if finishes(whole, "\n"@) {
        assert(whole.skip(whole.len() - 1)[0] == '\n');
        assert(whole.last() == '\n');
        if m <= 1 {
            if m == 1 {
                assert(!kept[0].contains('\n'));
                assert(kept[0].last() == '\n');
            }
            assert(false);
        }
        let last = kept[m - 1];
        if last.len() > 0 {
            assert(!kept[m - 1].contains('\n'));
            assert(whole.last() == last.last());
            assert(last[last.len() - 1] == '\n');
        }
        let less = kept.drop_last();
        lemma_joined_prefix(kept, less, m - 1);
        assert(whole =~= joined(less, "\n"@) + "\n"@);
        assert forall|i: int| 0 <= i < less.len() implies !(#[trigger] less[i]).contains('\n') by {
            assert(less[i] == kept[i]);
        }
        lemma_joined_lines(less);
        less
    } else {
        lemma_joined_lines(kept);
        kept
    };
    let t = closed_with_feed(whole);
    let read = lines_of(t);
    assert forall|i: int| 0 <= i < read.len() implies !pins(#[trigger] read[i], name) by {
        if rows.len() == 0 {
            assert(read[i] =~= Seq::<char>::empty());
            lemma_trim_tight(read[i]);
        } else {
            assert(read[i] == without_cr(rows[i]));
            assert(rows[i] == kept[i]);
            assert(!pins(kept[i], name));
            lemma_trimmed_cut(rows[i]);
        }
    }
}

proof fn lemma_joined_prefix(a: Seq<Seq<char>>, b: Seq<Seq<char>>, n: int)
    requires
        n <= a.len(),
        n <= b.len(),
        forall|i: int| 0 <= i < n ==> #[trigger] a[i] == b[i],
    ensures
        joined_first(a, "\n"@, n) == joined_first(b, "\n"@, n),
    decreases n,
{
    if n > 0 {
        lemma_joined_prefix(a, b, n - 1);
        assert(a[n - 1] == b[n - 1]);
        assert(a[0] == b[0]);
    }
}

/// A new pin decides: once it is added, the first exact rule for the mod names its
/// section, whatever the file said before. An older rule for the mod without spaces
/// around its equals sign would stay in front of it.
pub proof fn new_pin_decides(s: Seq<char>, name: Seq<char>, section: Seq<char>)
    requires
        writable(name),
        writable(section),
        !name.contains('='),
        ascii_lowered(name) != ascii_lowered("dump"@),
        forall|i: int|
            0 <= i < lines_of(s).len() && pins(#[trigger] lines_of(s)[i], name) ==> places(
                lines_of(s)[i],
                lowercase(name),
            ),
    ensures
        found(
            with_text(no_rules(), edits::with_rule(s, pin_line(name, section))).exact,
            name,
        ) == Some(section),
{
    reveal_strlit("\n");
    reveal_strlit("!");
    assert("\n"@ =~= seq!['\n']);
    let line = pin_line(name, section);
    lemma_pin_line(name, section);
    let lines = lines_of(s);
    let kept = unplaced_first(lines, lowercase(name), lines.len() as int);
    lemma_lines_have_no_feed(s, 0);
    assert forall|i: int| 0 <= i < kept.len() implies !(#[trigger] kept[i]).contains('\n')
        && !pins(kept[i], name) by {
        new_rule_replaces_old(lines, lowercase(name), lines.len() as int, i);
        let j = choose|j: int| 0 <= j < lines.len() && lines[j] == kept[i];
        assert(!lines[j].contains('\n'));
        assert(pins(lines[j], name) ==> places(lines[j], lowercase(name)));
    }
    lemma_lines_in_front(kept, name);
    let whole = joined(kept, "\n"@);
    let t = closed_with_feed(whole);
    lemma_lines_append(t, line);
    let read = lines_of(edits::with_rule(s, line));
    assert(read == lines_of(t).push(line));
    let n = lines_of(t).len() as int;
    assert forall|i: int| 0 <= i < n implies !pins(#[trigger] read[i], name) by {
        assert(read[i] == lines_of(t)[i]);
    }
    lemma_unpinned(read, name, n);
    let before = with_lines(no_rules(), read, n);
    let after = with_lines(no_rules(), read, n + 1);
    assert(read[n] == line);
    assert(after.exact == before.exact.push((name, section)));
    lemma_key_from(before.exact, name, 0);
    assert forall|h: int| 0 <= h < before.exact.len() implies #[trigger] after.exact[h].0 != name by {
        assert(before.exact[h].0 != name);
    }
    lemma_key_at(after.exact, name, 0, before.exact.len() as int);
}

} // verus!
