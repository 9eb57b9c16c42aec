//! What a plugin file tells: whoever writes a plugin out of masters, groups and records
//! finds each of them again in what is read.
use vstd::prelude::*;
#[allow(unused_imports)]
use crate::map::{found, insert_then_get};
#[allow(unused_imports)]
use crate::plugins::{before_zero, bumped, census_from, header_from, inflated, is_compressed, is_semantic, keyword_name, lossy, master_name, no_census, one_more, plugin_from, plugin_of_bytes, plugin_of_file, scanned, tag, tag_of, u16_at, u32_at, with_forms, with_keywords, with_subrecords, Census, Counts, Header, PluginView};
#[allow(unused_imports)]
use crate::text::{hex_fixed, lowercase};

verus! {

// ---- how a plugin is written ----

/// A number in four bytes, the lowest first.
pub open spec fn four(n: nat) -> Seq<u8> {
    seq![
        (n % 0x100) as u8,
        (n / 0x100 % 0x100) as u8,
        (n / 0x1_0000 % 0x100) as u8,
        (n / 0x100_0000 % 0x100) as u8,
    ]
}

/// A number in two bytes, the lower first.
pub open spec fn two(n: nat) -> Seq<u8> {
    seq![(n % 0x100) as u8, (n / 0x100 % 0x100) as u8]
}

/// A part of a record: the form numbers of its keywords, or something else.
pub enum Field {
    Keywords(Seq<u32>),
    Other(Seq<u8>, Seq<u8>),
}

/// What stands in a plugin behind its header: records, and groups of them.
pub enum Node {
    Record { kind: Seq<u8>, flags: u32, stamp: Seq<u8>, data: Seq<u8>, fields: Seq<Field> },
    Group { label: Seq<u8>, stamp: Seq<u8>, nodes: Seq<Node> },
}

pub open spec fn forms_bytes(forms: Seq<u32>) -> Seq<u8>
    decreases forms.len(),
{
    if forms.len() == 0 {
        Seq::empty()
    } else {
        four(forms[0] as nat) + forms_bytes(forms.drop_first())
    }
}

pub open spec fn field_body(f: Field) -> Seq<u8> {
    match f {
        Field::Keywords(forms) => forms_bytes(forms),
        Field::Other(_, data) => data,
    }
}

pub open spec fn field_kind(f: Field) -> Seq<u8> {
    match f {
        Field::Keywords(_) => seq!['K' as u8, 'W' as u8, 'D' as u8, 'A' as u8],
        Field::Other(kind, _) => kind,
    }
}

pub open spec fn field_bytes(f: Field) -> Seq<u8> {
    field_kind(f) + two(field_body(f).len()) + field_body(f)
}

pub open spec fn fields_bytes(fields: Seq<Field>) -> Seq<u8>
    decreases fields.len(),
{
    if fields.len() == 0 {
        Seq::empty()
    } else {
        field_bytes(fields[0]) + fields_bytes(fields.drop_first())
    }
}

pub open spec fn group_tag() -> Seq<u8> {
    seq!['G' as u8, 'R' as u8, 'U' as u8, 'P' as u8]
}

pub open spec fn node_bytes(node: Node) -> Seq<u8>
    decreases node,
{
    match node {
        Node::Record { kind, flags, stamp, data, fields } => kind + four(data.len()) + four(
            flags as nat,
        ) + stamp + data,
        Node::Group { label, stamp, nodes } => group_tag() + four(24 + nodes_bytes(nodes).len())
            + label + stamp + nodes_bytes(nodes),
    }
}

pub open spec fn nodes_bytes(nodes: Seq<Node>) -> Seq<u8>
    decreases nodes,
{
    if nodes.len() == 0 {
        Seq::empty()
    } else {
        node_bytes(nodes[0]) + nodes_bytes(nodes.drop_first())
    }
}

pub open spec fn field_sound(f: Field) -> bool {
    &&& field_kind(f).len() == 4
    &&& field_body(f).len() < 0x1_0000
    &&& f matches Field::Other(kind, _) ==> kind != seq![
        'K' as u8,
        'W' as u8,
        'D' as u8,
        'A' as u8,
    ]
}

/// The record is packed: the flag for that is the nineteenth.
pub open spec fn packed(flags: u32) -> bool {
    flags / 0x4_0000 % 2 == 1
}

/// The data of a record is the fields, as they are or packed behind their size.
pub open spec fn holds_fields(data: Seq<u8>, flags: u32, fields: Seq<Field>) -> bool {
    if packed(flags) {
        data.len() >= 4 && inflated(data.skip(4)) == Some(fields_bytes(fields))
    } else {
        data == fields_bytes(fields)
    }
}

/// A kind of record whose keywords say what it is: armor, weapons, ammunition, actors,
/// races, spells and magic effects.
pub open spec fn tells_keywords(kind: Seq<u8>) -> bool {
    ||| kind == seq!['A' as u8, 'R' as u8, 'M' as u8, 'O' as u8]
    ||| kind == seq!['W' as u8, 'E' as u8, 'A' as u8, 'P' as u8]
    ||| kind == seq!['A' as u8, 'M' as u8, 'M' as u8, 'O' as u8]
    ||| kind == seq!['N' as u8, 'P' as u8, 'C' as u8, '_' as u8]
    ||| kind == seq!['R' as u8, 'A' as u8, 'C' as u8, 'E' as u8]
    ||| kind == seq!['S' as u8, 'P' as u8, 'E' as u8, 'L' as u8]
    ||| kind == seq!['M' as u8, 'G' as u8, 'E' as u8, 'F' as u8]
}

/// The node can be written: its names have four bytes, its sizes fit, and groups nest no
/// deeper than `levels`.
pub open spec fn node_sound(node: Node, levels: int) -> bool
    decreases node,
{
    match node {
        Node::Record { kind, flags, stamp, data, fields } => {
            &&& kind.len() == 4
            &&& kind != group_tag()
            &&& stamp.len() == 12
            &&& data.len() <= u32::MAX
            &&& tells_keywords(kind) ==> holds_fields(data, flags, fields) && forall|i: int|
                0 <= i < fields.len() ==> field_sound(#[trigger] fields[i])
        },
        Node::Group { label, stamp, nodes } => {
            &&& label.len() == 4
            &&& stamp.len() == 12
            &&& 24 + nodes_bytes(nodes).len() <= u32::MAX
            &&& levels > 0
            &&& nodes_sound(nodes, levels - 1)
        },
    }
}

pub open spec fn nodes_sound(nodes: Seq<Node>, levels: int) -> bool
    decreases nodes,
{
    nodes.len() > 0 ==> node_sound(nodes[0], levels) && nodes_sound(nodes.drop_first(), levels)
}

// ---- how often something is written ----

/// How many records of that kind there are, at whatever depth.
pub open spec fn records_in(nodes: Seq<Node>, kind: Seq<char>) -> nat
    decreases nodes,
{
    if nodes.len() == 0 {
        0
    } else {
        records_in_node(nodes[0], kind) + records_in(nodes.drop_first(), kind)
    }
}

pub open spec fn records_in_node(node: Node, kind: Seq<char>) -> nat
    decreases node,
{
    match node {
        Node::Record { kind: own, .. } => if lossy(own) == kind {
            1
        } else {
            0
        },
        Node::Group { nodes, .. } => records_in(nodes, kind),
    }
}

/// A form number by its name: the master that its first byte counts out, or the plugin
/// itself, and the rest in hex.
pub open spec fn form_name(id: u32, masters: Seq<Seq<char>>) -> Seq<char> {
    let index = id as int / 0x100_0000;
    (if index < masters.len() {
        masters[index]
    } else {
        "self"@
    }) + seq!['|'] + hex_fixed((id % 0x100_0000) as nat, 8)
}

pub open spec fn forms_named(forms: Seq<u32>, masters: Seq<Seq<char>>, name: Seq<char>) -> nat
    decreases forms.len(),
{
    if forms.len() == 0 {
        0
    } else {
        (if form_name(forms[0], masters) == name {
            1nat
        } else {
            0
        }) + forms_named(forms.drop_first(), masters, name)
    }
}

pub open spec fn fields_named(fields: Seq<Field>, masters: Seq<Seq<char>>, name: Seq<char>) -> nat
    decreases fields.len(),
{
    if fields.len() == 0 {
        0
    } else {
        (match fields[0] {
            Field::Keywords(forms) => forms_named(forms, masters, name),
            Field::Other(_, _) => 0,
        }) + fields_named(fields.drop_first(), masters, name)
    }
}

/// How often records that tell keywords name that one, at whatever depth.
pub open spec fn keywords_in(nodes: Seq<Node>, masters: Seq<Seq<char>>, name: Seq<char>) -> nat
    decreases nodes,
{
    if nodes.len() == 0 {
        0
    } else {
        keywords_in_node(nodes[0], masters, name) + keywords_in(nodes.drop_first(), masters, name)
    }
}

pub open spec fn keywords_in_node(node: Node, masters: Seq<Seq<char>>, name: Seq<char>) -> nat
    decreases node,
{
    match node {
        Node::Record { kind, fields, .. } => if tells_keywords(kind) {
            fields_named(fields, masters, name)
        } else {
            0
        },
        Node::Group { nodes, .. } => keywords_in(nodes, masters, name),
    }
}

/// How often something was counted.
pub open spec fn times(c: Counts, k: Seq<char>) -> nat {
    match found(c, k) {
        Some(n) => n as nat,
        None => 0,
    }
}

/// The counts of `b` are those of `a` and `more` of each; they wrap like the machine's.
pub open spec fn adds(a: Counts, b: Counts, more: spec_fn(Seq<char>) -> nat) -> bool {
    forall|k: Seq<char>| #[trigger] times(b, k) == (times(a, k) + more(k)) % 0x1_0000_0000
}

// ---- numbers ----

proof fn lemma_four(b: Seq<u8>, at: int, n: nat)
    requires
        0 <= at,
        at + 4 <= b.len(),
        n <= u32::MAX,
        b.subrange(at, at + 4) == four(n),
    ensures
        u32_at(b, at) == n,
{
    let f = four(n);
    assert(b[at] == f[0] && b[at + 1] == f[1] && b[at + 2] == f[2] && b[at + 3] == f[3]) by {
        let s = b.subrange(at, at + 4);
        assert(s[0] == b[at] && s[1] == b[at + 1] && s[2] == b[at + 2] && s[3] == b[at + 3]);
    }
}

proof fn lemma_two(b: Seq<u8>, at: int, n: nat)
    requires
        0 <= at,
        at + 2 <= b.len(),
        n < 0x1_0000,
        b.subrange(at, at + 2) == two(n),
    ensures
        u16_at(b, at) == n,
{
    let f = two(n);
    assert(b[at] == f[0] && b[at + 1] == f[1]) by {
        let s = b.subrange(at, at + 2);
        assert(s[0] == b[at] && s[1] == b[at + 1]);
    }
}

proof fn lemma_flags(flags: u32)
    ensures
        is_compressed(flags) == packed(flags),
        (flags & 0x1u32 != 0) == (flags % 2 == 1),
        (flags & 0x200u32 != 0) == (flags / 0x200 % 2 == 1),
{
    assert((flags & 0x0004_0000u32 != 0) == (flags / 0x4_0000u32 % 2 == 1)) by (bit_vector);
    assert((flags & 0x1u32 != 0) == (flags % 2 == 1)) by (bit_vector);
    assert((flags & 0x200u32 != 0) == (flags / 0x200u32 % 2 == 1)) by (bit_vector);
}

proof fn lemma_bumped(c: Counts, k: Seq<char>, q: Seq<char>)
    ensures
        times(bumped(c, k), q) == (times(c, q) + (if k == q {
            1nat
        } else {
            0
        })) % 0x1_0000_0000,
{
    match found(c, k) {
        Some(n) => {
            insert_then_get(c, k, one_more(n), q);
        },
        None => {
            insert_then_get(c, k, 1, q);
        },
    }
}

/// A piece of a text of bytes, and a piece of that piece.
proof fn lemma_inside(b: Seq<u8>, at: int, whole: Seq<u8>, i: int, j: int)
    requires
        0 <= at,
        at + whole.len() <= b.len(),
        b.subrange(at, at + whole.len()) == whole,
        0 <= i <= j <= whole.len(),
    ensures
        b.subrange(at + i, at + j) == whole.subrange(i, j),
{
    assert(b.subrange(at + i, at + j) =~= whole.subrange(i, j)) by {
        assert forall|k: int| 0 <= k < j - i implies b.subrange(at + i, at + j)[k]
            == whole.subrange(i, j)[k] by {
            assert(b.subrange(at, at + whole.len())[i + k] == b[at + i + k]);
        }
    }
}

// ---- keywords ----

proof fn lemma_form_name(id: u32, masters: Seq<Seq<char>>)
    ensures
        keyword_name(id, masters) == form_name(id, masters),
{
    reveal_strlit("|");
    assert("|"@ =~= seq!['|']);
}

proof fn lemma_forms_len(forms: Seq<u32>)
    ensures
        forms_bytes(forms).len() == 4 * forms.len(),
    decreases forms.len(),
{
    if forms.len() > 0 {
        lemma_forms_len(forms.drop_first());
    }
}

proof fn lemma_forms(
    kws: Counts,
    data: Seq<u8>,
    from: int,
    to: int,
    masters: Seq<Seq<char>>,
    forms: Seq<u32>,
    k: Seq<char>,
)
    requires
        0 <= from <= to <= data.len(),
        data.subrange(from, to) == forms_bytes(forms),
    ensures
        times(with_forms(kws, data, from, to, masters), k) == (times(kws, k) + forms_named(
            forms,
            masters,
            k,
        )) % 0x1_0000_0000,
    decreases forms.len(),
{
    lemma_forms_len(forms);
    let whole = forms_bytes(forms);
    assert(whole.len() == to - from);
    if forms.len() > 0 {
        let rest = forms.drop_first();
        lemma_forms_len(rest);
        lemma_inside(data, from, whole, 0, 4);
        assert(whole.subrange(0, 4) =~= four(forms[0] as nat));
        lemma_four(data, from, forms[0] as nat);
        lemma_inside(data, from, whole, 4, whole.len() as int);
        assert(whole.subrange(4, whole.len() as int) =~= forms_bytes(rest));
        lemma_form_name(forms[0], masters);
        let name = keyword_name(forms[0], masters);
        lemma_bumped(kws, name, k);
        lemma_forms(bumped(kws, name), data, from + 4, to, masters, rest, k);
    }
}

proof fn lemma_fields(
    kws: Counts,
    data: Seq<u8>,
    off: int,
    masters: Seq<Seq<char>>,
    fields: Seq<Field>,
    k: Seq<char>,
)
    requires
        0 <= off <= data.len(),
        data.subrange(off, data.len() as int) == fields_bytes(fields),
        forall|i: int| 0 <= i < fields.len() ==> field_sound(#[trigger] fields[i]),
    ensures
        times(with_subrecords(kws, data, off, masters), k) == (times(kws, k) + fields_named(
            fields,
            masters,
            k,
        )) % 0x1_0000_0000,
    decreases fields.len(),
{
    let whole = fields_bytes(fields);
    let n = whole.len() as int;
    if fields.len() > 0 {
        let f = fields[0];
        let rest = fields.drop_first();
        let body = field_body(f);
        let size = body.len() as int;
        assert(field_sound(fields[0]));
        assert(whole == field_bytes(f) + fields_bytes(rest));
        lemma_inside(data, off, whole, 0, 4);
        assert(whole.subrange(0, 4) =~= field_kind(f));
        lemma_inside(data, off, whole, 4, 6);
        assert(whole.subrange(4, 6) =~= two(body.len()));
        lemma_two(data, off + 4, body.len());
        lemma_inside(data, off, whole, 6, 6 + size);
        assert(whole.subrange(6, 6 + size) =~= body);
        lemma_inside(data, off, whole, 6 + size, n);
        assert(whole.subrange(6 + size, n) =~= fields_bytes(rest));
        let end = off + 6 + size;
        assert(tag(data, off) == field_kind(f));
        assert(tag_of('K', 'W', 'D', 'A') =~= seq!['K' as u8, 'W' as u8, 'D' as u8, 'A' as u8]);
        assert forall|i: int| 0 <= i < rest.len() implies field_sound(#[trigger] rest[i]) by {
            assert(rest[i] == fields[i + 1]);
        }
        match f {
            Field::Keywords(forms) => {
                lemma_forms(kws, data, off + 6, end, masters, forms, k);
                lemma_fields(
                    with_forms(kws, data, off + 6, end, masters),
                    data,
                    end,
                    masters,
                    rest,
                    k,
                );
            },
            Field::Other(_, _) => {
                lemma_fields(kws, data, end, masters, rest, k);
            },
        }
    }
}

// ---- groups and records ----

proof fn lemma_node_len(node: Node, levels: int)
    requires
        node_sound(node, levels),
    ensures
        match node {
            Node::Record { data, .. } => node_bytes(node).len() == 24 + data.len(),
            Node::Group { nodes, .. } => node_bytes(node).len() == 24 + nodes_bytes(nodes).len(),
        },
{
}

/// The head of a node: its name, a size, and four bytes more.
proof fn lemma_head(b: Seq<u8>, pos: int, node: Node, levels: int)
    requires
        node_sound(node, levels),
        0 <= pos,
        pos + node_bytes(node).len() <= b.len(),
        b.subrange(pos, pos + node_bytes(node).len()) == node_bytes(node),
    ensures
        match node {
            Node::Record { kind, flags, data, .. } => tag(b, pos) == kind && u32_at(b, pos + 4)
                == data.len() && u32_at(b, pos + 8) == flags && b.subrange(
                pos + 24,
                pos + 24 + data.len(),
            ) == data,
            Node::Group { label, nodes, .. } => tag(b, pos) == group_tag() && u32_at(b, pos + 4)
                == 24 + nodes_bytes(nodes).len() && tag(b, pos + 8) == label && b.subrange(
                pos + 24,
                pos + 24 + nodes_bytes(nodes).len(),
            ) == nodes_bytes(nodes),
        },
{
    let whole = node_bytes(node);
    lemma_node_len(node, levels);
    lemma_inside(b, pos, whole, 0, 4);
    lemma_inside(b, pos, whole, 4, 8);
    lemma_inside(b, pos, whole, 8, 12);
    lemma_inside(b, pos, whole, 24, whole.len() as int);
    match node {
        Node::Record { kind, flags, stamp, data, fields } => {
            assert(whole.subrange(0, 4) =~= kind);
            assert(whole.subrange(4, 8) =~= four(data.len()));
            assert(whole.subrange(8, 12) =~= four(flags as nat));
            assert(whole.subrange(24, whole.len() as int) =~= data);
            lemma_four(b, pos + 4, data.len());
            lemma_four(b, pos + 8, flags as nat);
        },
        Node::Group { label, stamp, nodes } => {
            let inner = nodes_bytes(nodes);
            assert(whole.subrange(0, 4) =~= group_tag());
            assert(whole.subrange(4, 8) =~= four(24 + inner.len()));
            assert(whole.subrange(8, 12) =~= label);
            assert(whole.subrange(24, whole.len() as int) =~= inner);
            lemma_four(b, pos + 4, 24 + inner.len());
        },
    }
}

proof fn lemma_same_kinds(kind: Seq<u8>)
    ensures
        is_semantic(kind) == tells_keywords(kind),
        tag_of('G', 'R', 'U', 'P') == group_tag(),
{
    assert(tag_of('G', 'R', 'U', 'P') =~= group_tag());
    assert(tag_of('A', 'R', 'M', 'O') =~= seq!['A' as u8, 'R' as u8, 'M' as u8, 'O' as u8]);
    assert(tag_of('W', 'E', 'A', 'P') =~= seq!['W' as u8, 'E' as u8, 'A' as u8, 'P' as u8]);
    assert(tag_of('A', 'M', 'M', 'O') =~= seq!['A' as u8, 'M' as u8, 'M' as u8, 'O' as u8]);
    assert(tag_of('N', 'P', 'C', '_') =~= seq!['N' as u8, 'P' as u8, 'C' as u8, '_' as u8]);
    assert(tag_of('R', 'A', 'C', 'E') =~= seq!['R' as u8, 'A' as u8, 'C' as u8, 'E' as u8]);
    assert(tag_of('S', 'P', 'E', 'L') =~= seq!['S' as u8, 'P' as u8, 'E' as u8, 'L' as u8]);
    assert(tag_of('M', 'G', 'E', 'F') =~= seq!['M' as u8, 'G' as u8, 'E' as u8, 'F' as u8]);
}

proof fn lemma_record_keywords(
    kws: Counts,
    data: Seq<u8>,
    flags: u32,
    masters: Seq<Seq<char>>,
    fields: Seq<Field>,
    k: Seq<char>,
)
    requires
        holds_fields(data, flags, fields),
        forall|i: int| 0 <= i < fields.len() ==> field_sound(#[trigger] fields[i]),
    ensures
        times(with_keywords(kws, data, flags, masters), k) == (times(kws, k) + fields_named(
            fields,
            masters,
            k,
        )) % 0x1_0000_0000,
{
    lemma_flags(flags);
    let plain = fields_bytes(fields);
    assert(plain.subrange(0, plain.len() as int) =~= plain);
    lemma_fields(kws, plain, 0, masters, fields, k);
}

/// One record ahead: the scan goes on behind it.
proof fn lemma_record_step(
    b: Seq<u8>,
    pos: int,
    end: int,
    depth: int,
    masters: Seq<Seq<char>>,
    records: Counts,
    keywords: Counts,
    node: Node,
    levels: int,
)
    requires
        node is Record,
        node_sound(node, levels),
        0 <= depth <= 64,
        0 <= pos,
        pos + node_bytes(node).len() <= end <= b.len(),
        b.subrange(pos, pos + node_bytes(node).len()) == node_bytes(node),
    ensures
        node matches Node::Record { kind, flags, data, .. } ==> {
            let kws = if tells_keywords(kind) {
                with_keywords(keywords, data, flags, masters)
            } else {
                keywords
            };
            scanned(b, pos, end, depth, masters, records, keywords) == scanned(
                b,
                pos + 24 + data.len(),
                end,
                depth,
                masters,
                bumped(records, lossy(kind)),
                kws,
            )
        },
{
    lemma_head(b, pos, node, levels);
    lemma_node_len(node, levels);
    lemma_same_kinds(tag(b, pos));
}

/// One group ahead: the scan goes through it, and on behind it.
proof fn lemma_group_step(
    b: Seq<u8>,
    pos: int,
    end: int,
    depth: int,
    masters: Seq<Seq<char>>,
    records: Counts,
    keywords: Counts,
    node: Node,
    levels: int,
)
    requires
        node is Group,
        node_sound(node, levels),
        0 <= depth <= 64,
        0 <= pos,
        pos + node_bytes(node).len() <= end <= b.len(),
        b.subrange(pos, pos + node_bytes(node).len()) == node_bytes(node),
    ensures
        node matches Node::Group { nodes, .. } ==> {
            let n = node_bytes(node).len() as int;
            let t = scanned(b, pos + 24, pos + n, depth + 1, masters, records, keywords);
            scanned(b, pos, end, depth, masters, records, keywords) == scanned(
                b,
                pos + n,
                end,
                depth,
                masters,
                t.records,
                t.keywords,
            )
        },
{
    lemma_head(b, pos, node, levels);
    lemma_node_len(node, levels);
    lemma_same_kinds(tag(b, pos));
}

proof fn lemma_first(b: Seq<u8>, pos: int, end: int, nodes: Seq<Node>)
    requires
        0 <= pos <= end <= b.len(),
        b.subrange(pos, end) == nodes_bytes(nodes),
        nodes.len() > 0,
    ensures
        ({
            let n = node_bytes(nodes[0]).len() as int;
            &&& pos + n <= end
            &&& b.subrange(pos, pos + n) == node_bytes(nodes[0])
            &&& b.subrange(pos + n, end) == nodes_bytes(nodes.drop_first())
        }),
{
    let whole = nodes_bytes(nodes);
    let first = node_bytes(nodes[0]);
    let n = first.len() as int;
    lemma_inside(b, pos, whole, 0, n);
    assert(whole.subrange(0, n) =~= first);
    lemma_inside(b, pos, whole, n, whole.len() as int);
    assert(whole.subrange(n, whole.len() as int) =~= nodes_bytes(nodes.drop_first()));
}

proof fn lemma_wrap(a: nat, x: nat, y: nat)
    ensures
        ((a + x) % 0x1_0000_0000 + y) % 0x1_0000_0000 == (a + (x + y)) % 0x1_0000_0000,
{
}

proof fn lemma_times_small(c: Counts, k: Seq<char>)
    ensures
        times(c, k) % 0x1_0000_0000 == times(c, k),
{
}

proof fn lemma_scan(
    b: Seq<u8>,
    pos: int,
    end: int,
    depth: int,
    masters: Seq<Seq<char>>,
    records: Counts,
    keywords: Counts,
    nodes: Seq<Node>,
    k: Seq<char>,
)
    requires
        0 <= pos <= end <= b.len(),
        0 <= depth <= 64,
        b.subrange(pos, end) == nodes_bytes(nodes),
        nodes_sound(nodes, 64 - depth),
    ensures
        ({
            let s = scanned(b, pos, end, depth, masters, records, keywords);
            &&& s.pos == end
            &&& times(s.records, k) == (times(records, k) + records_in(nodes, k)) % 0x1_0000_0000
            &&& times(s.keywords, k) == (times(keywords, k) + keywords_in(nodes, masters, k))
                % 0x1_0000_0000
        }),
    decreases nodes,
{
    lemma_times_small(records, k);
    lemma_times_small(keywords, k);
    if nodes.len() == 0 {
        assert(b.subrange(pos, end).len() == 0);
    } else {
        let node = nodes[0];
        let rest = nodes.drop_first();
        let n = node_bytes(node).len() as int;
        assert(node_sound(node, 64 - depth));
        lemma_first(b, pos, end, nodes);
        lemma_node_len(node, 64 - depth);
        match node {
            Node::Record { kind, flags, stamp, data, fields } => {
                lemma_record_step(b, pos, end, depth, masters, records, keywords, node, 64 - depth);
                let more = bumped(records, lossy(kind));
                let kws = if tells_keywords(kind) {
                    with_keywords(keywords, data, flags, masters)
                } else {
                    keywords
                };
                lemma_bumped(records, lossy(kind), k);
                if tells_keywords(kind) {
                    lemma_record_keywords(keywords, data, flags, masters, fields, k);
                }
                lemma_wrap(times(records, k), records_in_node(node, k), records_in(rest, k));
                lemma_wrap(
                    times(keywords, k),
                    keywords_in_node(node, masters, k),
                    keywords_in(rest, masters, k),
                );
                lemma_scan(b, pos + n, end, depth, masters, more, kws, rest, k);
            },
            Node::Group { label, stamp, nodes: inner } => {
                lemma_group_step(b, pos, end, depth, masters, records, keywords, node, 64 - depth);
                lemma_head(b, pos, node, 64 - depth);
                let t = scanned(b, pos + 24, pos + n, depth + 1, masters, records, keywords);
                lemma_scan(b, pos + 24, pos + n, depth + 1, masters, records, keywords, inner, k);
                lemma_wrap(times(records, k), records_in_node(node, k), records_in(rest, k));
                lemma_wrap(
                    times(keywords, k),
                    keywords_in_node(node, masters, k),
                    keywords_in(rest, masters, k),
                );
                lemma_scan(b, pos + n, end, depth, masters, t.records, t.keywords, rest, k);
            },
        }
    }
}

/// A scan over a well-formed run of records and groups reaches its end, and adds to the
/// count of every kind the number of its records, whatever the kind and at whatever depth
/// they stand, and to the count of every keyword the number of times that records which
/// tell keywords name it.
pub proof fn every_record_is_counted(
    b: Seq<u8>,
    pos: int,
    end: int,
    depth: int,
    masters: Seq<Seq<char>>,
    records: Counts,
    keywords: Counts,
    nodes: Seq<Node>,
)
    requires
        0 <= pos <= end <= b.len(),
        0 <= depth <= 64,
        b.subrange(pos, end) == nodes_bytes(nodes),
        nodes_sound(nodes, 64 - depth),
    ensures
        ({
            let s = scanned(b, pos, end, depth, masters, records, keywords);
            &&& s.pos == end
            &&& adds(records, s.records, |k: Seq<char>| records_in(nodes, k))
            &&& adds(keywords, s.keywords, |k: Seq<char>| keywords_in(nodes, masters, k))
        }),
{
    let s = scanned(b, pos, end, depth, masters, records, keywords);
    lemma_scan(b, pos, end, depth, masters, records, keywords, nodes, Seq::empty());
    assert forall|k: Seq<char>| #[trigger] times(s.records, k) == (times(records, k) + records_in(
        nodes,
        k,
    )) % 0x1_0000_0000 by {
        lemma_scan(b, pos, end, depth, masters, records, keywords, nodes, k);
    }
    assert forall|k: Seq<char>| #[trigger] times(s.keywords, k) == (times(keywords, k)
        + keywords_in(nodes, masters, k)) % 0x1_0000_0000 by {
        lemma_scan(b, pos, end, depth, masters, records, keywords, nodes, k);
    }
}

// ---- the header ----

/// A part of a plugin's header: the name of a master with what may follow a zero byte,
/// the number of records between two things that do not matter, or something else.
pub enum Entry {
    Master(Seq<u8>, Seq<u8>),
    Count(Seq<u8>, u32, Seq<u8>),
    Other(Seq<u8>, Seq<u8>),
}

pub open spec fn entry_kind(e: Entry) -> Seq<u8> {
    match e {
        Entry::Master(_, _) => seq!['M' as u8, 'A' as u8, 'S' as u8, 'T' as u8],
        Entry::Count(_, _, _) => seq!['H' as u8, 'E' as u8, 'D' as u8, 'R' as u8],
        Entry::Other(kind, _) => kind,
    }
}

pub open spec fn entry_body(e: Entry) -> Seq<u8> {
    match e {
        Entry::Master(name, tail) => name + tail,
        Entry::Count(version, n, rest) => version + four(n as nat) + rest,
        Entry::Other(_, data) => data,
    }
}

pub open spec fn entry_bytes(e: Entry) -> Seq<u8> {
    entry_kind(e) + two(entry_body(e).len()) + entry_body(e)
}

pub open spec fn entries_bytes(entries: Seq<Entry>) -> Seq<u8>
    decreases entries.len(),
{
    if entries.len() == 0 {
        Seq::empty()
    } else {
        entry_bytes(entries[0]) + entries_bytes(entries.drop_first())
    }
}

pub open spec fn entry_sound(e: Entry) -> bool {
    &&& entry_kind(e).len() == 4
    &&& entry_body(e).len() < 0x1_0000
    &&& match e {
        Entry::Master(name, tail) => !name.contains(0) && (tail.len() > 0 ==> tail[0] == 0),
        Entry::Count(version, _, _) => version.len() == 4,
        Entry::Other(kind, _) => kind != seq!['M' as u8, 'A' as u8, 'S' as u8, 'T' as u8] && kind
            != seq!['H' as u8, 'E' as u8, 'D' as u8, 'R' as u8],
    }
}

pub open spec fn entries_sound(entries: Seq<Entry>) -> bool {
    forall|i: int| 0 <= i < entries.len() ==> entry_sound(#[trigger] entries[i])
}

/// The masters that the entries name, in their order and in lower case.
pub open spec fn masters_named(entries: Seq<Entry>) -> Seq<Seq<char>>
    decreases entries.len(),
{
    if entries.len() == 0 {
        Seq::empty()
    } else {
        (match entries[0] {
            Entry::Master(name, _) => seq![lowercase(lossy(name))],
            _ => Seq::empty(),
        }) + masters_named(entries.drop_first())
    }
}

/// The number of records that the last entry with one gives.
pub open spec fn count_given(entries: Seq<Entry>) -> u32
    decreases entries.len(),
{
    if entries.len() == 0 {
        0
    } else {
        match entries.last() {
            Entry::Count(_, n, _) => n,
            _ => count_given(entries.drop_last()),
        }
    }
}

proof fn lemma_before_zero(name: Seq<u8>, tail: Seq<u8>, i: int)
    requires
        !name.contains(0),
        tail.len() > 0 ==> tail[0] == 0,
        0 <= i <= name.len(),
    ensures
        before_zero(name + tail, i) == name.len(),
    decreases name.len() - i,
{
    let raw = name + tail;
    if i < name.len() {
        assert(raw[i] == name[i]);
        assert(name.contains(name[i]));
        lemma_before_zero(name, tail, i + 1);
    } else if i < raw.len() {
        assert(raw[i] == tail[0]);
    }
}

proof fn lemma_master(name: Seq<u8>, tail: Seq<u8>)
    requires
        !name.contains(0),
        tail.len() > 0 ==> tail[0] == 0,
    ensures
        master_name(name + tail) == lowercase(lossy(name)),
{
    lemma_before_zero(name, tail, 0);
    assert((name + tail).take(name.len() as int) =~= name);
}

proof fn lemma_count_given(entries: Seq<Entry>, n: int)
    requires
        0 <= n < entries.len(),
    ensures
        count_given(entries.take(n + 1)) == (match entries[n] {
            Entry::Count(_, c, _) => c,
            _ => count_given(entries.take(n)),
        }),
{
    let t = entries.take(n + 1);
    assert(t.drop_last() =~= entries.take(n));
    assert(t.last() == entries[n]);
}

/// One entry of the header ahead, with nothing but entries behind it.
proof fn lemma_entry(data: Seq<u8>, off: int, entries: Seq<Entry>)
    requires
        0 <= off <= data.len(),
        entries.len() > 0,
        data.subrange(off, data.len() as int) == entries_bytes(entries),
        entries_sound(entries),
    ensures
        ({
            let e = entries[0];
            let size = entry_body(e).len() as int;
            &&& off + 6 + size <= data.len()
            &&& tag(data, off) == entry_kind(e)
            &&& u16_at(data, off + 4) == size
            &&& data.subrange(off + 6, off + 6 + size) == entry_body(e)
            &&& data.subrange(off + 6 + size, data.len() as int) == entries_bytes(
                entries.drop_first(),
            )
        }),
{
    let whole = entries_bytes(entries);
    let e = entries[0];
    let rest = entries.drop_first();
    let body = entry_body(e);
    let size = body.len() as int;
    let n = whole.len() as int;
    assert(entry_sound(entries[0]));
    assert(whole == entry_bytes(e) + entries_bytes(rest));
    lemma_inside(data, off, whole, 0, 4);
    assert(whole.subrange(0, 4) =~= entry_kind(e));
    lemma_inside(data, off, whole, 4, 6);
    assert(whole.subrange(4, 6) =~= two(body.len()));
    lemma_two(data, off + 4, body.len());
    lemma_inside(data, off, whole, 6, 6 + size);
    assert(whole.subrange(6, 6 + size) =~= body);
    lemma_inside(data, off, whole, 6 + size, n);
    assert(whole.subrange(6 + size, n) =~= entries_bytes(rest));
}

proof fn lemma_header(data: Seq<u8>, off: int, h: Header, entries: Seq<Entry>, n: int)
    requires
        0 <= off <= data.len(),
        0 <= n <= entries.len(),
        data.subrange(off, data.len() as int) == entries_bytes(entries.skip(n)),
        entries_sound(entries),
        h.record_count == count_given(entries.take(n)),
    ensures
        header_from(data, off, h).masters == h.masters + masters_named(entries.skip(n)),
        header_from(data, off, h).record_count == count_given(entries),
    decreases entries.len() - n,
{
    let left = entries.skip(n);
    if n == entries.len() {
        assert(entries.take(n) =~= entries);
        assert(left =~= Seq::empty());
        assert(h.masters + masters_named(left) =~= h.masters);
        assert(data.subrange(off, data.len() as int).len() == 0);
    } else {
        let e = entries[n];
        assert(left[0] == e);
        assert(left.drop_first() =~= entries.skip(n + 1));
        assert forall|i: int| 0 <= i < left.len() implies entry_sound(#[trigger] left[i]) by {
            assert(left[i] == entries[n + i]);
        }
        assert(entry_sound(entries[n]));
        lemma_entry(data, off, left);
        lemma_count_given(entries, n);
        let size = entry_body(e).len() as int;
        let end = off + 6 + size;
        assert(tag_of('M', 'A', 'S', 'T') =~= seq!['M' as u8, 'A' as u8, 'S' as u8, 'T' as u8]);
        assert(tag_of('H', 'E', 'D', 'R') =~= seq!['H' as u8, 'E' as u8, 'D' as u8, 'R' as u8]);
        assert(tag_of('M', 'A', 'S', 'T')[0] != tag_of('H', 'E', 'D', 'R')[0]);
        match e {
            Entry::Master(name, tail) => {
                lemma_master(name, tail);
                let next = Header { masters: h.masters.push(lowercase(lossy(name))), ..h };
                lemma_header(data, end, next, entries, n + 1);
                assert(next.masters + masters_named(entries.skip(n + 1)) =~= h.masters
                    + masters_named(left));
            },
            Entry::Count(version, c, rest) => {
                let body = entry_body(e);
                lemma_inside(data, off + 6, body, 4, 8);
                assert(body.subrange(4, 8) =~= four(c as nat));
                lemma_four(data, off + 10, c as nat);
                let next = Header { record_count: c, ..h };
                lemma_header(data, end, next, entries, n + 1);
                assert(h.masters + masters_named(entries.skip(n + 1)) =~= h.masters
                    + masters_named(left));
            },
            Entry::Other(kind, d) => {
                lemma_header(data, end, h, entries, n + 1);
                assert(h.masters + masters_named(entries.skip(n + 1)) =~= h.masters
                    + masters_named(left));
            },
        }
    }
}

// ---- the whole file ----

/// How many of the groups have that label.
pub open spec fn groups_labelled(groups: Seq<Node>, label: Seq<char>) -> nat
    decreases groups.len(),
{
    if groups.len() == 0 {
        0
    } else {
        (match groups[0] {
            Node::Group { label: own, .. } => if lossy(own) == label {
                1nat
            } else {
                0
            },
            _ => 0,
        }) + groups_labelled(groups.drop_first(), label)
    }
}

pub open spec fn all_groups(nodes: Seq<Node>) -> bool {
    forall|i: int| 0 <= i < nodes.len() ==> #[trigger] nodes[i] is Group
}

proof fn lemma_census(
    b: Seq<u8>,
    pos: int,
    whole: bool,
    masters: Seq<Seq<char>>,
    c: Census,
    groups: Seq<Node>,
    k: Seq<char>,
)
    requires
        0 <= pos <= b.len(),
        b.subrange(pos, b.len() as int) == nodes_bytes(groups),
        all_groups(groups),
        nodes_sound(groups, 64),
    ensures
        ({
            let d = census_from(b, pos, whole, masters, c);
            &&& times(d.groups, k) == (times(c.groups, k) + groups_labelled(groups, k))
                % 0x1_0000_0000
            &&& times(d.records, k) == (times(c.records, k) + records_in(groups, k))
                % 0x1_0000_0000
            &&& times(d.keywords, k) == (times(c.keywords, k) + keywords_in(groups, masters, k))
                % 0x1_0000_0000
        }),
    decreases groups.len(),
{
    lemma_times_small(c.groups, k);
    lemma_times_small(c.records, k);
    lemma_times_small(c.keywords, k);
    if groups.len() == 0 {
        assert(b.subrange(pos, b.len() as int).len() == 0);
    } else {
        let node = groups[0];
        let rest = groups.drop_first();
        let n = node_bytes(node).len() as int;
        assert(groups[0] is Group);
        assert(node_sound(node, 64));
        lemma_first(b, pos, b.len() as int, groups);
        lemma_node_len(node, 64);
        lemma_head(b, pos, node, 64);
        lemma_same_kinds(group_tag());
        assert forall|i: int| 0 <= i < rest.len() implies #[trigger] rest[i] is Group by {
            assert(rest[i] == groups[i + 1]);
        }
        if let Node::Group { label, stamp, nodes } = node {
            let s = scanned(b, pos + 24, pos + n, 1, masters, c.records, c.keywords);
            lemma_scan(b, pos + 24, pos + n, 1, masters, c.records, c.keywords, nodes, k);
            lemma_bumped(c.groups, lossy(label), k);
            let next = Census {
                groups: bumped(c.groups, lossy(label)),
                records: s.records,
                keywords: s.keywords,
            };
            assert(census_from(b, pos, whole, masters, c) == census_from(
                b,
                pos + n,
                whole,
                masters,
                next,
            ));
            lemma_census(b, pos + n, whole, masters, next, rest, k);
            lemma_wrap(
                times(c.groups, k),
                if lossy(label) == k {
                    1
                } else {
                    0
                },
                groups_labelled(rest, k),
            );
            lemma_wrap(times(c.records, k), records_in_node(node, k), records_in(rest, k));
            lemma_wrap(
                times(c.keywords, k),
                keywords_in_node(node, masters, k),
                keywords_in(rest, masters, k),
            );
        }
    }
}

/// A plugin file: the header with its flags and entries, and the groups behind it.
pub open spec fn plugin_bytes(
    flags: u32,
    stamp: Seq<u8>,
    entries: Seq<Entry>,
    groups: Seq<Node>,
) -> Seq<u8> {
    seq!['T' as u8, 'E' as u8, 'S' as u8, '4' as u8] + four(entries_bytes(entries).len()) + four(
        flags as nat,
    ) + stamp + entries_bytes(entries) + nodes_bytes(groups)
}

/// What is read of a plugin tells its header, its groups, its records and their keywords.
pub open spec fn tells(p: PluginView, flags: u32, entries: Seq<Entry>, groups: Seq<Node>) -> bool {
    let masters = masters_named(entries);
    &&& p.masters == masters
    &&& p.record_count == count_given(entries)
    &&& p.is_esm == (flags % 2 == 1)
    &&& p.is_esl == (flags / 0x200 % 2 == 1)
    &&& forall|k: Seq<char>| #[trigger]
        times(p.groups, k) == groups_labelled(groups, k) % 0x1_0000_0000
    &&& forall|k: Seq<char>| #[trigger]
        times(p.records, k) == records_in(groups, k) % 0x1_0000_0000
    &&& forall|k: Seq<char>| #[trigger]
        times(p.keywords, k) == keywords_in(groups, masters, k) % 0x1_0000_0000
}

proof fn lemma_plugin(
    b: Seq<u8>,
    name: Seq<char>,
    whole: bool,
    flags: u32,
    stamp: Seq<u8>,
    entries: Seq<Entry>,
    groups: Seq<Node>,
)
    requires
        b == plugin_bytes(flags, stamp, entries, groups),
        stamp.len() == 12,
        entries_bytes(entries).len() <= u32::MAX,
        entries_sound(entries),
        all_groups(groups),
        nodes_sound(groups, 64),
    ensures
        b.len() >= 24,
        tag(b, 0) == tag_of('T', 'E', 'S', '4'),
        u32_at(b, 4) == entries_bytes(entries).len(),
        24 + u32_at(b, 4) <= b.len(),
        tells(plugin_from(b, name, 24 + u32_at(b, 4), whole), flags, entries, groups),
{
    let head = entries_bytes(entries);
    let end = 24 + head.len() as int;
    assert(b.subrange(0, 4) =~= seq!['T' as u8, 'E' as u8, 'S' as u8, '4' as u8]);
    assert(tag_of('T', 'E', 'S', '4') =~= seq!['T' as u8, 'E' as u8, 'S' as u8, '4' as u8]);
    assert(b.subrange(4, 8) =~= four(head.len()));
    lemma_four(b, 4, head.len());
    assert(b.subrange(8, 12) =~= four(flags as nat));
    lemma_four(b, 8, flags as nat);
    assert(b.subrange(24, end) =~= head);
    assert(b.subrange(end, b.len() as int) =~= nodes_bytes(groups));
    lemma_flags(flags);
    let p = plugin_from(b, name, end, whole);
    let masters = masters_named(entries);
    assert(head.subrange(0, head.len() as int) =~= head);
    assert(entries.skip(0) =~= entries);
    assert(entries.take(0) =~= Seq::empty());
    let none = Header { masters: Seq::empty(), record_count: 0 };
    lemma_header(head, 0, none, entries, 0);
    assert(none.masters + masters =~= masters);
    assert(p.masters == masters);
    assert forall|k: Seq<char>| #[trigger] times(p.groups, k) == groups_labelled(groups, k)
        % 0x1_0000_0000 by {
        lemma_census(b, end, whole, masters, no_census(), groups, k);
    }
    assert forall|k: Seq<char>| #[trigger] times(p.records, k) == records_in(groups, k)
        % 0x1_0000_0000 by {
        lemma_census(b, end, whole, masters, no_census(), groups, k);
    }
    assert forall|k: Seq<char>| #[trigger] times(p.keywords, k) == keywords_in(groups, masters, k)
        % 0x1_0000_0000 by {
        lemma_census(b, end, whole, masters, no_census(), groups, k);
    }
}

/// Of a well-formed plugin, held in memory or in a file, what is read is what was written:
/// its masters in their order and in lower case, its number of records, its two flags, and
/// how often each group, each kind of record and each keyword occurs.
pub proof fn plugins_are_read_as_written(
    name: Seq<char>,
    flags: u32,
    stamp: Seq<u8>,
    entries: Seq<Entry>,
    groups: Seq<Node>,
)
    requires
        stamp.len() == 12,
        entries_bytes(entries).len() <= u32::MAX,
        entries_sound(entries),
        all_groups(groups),
        nodes_sound(groups, 64),
    ensures
        ({
            let b = plugin_bytes(flags, stamp, entries, groups);
            &&& plugin_of_bytes(b, name) matches Some(p) && p.plugin == name && tells(
                p,
                flags,
                entries,
                groups,
            )
            &&& plugin_of_file(b, name) matches Some(p) && p.plugin == lowercase(name) && tells(
                p,
                flags,
                entries,
                groups,
            )
        }),
{
    let b = plugin_bytes(flags, stamp, entries, groups);
    lemma_plugin(b, name, true, flags, stamp, entries, groups);
    lemma_plugin(b, lowercase(name), false, flags, stamp, entries, groups);
}

} // verus!
