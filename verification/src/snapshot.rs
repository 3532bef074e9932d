//! The snapshot text format: an outline, a blank line, then one record per
//! node, each `<bytes> <gnx>\n<body>` where `<bytes>` is the decimal count of
//! the UTF-8 bytes of `<gnx>\n<body>`.

use vstd::prelude::*;
use vstd::utf8::*;
use crate::text::{
    char_utf8_len, chars_of, decimal_digits, decimal_roundtrip, find_in, first_occurrence,
    is_decimal_digit, lemma_decimal_digits, lemma_encode_utf8_concat, lemma_first_occurrence,
    lemma_first_occurrence_is_first, occurs_at, parse_usize_in, parsed_usize, partition_of,
    push_decimal, string_of, string_push, utf8_len,
};

verus! {

broadcast use vstd::string::group_string_axioms, vstd::utf8::group_utf8_lib;

/// A node of a snapshot: its name (gnx) and its body, as characters.
pub type NodeView = (Seq<char>, Seq<char>);

/// The name under which a decoded snapshot keeps its outline.
pub open spec fn outline_key() -> Seq<char> {
    "__outline__"@
}

/// The number of leading characters of `x` whose UTF-8 encoding takes
/// exactly `n` bytes, if there is such a number.
pub open spec fn chars_in_bytes(x: Seq<char>, n: nat) -> Option<int> {
    if exists|k: int| 0 <= k <= x.len() && utf8_len(x.subrange(0, k)) == n {
        Some(choose|k: int| 0 <= k <= x.len() && utf8_len(x.subrange(0, k)) == n)
    } else {
        None
    }
}

/// The records that follow the blank line of a snapshot, read one after the
/// other until the text is used up; `None` where a record's byte count is no
/// number or does not end at a character.
pub open spec fn records_of(rest: Seq<char>) -> Option<Seq<NodeView>>
    decreases rest.len(),
{
    if rest.len() == 0 {
        Some(Seq::empty())
    } else {
        let (num, _, x) = partition_of(rest, seq![' ']);
        match parsed_usize(num) {
            None => None,
            Some(n) => match chars_in_bytes(x, n) {
                None => None,
                Some(k) => {
                    let (gnx, _, hb) = partition_of(x.subrange(0, k), seq!['\n']);
                    proof {
                        lemma_first_occurrence_is_first(rest, seq![' ']);
                    }
                    match records_of(x.subrange(k, x.len() as int)) {
                        None => None,
                        Some(more) => Some(seq![(gnx, hb)] + more),
                    }
                }
            },
        }
    }
}

/// The nodes of a snapshot text, in the order of its records, the outline
/// first under `outline_key()`; `None` where a record cannot be read.
pub open spec fn snapshot_entries(txt: Seq<char>) -> Option<Seq<NodeView>> {
    let (outline, _, rest) = partition_of(txt, seq!['\n', '\n']);
    match records_of(rest) {
        Some(r) => Some(seq![(outline_key(), outline)] + r),
        None => None,
    }
}

/// The views of a list of string pairs.
pub open spec fn entries_view(v: Seq<(String, String)>) -> Seq<NodeView> {
    v.map_values(|e: (String, String)| (e.0@, e.1@))
}

proof fn lemma_utf8_len_at_least_len(s: Seq<char>)
    ensures
        utf8_len(s) >= s.len(),
    decreases s.len(),
{
    if s.len() > 0 {
        lemma_utf8_len_at_least_len(s.drop_first());
        assert(seq![s[0]] + s.drop_first() =~= s);
        lemma_encode_utf8_concat(seq![s[0]], s.drop_first());
        assert(seq![s[0]].drop_first() =~= Seq::<char>::empty());
        assert(encode_utf8(seq![s[0]]) == encode_scalar(s[0] as u32) + encode_utf8(Seq::<char>::empty()));
    }
}

/// Longer prefixes take more bytes: at least one more per character.
proof fn lemma_prefix_bytes_grow(x: Seq<char>, i: int, j: int)
    requires
        0 <= i <= j <= x.len(),
    ensures
        utf8_len(x.subrange(0, i)) + (j - i) <= utf8_len(x.subrange(0, j)),
{
    lemma_encode_utf8_concat(x.subrange(0, i), x.subrange(i, j));
    assert(x.subrange(0, i) + x.subrange(i, j) =~= x.subrange(0, j));
    lemma_utf8_len_at_least_len(x.subrange(i, j));
}

/// The prefix of `x` of `k` characters takes `n` bytes, so it is the one
/// that `chars_in_bytes` names.
proof fn lemma_chars_in_bytes(x: Seq<char>, n: nat, k: int)
    requires
        0 <= k <= x.len(),
        utf8_len(x.subrange(0, k)) == n,
    ensures
        chars_in_bytes(x, n) == Some(k),
{
    let c = choose|c: int| 0 <= c <= x.len() && utf8_len(x.subrange(0, c)) == n;
    if c < k {
        lemma_prefix_bytes_grow(x, c, k);
    }
    if k < c {
        lemma_prefix_bytes_grow(x, k, c);
    }
}

/// The end of the prefix of `cs[from..to]` that takes exactly `nb` bytes.
pub(crate) fn chars_for_bytes(cs: &Vec<char>, from: usize, to: usize, nb: usize) -> (r: Option<usize>)
    requires
        from <= to <= cs@.len(),
    ensures
        match chars_in_bytes(cs@.subrange(from as int, to as int), nb as nat) {
            Some(k) => r == Some((from + k) as usize),
            None => r is None,
        },
{
    let ghost x = cs@.subrange(from as int, to as int);
    let mut e = from;
    let mut total: usize = 0;
    assert(x.subrange(0, 0) =~= Seq::<char>::empty());
    while total < nb
        invariant
            from <= e <= to <= cs@.len(),
            x == cs@.subrange(from as int, to as int),
            total <= nb,
            total == utf8_len(x.subrange(0, e - from)),
        decreases to - e,
    {
        if e == to {
            proof {
                assert forall|k: int| 0 <= k <= x.len() implies utf8_len(x.subrange(0, k)) != nb by {
                    lemma_prefix_bytes_grow(x, k, e - from);
                }
            }
            return None;
        }
        let w = char_utf8_len(cs[e]);
        proof {
            let p = x.subrange(0, e - from);
            assert(x.subrange(0, e + 1 - from) =~= p + seq![cs@[e as int]]);
            lemma_encode_utf8_concat(p, seq![cs@[e as int]]);
        }
        if w > nb - total {
            proof {
                assert forall|k: int| 0 <= k <= x.len() implies utf8_len(x.subrange(0, k)) != nb by {
                    if k <= e - from {
                        lemma_prefix_bytes_grow(x, k, e - from);
                    } else {
                        lemma_prefix_bytes_grow(x, e + 1 - from, k);
                    }
                }
            }
            return None;
        }
        total = total + w;
        e = e + 1;
    }
    proof {
        lemma_chars_in_bytes(x, nb as nat, e - from);
    }
    Some(e)
}

/// `r` with `a` put in front, where there is an `r`.
pub open spec fn prepend_nodes(a: Seq<NodeView>, r: Option<Seq<NodeView>>) -> Option<Seq<NodeView>> {
    match r {
        Some(x) => Some(a + x),
        None => None,
    }
}

proof fn lemma_records_cases(rest: Seq<char>)
    requires
        rest.len() > 0,
    ensures
        ({
            let (num, _, x) = partition_of(rest, seq![' ']);
            match parsed_usize(num) {
                None => records_of(rest) is None,
                Some(nv) => match chars_in_bytes(x, nv) {
                    None => records_of(rest) is None,
                    Some(k) => {
                        let (gnx, _, hb) = partition_of(x.subrange(0, k), seq!['\n']);
                        records_of(rest) == prepend_nodes(
                            seq![(gnx, hb)],
                            records_of(x.subrange(k, x.len() as int)),
                        )
                    },
                },
            }
        }),
{
}

proof fn lemma_prepend_nodes_assoc(a: Seq<NodeView>, b: Seq<NodeView>, r: Option<Seq<NodeView>>)
    ensures
        prepend_nodes(a, prepend_nodes(b, r)) == prepend_nodes(a + b, r),
{
    if let Some(x) = r {
        assert(a + (b + x) =~= (a + b) + x);
    }
}

fn single_char(c: char) -> (v: Vec<char>)
    ensures
        v@ == seq![c],
{
    let mut v: Vec<char> = Vec::new();
    v.push(c);
    v
}

/// Reads the record that starts at `cs[pos]`: its gnx, its body and the
/// position after it.
#[verifier::spinoff_prover]
#[verifier::rlimit(40)]
fn decode_record(cs: &Vec<char>, pos: usize) -> (r: Option<(String, String, usize)>)
    requires
        pos < cs@.len(),
    ensures
        match r {
            None => records_of(cs@.subrange(pos as int, cs@.len() as int)) is None,
            Some((g, h, e)) => pos < e <= cs@.len() && records_of(
                cs@.subrange(pos as int, cs@.len() as int),
            ) == prepend_nodes(
                seq![(g@, h@)],
                records_of(cs@.subrange(e as int, cs@.len() as int)),
            ),
        },
{
    let n = cs.len();
    let space = single_char(' ');
    let nl = single_char('\n');
    let ghost rest = cs@.subrange(pos as int, n as int);
    proof {
        lemma_first_occurrence_is_first(rest, space@);
        lemma_records_cases(rest);
    }
    let (num_end, x_start) = match find_in(cs, pos, n, &space) {
        Some(p) => (p, p + 1),
        None => (n, n),
    };
    let ghost rparts = partition_of(rest, seq![' ']);
    assert(rparts.0 =~= cs@.subrange(pos as int, num_end as int));
    assert(rparts.2 =~= cs@.subrange(x_start as int, n as int));
    let nb = match parse_usize_in(cs, pos, num_end) {
        Some(v) => v,
        None => {
            return None;
        },
    };
    let e = match chars_for_bytes(cs, x_start, n, nb) {
        Some(e) => e,
        None => {
            return None;
        },
    };
    let ghost x = cs@.subrange(x_start as int, n as int);
    let ghost body = x.subrange(0, e - x_start);
    assert(body =~= cs@.subrange(x_start as int, e as int));
    proof {
        lemma_first_occurrence_is_first(body, nl@);
    }
    let (gnx_end, hb_start) = match find_in(cs, x_start, e, &nl) {
        Some(q) => (q, q + 1),
        None => (e, e),
    };
    let ghost bparts = partition_of(body, seq!['\n']);
    assert(bparts.0 =~= cs@.subrange(x_start as int, gnx_end as int));
    assert(bparts.2 =~= cs@.subrange(hb_start as int, e as int));
    let gnx = string_of(cs, x_start, gnx_end);
    let hb = string_of(cs, hb_start, e);
    assert(x.subrange(e - x_start, x.len() as int) =~= cs@.subrange(e as int, n as int));
    Some((gnx, hb, e))
}

/// Reads a snapshot text into its nodes, in the order of its records, the
/// outline first under the name `__outline__`. Where a record's byte count is
/// no number, or the count does not end at a character or runs past the end
/// of the text, there is no result.
pub fn decode_snapshot(txt: &str) -> (r: Option<Vec<(String, String)>>)
    ensures
        match snapshot_entries(txt@) {
            Some(es) => r matches Some(v) && entries_view(v@) == es,
            None => r is None,
        },
{
    let cs = chars_of(txt);
    let n = cs.len();
    let nl2 = {
        let mut v: Vec<char> = Vec::new();
        v.push('\n');
        v.push('\n');
        v
    };
    assert(nl2@ == seq!['\n', '\n']);
    assert(cs@.subrange(0, n as int) =~= cs@);
    proof {
        lemma_first_occurrence_is_first(txt@, nl2@);
    }
    let (outline_end, rest_start) = match find_in(&cs, 0, n, &nl2) {
        Some(i) => (i, i + 2),
        None => (n, n),
    };
    let ghost parts = partition_of(txt@, seq!['\n', '\n']);
    assert(parts.0 =~= cs@.subrange(0, outline_end as int));
    assert(parts.2 =~= cs@.subrange(rest_start as int, n as int));
    let mut entries: Vec<(String, String)> = Vec::new();
    let key = "__outline__".to_owned();
    let outline = string_of(&cs, 0, outline_end);
    entries.push((key, outline));
    let mut pos = rest_start;
    assert(entries_view(entries@) =~= seq![(outline_key(), parts.0)]);
    while pos < n
        invariant
            rest_start <= pos <= n == cs@.len(),
            cs@ == txt@,
            snapshot_entries(txt@) == prepend_nodes(
                entries_view(entries@),
                records_of(cs@.subrange(pos as int, n as int)),
            ),
        decreases n - pos,
    {
        match decode_record(&cs, pos) {
            None => {
                return None;
            },
            Some((gnx, hb, e)) => {
                let ghost before = entries_view(entries@);
                let ghost g = gnx@;
                let ghost h = hb@;
                entries.push((gnx, hb));
                assert(entries_view(entries@) =~= before + seq![(g, h)]);
                proof {
                    lemma_prepend_nodes_assoc(
                        before,
                        seq![(g, h)],
                        records_of(cs@.subrange(e as int, n as int)),
                    );
                }
                pos = e;
            },
        }
    }
    assert(cs@.subrange(pos as int, n as int) =~= Seq::<char>::empty());
    assert(entries_view(entries@) + Seq::<NodeView>::empty() =~= entries_view(entries@));
    Some(entries)
}

/// The record of a node: the decimal byte count of `<gnx>\n<body>`, a
/// space, the gnx, a newline and the body.
pub open spec fn record_text(node: NodeView) -> Seq<char> {
    decimal_digits(utf8_len(node.0) + utf8_len(node.1) + 1) + seq![' '] + node.0 + seq!['\n']
        + node.1
}

/// The records of `nodes`, one after the other.
pub open spec fn records_text(nodes: Seq<NodeView>) -> Seq<char>
    decreases nodes.len(),
{
    if nodes.len() == 0 {
        Seq::empty()
    } else {
        record_text(nodes[0]) + records_text(nodes.drop_first())
    }
}

/// The snapshot text of an outline and its nodes: the outline, a blank line
/// and the records of the nodes.
pub open spec fn snapshot_text(outline: Seq<char>, nodes: Seq<NodeView>) -> Seq<char> {
    outline + seq!['\n', '\n'] + records_text(nodes)
}

/// The byte count of every node's record fits in a `usize`.
pub open spec fn record_sizes_fit(nodes: Seq<NodeView>) -> bool {
    forall|i: int|
        0 <= i < nodes.len() ==> utf8_len(#[trigger] nodes[i].0) + utf8_len(nodes[i].1) + 1
            <= usize::MAX
}

proof fn lemma_records_text_push(nodes: Seq<NodeView>, node: NodeView)
    ensures
        records_text(nodes.push(node)) == records_text(nodes) + record_text(node),
    decreases nodes.len(),
{
    if nodes.len() == 0 {
        assert(nodes.push(node).drop_first() =~= Seq::<NodeView>::empty());
        assert(nodes.push(node)[0] == node);
        assert(records_text(Seq::<NodeView>::empty()) == Seq::<char>::empty());
        assert(records_text(nodes.push(node)) =~= records_text(nodes) + record_text(node));
    } else {
        lemma_records_text_push(nodes.drop_first(), node);
        assert(nodes.push(node).drop_first() =~= nodes.drop_first().push(node));
        assert(nodes.push(node)[0] == nodes[0]);
        assert(records_text(nodes.push(node)) == record_text(nodes[0]) + records_text(
            nodes.drop_first().push(node),
        ));
        assert(records_text(nodes.push(node)) =~= records_text(nodes) + record_text(node));
    }
}

/// Writes an outline and its nodes as a snapshot text.
pub fn encode_snapshot(outline: &str, nodes: &Vec<(String, String)>) -> (r: String)
    requires
        record_sizes_fit(entries_view(nodes@)),
    ensures
        r@ == snapshot_text(outline@, entries_view(nodes@)),
{
    let mut res = outline.to_owned();
    string_push(&mut res, '\n');
    string_push(&mut res, '\n');
    let ghost head = outline@ + seq!['\n', '\n'];
    assert(res@ =~= head + records_text(entries_view(nodes@).subrange(0, 0)));
    let mut i: usize = 0;
    while i < nodes.len()
        invariant
            i <= nodes@.len(),
            record_sizes_fit(entries_view(nodes@)),
            res@ == head + records_text(entries_view(nodes@).subrange(0, i as int)),
        decreases nodes@.len() - i,
    {
        let gnx = nodes[i].0.as_str();
        let hb = nodes[i].1.as_str();
        let ghost node = entries_view(nodes@)[i as int];
        assert(node == (gnx@, hb@));
        assert(utf8_len(node.0) + utf8_len(node.1) + 1 <= usize::MAX);
        let size = gnx.len() + hb.len() + 1;
        push_decimal(&mut res, size);
        string_push(&mut res, ' ');
        res.append(gnx);
        string_push(&mut res, '\n');
        res.append(hb);
        proof {
            lemma_records_text_push(entries_view(nodes@).subrange(0, i as int), node);
            assert(entries_view(nodes@).subrange(0, i + 1) =~= entries_view(nodes@).subrange(
                0,
                i as int,
            ).push(node));
        }
        assert(res@ =~= head + records_text(entries_view(nodes@).subrange(0, i + 1)));
        i = i + 1;
    }
    assert(entries_view(nodes@).subrange(0, nodes@.len() as int) =~= entries_view(nodes@));
    res
}

/// A snapshot text that starts with a timestamp line: `tstamp`, a newline,
/// then `text`.
pub fn stamped(tstamp: &str, text: &str) -> (r: String)
    ensures
        r@ == tstamp@ + seq!['\n'] + text@,
{
    let mut res = tstamp.to_owned();
    string_push(&mut res, '\n');
    res.append(text);
    res
}

/// A single character that occurs at `i` and nowhere before it is first
/// there.
proof fn lemma_first_char(s: Seq<char>, c: char, i: int)
    requires
        0 <= i < s.len(),
        s[i] == c,
        forall|j: int| 0 <= j < i ==> s[j] != c,
    ensures
        first_occurrence(s, seq![c]) == Some(i),
{
    assert(s.subrange(i, i + 1) =~= seq![c]);
    assert forall|j: int| 0 <= j < i implies !occurs_at(s, seq![c], j) by {
        assert(s.subrange(j, j + 1)[0] == s[j]);
    }
    lemma_first_occurrence(s, seq![c], i);
}

proof fn lemma_record_read(node: NodeView, more: Seq<char>)
    requires
        !node.0.contains('\n'),
        utf8_len(node.0) + utf8_len(node.1) + 1 <= usize::MAX,
    ensures
        records_of(record_text(node) + more) == prepend_nodes(seq![node], records_of(more)),
{
    let (g, h) = node;
    let size = utf8_len(g) + utf8_len(h) + 1;
    let dec = decimal_digits(size);
    let body = g + seq!['\n'] + h;
    let x = body + more;
    let rest = record_text(node) + more;
    lemma_decimal_digits(size);
    decimal_roundtrip(size as usize);
    assert(rest =~= dec + (seq![' '] + x));
    // the byte count ends at the first space
    assert forall|j: int| 0 <= j < dec.len() implies rest[j] != ' ' by {
        assert(rest[j] == dec[j]);
        assert(is_decimal_digit(dec[j]));
    }
    assert(rest[dec.len() as int] == ' ');
    lemma_first_char(rest, ' ', dec.len() as int);
    assert(rest.subrange(0, dec.len() as int) =~= dec);
    assert(rest.subrange(dec.len() as int + 1, rest.len() as int) =~= x);
    // the count covers exactly the gnx, the newline and the body
    let k = body.len() as int;
    assert(x.subrange(0, k) =~= body);
    lemma_encode_utf8_concat(g, seq!['\n']);
    lemma_encode_utf8_concat(g + seq!['\n'], h);
    assert(utf8_len(seq!['\n']) == 1) by {
        assert(seq!['\n'].drop_first() =~= Seq::<char>::empty());
        assert(encode_utf8(seq!['\n']) == encode_scalar('\n' as u32) + encode_utf8(
            Seq::<char>::empty(),
        ));
    }
    lemma_chars_in_bytes(x, size, k);
    // the gnx ends at the first newline
    assert forall|j: int| 0 <= j < g.len() implies body[j] != '\n' by {
        assert(body[j] == g[j]);
        if g[j] == '\n' {
            assert(g.contains('\n'));
        }
    }
    assert(body[g.len() as int] == '\n');
    lemma_first_char(body, '\n', g.len() as int);
    assert(body.subrange(0, g.len() as int) =~= g);
    assert(body.subrange(g.len() as int + 1, body.len() as int) =~= h);
    assert(x.subrange(k, x.len() as int) =~= more);
    lemma_records_cases(rest);
}

proof fn lemma_records_roundtrip(nodes: Seq<NodeView>)
    requires
        forall|i: int| 0 <= i < nodes.len() ==> !(#[trigger] nodes[i]).0.contains('\n'),
        record_sizes_fit(nodes),
    ensures
        records_of(records_text(nodes)) == Some(nodes),
    decreases nodes.len(),
{
    if nodes.len() == 0 {
        assert(records_text(nodes) =~= Seq::<char>::empty());
    } else {
        let tail = nodes.drop_first();
        assert forall|i: int| 0 <= i < tail.len() implies !(#[trigger] tail[i]).0.contains('\n') by {
            assert(tail[i] == nodes[i + 1]);
        }
        assert forall|i: int| 0 <= i < tail.len() implies utf8_len(#[trigger] tail[i].0) + utf8_len(
            tail[i].1,
        ) + 1 <= usize::MAX by {
            assert(tail[i] == nodes[i + 1]);
        }
        lemma_records_roundtrip(tail);
        lemma_record_read(nodes[0], records_text(tail));
        assert(seq![nodes[0]] + tail =~= nodes);
    }
}

/// Reading back a snapshot text written from an outline and nodes gives the
/// outline, under `outline_key()`, followed by the nodes in order, provided
/// that the outline followed by a newline holds no blank line and that no
/// gnx holds a newline.
pub proof fn snapshot_roundtrip(outline: Seq<char>, nodes: Seq<NodeView>)
    requires
        forall|j: int| !occurs_at(outline.push('\n'), seq!['\n', '\n'], j),
        forall|i: int| 0 <= i < nodes.len() ==> !(#[trigger] nodes[i]).0.contains('\n'),
        record_sizes_fit(nodes),
    ensures
        snapshot_entries(snapshot_text(outline, nodes)) == Some(seq![(outline_key(), outline)] + nodes),
{
    let txt = snapshot_text(outline, nodes);
    let sep = seq!['\n', '\n'];
    let o = outline.len() as int;
    assert(txt.subrange(o, o + 2) =~= sep);
    assert forall|j: int| 0 <= j < o implies !occurs_at(txt, sep, j) by {
        if occurs_at(txt, sep, j) {
            assert(txt.subrange(j, j + 2)[0] == txt[j]);
            assert(txt.subrange(j, j + 2)[1] == txt[j + 1]);
            assert(outline.push('\n').subrange(j, j + 2) =~= sep);
            assert(occurs_at(outline.push('\n'), sep, j));
        }
    }
    lemma_first_occurrence(txt, sep, o);
    assert(txt.subrange(0, o) =~= outline);
    assert(txt.subrange(o + 2, txt.len() as int) =~= records_text(nodes));
    lemma_records_roundtrip(nodes);
}

} // verus!
