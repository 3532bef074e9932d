//! The history of a file's snapshots: what storing a snapshot changes (which
//! nodes get a change record, what the table of present nodes holds
//! afterwards) and how the present nodes are written out as a snapshot.

use vstd::prelude::*;
use crate::text::{occurs_at, utf8_len};
use crate::snapshot::{
    encode_snapshot, entries_view, outline_key, record_sizes_fit, snapshot_entries, snapshot_roundtrip,
    snapshot_text, NodeView,
};

verus! {

broadcast use vstd::string::group_string_axioms;

/// A change record: the gnx, its body before and its body after. The stored
/// record is the delta from the body before to the body after.
pub type ChangeView = (Seq<char>, Seq<char>, Seq<char>);

/// A row of the table of present nodes: the gnx, its body and whether the
/// node has been deleted.
pub type RowView = (Seq<char>, Seq<char>, bool);

/// The nodes of a snapshot as a map from gnx to body; where a gnx occurs
/// more than once, its last body counts.
pub open spec fn nodes_map(es: Seq<NodeView>) -> Map<Seq<char>, Seq<char>>
    decreases es.len(),
{
    if es.len() == 0 {
        Map::empty()
    } else {
        nodes_map(es.drop_last()).insert(es.last().0, es.last().1)
    }
}

/// The changes and row updates for the present rows `rows`, in their order,
/// where `m` holds the snapshot's nodes not yet matched to a row: a row whose
/// node is in `m` gets, where the body differs, a change to the new body and
/// the new body; a row whose node is not gets a change to the empty body
/// (where its body was not empty already) and is marked deleted.
pub open spec fn plan_rows(rows: Seq<NodeView>, m: Map<Seq<char>, Seq<char>>) -> (
    Seq<ChangeView>,
    Seq<RowView>,
)
    decreases rows.len(),
{
    if rows.len() == 0 {
        (Seq::empty(), Seq::empty())
    } else {
        let (g, hb) = rows[0];
        let (c, u) = plan_rows(rows.drop_first(), m.remove(g));
        if m.contains_key(g) {
            if hb != m[g] {
                (seq![(g, hb, m[g])] + c, seq![(g, m[g], false)] + u)
            } else {
                (c, u)
            }
        } else {
            (
                if hb.len() > 0 {
                    seq![(g, hb, Seq::<char>::empty())] + c
                } else {
                    c
                },
                seq![(g, Seq::<char>::empty(), true)] + u,
            )
        }
    }
}

/// The gnx of every present row.
pub open spec fn row_keys(rows: Seq<NodeView>) -> Set<Seq<char>> {
    Set::new(|k: Seq<char>| exists|i: int| 0 <= i < rows.len() && (#[trigger] rows[i]).0 == k)
}

/// Node `i` of `es` is new: no present row has its gnx, and it is the last
/// node with that gnx.
pub open spec fn is_new_node(es: Seq<NodeView>, taken: Set<Seq<char>>, i: int) -> bool {
    &&& !taken.contains(es[i].0)
    &&& forall|j: int| i < j < es.len() ==> es[j].0 != es[i].0
}

/// The new nodes among the first `n` nodes of `es`, in order.
pub open spec fn new_nodes(es: Seq<NodeView>, taken: Set<Seq<char>>, n: int) -> Seq<NodeView>
    decreases n,
{
    if n <= 0 {
        Seq::empty()
    } else if is_new_node(es, taken, n - 1) {
        new_nodes(es, taken, n - 1).push(es[n - 1])
    } else {
        new_nodes(es, taken, n - 1)
    }
}

/// What storing the snapshot `nodes` over the present rows `rows` records:
/// the changes and the row updates of `plan_rows`, then, for each new node,
/// a change from the empty body and a row with its body.
pub open spec fn snapshot_plan(rows: Seq<NodeView>, nodes: Seq<NodeView>) -> (
    Seq<ChangeView>,
    Seq<RowView>,
) {
    let (c, u) = plan_rows(rows, nodes_map(nodes));
    let f = new_nodes(nodes, row_keys(rows), nodes.len() as int);
    (
        c + f.map_values(|e: NodeView| (e.0, Seq::<char>::empty(), e.1)),
        u + f.map_values(|e: NodeView| (e.0, e.1, false)),
    )
}

/// The views of a list of change records.
pub open spec fn changes_view(v: Seq<(String, String, String)>) -> Seq<ChangeView> {
    v.map_values(|c: (String, String, String)| (c.0@, c.1@, c.2@))
}

/// The views of a list of rows.
pub open spec fn rows_view(v: Seq<(String, String, bool)>) -> Seq<RowView> {
    v.map_values(|r: (String, String, bool)| (r.0@, r.1@, r.2))
}

/// The map of a list of nodes has a gnx exactly where some node has it.
pub proof fn lemma_nodes_map_contains(es: Seq<NodeView>, g: Seq<char>)
    ensures
        nodes_map(es).contains_key(g) <==> exists|i: int| 0 <= i < es.len() && (#[trigger] es[i]).0 == g,
    decreases es.len(),
{
    if es.len() > 0 {
        let init = es.drop_last();
        lemma_nodes_map_contains(init, g);
        if exists|i: int| 0 <= i < init.len() && (#[trigger] init[i]).0 == g {
            let i = choose|i: int| 0 <= i < init.len() && (#[trigger] init[i]).0 == g;
            assert(es[i] == init[i]);
        }
        if exists|i: int| 0 <= i < es.len() && (#[trigger] es[i]).0 == g {
            let i = choose|i: int| 0 <= i < es.len() && (#[trigger] es[i]).0 == g;
            if i < es.len() - 1 {
                assert(init[i] == es[i]);
            }
        }
    }
}

/// Under the gnx of the last node that has it, the map holds that node's
/// body.
pub proof fn lemma_nodes_map_value(es: Seq<NodeView>, g: Seq<char>, i: int)
    requires
        0 <= i < es.len(),
        es[i].0 == g,
        forall|j: int| i < j < es.len() ==> es[j].0 != g,
    ensures
        nodes_map(es).contains_key(g),
        nodes_map(es)[g] == es[i].1,
    decreases es.len(),
{
    let init = es.drop_last();
    if i < es.len() - 1 {
        assert(es[es.len() - 1].0 != g);
        assert(init[i] == es[i]);
        assert forall|j: int| i < j < init.len() implies init[j].0 != g by {
            assert(init[j] == es[j]);
        }
        lemma_nodes_map_value(init, g, i);
    }
}

/// The position of the last node with gnx `g`.
fn last_index_of(nodes: &Vec<(String, String)>, g: &String) -> (r: Option<usize>)
    ensures
        match r {
            Some(i) => i < nodes@.len() && nodes@[i as int].0@ == g@ && forall|j: int|
                i < j < nodes@.len() ==> nodes@[j].0@ != g@,
            None => forall|j: int| 0 <= j < nodes@.len() ==> nodes@[j].0@ != g@,
        },
{
    let mut i = nodes.len();
    while i > 0
        invariant
            i <= nodes@.len(),
            forall|j: int| i <= j < nodes@.len() ==> nodes@[j].0@ != g@,
        decreases i,
    {
        if nodes[i - 1].0 == *g {
            return Some(i - 1);
        }
        i = i - 1;
    }
    None
}

/// Whether some row before position `r` has gnx `g`.
fn taken_before(rows: &Vec<(String, String)>, r: usize, g: &String) -> (b: bool)
    requires
        r <= rows@.len(),
    ensures
        b <==> exists|j: int| 0 <= j < r && rows@[j].0@ == g@,
{
    let mut j: usize = 0;
    while j < r
        invariant
            j <= r <= rows@.len(),
            forall|k: int| 0 <= k < j ==> rows@[k].0@ != g@,
        decreases r - j,
    {
        if rows[j].0 == *g {
            return true;
        }
        j = j + 1;
    }
    false
}

/// The snapshot's nodes not matched by the first `r` present rows.
pub open spec fn unmatched(m: Map<Seq<char>, Seq<char>>, rows: Seq<NodeView>, r: int) -> Map<
    Seq<char>,
    Seq<char>,
> {
    m.remove_keys(row_keys(rows.subrange(0, r)))
}

proof fn lemma_plan_step(rows: Seq<NodeView>, m: Map<Seq<char>, Seq<char>>, r: int)
    requires
        0 <= r < rows.len(),
    ensures
        ({
            let g = rows[r].0;
            let hb = rows[r].1;
            let mr = unmatched(m, rows, r);
            let (c, u) = plan_rows(rows.subrange(r + 1, rows.len() as int), unmatched(m, rows, r + 1));
            &&& mr.contains_key(g) <==> (m.contains_key(g) && !row_keys(rows.subrange(0, r)).contains(g))
            &&& mr.contains_key(g) ==> mr[g] == m[g]
            &&& plan_rows(rows.subrange(r, rows.len() as int), mr) == if mr.contains_key(g) {
                if hb != mr[g] {
                    (seq![(g, hb, mr[g])] + c, seq![(g, mr[g], false)] + u)
                } else {
                    (c, u)
                }
            } else {
                (
                    if hb.len() > 0 {
                        seq![(g, hb, Seq::<char>::empty())] + c
                    } else {
                        c
                    },
                    seq![(g, Seq::<char>::empty(), true)] + u,
                )
            }
        }),
{
    let g = rows[r].0;
    let tail = rows.subrange(r, rows.len() as int);
    assert(tail[0] == rows[r]);
    assert(tail.drop_first() =~= rows.subrange(r + 1, rows.len() as int));
    let before = row_keys(rows.subrange(0, r));
    let after = row_keys(rows.subrange(0, r + 1));
    assert(after =~= before.insert(g)) by {
        assert forall|k: Seq<char>| after.contains(k) implies before.insert(g).contains(k) by {
            let i = choose|i: int| 0 <= i < r + 1 && (#[trigger] rows.subrange(0, r + 1)[i]).0 == k;
            if i < r {
                assert(rows.subrange(0, r)[i] == rows.subrange(0, r + 1)[i]);
            }
        }
        assert forall|k: Seq<char>| before.insert(g).contains(k) implies after.contains(k) by {
            if k == g {
                assert(rows.subrange(0, r + 1)[r] == rows[r]);
            } else {
                let i = choose|i: int| 0 <= i < r && (#[trigger] rows.subrange(0, r)[i]).0 == k;
                assert(rows.subrange(0, r)[i] == rows.subrange(0, r + 1)[i]);
            }
        }
    }
    assert(unmatched(m, rows, r).remove(g) =~= unmatched(m, rows, r + 1));
}

/// What storing the snapshot `nodes` over the present rows `present` does:
/// the change records to store, each as the gnx, the body before and the body
/// after, and the rows to write into the table of present nodes, each as the
/// gnx, the body and whether the node is deleted.
pub fn plan_snapshot(present: &Vec<(String, String)>, nodes: &Vec<(String, String)>) -> (r: (
    Vec<(String, String, String)>,
    Vec<(String, String, bool)>,
))
    ensures
        (changes_view(r.0@), rows_view(r.1@)) == snapshot_plan(
            entries_view(present@),
            entries_view(nodes@),
        ),
{
    let ghost rows = entries_view(present@);
    let ghost es = entries_view(nodes@);
    let ghost m = nodes_map(es);
    let mut changes: Vec<(String, String, String)> = Vec::new();
    let mut updates: Vec<(String, String, bool)> = Vec::new();
    let mut r: usize = 0;
    assert(rows.subrange(0, rows.len() as int) =~= rows);
    assert(unmatched(m, rows, 0) =~= m) by {
        assert(row_keys(rows.subrange(0, 0)) =~= Set::<Seq<char>>::empty());
    }
    assert(changes_view(changes@) =~= Seq::<ChangeView>::empty());
    assert(rows_view(updates@) =~= Seq::<RowView>::empty());
    while r < present.len()
        invariant
            r <= present@.len(),
            rows == entries_view(present@),
            es == entries_view(nodes@),
            m == nodes_map(es),
            plan_rows(rows, m) == ({
                let (c, u) = plan_rows(rows.subrange(r as int, rows.len() as int), unmatched(m, rows, r as int));
                (changes_view(changes@) + c, rows_view(updates@) + u)
            }),
        decreases present@.len() - r,
    {
        let g = &present[r].0;
        let hb = &present[r].1;
        proof {
            lemma_plan_step(rows, m, r as int);
            lemma_nodes_map_contains(es, g@);
        }
        let ghost mr = unmatched(m, rows, r as int);
        let ghost rest = plan_rows(rows.subrange(r + 1, rows.len() as int), unmatched(m, rows, r + 1));
        let ghost c0 = changes_view(changes@);
        let ghost u0 = rows_view(updates@);
        let seen = taken_before(present, r, g);
        assert(seen <==> row_keys(rows.subrange(0, r as int)).contains(g@)) by {
            if seen {
                let j = choose|j: int| 0 <= j < r && present@[j].0@ == g@;
                assert(rows.subrange(0, r as int)[j].0 == g@);
            }
            if row_keys(rows.subrange(0, r as int)).contains(g@) {
                let j = choose|j: int| 0 <= j < r && (#[trigger] rows.subrange(0, r as int)[j]).0 == g@;
                assert(present@[j].0@ == g@);
            }
        }
        let found = if seen {
            None
        } else {
            last_index_of(nodes, g)
        };
        match found {
            Some(i) => {
                proof {
                    lemma_nodes_map_value(es, g@, i as int);
                }
                let s = &nodes[i].1;
                if !(*hb == *s) {
                    changes.push((g.clone(), hb.clone(), s.clone()));
                    updates.push((g.clone(), s.clone(), false));
                    assert(changes_view(changes@) =~= c0 + seq![(g@, hb@, s@)]);
                    assert(rows_view(updates@) =~= u0 + seq![(g@, s@, false)]);
                    assert(c0 + (seq![(g@, hb@, s@)] + rest.0) =~= changes_view(changes@) + rest.0);
                    assert(u0 + (seq![(g@, s@, false)] + rest.1) =~= rows_view(updates@) + rest.1);
                }
            },
            None => {
                if !seen {
                    assert(!m.contains_key(g@)) by {
                        if m.contains_key(g@) {
                            let j = choose|j: int| 0 <= j < es.len() && (#[trigger] es[j]).0 == g@;
                            assert(nodes@[j].0@ == g@);
                        }
                    }
                }
                if !hb.as_str().is_empty() {
                    changes.push((g.clone(), hb.clone(), String::new()));
                    assert(changes_view(changes@) =~= c0 + seq![(g@, hb@, Seq::<char>::empty())]);
                    assert(c0 + (seq![(g@, hb@, Seq::<char>::empty())] + rest.0) =~= changes_view(changes@) + rest.0);
                }
                updates.push((g.clone(), String::new(), true));
                assert(rows_view(updates@) =~= u0 + seq![(g@, Seq::<char>::empty(), true)]);
                assert(u0 + (seq![(g@, Seq::<char>::empty(), true)] + rest.1) =~= rows_view(updates@) + rest.1);
            },
        }
        r = r + 1;
    }
    assert(rows.subrange(r as int, rows.len() as int) =~= Seq::<NodeView>::empty());
    let ghost c_rows = changes_view(changes@);
    let ghost u_rows = rows_view(updates@);
    assert(c_rows + Seq::<ChangeView>::empty() =~= c_rows);
    assert(u_rows + Seq::<RowView>::empty() =~= u_rows);
    assert(plan_rows(rows, m) == (c_rows, u_rows));
    let ghost taken = row_keys(rows);
    let mut i: usize = 0;
    assert(new_nodes(es, taken, 0) =~= Seq::<NodeView>::empty());
    assert(changes_view(changes@) =~= c_rows + new_nodes(es, taken, 0).map_values(
        |e: NodeView| (e.0, Seq::<char>::empty(), e.1),
    ));
    assert(rows_view(updates@) =~= u_rows + new_nodes(es, taken, 0).map_values(
        |e: NodeView| (e.0, e.1, false),
    ));
    while i < nodes.len()
        invariant
            i <= nodes@.len(),
            rows == entries_view(present@),
            es == entries_view(nodes@),
            taken == row_keys(rows),
            changes_view(changes@) == c_rows + new_nodes(es, taken, i as int).map_values(
                |e: NodeView| (e.0, Seq::<char>::empty(), e.1),
            ),
            rows_view(updates@) == u_rows + new_nodes(es, taken, i as int).map_values(
                |e: NodeView| (e.0, e.1, false),
            ),
        decreases nodes@.len() - i,
    {
        let g = &nodes[i].0;
        let listed = taken_before(present, present.len(), g);
        assert(listed <==> taken.contains(g@)) by {
            if listed {
                let j = choose|j: int| 0 <= j < present@.len() && present@[j].0@ == g@;
                assert(rows[j].0 == g@);
            }
            if taken.contains(g@) {
                let j = choose|j: int| 0 <= j < rows.len() && (#[trigger] rows[j]).0 == g@;
                assert(present@[j].0@ == g@);
            }
        }
        let last = last_index_of(nodes, g);
        let is_new = !listed && match last {
            Some(k) => k == i,
            None => false,
        };
        assert(is_new == is_new_node(es, taken, i as int)) by {
            if let Some(k) = last {
                if k != i {
                    assert(es[k as int].0 == es[i as int].0);
                }
            }
        }
        let ghost f = new_nodes(es, taken, i as int);
        let ghost c0 = changes_view(changes@);
        let ghost u0 = rows_view(updates@);
        if is_new {
            let hb = &nodes[i].1;
            changes.push((g.clone(), String::new(), hb.clone()));
            updates.push((g.clone(), hb.clone(), false));
            assert(new_nodes(es, taken, i + 1) == f.push(es[i as int]));
            assert(es[i as int] == (g@, hb@));
            assert(changes_view(changes@) =~= c0.push((g@, Seq::<char>::empty(), hb@)));
            assert(rows_view(updates@) =~= u0.push((g@, hb@, false)));
            assert(f.push(es[i as int]).map_values(|e: NodeView| (e.0, Seq::<char>::empty(), e.1))
                =~= f.map_values(|e: NodeView| (e.0, Seq::<char>::empty(), e.1)).push(
                (g@, Seq::<char>::empty(), hb@),
            ));
            assert(f.push(es[i as int]).map_values(|e: NodeView| (e.0, e.1, false)) =~= f.map_values(
                |e: NodeView| (e.0, e.1, false),
            ).push((g@, hb@, false)));
            assert(changes_view(changes@) =~= c_rows + f.push(es[i as int]).map_values(
                |e: NodeView| (e.0, Seq::<char>::empty(), e.1),
            ));
            assert(rows_view(updates@) =~= u_rows + f.push(es[i as int]).map_values(
                |e: NodeView| (e.0, e.1, false),
            ));
        }
        i = i + 1;
    }
    (changes, updates)
}

/// The table of present nodes, from gnx to body and deleted flag, after
/// writing `ups` into `table` one after the other, each replacing the entry
/// of its gnx.
pub open spec fn write_rows(table: Map<Seq<char>, (Seq<char>, bool)>, ups: Seq<RowView>) -> Map<
    Seq<char>,
    (Seq<char>, bool),
>
    decreases ups.len(),
{
    if ups.len() == 0 {
        table
    } else {
        write_rows(table.insert(ups[0].0, (ups[0].1, ups[0].2)), ups.drop_first())
    }
}

proof fn lemma_write_rows_concat(
    table: Map<Seq<char>, (Seq<char>, bool)>,
    a: Seq<RowView>,
    b: Seq<RowView>,
)
    ensures
        write_rows(table, a + b) == write_rows(write_rows(table, a), b),
    decreases a.len(),
{
    if a.len() == 0 {
        assert(a + b =~= b);
    } else {
        assert((a + b).drop_first() =~= a.drop_first() + b);
        assert((a + b)[0] == a[0]);
        lemma_write_rows_concat(table.insert(a[0].0, (a[0].1, a[0].2)), a.drop_first(), b);
    }
}

/// Writing rows leaves the entry of a gnx that none of them has as it was.
proof fn lemma_write_rows_other(
    table: Map<Seq<char>, (Seq<char>, bool)>,
    ups: Seq<RowView>,
    k: Seq<char>,
)
    requires
        forall|i: int| 0 <= i < ups.len() ==> ups[i].0 != k,
    ensures
        write_rows(table, ups).contains_key(k) == table.contains_key(k),
        table.contains_key(k) ==> write_rows(table, ups)[k] == table[k],
    decreases ups.len(),
{
    if ups.len() > 0 {
        let t1 = table.insert(ups[0].0, (ups[0].1, ups[0].2));
        let tail = ups.drop_first();
        assert(ups[0].0 != k);
        assert forall|q: int| 0 <= q < tail.len() implies tail[q].0 != k by {
            assert(tail[q] == ups[q + 1]);
        }
        lemma_write_rows_other(t1, tail, k);
    }
}

/// Among rows with distinct gnx, each ends up in the table.
proof fn lemma_write_rows_at(table: Map<Seq<char>, (Seq<char>, bool)>, ups: Seq<RowView>, i: int)
    requires
        0 <= i < ups.len(),
        forall|a: int, b: int| 0 <= a < b < ups.len() ==> ups[a].0 != ups[b].0,
    ensures
        write_rows(table, ups).contains_key(ups[i].0),
        write_rows(table, ups)[ups[i].0] == (ups[i].1, ups[i].2),
    decreases ups.len(),
{
    let t1 = table.insert(ups[0].0, (ups[0].1, ups[0].2));
    let tail = ups.drop_first();
    if i == 0 {
        assert forall|q: int| 0 <= q < tail.len() implies tail[q].0 != ups[0].0 by {
            assert(tail[q] == ups[q + 1]);
        }
        lemma_write_rows_other(t1, tail, ups[0].0);
    } else {
        assert forall|a: int, b: int| 0 <= a < b < tail.len() implies tail[a].0 != tail[b].0 by {
            assert(tail[a] == ups[a + 1] && tail[b] == ups[b + 1]);
        }
        assert(tail[i - 1] == ups[i]);
        lemma_write_rows_at(t1, tail, i - 1);
    }
}

proof fn lemma_row_keys_cons(rows: Seq<NodeView>)
    requires
        rows.len() > 0,
    ensures
        row_keys(rows) == row_keys(rows.drop_first()).insert(rows[0].0),
{
    let tail = rows.drop_first();
    assert forall|k: Seq<char>| row_keys(rows).contains(k) implies row_keys(tail).insert(
        rows[0].0,
    ).contains(k) by {
        let i = choose|i: int| 0 <= i < rows.len() && (#[trigger] rows[i]).0 == k;
        if i > 0 {
            assert(tail[i - 1] == rows[i]);
        }
    }
    assert forall|k: Seq<char>| row_keys(tail).insert(rows[0].0).contains(k) implies row_keys(
        rows,
    ).contains(k) by {
        if k != rows[0].0 {
            let i = choose|i: int| 0 <= i < tail.len() && (#[trigger] tail[i]).0 == k;
            assert(rows[i + 1] == tail[i]);
        }
    }
    assert(row_keys(rows) =~= row_keys(tail).insert(rows[0].0));
}

/// Present rows all with distinct gnx, whose bodies are what `table` holds.
pub open spec fn rows_match_table(rows: Seq<NodeView>, table: Map<Seq<char>, (Seq<char>, bool)>) -> bool {
    &&& forall|i: int, j: int| 0 <= i < j < rows.len() ==> rows[i].0 != rows[j].0
    &&& forall|i: int|
        0 <= i < rows.len() ==> table.contains_key(#[trigger] rows[i].0) && table[rows[i].0].0
            == rows[i].1
}

proof fn lemma_plan_rows_writes(
    rows: Seq<NodeView>,
    m: Map<Seq<char>, Seq<char>>,
    table: Map<Seq<char>, (Seq<char>, bool)>,
    k: Seq<char>,
)
    requires
        rows_match_table(rows, table),
    ensures
        ({
            let t = write_rows(table, plan_rows(rows, m).1);
            &&& !row_keys(rows).contains(k) ==> t.contains_key(k) == table.contains_key(k) && (
            table.contains_key(k) ==> t[k] == table[k])
            &&& row_keys(rows).contains(k) && m.contains_key(k) ==> t.contains_key(k) && t[k].0
                == m[k] && (t[k].1 == false || t[k] == table[k])
            &&& row_keys(rows).contains(k) && !m.contains_key(k) ==> t.contains_key(k) && t[k] == (
            Seq::<char>::empty(), true)
        }),
    decreases rows.len(),
{
    if rows.len() == 0 {
        assert(!row_keys(rows).contains(k));
    } else {
        let g = rows[0].0;
        let hb = rows[0].1;
        let tail = rows.drop_first();
        let m1 = m.remove(g);
        lemma_row_keys_cons(rows);
        let table1 = if m.contains_key(g) {
            if hb != m[g] {
                table.insert(g, (m[g], false))
            } else {
                table
            }
        } else {
            table.insert(g, (Seq::<char>::empty(), true))
        };
        let u1 = plan_rows(tail, m1).1;
        assert(write_rows(table, plan_rows(rows, m).1) == write_rows(table1, u1)) by {
            if m.contains_key(g) && hb != m[g] {
                assert((seq![(g, m[g], false)] + u1)[0] == (g, m[g], false));
                assert((seq![(g, m[g], false)] + u1).drop_first() =~= u1);
            } else if !m.contains_key(g) {
                assert((seq![(g, Seq::<char>::empty(), true)] + u1)[0] == (g, Seq::<char>::empty(), true));
                assert((seq![(g, Seq::<char>::empty(), true)] + u1).drop_first() =~= u1);
            }
        }
        assert(table.contains_key(g) && table[g].0 == hb) by {
            assert(rows[0].0 == g);
        }
        assert forall|i: int, j: int| 0 <= i < j < tail.len() implies tail[i].0 != tail[j].0 by {
            assert(tail[i] == rows[i + 1] && tail[j] == rows[j + 1]);
        }
        assert forall|i: int| 0 <= i < tail.len() implies table1.contains_key(#[trigger] tail[i].0)
            && table1[tail[i].0].0 == tail[i].1 by {
            assert(tail[i] == rows[i + 1]);
            assert(rows[0].0 != rows[i + 1].0);
        }
        assert(!row_keys(tail).contains(g)) by {
            if row_keys(tail).contains(g) {
                let i = choose|i: int| 0 <= i < tail.len() && (#[trigger] tail[i]).0 == g;
                assert(tail[i] == rows[i + 1]);
            }
        }
        if k == g {
            lemma_plan_rows_writes(tail, m1, table1, g);
        } else {
            lemma_plan_rows_writes(tail, m1, table1, k);
        }
    }
}

proof fn lemma_new_nodes_from(es: Seq<NodeView>, taken: Set<Seq<char>>, n: int)
    requires
        0 <= n <= es.len(),
    ensures
        forall|p: int|
            0 <= p < new_nodes(es, taken, n).len() ==> exists|i: int|
                0 <= i < n && is_new_node(es, taken, i) && #[trigger] new_nodes(es, taken, n)[p]
                    == es[i],
    decreases n,
{
    if n > 0 {
        lemma_new_nodes_from(es, taken, n - 1);
        let f0 = new_nodes(es, taken, n - 1);
        let f = new_nodes(es, taken, n);
        if is_new_node(es, taken, n - 1) {
            assert(f == f0.push(es[n - 1]));
        } else {
            assert(f == f0);
        }
        assert forall|p: int| 0 <= p < f.len() implies exists|i: int|
            0 <= i < n && is_new_node(es, taken, i) && #[trigger] f[p] == es[i] by {
            if p < f0.len() {
                assert(f[p] == f0[p]);
                let i = choose|i: int| 0 <= i < n - 1 && is_new_node(es, taken, i) && f0[p] == es[i];
                assert(f[p] == es[i]);
            } else {
                assert(f[p] == es[n - 1]);
            }
        }
    }
}

proof fn lemma_new_nodes_to(es: Seq<NodeView>, taken: Set<Seq<char>>, n: int, i: int)
    requires
        0 <= i < n <= es.len(),
        is_new_node(es, taken, i),
    ensures
        exists|p: int| 0 <= p < new_nodes(es, taken, n).len() && new_nodes(es, taken, n)[p] == es[i],
    decreases n,
{
    let f0 = new_nodes(es, taken, n - 1);
    let f = new_nodes(es, taken, n);
    if i < n - 1 {
        lemma_new_nodes_to(es, taken, n - 1, i);
        let p = choose|p: int| 0 <= p < f0.len() && f0[p] == es[i];
        if is_new_node(es, taken, n - 1) {
            assert(f[p] == f0[p]);
        }
    } else {
        assert(f[f0.len() as int] == es[i]);
    }
}

proof fn lemma_new_nodes_distinct(es: Seq<NodeView>, taken: Set<Seq<char>>, n: int)
    requires
        0 <= n <= es.len(),
    ensures
        forall|p: int, q: int|
            0 <= p < q < new_nodes(es, taken, n).len() ==> new_nodes(es, taken, n)[p].0
                != new_nodes(es, taken, n)[q].0,
    decreases n,
{
    if n > 0 {
        lemma_new_nodes_distinct(es, taken, n - 1);
        lemma_new_nodes_from(es, taken, n - 1);
        let f0 = new_nodes(es, taken, n - 1);
        let f = new_nodes(es, taken, n);
        if is_new_node(es, taken, n - 1) {
            assert forall|p: int, q: int| 0 <= p < q < f.len() implies f[p].0 != f[q].0 by {
                assert(f[p] == f0[p]);
                if q < f0.len() {
                    assert(f[q] == f0[q]);
                } else {
                    let i = choose|i: int| 0 <= i < n - 1 && is_new_node(es, taken, i) && #[trigger] f0[p] == es[i];
                    assert(es[n - 1].0 != es[i].0);
                }
            }
        }
    }
}

proof fn lemma_last_occurrence(es: Seq<NodeView>, k: Seq<char>, i: int)
    requires
        0 <= i < es.len(),
        es[i].0 == k,
    ensures
        exists|l: int| 0 <= l < es.len() && es[l].0 == k && forall|j: int| l < j < es.len() ==> es[j].0 != k,
    decreases es.len() - i,
{
    if exists|j: int| i < j < es.len() && es[j].0 == k {
        let j = choose|j: int| i < j < es.len() && es[j].0 == k;
        lemma_last_occurrence(es, k, j);
    } else {
        assert(forall|j: int| i < j < es.len() ==> es[j].0 != k);
    }
}

/// What storing a snapshot leaves in the table of present nodes, where the
/// present rows have distinct gnx and their bodies are what the table holds:
/// every node of the snapshot has its body there, and is live unless its
/// row stays as it was because its body did not change; every present row
/// whose node is not in the snapshot is marked deleted with an empty body;
/// nothing else changes.
pub proof fn snapshot_plan_writes(
    rows: Seq<NodeView>,
    nodes: Seq<NodeView>,
    table: Map<Seq<char>, (Seq<char>, bool)>,
    k: Seq<char>,
)
    requires
        rows_match_table(rows, table),
    ensures
        ({
            let t = write_rows(table, snapshot_plan(rows, nodes).1);
            let m = nodes_map(nodes);
            &&& m.contains_key(k) ==> t.contains_key(k) && t[k].0 == m[k] && (t[k].1 == false || (
            row_keys(rows).contains(k) && t[k] == table[k]))
            &&& row_keys(rows).contains(k) && !m.contains_key(k) ==> t.contains_key(k) && t[k] == (
            Seq::<char>::empty(), true)
            &&& !row_keys(rows).contains(k) && !m.contains_key(k) ==> t.contains_key(k)
                == table.contains_key(k) && (table.contains_key(k) ==> t[k] == table[k])
        }),
{
    let m = nodes_map(nodes);
    let (c, u) = plan_rows(rows, m);
    let taken = row_keys(rows);
    let f = new_nodes(nodes, taken, nodes.len() as int);
    let fu = f.map_values(|e: NodeView| (e.0, e.1, false));
    let t1 = write_rows(table, u);
    lemma_write_rows_concat(table, u, fu);
    lemma_plan_rows_writes(rows, m, table, k);
    lemma_new_nodes_from(nodes, taken, nodes.len() as int);
    lemma_new_nodes_distinct(nodes, taken, nodes.len() as int);
    assert forall|a: int, b: int| 0 <= a < b < fu.len() implies fu[a].0 != fu[b].0 by {
        assert(fu[a].0 == f[a].0 && fu[b].0 == f[b].0);
    }
    if m.contains_key(k) && !taken.contains(k) {
        lemma_nodes_map_contains(nodes, k);
        let i0 = choose|i: int| 0 <= i < nodes.len() && (#[trigger] nodes[i]).0 == k;
        lemma_last_occurrence(nodes, k, i0);
        let l = choose|l: int| 0 <= l < nodes.len() && nodes[l].0 == k && forall|j: int|
            l < j < nodes.len() ==> nodes[j].0 != k;
        assert(is_new_node(nodes, taken, l));
        lemma_nodes_map_value(nodes, k, l);
        lemma_new_nodes_to(nodes, taken, nodes.len() as int, l);
        let p = choose|p: int| 0 <= p < f.len() && f[p] == nodes[l];
        assert(fu[p] == (k, m[k], false));
        lemma_write_rows_at(t1, fu, p);
    } else {
        assert forall|p: int| 0 <= p < fu.len() implies fu[p].0 != k by {
            let i = choose|i: int| 0 <= i < nodes.len() && is_new_node(nodes, taken, i) && f[p] == nodes[i];
            assert(fu[p].0 == nodes[i].0);
            if nodes[i].0 == k {
                assert forall|j: int| i < j < nodes.len() implies nodes[j].0 != k by {
                    assert(nodes[j].0 != nodes[i].0);
                }
                lemma_nodes_map_value(nodes, k, i);
            }
        }
        lemma_write_rows_other(t1, fu, k);
    }
}

/// The live nodes of a table of present nodes: gnx to body, for the rows not
/// marked deleted.
pub open spec fn live_nodes(table: Map<Seq<char>, (Seq<char>, bool)>) -> Map<Seq<char>, Seq<char>> {
    Map::new(|k: Seq<char>| table.contains_key(k) && !table[k].1, |k: Seq<char>| table[k].0)
}

/// After a snapshot is stored over the whole table of present nodes, the
/// live nodes are exactly the nodes of the snapshot, provided that no node
/// of the snapshot comes back with the very body that its deleted row holds
/// (such a row is left as it is, deleted).
pub proof fn stored_snapshot_is_live(
    rows: Seq<NodeView>,
    nodes: Seq<NodeView>,
    table: Map<Seq<char>, (Seq<char>, bool)>,
)
    requires
        rows_match_table(rows, table),
        table.dom() == row_keys(rows),
        forall|k: Seq<char>|
            nodes_map(nodes).contains_key(k) && table.contains_key(k) && table[k].1 ==> table[k].0
                != nodes_map(nodes)[k],
    ensures
        live_nodes(write_rows(table, snapshot_plan(rows, nodes).1)) == nodes_map(nodes),
{
    let t = write_rows(table, snapshot_plan(rows, nodes).1);
    let m = nodes_map(nodes);
    assert forall|k: Seq<char>| #[trigger] live_nodes(t).contains_key(k) <==> m.contains_key(k) by {
        snapshot_plan_writes(rows, nodes, table, k);
    }
    assert forall|k: Seq<char>| #[trigger] live_nodes(t).contains_key(k) implies live_nodes(t)[k] == m[k] by {
        snapshot_plan_writes(rows, nodes, table, k);
    }
    assert(live_nodes(t) =~= m);
}

/// The snapshot text of the present nodes `rows` (live nodes, gnx and body):
/// the body under `__outline__` is the outline, and every other node is a
/// record, in the order of the rows; where a gnx occurs more than once, its
/// last row counts. There is no text where no row holds the outline.
pub fn present_snapshot(rows: &Vec<(String, String)>) -> (r: Option<String>)
    requires
        record_sizes_fit(entries_view(rows@)),
    ensures
        ({
            let es = entries_view(rows@);
            let m = nodes_map(es);
            if m.contains_key(outline_key()) {
                r matches Some(t) && t@ == snapshot_text(
                    m[outline_key()],
                    new_nodes(es, set![outline_key()], es.len() as int),
                )
            } else {
                r is None
            }
        }),
{
    let ghost es = entries_view(rows@);
    let ghost taken = set![outline_key()];
    let key = "__outline__".to_owned();
    proof {
        lemma_nodes_map_contains(es, outline_key());
    }
    let outline = match last_index_of(rows, &key) {
        Some(i) => {
            proof {
                lemma_nodes_map_value(es, outline_key(), i as int);
            }
            rows[i].1.as_str()
        },
        None => {
            assert(!nodes_map(es).contains_key(outline_key())) by {
                if nodes_map(es).contains_key(outline_key()) {
                    let j = choose|j: int| 0 <= j < es.len() && (#[trigger] es[j]).0 == outline_key();
                    assert(rows@[j].0@ == key@);
                }
            }
            return None;
        },
    };
    let mut others: Vec<(String, String)> = Vec::new();
    let mut i: usize = 0;
    assert(entries_view(others@) =~= new_nodes(es, taken, 0));
    while i < rows.len()
        invariant
            i <= rows@.len(),
            es == entries_view(rows@),
            taken == set![outline_key()],
            key@ == outline_key(),
            entries_view(others@) == new_nodes(es, taken, i as int),
            forall|p: int|
                0 <= p < others@.len() ==> exists|q: int|
                    0 <= q < rows@.len() && #[trigger] entries_view(others@)[p] == es[q],
        decreases rows@.len() - i,
    {
        let g = &rows[i].0;
        let last = last_index_of(rows, g);
        let is_new = !(*g == key) && match last {
            Some(k) => k == i,
            None => false,
        };
        assert(is_new == is_new_node(es, taken, i as int)) by {
            if let Some(k) = last {
                if k != i {
                    assert(es[k as int].0 == es[i as int].0);
                }
            }
        }
        let ghost before = entries_view(others@);
        if is_new {
            others.push((g.clone(), rows[i].1.clone()));
            assert(entries_view(others@) =~= before.push(es[i as int]));
            assert forall|p: int| 0 <= p < others@.len() implies exists|q: int|
                0 <= q < rows@.len() && #[trigger] entries_view(others@)[p] == es[q] by {
                if p < before.len() {
                    assert(entries_view(others@)[p] == before[p]);
                } else {
                    assert(entries_view(others@)[p] == es[i as int]);
                }
            }
        }
        i = i + 1;
    }
    assert forall|p: int| 0 <= p < entries_view(others@).len() implies utf8_len(
        #[trigger] entries_view(others@)[p].0,
    ) + utf8_len(entries_view(others@)[p].1) + 1 <= usize::MAX by {
        let q = choose|q: int| 0 <= q < rows@.len() && #[trigger] entries_view(others@)[p] == es[q];
    }
    Some(encode_snapshot(outline, &others))
}

/// No two nodes of `es` have the same gnx.
pub open spec fn distinct_names(es: Seq<NodeView>) -> bool {
    forall|i: int, j: int| 0 <= i < j < es.len() ==> es[i].0 != es[j].0
}

proof fn lemma_distinct_map_value(es: Seq<NodeView>, i: int)
    requires
        distinct_names(es),
        0 <= i < es.len(),
    ensures
        nodes_map(es).contains_key(es[i].0),
        nodes_map(es)[es[i].0] == es[i].1,
{
    assert forall|j: int| i < j < es.len() implies es[j].0 != es[i].0 by {}
    lemma_nodes_map_value(es, es[i].0, i);
}

/// Reading back the snapshot text written from present nodes with distinct
/// gnx gives, as a map from gnx to body, exactly those nodes, provided that
/// one of them is the outline, the outline followed by a newline holds no
/// blank line, and no gnx holds a newline.
#[verifier::spinoff_prover]
pub proof fn present_snapshot_reads_back(rows: Seq<NodeView>)
    requires
        distinct_names(rows),
        nodes_map(rows).contains_key(outline_key()),
        forall|j: int|
            !occurs_at(nodes_map(rows)[outline_key()].push('\n'), seq!['\n', '\n'], j),
        forall|i: int| 0 <= i < rows.len() ==> !(#[trigger] rows[i]).0.contains('\n'),
        record_sizes_fit(rows),
    ensures
        ({
            let text = snapshot_text(
                nodes_map(rows)[outline_key()],
                new_nodes(rows, set![outline_key()], rows.len() as int),
            );
            snapshot_entries(text) matches Some(es) && nodes_map(es) == nodes_map(rows)
        }),
{
    let ok = outline_key();
    let taken = set![ok];
    let n = rows.len() as int;
    let m = nodes_map(rows);
    let o = m[ok];
    let f = new_nodes(rows, taken, n);
    lemma_new_nodes_from(rows, taken, n);
    lemma_new_nodes_distinct(rows, taken, n);
    assert forall|p: int| 0 <= p < f.len() implies !(#[trigger] f[p]).0.contains('\n') by {
        let i = choose|i: int| 0 <= i < n && is_new_node(rows, taken, i) && f[p] == rows[i];
    }
    assert forall|p: int| 0 <= p < f.len() implies utf8_len(#[trigger] f[p].0) + utf8_len(f[p].1) + 1
        <= usize::MAX by {
        let i = choose|i: int| 0 <= i < n && is_new_node(rows, taken, i) && f[p] == rows[i];
    }
    snapshot_roundtrip(o, f);
    let es = seq![(ok, o)] + f;
    assert(distinct_names(es)) by {
        assert forall|a: int, b: int| 0 <= a < b < es.len() implies es[a].0 != es[b].0 by {
            assert(es[b] == f[b - 1]);
            if a == 0 {
                let i = choose|i: int| 0 <= i < n && is_new_node(rows, taken, i) && f[b - 1] == rows[i];
                assert(!taken.contains(rows[i].0));
            } else {
                assert(es[a] == f[a - 1]);
            }
        }
    }
    lemma_nodes_map_contains(rows, ok);
    assert forall|k: Seq<char>| #[trigger] m.contains_key(k) implies nodes_map(es).contains_key(k) by {
        lemma_nodes_map_contains(es, k);
        lemma_nodes_map_contains(rows, k);
        if k == ok {
            assert(es[0].0 == ok);
        } else {
            let i = choose|i: int| 0 <= i < n && (#[trigger] rows[i]).0 == k;
            assert forall|j: int| i < j < n implies rows[j].0 != rows[i].0 by {}
            assert(is_new_node(rows, taken, i));
            lemma_new_nodes_to(rows, taken, n, i);
            let p = choose|p: int| 0 <= p < f.len() && f[p] == rows[i];
            assert(es[p + 1] == f[p]);
            assert(es[p + 1].0 == k);
        }
    }
    assert forall|k: Seq<char>| #[trigger] nodes_map(es).contains_key(k) implies m.contains_key(k) by {
        lemma_nodes_map_contains(es, k);
        lemma_nodes_map_contains(rows, k);
        let q = choose|q: int| 0 <= q < es.len() && (#[trigger] es[q]).0 == k;
        if q > 0 {
            assert(es[q] == f[q - 1]);
            let i = choose|i: int| 0 <= i < n && is_new_node(rows, taken, i) && f[q - 1] == rows[i];
            assert(rows[i].0 == k);
        } else {
            assert(es[0].0 == ok);
        }
    }
    assert forall|k: Seq<char>| #[trigger] nodes_map(es).contains_key(k) implies nodes_map(es)[k]
        == m[k] by {
        lemma_nodes_map_contains(es, k);
        let q = choose|q: int| 0 <= q < es.len() && (#[trigger] es[q]).0 == k;
        lemma_distinct_map_value(es, q);
        if q > 0 {
            assert(es[q] == f[q - 1]);
            let i = choose|i: int| 0 <= i < n && is_new_node(rows, taken, i) && f[q - 1] == rows[i];
            lemma_distinct_map_value(rows, i);
        } else {
            assert(es[0] == (ok, o));
        }
    }
    assert(nodes_map(es) =~= m);
}

} // verus!
