//! The navigation tree and its flattened table of contents.
//!
//! `flatten` traverses a forest of navigation nodes depth-first in
//! pre-order (each node before its descendants, subtrees in document
//! order) and then sorts the sequence by play order with a stable
//! insertion sort: an entry with an equal play order is placed after
//! the entries already present, so ties keep their traversal order and
//! the result is deterministic for a given input.

use vstd::prelude::*;

verus! {

/// One node of the navigation tree: display label, logical path of the
/// resource it points at (possibly with an in-document fragment), its
/// play order, and its ordered children.
#[derive(Debug)]
pub struct NavNode {
    pub label: String,
    pub content_path: String,
    pub play_order: u64,
    pub children: Vec<NavNode>,
}

/// Mathematical model of a navigation node, children included.
pub struct NavModel {
    pub label: Seq<char>,
    pub content_path: Seq<char>,
    pub play_order: u64,
    pub children: Seq<NavModel>,
}

/// The model of a node, recursively.
pub open spec fn node_view(n: NavNode) -> NavModel
    decreases n,
{
    NavModel {
        label: n.label@,
        content_path: n.content_path@,
        play_order: n.play_order,
        children: forest_view(n.children@),
    }
}

/// The models of a forest of nodes, in order.
pub open spec fn forest_view(s: Seq<NavNode>) -> Seq<NavModel>
    decreases s,
{
    if s.len() == 0 {
        Seq::empty()
    } else {
        forest_view(s.drop_last()).push(node_view(s.last()))
    }
}

/// One entry of the flattened table of contents.
#[derive(Debug, PartialEq)]
pub struct FlatEntry {
    pub label: String,
    pub content_path: String,
    pub play_order: u64,
}

/// Mathematical model of a flat entry: label, content path, play order.
pub open spec fn entry_model(e: FlatEntry) -> (Seq<char>, Seq<char>, u64) {
    (e.label@, e.content_path@, e.play_order)
}

/// The models of a sequence of flat entries.
pub open spec fn entries_view(s: Seq<FlatEntry>) -> Seq<(Seq<char>, Seq<char>, u64)> {
    s.map_values(|e: FlatEntry| entry_model(e))
}

/// The model a node contributes to the flattened sequence.
pub open spec fn node_model(n: NavNode) -> (Seq<char>, Seq<char>, u64) {
    (n.label@, n.content_path@, n.play_order)
}

/// Depth-first pre-order traversal of a forest: each node is emitted
/// before its descendants, and subtrees follow document order.
pub open spec fn dfs_models(s: Seq<NavNode>) -> Seq<(Seq<char>, Seq<char>, u64)>
    decreases s,
{
    if s.len() == 0 {
        Seq::empty()
    } else {
        dfs_models(s.drop_last()) + seq![node_model(s.last())] + dfs_models(s.last().children@)
    }
}

/// Total number of nodes in a forest, every node counted, parents with
/// children included.
pub open spec fn forest_size(s: Seq<NavNode>) -> nat
    decreases s,
{
    if s.len() == 0 {
        0
    } else {
        forest_size(s.drop_last()) + 1 + forest_size(s.last().children@)
    }
}

/// The traversal emits exactly one entry per node.
pub proof fn lemma_dfs_len(s: Seq<NavNode>)
    ensures
        dfs_models(s).len() == forest_size(s),
    decreases s,
{
    if s.len() > 0 {
        lemma_dfs_len(s.drop_last());
        lemma_dfs_len(s.last().children@);
    }
}

/// Where a stable insertion places `e`: scanning from the right, past
/// every element whose play order is greater than that of `e`.
pub open spec fn insert_position(
    s: Seq<(Seq<char>, Seq<char>, u64)>,
    e: (Seq<char>, Seq<char>, u64),
) -> int
    decreases s.len(),
{
    if s.len() == 0 {
        0
    } else if s.last().2 <= e.2 {
        s.len() as int
    } else {
        insert_position(s.drop_last(), e)
    }
}

/// Stable insertion of `e` into `s`: `e` is placed after every element
/// with a play order less than or equal to its own.
pub open spec fn insert_ordered(
    s: Seq<(Seq<char>, Seq<char>, u64)>,
    e: (Seq<char>, Seq<char>, u64),
) -> Seq<(Seq<char>, Seq<char>, u64)>
    decreases s.len(),
{
    if s.len() == 0 {
        seq![e]
    } else if s.last().2 <= e.2 {
        s.push(e)
    } else {
        insert_ordered(s.drop_last(), e).push(s.last())
    }
}

/// Stable insertion sort by play order, processing left to right.
pub open spec fn sort_by_order(s: Seq<(Seq<char>, Seq<char>, u64)>) -> Seq<
    (Seq<char>, Seq<char>, u64),
>
    decreases s.len(),
{
    if s.len() == 0 {
        Seq::empty()
    } else {
        insert_ordered(sort_by_order(s.drop_last()), s.last())
    }
}

/// Non-decreasing by play order.
pub open spec fn sorted_by_order(s: Seq<(Seq<char>, Seq<char>, u64)>) -> bool {
    forall|i: int, j: int| 0 <= i <= j < s.len() ==> (#[trigger] s[i]).2 <= (#[trigger] s[j]).2
}

proof fn lemma_insert_position_props(s: Seq<(Seq<char>, Seq<char>, u64)>, e: (Seq<char>, Seq<char>, u64))
    ensures
        0 <= insert_position(s, e) <= s.len(),
        insert_position(s, e) > 0 ==> s[insert_position(s, e) - 1].2 <= e.2,
        forall|k: int| insert_position(s, e) <= k < s.len() ==> (#[trigger] s[k]).2 > e.2,
    decreases s.len(),
{
    if s.len() > 0 && s.last().2 > e.2 {
        lemma_insert_position_props(s.drop_last(), e);
        let q = insert_position(s, e);
        assert forall|k: int| q <= k < s.len() implies (#[trigger] s[k]).2 > e.2 by {
            if k < s.len() - 1 {
                assert(s.drop_last()[k] == s[k]);
            }
        }
        if q > 0 {
            assert(s.drop_last()[q - 1] == s[q - 1]);
        }
    }
}

proof fn lemma_insert_ordered_shape(s: Seq<(Seq<char>, Seq<char>, u64)>, e: (Seq<char>, Seq<char>, u64))
    ensures
        insert_ordered(s, e) == s.take(insert_position(s, e)) + seq![e] + s.skip(
            insert_position(s, e),
        ),
    decreases s.len(),
{
    let q = insert_position(s, e);
    lemma_insert_position_props(s, e);
    if s.len() == 0 {
        assert(insert_ordered(s, e) =~= s.take(q) + seq![e] + s.skip(q));
    } else if s.last().2 <= e.2 {
        assert(insert_ordered(s, e) =~= s.take(q) + seq![e] + s.skip(q));
    } else {
        lemma_insert_ordered_shape(s.drop_last(), e);
        lemma_insert_position_props(s.drop_last(), e);
        assert(insert_ordered(s, e) == (s.drop_last().take(q) + seq![e] + s.drop_last().skip(q)).push(
            s.last(),
        ));
        assert((s.drop_last().take(q) + seq![e] + s.drop_last().skip(q)).push(s.last()) =~= s.take(
            q,
        ) + seq![e] + s.skip(q));
    }
}

proof fn lemma_insert_ordered_sorted(s: Seq<(Seq<char>, Seq<char>, u64)>, e: (Seq<char>, Seq<char>, u64))
    requires
        sorted_by_order(s),
    ensures
        sorted_by_order(insert_ordered(s, e)),
{
    let q = insert_position(s, e);
    lemma_insert_position_props(s, e);
    lemma_insert_ordered_shape(s, e);
    let r = insert_ordered(s, e);
    assert forall|i: int, j: int| 0 <= i <= j < r.len() implies (#[trigger] r[i]).2 <= (
    #[trigger] r[j]).2 by {
        let oi = if i < q {
            i
        } else {
            i - 1
        };
        let oj = if j < q {
            j
        } else {
            j - 1
        };
        if i < q {
            assert(r[i] == s[i]);
        } else if i == q {
            assert(r[i] == e);
        } else {
            assert(r[i] == s[i - 1]);
        }
        if j < q {
            assert(r[j] == s[j]);
        } else if j == q {
            assert(r[j] == e);
        } else {
            assert(r[j] == s[j - 1]);
        }
        if i < q && q < j {
            assert(s[i].2 <= s[q - 1].2 || i == q - 1);
        }
    }
}

proof fn lemma_sort_len(s: Seq<(Seq<char>, Seq<char>, u64)>)
    ensures
        sort_by_order(s).len() == s.len(),
    decreases s.len(),
{
    if s.len() > 0 {
        lemma_sort_len(s.drop_last());
        lemma_insert_ordered_shape(sort_by_order(s.drop_last()), s.last());
        lemma_insert_position_props(sort_by_order(s.drop_last()), s.last());
    }
}

/// The flattened sequence of a forest: every node's entry, sorted by
/// play order, ties in traversal order.
pub open spec fn flatten_spec(nodes: Seq<NavNode>) -> Seq<(Seq<char>, Seq<char>, u64)> {
    sort_by_order(dfs_models(nodes))
}

/// For any forest with N nodes in total, counting every node, the
/// flattened sequence has exactly N entries.
pub proof fn lemma_flatten_count(nodes: Seq<NavNode>)
    ensures
        flatten_spec(nodes).len() == forest_size(nodes),
{
    lemma_dfs_len(nodes);
    lemma_sort_len(dfs_models(nodes));
}

/// The flattened sequence is sorted non-decreasing by play order: for
/// any positions i <= j, the play order at i is at most that at j.
pub proof fn lemma_flatten_sorted(nodes: Seq<NavNode>)
    ensures
        sorted_by_order(flatten_spec(nodes)),
{
    lemma_sort_sorted(dfs_models(nodes));
}

proof fn lemma_sort_sorted(s: Seq<(Seq<char>, Seq<char>, u64)>)
    ensures
        sorted_by_order(sort_by_order(s)),
    decreases s.len(),
{
    if s.len() > 0 {
        lemma_sort_sorted(s.drop_last());
        lemma_insert_ordered_sorted(sort_by_order(s.drop_last()), s.last());
    }
}

/// Flattening is a function of the forest alone: two flattenings of
/// equal forests are identical in content and order.
pub proof fn lemma_flatten_deterministic(a: Seq<NavNode>, b: Seq<NavNode>)
    requires
        a == b,
    ensures
        flatten_spec(a) == flatten_spec(b),
{
}

proof fn lemma_forest_view_len(s: Seq<NavNode>)
    ensures
        forest_view(s).len() == s.len(),
    decreases s,
{
    if s.len() > 0 {
        lemma_forest_view_len(s.drop_last());
    }
}

proof fn lemma_view_determines_dfs(a: Seq<NavNode>, b: Seq<NavNode>)
    requires
        forest_view(a) == forest_view(b),
    ensures
        dfs_models(a) == dfs_models(b),
    decreases a,
{
    lemma_forest_view_len(a);
    lemma_forest_view_len(b);
    if a.len() > 0 {
        assert(forest_view(a).last() == node_view(a.last()));
        assert(forest_view(b).last() == node_view(b.last()));
        assert(forest_view(a).drop_last() =~= forest_view(a.drop_last()));
        assert(forest_view(b).drop_last() =~= forest_view(b.drop_last()));
        lemma_view_determines_dfs(a.drop_last(), b.drop_last());
        assert(node_view(a.last()).children == forest_view(a.last().children@));
        assert(node_view(b.last()).children == forest_view(b.last().children@));
        lemma_view_determines_dfs(a.last().children@, b.last().children@);
        assert(node_model(a.last()) == node_model(b.last()));
    }
}

/// Flattening depends only on the forest's model — labels, content
/// paths, play orders and shape — as any two successful loads of the
/// same archive bytes produce: such forests flatten to the identical
/// sequence, in content and order.
pub proof fn lemma_equal_views_flatten_alike(a: Seq<NavNode>, b: Seq<NavNode>)
    requires
        forest_view(a) == forest_view(b),
    ensures
        flatten_spec(a) == flatten_spec(b),
{
    lemma_view_determines_dfs(a, b);
}

/// Copies the fields a node contributes to the flattened sequence.
fn entry_of(n: &NavNode) -> (r: FlatEntry)
    ensures
        entry_model(r) == node_model(*n),
{
    FlatEntry {
        label: n.label.clone(),
        content_path: n.content_path.clone(),
        play_order: n.play_order,
    }
}

/// Appends the pre-order traversal of `nodes` to `out`.
fn dfs_collect(nodes: &Vec<NavNode>, out: &mut Vec<FlatEntry>)
    ensures
        entries_view(final(out)@) == entries_view(old(out)@) + dfs_models(nodes@),
    decreases nodes@,
{
    let mut i: usize = 0;
    while i < nodes.len()
        invariant
            i <= nodes@.len(),
            entries_view(out@) == entries_view(old(out)@) + dfs_models(nodes@.take(i as int)),
        decreases nodes@.len() - i,
    {
        let ghost prev = entries_view(out@);
        out.push(entry_of(&nodes[i]));
        proof {
            assert(entries_view(out@) =~= prev.push(node_model(nodes@[i as int])));
            assert(decreases_to!(nodes@ => nodes@[i as int]));
            assert(decreases_to!(nodes@[i as int] => nodes@[i as int].children));
            assert(decreases_to!(nodes@[i as int].children => nodes@[i as int].children@));
        }
        dfs_collect(&nodes[i].children, out);
        i += 1;
        proof {
            let t = nodes@.take(i as int);
            assert(t.drop_last() =~= nodes@.take(i as int - 1));
            assert(t.last() == nodes@[i as int - 1]);
            assert(entries_view(out@) =~= entries_view(old(out)@) + dfs_models(t));
        }
    }
    proof {
        assert(nodes@.take(nodes@.len() as int) =~= nodes@);
    }
}

/// Flattens a navigation forest: depth-first pre-order traversal, then
/// a stable sort by play order. A node with no children contributes
/// exactly one entry; an empty forest yields an empty sequence. The
/// result is a pure function of the forest, so repeated calls agree.
pub fn flatten(nodes: &Vec<NavNode>) -> (r: Vec<FlatEntry>)
    ensures
        entries_view(r@) == flatten_spec(nodes@),
{
    let mut flat: Vec<FlatEntry> = Vec::new();
    dfs_collect(nodes, &mut flat);
    let ghost d = dfs_models(nodes@);
    let mut sorted: Vec<FlatEntry> = Vec::new();
    let ghost mut j: int = 0;
    proof {
        assert(entries_view(flat@) =~= d);
        assert(d.skip(0) =~= d);
        assert(entries_view(sorted@) =~= Seq::<(Seq<char>, Seq<char>, u64)>::empty());
        assert(d.take(0) =~= Seq::<(Seq<char>, Seq<char>, u64)>::empty());
    }
    while flat.len() > 0
        invariant
            0 <= j <= d.len(),
            entries_view(flat@) == d.skip(j),
            entries_view(sorted@) == sort_by_order(d.take(j)),
        decreases flat@.len(),
    {
        let ghost svold = entries_view(sorted@);
        let ghost fprev = flat@;
        let e = flat.remove(0);
        proof {
            assert(entries_view(fprev).len() == fprev.len());
            assert(j < d.len());
            assert(entries_view(fprev)[0] == entry_model(fprev[0]));
            assert(d.skip(j)[0] == d[j]);
            assert(entry_model(e) == d[j]);
            assert(entries_view(flat@) =~= d.skip(j + 1)) by {
                assert(flat@ == fprev.remove(0));
                assert forall|k: int| 0 <= k < flat@.len() implies entries_view(flat@)[k]
                    == d.skip(j + 1)[k] by {
                    assert(entries_view(flat@)[k] == entry_model(flat@[k]));
                    assert(flat@[k] == fprev[k + 1]);
                    assert(entries_view(fprev)[k + 1] == entry_model(fprev[k + 1]));
                    assert(d.skip(j)[k + 1] == d[j + k + 1]);
                    assert(d.skip(j + 1)[k] == d[j + k + 1]);
                }
            };
        }
        let mut p: usize = sorted.len();
        while p > 0 && sorted[p - 1].play_order > e.play_order
            invariant
                p <= sorted@.len(),
                entries_view(sorted@) == svold,
                forall|k: int| p <= k < svold.len() ==> (#[trigger] svold[k]).2
                    > entry_model(e).2,
            decreases p,
        {
            p -= 1;
            proof {
                assert(svold[p as int] == entry_model(sorted@[p as int]));
            }
        }
        let ghost sprev = sorted@;
        sorted.insert(p, e);
        proof {
            let m = entry_model(e);
            lemma_insert_position_props(svold, m);
            lemma_insert_ordered_shape(svold, m);
            let q = insert_position(svold, m);
            assert(svold.len() == sprev.len());
            assert(p as int == q) by {
                if (p as int) < q {
                    assert(svold[q - 1].2 > m.2);
                    assert(svold[q - 1].2 <= m.2);
                }
                if q < p as int {
                    assert(svold[p - 1].2 > m.2);
                    assert(svold[p - 1] == entry_model(sprev[p - 1]));
                }
            }
            assert(sorted@ == sprev.insert(p as int, e));
            assert(entries_view(sorted@) =~= svold.take(q) + seq![m] + svold.skip(q)) by {
                assert(entries_view(sorted@).len() == sorted@.len());
                assert forall|k: int| 0 <= k < sorted@.len() implies entries_view(sorted@)[k]
                    == (svold.take(q) + seq![m] + svold.skip(q))[k] by {
                    assert(entries_view(sorted@)[k] == entry_model(sorted@[k]));
                    if k < q {
                        assert(sorted@[k] == sprev[k]);
                        assert(svold[k] == entry_model(sprev[k]));
                    } else if k == q {
                        assert(sorted@[k] == e);
                    } else {
                        assert(sorted@[k] == sprev[k - 1]);
                        assert(svold[k - 1] == entry_model(sprev[k - 1]));
                    }
                }
            };
            let t = d.take(j + 1);
            assert(t.len() == j + 1);
            assert(t.drop_last() =~= d.take(j));
            assert(t.last() == d[j]);
            j = j + 1;
        }
    }
    proof {
        assert(d.skip(j) =~= entries_view(flat@));
        assert(j == d.len());
        assert(d.take(j) =~= d);
    }
    sorted
}

} // verus!
