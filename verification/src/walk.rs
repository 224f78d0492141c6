//! The topology filter and walker.
//!
//! The walk visits a node's children depth-first in name-sorted order and
//! decides which nodes produce a visible row ("display nodes").  The policy
//! is direct descent: a child is displayed exactly when its immediate
//! provider is a `PART` node and the child itself is a `DEV` node; `LABEL`
//! nodes are dead ends whose subtrees are never expanded.  A non-display
//! node is transparent: its descendants' display entries attach to the
//! nearest enclosing display entry instead of opening a nesting level.
//!
//! A visited set per traversal path guards against a cyclic input: the walk
//! then fails with `CycleDetected` naming the repeated node, rather than
//! looping.

use vstd::prelude::*;

use crate::columns::{format_datum, spec_datum, Col};
use crate::model::{Edge, Geom, GeomClass, Graph};
use crate::order::{lemma_sort_by_name_sorted, map_idx, sort_by_name, sorted_edge_order};

verus! {

broadcast use vstd::std_specs::vec::group_vec_axioms;

/// One visible row of the output tree, with the display entries nested
/// under it.
pub struct DisplayEntry {
    /// The pre-joined, tab-separated column texts of this row.
    pub row: String,
    /// The display entries reparented under this one, in traversal order.
    pub children: Vec<DisplayEntry>,
}

/// The mathematical shape of a display entry: its row text and children.
#[verifier::ext_equal]
pub struct EntryModel {
    pub row: Seq<char>,
    pub children: Seq<EntryModel>,
}

/// The model of one display entry.
pub open spec fn entry_model(e: DisplayEntry) -> EntryModel
    decreases e, 0nat,
        via check_entry_model
{
    EntryModel { row: e.row@, children: child_models(e.children@) }
}

/// The models of a sequence of display entries, built back to front.
pub open spec fn child_models(v: Seq<DisplayEntry>) -> Seq<EntryModel>
    decreases v, v.len(),
        via check_child_models
{
    if v.len() == 0 {
        Seq::empty()
    } else {
        child_models(v.drop_last()).push(entry_model(v.last()))
    }
}

#[via_fn]
proof fn check_entry_model(e: DisplayEntry) {
    assert(decreases_to!(e => e.children));
    assert(decreases_to!(e.children => e.children@));
}

#[via_fn]
proof fn check_child_models(v: Seq<DisplayEntry>) {
    if v.len() > 0 {
        assert(decreases_to!(v => v[v.len() - 1]));
        assert(decreases_to!(v => v.subrange(0, v.len() - 1)));
    }
}

/// The model of a forest of display entries.
pub open spec fn entries_model(v: Seq<DisplayEntry>) -> Seq<EntryModel> {
    Seq::new(v.len(), |i: int| entry_model(v[i]))
}

/// `child_models` agrees with `entries_model` on every sequence.
pub proof fn lemma_child_models(v: Seq<DisplayEntry>)
    ensures
        child_models(v) =~= entries_model(v),
    decreases v.len(),
{
    if v.len() > 0 {
        lemma_child_models(v.drop_last());
        assert forall|i: int| 0 <= i < v.len() implies child_models(v)[i] == entry_model(
            v[i],
        ) by {
            if i < v.len() - 1 {
                assert(child_models(v.drop_last())[i] == entry_model(v.drop_last()[i]));
            }
        }
    }
}

/// The walk's failure: the provider handed over a cyclic graph, and the
/// named node was reached twice on one traversal path.
#[derive(Clone, Copy, Debug, PartialEq, Eq, Structural)]
pub enum WalkError {
    CycleDetected { node: usize },
}

/// One pre-joined row: the column texts separated by single tabs.
pub open spec fn join_tabs(data: Seq<Seq<char>>) -> Seq<char>
    decreases data.len(),
{
    if data.len() == 0 {
        Seq::empty()
    } else if data.len() == 1 {
        data[0]
    } else {
        join_tabs(data.drop_last()) + seq!['\t'] + data.last()
    }
}

/// The row text of one (edge, node) pair over a column list.
pub open spec fn spec_row(forest: Graph, edge: Edge, node: Geom, cols: Seq<Col>) -> Seq<char> {
    join_tabs(cols.map_values(|c: Col| spec_datum(forest, edge, node, c)))
}

/// The number of `false` entries: how many nodes the current traversal path
/// has not visited yet.
pub open spec fn count_false(s: Seq<bool>) -> nat
    decreases s.len(),
{
    if s.len() == 0 {
        0
    } else {
        count_false(s.drop_last()) + (if s.last() {
            0nat
        } else {
            1nat
        })
    }
}

/// Marking an unvisited node visited strictly shrinks the unvisited count.
pub proof fn lemma_count_false_update(s: Seq<bool>, i: int)
    requires
        0 <= i < s.len(),
        !s[i],
    ensures
        count_false(s.update(i, true)) < count_false(s),
    decreases s.len(),
{
    let su = s.update(i, true);
    if i == s.len() - 1 {
        assert(su.drop_last() =~= s.drop_last());
        assert(su.last());
    } else {
        lemma_count_false_update(s.drop_last(), i);
        assert(su.drop_last() =~= s.drop_last().update(i, true));
        assert(su.last() == s.last());
    }
}

/// Every edge of the sorted child list keeps its consumer index in range.
pub proof fn lemma_sort_consumers_in_range(g: Graph, node: int)
    requires
        g.wf(),
        0 <= node < g.nodes@.len(),
    ensures
        forall|k: int|
            0 <= k < sort_by_name(g.edges_of(node)).len() ==> (#[trigger] sort_by_name(
                g.edges_of(node),
            )[k]).consumer_geom < g.nodes@.len(),
{
    let orig = g.edges_of(node);
    let s = sort_by_name(orig);
    lemma_sort_by_name_sorted(orig);
    s.to_multiset_ensures();
    orig.to_multiset_ensures();
    assert forall|k: int| 0 <= k < s.len() implies (#[trigger] s[k]).consumer_geom
        < g.nodes@.len() by {
        assert(s.contains(s[k]));
        assert(orig.to_multiset().count(s[k]) > 0);
        assert(orig.contains(s[k]));
        let j = choose|j: int| 0 <= j < orig.len() && orig[j] == s[k];
        assert(g.child_edges@[node]@[j].consumer_geom < g.nodes@.len());
    }
}

/// What the walk yields for the child edges `edges[i..]` of `node`: display
/// entries for the qualifying children, each with its own subtree's display
/// entries nested below it, the entries of transparent children spliced in
/// at this level, and `Err` with the repeated node's index as soon as a
/// child already on the current path is reached.
pub open spec fn spec_walk_edges(
    g: Graph,
    node: int,
    edges: Seq<Edge>,
    i: int,
    cols: Seq<Col>,
    on_path: Seq<bool>,
) -> Result<Seq<EntryModel>, usize>
    decreases count_false(on_path), edges.len() - i,
        when ({
            &&& g.wf()
            &&& 0 <= node < g.nodes@.len()
            &&& on_path.len() == g.nodes@.len()
            &&& 0 <= i <= edges.len()
            &&& forall|k: int|
                i <= k < edges.len() ==> (#[trigger] edges[k]).consumer_geom < g.nodes@.len()
        })
        via check_spec_walk_edges
{
    if i >= edges.len() {
        Ok(Seq::empty())
    } else {
        let e = edges[i];
        let c = e.consumer_geom as int;
        if on_path[c] {
            Err(e.consumer_geom)
        } else {
            let sub = spec_walk_node(g, c, cols, on_path.update(c, true));
            let rest = spec_walk_edges(g, node, edges, i + 1, cols, on_path);
            match (sub, rest) {
                (Ok(subv), Ok(restv)) => {
                    if g.nodes@[node].class == GeomClass::PART && g.nodes@[c].class
                        == GeomClass::DEV {
                        Ok(
                            seq![EntryModel { row: spec_row(g, e, g.nodes@[c], cols), children: subv }]
                                + restv,
                        )
                    } else {
                        Ok(subv + restv)
                    }
                },
                (Err(n), _) => Err(n),
                (_, Err(n)) => Err(n),
            }
        }
    }
}

/// What the walk yields for `node` itself: nothing for a `LABEL` node (its
/// subtree is pruned), otherwise the entries of its children taken in
/// name-sorted order.
pub open spec fn spec_walk_node(g: Graph, node: int, cols: Seq<Col>, on_path: Seq<bool>) -> Result<
    Seq<EntryModel>,
    usize,
>
    decreases count_false(on_path), g.edges_of(node).len() + 1,
        when ({
            &&& g.wf()
            &&& 0 <= node < g.nodes@.len()
            &&& on_path.len() == g.nodes@.len()
        })
        via check_spec_walk_node
{
    if g.nodes@[node].class == GeomClass::LABEL {
        Ok(Seq::empty())
    } else {
        spec_walk_edges(g, node, sort_by_name(g.edges_of(node)), 0, cols, on_path)
    }
}

#[via_fn]
proof fn check_spec_walk_edges(
    g: Graph,
    node: int,
    edges: Seq<Edge>,
    i: int,
    cols: Seq<Col>,
    on_path: Seq<bool>,
) {
    if 0 <= i < edges.len() {
        let c = edges[i].consumer_geom as int;
        if 0 <= c < on_path.len() && !on_path[c] {
            lemma_count_false_update(on_path, c);
        }
    }
}

#[via_fn]
proof fn check_spec_walk_node(g: Graph, node: int, cols: Seq<Col>, on_path: Seq<bool>) {
    if 0 <= node < g.nodes@.len() {
        lemma_sort_by_name_sorted(g.edges_of(node));
    }
}

/// A `LABEL` node is a dead end: the walk yields no entry for it and none
/// for any of its descendants, since its subtree is never expanded.
pub proof fn lemma_label_pruned(g: Graph, node: int, cols: Seq<Col>, on_path: Seq<bool>)
    requires
        g.wf(),
        0 <= node < g.nodes@.len(),
        on_path.len() == g.nodes@.len(),
        g.nodes@[node].class == GeomClass::LABEL,
    ensures
        spec_walk_node(g, node, cols, on_path) == Ok::<Seq<EntryModel>, usize>(
            Seq::<EntryModel>::empty(),
        ),
{
}

/// Holds when the entry's row was extracted from an edge whose provider is
/// a `PART` node and whose consumer is a `DEV` node, and the same holds of
/// every entry nested below it.
pub open spec fn from_part_dev(g: Graph, cols: Seq<Col>, m: EntryModel) -> bool
    decreases m, 0nat,
{
    &&& (exists|p: int, j: int|
        #![auto]
        {
            &&& 0 <= p < g.nodes@.len()
            &&& 0 <= j < g.edges_of(p).len()
            &&& g.nodes@[p].class == GeomClass::PART
            &&& g.edges_of(p)[j].consumer_geom < g.nodes@.len()
            &&& g.nodes@[g.edges_of(p)[j].consumer_geom as int].class == GeomClass::DEV
            &&& m.row == spec_row(
                g,
                g.edges_of(p)[j],
                g.nodes@[g.edges_of(p)[j].consumer_geom as int],
                cols,
            )
        })
    &&& all_from_part_dev(g, cols, m.children)
}

/// `from_part_dev` over every entry of a forest.
pub open spec fn all_from_part_dev(g: Graph, cols: Seq<Col>, s: Seq<EntryModel>) -> bool
    decreases s, s.len(),
        via check_all_from_part_dev
{
    if s.len() == 0 {
        true
    } else {
        all_from_part_dev(g, cols, s.drop_last()) && from_part_dev(g, cols, s.last())
    }
}

#[via_fn]
proof fn check_all_from_part_dev(g: Graph, cols: Seq<Col>, s: Seq<EntryModel>) {
    if s.len() > 0 {
        assert(decreases_to!(s => s[s.len() - 1]));
        assert(decreases_to!(s => s.subrange(0, s.len() - 1)));
    }
}

proof fn lemma_all_from_part_dev_append(g: Graph, cols: Seq<Col>, a: Seq<EntryModel>, b: Seq<
    EntryModel,
>)
    requires
        all_from_part_dev(g, cols, a),
        all_from_part_dev(g, cols, b),
    ensures
        all_from_part_dev(g, cols, a + b),
    decreases b.len(),
{
    if b.len() == 0 {
        assert(a + b =~= a);
    } else {
        lemma_all_from_part_dev_append(g, cols, a, b.drop_last());
        assert((a + b).drop_last() =~= a + b.drop_last());
        assert((a + b).last() == b.last());
    }
}

proof fn lemma_walk_edges_part_dev(
    g: Graph,
    node: int,
    edges: Seq<Edge>,
    i: int,
    cols: Seq<Col>,
    on_path: Seq<bool>,
)
    requires
        g.wf(),
        0 <= node < g.nodes@.len(),
        on_path.len() == g.nodes@.len(),
        0 <= i <= edges.len(),
        forall|k: int| i <= k < edges.len() ==> (#[trigger] edges[k]).consumer_geom
            < g.nodes@.len(),
        forall|k: int| i <= k < edges.len() ==> g.edges_of(node).contains(#[trigger] edges[k]),
        spec_walk_edges(g, node, edges, i, cols, on_path) is Ok,
    ensures
        all_from_part_dev(g, cols, spec_walk_edges(g, node, edges, i, cols, on_path)->Ok_0),
    decreases count_false(on_path), edges.len() - i,
{
    if i >= edges.len() {
    } else {
        let e = edges[i];
        let c = e.consumer_geom as int;
        let sub = spec_walk_node(g, c, cols, on_path.update(c, true));
        let rest = spec_walk_edges(g, node, edges, i + 1, cols, on_path);
        lemma_count_false_update(on_path, c);
        lemma_walk_node_part_dev(g, c, cols, on_path.update(c, true));
        lemma_walk_edges_part_dev(g, node, edges, i + 1, cols, on_path);
        if g.nodes@[node].class == GeomClass::PART && g.nodes@[c].class == GeomClass::DEV {
            let es = EntryModel { row: spec_row(g, e, g.nodes@[c], cols), children: sub->Ok_0 };
            assert(from_part_dev(g, cols, es)) by {
                let j = choose|j: int| 0 <= j < g.edges_of(node).len() && g.edges_of(node)[j] == e;
                assert(0 <= j < g.edges_of(node).len() && g.edges_of(node)[j] == e);
            }
            assert(all_from_part_dev(g, cols, seq![es])) by {
                assert(seq![es].drop_last() =~= Seq::<EntryModel>::empty());
                assert(all_from_part_dev(g, cols, seq![es].drop_last()));
                assert(seq![es].last() == es);
            }
            lemma_all_from_part_dev_append(g, cols, seq![es], rest->Ok_0);
        } else {
            lemma_all_from_part_dev_append(g, cols, sub->Ok_0, rest->Ok_0);
        }
    }
}

/// Policy A, direct descent: every entry the walk ever yields — at any
/// nesting depth — stems from an edge whose provider node is class `PART`
/// and whose consumer node is class `DEV`.  A node whose immediate provider
/// is not a `PART` node is never rendered, whatever its own class.
pub proof fn lemma_walk_node_part_dev(g: Graph, node: int, cols: Seq<Col>, on_path: Seq<bool>)
    requires
        g.wf(),
        0 <= node < g.nodes@.len(),
        on_path.len() == g.nodes@.len(),
        spec_walk_node(g, node, cols, on_path) is Ok,
    ensures
        all_from_part_dev(g, cols, spec_walk_node(g, node, cols, on_path)->Ok_0),
    decreases count_false(on_path), g.edges_of(node).len() + 1,
{
    if g.nodes@[node].class == GeomClass::LABEL {
    } else {
        let orig = g.edges_of(node);
        let s = sort_by_name(orig);
        lemma_sort_by_name_sorted(orig);
        lemma_sort_consumers_in_range(g, node);
        s.to_multiset_ensures();
        orig.to_multiset_ensures();
        assert forall|k: int| 0 <= k < s.len() implies orig.contains(#[trigger] s[k]) by {
            assert(s.contains(s[k]));
            assert(orig.to_multiset().count(s[k]) > 0);
        }
        lemma_walk_edges_part_dev(g, node, s, 0, cols, on_path);
    }
}

/// A row's text never depends on the graph value itself, only on the edge
/// and node it is extracted from.
proof fn lemma_row_graph_independent(g1: Graph, g2: Graph, e: Edge, node: Geom, cols: Seq<Col>)
    ensures
        spec_row(g1, e, node, cols) == spec_row(g2, e, node, cols),
{
    let d1 = cols.map_values(|c: Col| spec_datum(g1, e, node, c));
    let d2 = cols.map_values(|c: Col| spec_datum(g2, e, node, c));
    assert(d1 =~= d2);
}

proof fn lemma_walk_edges_congruent(
    g1: Graph,
    g2: Graph,
    node: int,
    edges: Seq<Edge>,
    i: int,
    cols: Seq<Col>,
    on_path: Seq<bool>,
)
    requires
        g1.wf(),
        g2.wf(),
        g1.nodes@ == g2.nodes@,
        forall|n: int|
            0 <= n < g1.nodes@.len() ==> sort_by_name(#[trigger] g1.edges_of(n)) == sort_by_name(
                g2.edges_of(n),
            ),
        0 <= node < g1.nodes@.len(),
        on_path.len() == g1.nodes@.len(),
        0 <= i <= edges.len(),
        forall|k: int| i <= k < edges.len() ==> (#[trigger] edges[k]).consumer_geom
            < g1.nodes@.len(),
    ensures
        spec_walk_edges(g1, node, edges, i, cols, on_path) == spec_walk_edges(
            g2,
            node,
            edges,
            i,
            cols,
            on_path,
        ),
    decreases count_false(on_path), edges.len() - i,
{
    if i >= edges.len() {
    } else {
        let e = edges[i];
        let c = e.consumer_geom as int;
        if on_path[c] {
        } else {
            lemma_count_false_update(on_path, c);
            lemma_walk_node_congruent(g1, g2, c, cols, on_path.update(c, true));
            lemma_walk_edges_congruent(g1, g2, node, edges, i + 1, cols, on_path);
            lemma_row_graph_independent(g1, g2, e, g1.nodes@[c], cols);
        }
    }
}

proof fn lemma_walk_node_congruent(
    g1: Graph,
    g2: Graph,
    node: int,
    cols: Seq<Col>,
    on_path: Seq<bool>,
)
    requires
        g1.wf(),
        g2.wf(),
        g1.nodes@ == g2.nodes@,
        forall|n: int|
            0 <= n < g1.nodes@.len() ==> sort_by_name(#[trigger] g1.edges_of(n)) == sort_by_name(
                g2.edges_of(n),
            ),
        0 <= node < g1.nodes@.len(),
        on_path.len() == g1.nodes@.len(),
    ensures
        spec_walk_node(g1, node, cols, on_path) == spec_walk_node(g2, node, cols, on_path),
    decreases count_false(on_path), g1.edges_of(node).len() + 1,
{
    if g1.nodes@[node].class == GeomClass::LABEL {
    } else {
        let s = sort_by_name(g1.edges_of(node));
        lemma_sort_by_name_sorted(g1.edges_of(node));
        lemma_sort_consumers_in_range(g1, node);
        lemma_walk_edges_congruent(g1, g2, node, s, 0, cols, on_path);
    }
}

/// Output stability: reordering the raw edge enumeration of any node — as
/// an unordered provider may do between runs — does not change the walk's
/// outcome, as long as sibling edge names are pairwise distinct.
pub proof fn lemma_walk_reorder_invariant(
    g1: Graph,
    g2: Graph,
    node: int,
    cols: Seq<Col>,
    on_path: Seq<bool>,
)
    requires
        g1.wf(),
        g2.wf(),
        g1.nodes@ == g2.nodes@,
        forall|n: int|
            0 <= n < g1.nodes@.len() ==> (#[trigger] g1.edges_of(n)).to_multiset() == g2.edges_of(
                n,
            ).to_multiset(),
        forall|n: int|
            0 <= n < g1.nodes@.len() ==> crate::order::distinct_names(#[trigger] g1.edges_of(n)),
        0 <= node < g1.nodes@.len(),
        on_path.len() == g1.nodes@.len(),
    ensures
        spec_walk_node(g1, node, cols, on_path) == spec_walk_node(g2, node, cols, on_path),
{
    assert forall|n: int| 0 <= n < g1.nodes@.len() implies sort_by_name(
        #[trigger] g1.edges_of(n),
    ) == sort_by_name(g2.edges_of(n)) by {
        crate::order::lemma_sort_permutation_invariant(g1.edges_of(n), g2.edges_of(n));
    }
    lemma_walk_node_congruent(g1, g2, node, cols, on_path);
}

/// Builds one pre-joined row of column texts for an (edge, node) pair.
pub fn format_row(forest: &Graph, edge: &Edge, node: &Geom, cols: &Vec<Col>) -> (r: String)
    ensures
        r@ == spec_row(*forest, *edge, *node, cols@),
{
    let ghost data = cols@.map_values(|c: Col| spec_datum(*forest, *edge, *node, c));
    let mut r = String::new();
    let mut i: usize = 0;
    while i < cols.len()
        invariant
            i <= cols@.len(),
            data == cols@.map_values(|c: Col| spec_datum(*forest, *edge, *node, c)),
            r@ == join_tabs(data.take(i as int)),
        decreases cols@.len() - i,
    {
        if i > 0 {
            r.append("\t");
        }
        let d = format_datum(forest, edge, node, &cols[i]);
        r.append(d.as_str());
        proof {
            reveal_strlit("\t");
            assert("\t"@ =~= seq!['\t']);
            assert(data.take(i + 1).drop_last() =~= data.take(i as int));
            assert(data.take(i + 1).last() == data[i as int]);
            if i == 0 {
                assert(r@ =~= join_tabs(data.take(1)));
            } else {
                assert(r@ =~= join_tabs(data.take(i + 1)));
            }
        }
        i = i + 1;
    }
    proof {
        assert(data.take(cols@.len() as int) =~= data);
    }
    r
}

/// A copy of the path set with node `c` marked as visited.
pub(crate) fn path_with(on_path: &Vec<bool>, c: usize) -> (r: Vec<bool>)
    requires
        c < on_path@.len(),
    ensures
        r@ =~= on_path@.update(c as int, true),
{
    let n = on_path.len();
    let mut r: Vec<bool> = Vec::new();
    let mut i: usize = 0;
    while i < n
        invariant
            n == on_path@.len(),
            i <= n,
            r@.len() == i,
            forall|k: int|
                0 <= k < i ==> r@[k] == (if k == c {
                    true
                } else {
                    on_path@[k]
                }),
        decreases n - i,
    {
        if i == c {
            r.push(true);
        } else {
            r.push(on_path[i]);
        }
        i = i + 1;
    }
    proof {
        assert(r@ =~= on_path@.update(c as int, true));
    }
    r
}

/// Walks the children of `nodeid` depth-first in name-sorted order and
/// returns the display-entry forest that attaches at this level, or the
/// repeated node if the graph turned out cyclic along the current path.
pub fn walk_geom(forest: &Graph, nodeid: usize, cols: &Vec<Col>, on_path: &Vec<bool>) -> (r:
    Result<Vec<DisplayEntry>, WalkError>)
    requires
        forest.wf(),
        nodeid < forest.nodes@.len(),
        on_path@.len() == forest.nodes@.len(),
    ensures
        ({
            let s = spec_walk_node(*forest, nodeid as int, cols@, on_path@);
            match r {
                Ok(v) => s is Ok && entries_model(v@) == s->Ok_0,
                Err(WalkError::CycleDetected { node }) => s is Err && node == s->Err_0,
            }
        }),
    decreases count_false(on_path@),
{
    let ghost s_node = spec_walk_node(*forest, nodeid as int, cols@, on_path@);
    if forest.nodes[nodeid].class == GeomClass::LABEL {
        let r: Vec<DisplayEntry> = Vec::new();
        proof {
            assert(entries_model(r@) =~= Seq::<EntryModel>::empty());
        }
        return Ok(r);
    }
    let edges = &forest.child_edges[nodeid];
    let order = sorted_edge_order(edges);
    let ghost sedges = sort_by_name(edges@);
    proof {
        assert(map_idx(edges@, order@) =~= sedges);
        lemma_sort_consumers_in_range(*forest, nodeid as int);
        assert(spec_walk_edges(*forest, nodeid as int, sedges, 0, cols@, on_path@) == s_node);
    }
    let mut out: Vec<DisplayEntry> = Vec::new();
    let mut k: usize = 0;
    let n = order.len();
    while k < n
        invariant
            forest.wf(),
            nodeid < forest.nodes@.len(),
            on_path@.len() == forest.nodes@.len(),
            forest.nodes@[nodeid as int].class != GeomClass::LABEL,
            edges == &forest.child_edges@[nodeid as int],
            sedges == sort_by_name(edges@),
            n == order@.len(),
            order@.len() == edges@.len(),
            forall|m: int| 0 <= m < order@.len() ==> (#[trigger] order@[m]) < edges@.len(),
            map_idx(edges@, order@) =~= sedges,
            s_node == spec_walk_node(*forest, nodeid as int, cols@, on_path@),
            s_node == spec_walk_edges(*forest, nodeid as int, sedges, 0, cols@, on_path@),
            k <= n,
            ({
                let rem = spec_walk_edges(*forest, nodeid as int, sedges, k as int, cols@, on_path@);
                &&& (rem is Ok ==> s_node == Ok::<_, usize>(entries_model(out@) + rem->Ok_0))
                &&& (rem is Err ==> s_node == rem)
            }),
        decreases n - k,
    {
        let ghost rem = spec_walk_edges(*forest, nodeid as int, sedges, k as int, cols@, on_path@);
        proof {
            lemma_sort_by_name_sorted(edges@);
            lemma_sort_consumers_in_range(*forest, nodeid as int);
        }
        let j = order[k];
        let edge = &edges[j];
        let c = edge.consumer_geom;
        proof {
            assert(sedges[k as int] == edges@[j as int]);
            assert(sedges[k as int].consumer_geom < forest.nodes@.len());
        }
        if on_path[c] {
            proof {
                assert(rem == Err::<Seq<EntryModel>, usize>(c));
            }
            return Err(WalkError::CycleDetected { node: c });
        }
        let p2 = path_with(on_path, c);
        proof {
            lemma_count_false_update(on_path@, c as int);
        }
        let sub = walk_geom(forest, c, cols, &p2);
        let ghost s_sub = spec_walk_node(*forest, c as int, cols@, on_path@.update(c as int, true));
        let ghost rest = spec_walk_edges(
            *forest,
            nodeid as int,
            sedges,
            k as int + 1,
            cols@,
            on_path@,
        );
        match sub {
            Err(err) => {
                proof {
                    assert(s_sub is Err);
                    assert(rem == Err::<Seq<EntryModel>, usize>(s_sub->Err_0));
                }
                return Err(err);
            },
            Ok(mut subv) => {
                proof {
                    assert(s_sub is Ok && entries_model(subv@) == s_sub->Ok_0);
                }
                let displayed = forest.nodes[nodeid].class == GeomClass::PART
                    && forest.nodes[c].class == GeomClass::DEV;
                let ghost old_out = out@;
                if displayed {
                    let row = format_row(forest, edge, &forest.nodes[c], cols);
                    let entry = DisplayEntry { row, children: subv };
                    let ghost es = EntryModel {
                        row: spec_row(*forest, sedges[k as int], forest.nodes@[c as int], cols@),
                        children: s_sub->Ok_0,
                    };
                    proof {
                        lemma_child_models(subv@);
                        assert(entry_model(entry) =~= es);
                    }
                    out.push(entry);
                    proof {
                        assert(entries_model(out@) =~= entries_model(old_out).push(es));
                        if rest is Ok {
                            assert(rem == Ok::<_, usize>(seq![es] + rest->Ok_0));
                            assert(entries_model(old_out) + (seq![es] + rest->Ok_0)
                                =~= entries_model(out@) + rest->Ok_0);
                        } else {
                            assert(rem == rest);
                        }
                    }
                } else {
                    let ghost subm = entries_model(subv@);
                    out.append(&mut subv);
                    proof {
                        assert(entries_model(out@) =~= entries_model(old_out) + subm);
                        if rest is Ok {
                            assert(rem == Ok::<_, usize>(subm + rest->Ok_0));
                            assert(entries_model(old_out) + (subm + rest->Ok_0) =~= entries_model(
                                out@,
                            ) + rest->Ok_0);
                        } else {
                            assert(rem == rest);
                        }
                    }
                }
            },
        }
        k = k + 1;
    }
    proof {
        let rem = spec_walk_edges(*forest, nodeid as int, sedges, n as int, cols@, on_path@);
        assert(rem == Ok::<Seq<EntryModel>, usize>(Seq::empty()));
        assert(entries_model(out@) + Seq::<EntryModel>::empty() =~= entries_model(out@));
    }
    Ok(out)
}

} // verus!
