//! The tree projector and root handling.
//!
//! For each root node (in name-sorted order) one top-level entry is built:
//! its label is the root's own name padded with one tab per remaining
//! column, and its children are the display entries the walk found below
//! it.  A tab-separated header line names the active columns.

use vstd::prelude::*;

use crate::columns::{col_header, Col};
use crate::model::Graph;
use crate::order::lex_le;
use crate::walk::{
    entries_model, join_tabs, path_with, spec_walk_node, walk_geom, DisplayEntry, EntryModel,
    WalkError,
};

verus! {

/// A root label padded with one tab separator per remaining column.
pub open spec fn root_pad(name: Seq<char>, ncols: int) -> Seq<char> {
    if ncols > 1 {
        name + Seq::new((ncols - 1) as nat, |i: int| '\t')
    } else {
        name
    }
}

/// Pads a root label with one tab separator per remaining column, so that a
/// root line aligns with the declared column count.
pub fn format_root(name: &str, ncols: usize) -> (r: String)
    ensures
        r@ == root_pad(name@, ncols as int),
{
    let mut r = String::new();
    r.append(name);
    if ncols > 1 {
        let mut i: usize = 0;
        while i < ncols - 1
            invariant
                ncols > 1,
                i <= ncols - 1,
                r@ == name@ + Seq::new(i as nat, |j: int| '\t'),
            decreases ncols - 1 - i,
        {
            r.append("\t");
            proof {
                reveal_strlit("\t");
                assert(r@ =~= name@ + Seq::new((i + 1) as nat, |j: int| '\t'));
            }
            i = i + 1;
        }
    } else {
        proof {
            assert(r@ =~= name@);
        }
    }
    r
}

/// A root label with `ncols > 1` columns ends in exactly `ncols - 1` tab
/// separators after the unchanged name, whatever the name's length.
pub proof fn lemma_root_padding(name: Seq<char>, ncols: int)
    requires
        ncols > 1,
    ensures
        root_pad(name, ncols).len() == name.len() + ncols - 1,
        forall|i: int| 0 <= i < name.len() ==> root_pad(name, ncols)[i] == name[i],
        forall|i: int|
            name.len() <= i < name.len() + ncols - 1 ==> root_pad(name, ncols)[i] == '\t',
{
}

/// The header line: the column headers joined by single tabs, then a
/// newline.
pub open spec fn spec_header(cols: Seq<Col>) -> Seq<char> {
    join_tabs(cols.map_values(|c: Col| col_header(c))).push('\n')
}

/// Builds the tab-separated header line for the active columns.
pub fn emit_header(cols: &Vec<Col>) -> (r: String)
    ensures
        r@ == spec_header(cols@),
{
    let ghost data = cols@.map_values(|c: Col| col_header(c));
    let mut r = String::new();
    let mut i: usize = 0;
    while i < cols.len()
        invariant
            i <= cols@.len(),
            data == cols@.map_values(|c: Col| col_header(c)),
            r@ == join_tabs(data.take(i as int)),
        decreases cols@.len() - i,
    {
        if i > 0 {
            r.append("\t");
        }
        let h = crate::columns::header(&cols[i]);
        r.append(h.as_str());
        proof {
            reveal_strlit("\t");
            assert("\t"@ =~= seq!['\t']);
            assert(data.take(i + 1).drop_last() =~= data.take(i as int));
            assert(data.take(i + 1).last() == data[i as int]);
            if i == 0 {
                assert(r@ =~= join_tabs(data.take(1)));
            } else {
                assert(r@ =~= join_tabs(data.take(i + 1)));
            }
        }
        i = i + 1;
    }
    r.append("\n");
    proof {
        reveal_strlit("\n");
        assert(data.take(cols@.len() as int) =~= data);
        assert(r@ =~= spec_header(cols@));
    }
    r
}

/// The indices, in increasing order, of the nodes with rank 1: the roots of
/// the forest.
pub open spec fn rank1_indices(g: Graph, n: int) -> Seq<usize>
    decreases n,
{
    if n <= 0 {
        Seq::empty()
    } else if g.nodes@[n - 1].rank == 1 {
        rank1_indices(g, n - 1).push((n - 1) as usize)
    } else {
        rank1_indices(g, n - 1)
    }
}

/// Inserts root index `e` into `t` after every root whose name compares at
/// or below `e`'s: the insertion step of a stable sort of roots by name.
pub open spec fn insert_root(g: Graph, t: Seq<usize>, e: usize) -> Seq<usize>
    decreases t.len(),
{
    if t.len() == 0 {
        seq![e]
    } else if lex_le(g.nodes@[t.last() as int].name@, g.nodes@[e as int].name@) {
        t.push(e)
    } else {
        insert_root(g, t.drop_last(), e).push(t.last())
    }
}

/// Stable sort of root indices by root name, ascending, lexicographic.
pub open spec fn sort_roots(g: Graph, s: Seq<usize>) -> Seq<usize>
    decreases s.len(),
{
    if s.len() == 0 {
        s
    } else {
        insert_root(g, sort_roots(g, s.drop_last()), s.last())
    }
}

/// The roots of the graph in display order: rank-1 nodes, name-sorted.
pub open spec fn spec_roots(g: Graph) -> Seq<usize> {
    sort_roots(g, rank1_indices(g, g.nodes@.len() as int))
}

/// The initial path set of one root's walk: only the root itself visited.
pub open spec fn init_path(g: Graph, root: int) -> Seq<bool> {
    Seq::new(g.nodes@.len(), |i: int| i == root)
}

/// The whole document forest from the root list `roots[i..]`: one top-level
/// entry per root, its label padded to the column count, its children the
/// walk's display entries; the first cycle anywhere aborts the render.
pub open spec fn spec_render_from(g: Graph, roots: Seq<usize>, i: int, cols: Seq<Col>) -> Result<
    Seq<EntryModel>,
    usize,
>
    decreases roots.len() - i,
        when ({
            &&& g.wf()
            &&& 0 <= i <= roots.len()
            &&& forall|k: int| 0 <= k < roots.len() ==> (#[trigger] roots[k]) < g.nodes@.len()
        })
{
    if i >= roots.len() {
        Ok(Seq::empty())
    } else {
        let rt = roots[i] as int;
        let sub = spec_walk_node(g, rt, cols, init_path(g, rt));
        let rest = spec_render_from(g, roots, i + 1, cols);
        match (sub, rest) {
            (Ok(subv), Ok(restv)) => Ok(
                seq![
                    EntryModel {
                        row: root_pad(g.nodes@[rt].name@, cols.len() as int),
                        children: subv,
                    }
                ] + restv,
            ),
            (Err(n), _) => Err(n),
            (_, Err(n)) => Err(n),
        }
    }
}

/// The rendered document: the header line and one entry tree per root, in
/// name-sorted root order.
pub open spec fn spec_render(g: Graph, cols: Seq<Col>) -> Result<Seq<EntryModel>, usize> {
    spec_render_from(g, spec_roots(g), 0, cols)
}

/// A rendered tree document: the header line and the per-root entry trees,
/// ready for an indenting, tab-aligning renderer.
pub struct TreeDocument {
    /// The tab-separated header line, newline-terminated.
    pub header: String,
    /// One top-level entry per root, in name-sorted root order.
    pub entries: Vec<DisplayEntry>,
}

/// The fixed column set this tool renders.
pub fn default_columns() -> (r: Vec<Col>)
    ensures
        r@ =~= seq![Col::Name, Col::FsType, Col::Label, Col::Uuid],
{
    let mut r: Vec<Col> = Vec::new();
    r.push(Col::Name);
    r.push(Col::FsType);
    r.push(Col::Label);
    r.push(Col::Uuid);
    r
}

/// A vector of `n` `false` flags: the empty path set.
fn all_false(n: usize) -> (r: Vec<bool>)
    ensures
        r@ =~= Seq::new(n as nat, |i: int| false),
{
    let mut r: Vec<bool> = Vec::new();
    let mut i: usize = 0;
    while i < n
        invariant
            i <= n,
            r@.len() == i,
            forall|k: int| 0 <= k < i ==> !(#[trigger] r@[k]),
        decreases n - i,
    {
        r.push(false);
        i = i + 1;
    }
    r
}

/// Inserts root index `e` into the name-sorted index list `order`.
fn insert_root_idx(g: &Graph, order: Vec<usize>, e: usize) -> (r: Vec<usize>)
    requires
        e < g.nodes@.len(),
        forall|k: int| 0 <= k < order@.len() ==> (#[trigger] order@[k]) < g.nodes@.len(),
    ensures
        forall|k: int| 0 <= k < r@.len() ==> (#[trigger] r@[k]) < g.nodes@.len(),
        r@ == insert_root(*g, order@, e),
    decreases order@.len(),
{
    let mut order = order;
    if order.len() == 0 {
        order.push(e);
        order
    } else {
        let lastpos = order.len() - 1;
        let last = order[lastpos];
        if crate::order::lex_le_str(g.nodes[last].name.as_str(), g.nodes[e].name.as_str()) {
            order.push(e);
            order
        } else {
            let _ = order.pop();
            let mut r = insert_root_idx(g, order, e);
            r.push(last);
            r
        }
    }
}

/// The graph's roots (rank-1 nodes) in name-sorted display order.
pub fn sorted_roots(g: &Graph) -> (r: Vec<usize>)
    requires
        g.wf(),
    ensures
        forall|k: int| 0 <= k < r@.len() ==> (#[trigger] r@[k]) < g.nodes@.len(),
        r@ == spec_roots(*g),
{
    let n = g.nodes.len();
    let mut plain: Vec<usize> = Vec::new();
    let mut i: usize = 0;
    while i < n
        invariant
            n == g.nodes@.len(),
            i <= n,
            forall|k: int| 0 <= k < plain@.len() ==> (#[trigger] plain@[k]) < g.nodes@.len(),
            plain@ == rank1_indices(*g, i as int),
        decreases n - i,
    {
        if g.nodes[i].rank == 1 {
            plain.push(i);
        }
        i = i + 1;
    }
    let mut order: Vec<usize> = Vec::new();
    let mut k: usize = 0;
    let m = plain.len();
    while k < m
        invariant
            g.wf(),
            m == plain@.len(),
            k <= m,
            forall|j: int| 0 <= j < plain@.len() ==> (#[trigger] plain@[j]) < g.nodes@.len(),
            forall|j: int| 0 <= j < order@.len() ==> (#[trigger] order@[j]) < g.nodes@.len(),
            order@ == sort_roots(*g, plain@.take(k as int)),
        decreases m - k,
    {
        order = insert_root_idx(g, order, plain[k]);
        proof {
            assert(plain@.take(k + 1).drop_last() =~= plain@.take(k as int));
            assert(plain@.take(k + 1).last() == plain@[k as int]);
        }
        k = k + 1;
    }
    proof {
        assert(plain@.take(m as int) =~= plain@);
    }
    order
}

/// Renders the whole graph: walks every root in name-sorted order and
/// assembles the document, or reports the first cycle found.
pub fn render(forest: &Graph, cols: &Vec<Col>) -> (r: Result<TreeDocument, WalkError>)
    requires
        forest.wf(),
    ensures
        ({
            let s = spec_render(*forest, cols@);
            match r {
                Ok(doc) => {
                    &&& s is Ok
                    &&& doc.header@ == spec_header(cols@)
                    &&& entries_model(doc.entries@) == s->Ok_0
                },
                Err(WalkError::CycleDetected { node }) => s is Err && node == s->Err_0,
            }
        }),
{
    let header = emit_header(cols);
    let roots = sorted_roots(forest);
    let ghost rseq = spec_roots(*forest);
    let mut out: Vec<DisplayEntry> = Vec::new();
    let mut k: usize = 0;
    let n = roots.len();
    while k < n
        invariant
            forest.wf(),
            n == roots@.len(),
            k <= n,
            rseq == roots@,
            rseq == spec_roots(*forest),
            forall|j: int| 0 <= j < roots@.len() ==> (#[trigger] roots@[j]) < forest.nodes@.len(),
            ({
                let full = spec_render_from(*forest, rseq, 0, cols@);
                let rem = spec_render_from(*forest, rseq, k as int, cols@);
                &&& (rem is Ok ==> full == Ok::<_, usize>(entries_model(out@) + rem->Ok_0))
                &&& (rem is Err ==> full == rem)
            }),
        decreases n - k,
    {
        let ghost rem = spec_render_from(*forest, rseq, k as int, cols@);
        let ghost rest = spec_render_from(*forest, rseq, k as int + 1, cols@);
        let rt = roots[k];
        let f = all_false(forest.nodes.len());
        let on_path = path_with(&f, rt);
        proof {
            assert(on_path@ =~= init_path(*forest, rt as int));
        }
        let sub = walk_geom(forest, rt, cols, &on_path);
        let ghost s_sub = spec_walk_node(*forest, rt as int, cols@, init_path(*forest, rt as int));
        match sub {
            Err(err) => {
                proof {
                    assert(s_sub is Err);
                    assert(rem == Err::<Seq<EntryModel>, usize>(s_sub->Err_0));
                }
                return Err(err);
            },
            Ok(subv) => {
                let ghost old_out = out@;
                let row = format_root(forest.nodes[rt].name.as_str(), cols.len());
                let entry = DisplayEntry { row, children: subv };
                let ghost es = EntryModel {
                    row: root_pad(forest.nodes@[rt as int].name@, cols@.len() as int),
                    children: s_sub->Ok_0,
                };
                proof {
                    crate::walk::lemma_child_models(entry.children@);
                    assert(crate::walk::entry_model(entry) =~= es);
                }
                out.push(entry);
                proof {
                    assert(entries_model(out@) =~= entries_model(old_out).push(es));
                    if rest is Ok {
                        assert(rem == Ok::<_, usize>(seq![es] + rest->Ok_0));
                        assert(entries_model(old_out) + (seq![es] + rest->Ok_0) =~= entries_model(
                            out@,
                        ) + rest->Ok_0);
                    } else {
                        assert(rem == rest);
                    }
                }
            },
        }
        k = k + 1;
    }
    proof {
        let rem = spec_render_from(*forest, rseq, n as int, cols@);
        assert(rem == Ok::<Seq<EntryModel>, usize>(Seq::empty()));
        assert(entries_model(out@) + Seq::<EntryModel>::empty() =~= entries_model(out@));
    }
    Ok(TreeDocument { header, entries: out })
}

proof fn lemma_rank1_congruent(g1: Graph, g2: Graph, n: int)
    requires
        g1.nodes@ == g2.nodes@,
    ensures
        rank1_indices(g1, n) == rank1_indices(g2, n),
    decreases n,
{
    if n > 0 {
        lemma_rank1_congruent(g1, g2, n - 1);
    }
}

proof fn lemma_rank1_in_range(g: Graph, n: int)
    requires
        0 <= n <= g.nodes@.len(),
    ensures
        forall|k: int|
            0 <= k < rank1_indices(g, n).len() ==> (#[trigger] rank1_indices(g, n)[k])
                < g.nodes@.len(),
    decreases n,
{
    if n > 0 {
        lemma_rank1_in_range(g, n - 1);
        let prev = rank1_indices(g, n - 1);
        assert forall|k: int| 0 <= k < rank1_indices(g, n).len() implies (#[trigger] rank1_indices(
            g,
            n,
        )[k]) < g.nodes@.len() by {
            if g.nodes@[n - 1].rank == 1 && k < prev.len() {
                assert(prev[k] < g.nodes@.len());
            }
        }
    }
}

proof fn lemma_insert_root_congruent(g1: Graph, g2: Graph, t: Seq<usize>, e: usize)
    requires
        g1.nodes@ == g2.nodes@,
    ensures
        insert_root(g1, t, e) == insert_root(g2, t, e),
    decreases t.len(),
{
    if t.len() > 0 && !lex_le(g1.nodes@[t.last() as int].name@, g1.nodes@[e as int].name@) {
        lemma_insert_root_congruent(g1, g2, t.drop_last(), e);
    }
}

proof fn lemma_insert_root_in_range(g: Graph, t: Seq<usize>, e: usize)
    requires
        forall|k: int| 0 <= k < t.len() ==> (#[trigger] t[k]) < g.nodes@.len(),
        e < g.nodes@.len(),
    ensures
        forall|k: int|
            0 <= k < insert_root(g, t, e).len() ==> (#[trigger] insert_root(g, t, e)[k])
                < g.nodes@.len(),
    decreases t.len(),
{
    let r = insert_root(g, t, e);
    if t.len() == 0 {
        assert forall|k: int| 0 <= k < r.len() implies (#[trigger] r[k]) < g.nodes@.len() by {
            assert(r[k] == e);
        }
    } else if lex_le(g.nodes@[t.last() as int].name@, g.nodes@[e as int].name@) {
        assert forall|k: int| 0 <= k < r.len() implies (#[trigger] r[k]) < g.nodes@.len() by {
            if k < t.len() {
                assert(t[k] < g.nodes@.len());
            }
        }
    } else {
        assert forall|k: int| 0 <= k < t.drop_last().len() implies (#[trigger] t.drop_last()[k])
            < g.nodes@.len() by {
            assert(t[k] < g.nodes@.len());
        }
        lemma_insert_root_in_range(g, t.drop_last(), e);
        let r0 = insert_root(g, t.drop_last(), e);
        assert forall|k: int| 0 <= k < r.len() implies (#[trigger] r[k]) < g.nodes@.len() by {
            if k < r0.len() {
                assert(r0[k] < g.nodes@.len());
            } else {
                assert(t[t.len() - 1] < g.nodes@.len());
            }
        }
    }
}

proof fn lemma_sort_roots_congruent(g1: Graph, g2: Graph, s: Seq<usize>)
    requires
        g1.nodes@ == g2.nodes@,
    ensures
        sort_roots(g1, s) == sort_roots(g2, s),
    decreases s.len(),
{
    if s.len() > 0 {
        lemma_sort_roots_congruent(g1, g2, s.drop_last());
        lemma_insert_root_congruent(g1, g2, sort_roots(g1, s.drop_last()), s.last());
    }
}

proof fn lemma_sort_roots_in_range(g: Graph, s: Seq<usize>)
    requires
        forall|k: int| 0 <= k < s.len() ==> (#[trigger] s[k]) < g.nodes@.len(),
    ensures
        forall|k: int|
            0 <= k < sort_roots(g, s).len() ==> (#[trigger] sort_roots(g, s)[k]) < g.nodes@.len(),
    decreases s.len(),
{
    if s.len() > 0 {
        assert forall|k: int| 0 <= k < s.drop_last().len() implies (#[trigger] s.drop_last()[k])
            < g.nodes@.len() by {
            assert(s[k] < g.nodes@.len());
        }
        lemma_sort_roots_in_range(g, s.drop_last());
        lemma_insert_root_in_range(g, sort_roots(g, s.drop_last()), s.last());
    }
}

/// Every index of the display-order root list is in range.
proof fn lemma_spec_roots_in_range(g: Graph)
    ensures
        forall|k: int|
            0 <= k < spec_roots(g).len() ==> (#[trigger] spec_roots(g)[k]) < g.nodes@.len(),
{
    lemma_rank1_in_range(g, g.nodes@.len() as int);
    lemma_sort_roots_in_range(g, rank1_indices(g, g.nodes@.len() as int));
}

proof fn lemma_render_from_congruent(
    g1: Graph,
    g2: Graph,
    roots: Seq<usize>,
    i: int,
    cols: Seq<Col>,
)
    requires
        g1.wf(),
        g2.wf(),
        g1.nodes@ == g2.nodes@,
        forall|n: int|
            0 <= n < g1.nodes@.len() ==> (#[trigger] g1.edges_of(n)).to_multiset() == g2.edges_of(
                n,
            ).to_multiset(),
        forall|n: int|
            0 <= n < g1.nodes@.len() ==> crate::order::distinct_names(#[trigger] g1.edges_of(n)),
        0 <= i <= roots.len(),
        forall|k: int| 0 <= k < roots.len() ==> (#[trigger] roots[k]) < g1.nodes@.len(),
    ensures
        spec_render_from(g1, roots, i, cols) == spec_render_from(g2, roots, i, cols),
    decreases roots.len() - i,
{
    if i < roots.len() {
        let rt = roots[i] as int;
        assert(init_path(g1, rt) =~= init_path(g2, rt));
        crate::walk::lemma_walk_reorder_invariant(g1, g2, rt, cols, init_path(g1, rt));
        lemma_render_from_congruent(g1, g2, roots, i + 1, cols);
    }
}

/// Output stability for the whole document: two graphs with the same nodes
/// whose per-node edge lists hold the same edges — in whatever enumeration
/// order the provider produced them — render to the same document, as long
/// as sibling edge names are pairwise distinct.
pub proof fn lemma_render_reorder_invariant(g1: Graph, g2: Graph, cols: Seq<Col>)
    requires
        g1.wf(),
        g2.wf(),
        g1.nodes@ == g2.nodes@,
        forall|n: int|
            0 <= n < g1.nodes@.len() ==> (#[trigger] g1.edges_of(n)).to_multiset() == g2.edges_of(
                n,
            ).to_multiset(),
        forall|n: int|
            0 <= n < g1.nodes@.len() ==> crate::order::distinct_names(#[trigger] g1.edges_of(n)),
    ensures
        spec_render(g1, cols) == spec_render(g2, cols),
{
    lemma_rank1_congruent(g1, g2, g1.nodes@.len() as int);
    lemma_sort_roots_congruent(g1, g2, rank1_indices(g1, g1.nodes@.len() as int));
    assert(spec_roots(g1) == spec_roots(g2));
    lemma_spec_roots_in_range(g1);
    lemma_render_from_congruent(g1, g2, spec_roots(g1), 0, cols);
}

} // verus!
