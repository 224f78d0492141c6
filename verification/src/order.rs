//! The ordering of siblings and roots: simple lexicographic (codepoint)
//! comparison of display names, and a stable sort by that rule.
//!
//! The sort is the load-bearing part of output stability: an unchanged
//! topology must render identically whatever order the provider happened to
//! enumerate edges in.

use vstd::prelude::*;

use crate::model::Edge;

verus! {

/// Lexicographic (codepoint-wise) "less than or equal" on character
/// sequences: the usual dictionary order, not numeric-aware.
pub open spec fn lex_le(a: Seq<char>, b: Seq<char>) -> bool
    decreases a.len(),
{
    if a.len() == 0 {
        true
    } else if b.len() == 0 {
        false
    } else if a[0] == b[0] {
        lex_le(a.drop_first(), b.drop_first())
    } else {
        (a[0] as int) < (b[0] as int)
    }
}

/// `lex_le` is total: two sequences always compare one way or the other.
pub proof fn lemma_lex_le_total(a: Seq<char>, b: Seq<char>)
    ensures
        lex_le(a, b) || lex_le(b, a),
    decreases a.len(),
{
    if a.len() == 0 || b.len() == 0 {
    } else if a[0] == b[0] {
        lemma_lex_le_total(a.drop_first(), b.drop_first());
    }
}

/// Compares two strings in lexicographic (codepoint) order.
pub fn lex_le_str(a: &str, b: &str) -> (r: bool)
    ensures
        r == lex_le(a@, b@),
{
    let alen = a.unicode_len();
    let blen = b.unicode_len();
    let mut i: usize = 0;
    proof {
        assert(a@.skip(0) =~= a@);
        assert(b@.skip(0) =~= b@);
    }
    while i < alen && i < blen
        invariant
            alen == a@.len(),
            blen == b@.len(),
            i <= alen,
            i <= blen,
            lex_le(a@, b@) == lex_le(a@.skip(i as int), b@.skip(i as int)),
        decreases alen - i,
    {
        let ca = a.get_char(i);
        let cb = b.get_char(i);
        if ca != cb {
            proof {
                assert(a@.skip(i as int)[0] == ca);
                assert(b@.skip(i as int)[0] == cb);
            }
            return (ca as u32) < (cb as u32);
        }
        proof {
            assert(a@.skip(i as int).drop_first() =~= a@.skip(i + 1));
            assert(b@.skip(i as int).drop_first() =~= b@.skip(i + 1));
            assert(a@.skip(i as int)[0] == b@.skip(i as int)[0]);
        }
        i = i + 1;
    }
    proof {
        if i == alen {
            assert(a@.skip(i as int).len() == 0);
        } else {
            assert(b@.skip(i as int).len() == 0);
            assert(a@.skip(i as int).len() > 0);
        }
    }
    alen <= blen
}

/// Inserts `e` into `t` after every element whose name compares at or below
/// `e`'s: the insertion step of a stable sort by name.
pub open spec fn insert_last(t: Seq<Edge>, e: Edge) -> Seq<Edge>
    decreases t.len(),
{
    if t.len() == 0 {
        seq![e]
    } else if lex_le(t.last().name@, e.name@) {
        t.push(e)
    } else {
        insert_last(t.drop_last(), e).push(t.last())
    }
}

/// Stable sort of an edge sequence by edge name, ascending, in lexicographic
/// order: edges of equal name keep their relative order.
pub open spec fn sort_by_name(s: Seq<Edge>) -> Seq<Edge>
    decreases s.len(),
{
    if s.len() == 0 {
        s
    } else {
        insert_last(sort_by_name(s.drop_last()), s.last())
    }
}

/// Each neighbouring pair is in lexicographic order by name.
pub open spec fn sorted_by_name(s: Seq<Edge>) -> bool {
    forall|k: int| 0 <= k < s.len() - 1 ==> lex_le(s[k].name@, (#[trigger] s[k + 1]).name@)
}

/// The edges that `idx` picks out of `edges`, in `idx` order.
pub open spec fn map_idx(edges: Seq<Edge>, idx: Seq<usize>) -> Seq<Edge> {
    Seq::new(idx.len(), |k: int| edges[idx[k] as int])
}

proof fn lemma_insert_last_len(t: Seq<Edge>, e: Edge)
    ensures
        insert_last(t, e).len() == t.len() + 1,
    decreases t.len(),
{
    if t.len() > 0 && !lex_le(t.last().name@, e.name@) {
        lemma_insert_last_len(t.drop_last(), e);
    }
}

/// The last element of an insertion is the new element or the old last.
proof fn lemma_insert_last_last(t: Seq<Edge>, e: Edge)
    ensures
        insert_last(t, e).last() == e || (t.len() > 0 && insert_last(t, e).last() == t.last()),
    decreases t.len(),
{
}

/// Inserting into a name-sorted sequence keeps it name-sorted.
proof fn lemma_insert_last_sorted(t: Seq<Edge>, e: Edge)
    requires
        sorted_by_name(t),
    ensures
        sorted_by_name(insert_last(t, e)),
    decreases t.len(),
{
    if t.len() == 0 {
    } else if lex_le(t.last().name@, e.name@) {
        let r = t.push(e);
        assert forall|k: int| 0 <= k < r.len() - 1 implies lex_le(
            r[k].name@,
            (#[trigger] r[k + 1]).name@,
        ) by {
            if k < t.len() - 1 {
                assert(lex_le(t[k].name@, t[k + 1].name@));
            }
        }
    } else {
        let t0 = t.drop_last();
        assert(sorted_by_name(t0)) by {
            assert forall|k: int| 0 <= k < t0.len() - 1 implies lex_le(
                t0[k].name@,
                (#[trigger] t0[k + 1]).name@,
            ) by {
                assert(lex_le(t[k].name@, t[k + 1].name@));
            }
        }
        lemma_insert_last_sorted(t0, e);
        lemma_lex_le_total(t.last().name@, e.name@);
        let r0 = insert_last(t0, e);
        lemma_insert_last_len(t0, e);
        lemma_insert_last_last(t0, e);
        let r = r0.push(t.last());
        assert forall|k: int| 0 <= k < r.len() - 1 implies lex_le(
            r[k].name@,
            (#[trigger] r[k + 1]).name@,
        ) by {
            if k < r0.len() - 1 {
                assert(lex_le(r0[k].name@, r0[k + 1].name@));
            } else {
                // the junction: r0's last is e or t0's last, both at or below t's last
                if r0.last() == e {
                    assert(lex_le(e.name@, t.last().name@));
                } else {
                    assert(lex_le(t0.last().name@, t.last().name@)) by {
                        let m = t.len() - 2;
                        assert(lex_le(t[m].name@, t[m + 1].name@));
                        assert(t0.last() == t[m]);
                        assert(t.last() == t[m + 1]);
                    }
                }
            }
        }
    }
}

proof fn lemma_insert_last_multiset(t: Seq<Edge>, e: Edge)
    ensures
        insert_last(t, e).to_multiset() == t.to_multiset().insert(e),
    decreases t.len(),
{
    broadcast use vstd::seq_lib::to_multiset_build;
    broadcast use vstd::multiset::group_multiset_axioms;

    if t.len() == 0 {
        assert(insert_last(t, e) =~= t.push(e));
        assert(t.push(e).to_multiset() =~= t.to_multiset().insert(e));
    } else if lex_le(t.last().name@, e.name@) {
        assert(t.push(e).to_multiset() =~= t.to_multiset().insert(e));
    } else {
        let t0 = t.drop_last();
        lemma_insert_last_multiset(t0, e);
        assert(insert_last(t0, e).push(t.last()).to_multiset() =~= insert_last(
            t0,
            e,
        ).to_multiset().insert(t.last()));
        assert(t0.push(t.last()) =~= t);
        assert(t0.push(t.last()).to_multiset() =~= t0.to_multiset().insert(t.last()));
        assert(insert_last(t, e).to_multiset() =~= t.to_multiset().insert(e));
    }
}

/// The sort returns a name-sorted permutation of its input: sibling entries
/// at any level come out in lexicographic order by name, and none is added,
/// dropped or duplicated.
pub proof fn lemma_sort_by_name_sorted(s: Seq<Edge>)
    ensures
        sorted_by_name(sort_by_name(s)),
        sort_by_name(s).to_multiset() == s.to_multiset(),
        sort_by_name(s).len() == s.len(),
    decreases s.len(),
{
    broadcast use vstd::seq_lib::to_multiset_build;
    broadcast use vstd::multiset::group_multiset_axioms;

    if s.len() == 0 {
    } else {
        let s0 = s.drop_last();
        lemma_sort_by_name_sorted(s0);
        lemma_insert_last_sorted(sort_by_name(s0), s.last());
        lemma_insert_last_multiset(sort_by_name(s0), s.last());
        lemma_insert_last_len(sort_by_name(s0), s.last());
        assert(s0.push(s.last()) =~= s);
        assert(s0.push(s.last()).to_multiset() =~= s0.to_multiset().insert(s.last()));
        assert(sort_by_name(s).to_multiset() =~= s.to_multiset());
    }
}

/// `lex_le` is reflexive.
pub proof fn lemma_lex_le_refl(a: Seq<char>)
    ensures
        lex_le(a, a),
    decreases a.len(),
{
    if a.len() > 0 {
        lemma_lex_le_refl(a.drop_first());
    }
}

/// `lex_le` is transitive.
pub proof fn lemma_lex_le_trans(a: Seq<char>, b: Seq<char>, c: Seq<char>)
    requires
        lex_le(a, b),
        lex_le(b, c),
    ensures
        lex_le(a, c),
    decreases a.len(),
{
    if a.len() == 0 || b.len() == 0 || c.len() == 0 {
    } else if a[0] == b[0] && b[0] == c[0] {
        lemma_lex_le_trans(a.drop_first(), b.drop_first(), c.drop_first());
    }
}

/// `lex_le` is antisymmetric: two sequences at or below one another are one
/// sequence.
pub proof fn lemma_lex_le_antisym(a: Seq<char>, b: Seq<char>)
    requires
        lex_le(a, b),
        lex_le(b, a),
    ensures
        a == b,
    decreases a.len(),
{
    if a.len() == 0 {
        assert(b.len() == 0);
        assert(a =~= b);
    } else {
        assert(b.len() > 0);
        assert(a[0] == b[0]);
        lemma_lex_le_antisym(a.drop_first(), b.drop_first());
        assert(a =~= Seq::empty().push(a[0]) + a.drop_first());
        assert(b =~= Seq::empty().push(b[0]) + b.drop_first());
    }
}

/// No two edges of the sequence share a name.
pub open spec fn distinct_names(s: Seq<Edge>) -> bool {
    forall|i: int, j: int|
        #![trigger s[i], s[j]]
        0 <= i < j < s.len() ==> s[i].name@ != s[j].name@
}

/// In a name-sorted sequence every element's name is at or below the last's.
proof fn lemma_sorted_le_last(s: Seq<Edge>)
    requires
        sorted_by_name(s),
        s.len() > 0,
    ensures
        forall|k: int| 0 <= k < s.len() ==> lex_le((#[trigger] s[k]).name@, s.last().name@),
    decreases s.len(),
{
    if s.len() == 1 {
        lemma_lex_le_refl(s.last().name@);
    } else {
        let s0 = s.drop_last();
        assert(sorted_by_name(s0)) by {
            assert forall|k: int| 0 <= k < s0.len() - 1 implies lex_le(
                s0[k].name@,
                (#[trigger] s0[k + 1]).name@,
            ) by {
                assert(lex_le(s[k].name@, s[k + 1].name@));
            }
        }
        lemma_sorted_le_last(s0);
        let m = s.len() - 2;
        assert(lex_le(s[m].name@, s[m + 1].name@));
        assert forall|k: int| 0 <= k < s.len() implies lex_le(
            (#[trigger] s[k]).name@,
            s.last().name@,
        ) by {
            if k < s.len() - 1 {
                assert(lex_le(s0[k].name@, s0.last().name@));
                lemma_lex_le_trans(s[k].name@, s[m].name@, s.last().name@);
            } else {
                lemma_lex_le_refl(s.last().name@);
            }
        }
    }
}

/// A name-sorted arrangement of a fixed multiset of edges with pairwise
/// distinct names is unique.
proof fn lemma_sorted_unique(t1: Seq<Edge>, t2: Seq<Edge>)
    requires
        sorted_by_name(t1),
        sorted_by_name(t2),
        t1.to_multiset() == t2.to_multiset(),
        distinct_names(t1),
        t1.no_duplicates(),
        t2.no_duplicates(),
    ensures
        t1 == t2,
    decreases t1.len(),
{
    broadcast use vstd::seq_lib::group_to_multiset_ensures;
    broadcast use vstd::multiset::group_multiset_axioms;

    t1.to_multiset_ensures();
    t2.to_multiset_ensures();
    if t1.len() == 0 {
        assert(t2.len() == 0);
        assert(t1 =~= t2);
    } else {
        assert(t2.len() == t1.len());
        // each last element is contained in the other sequence
        assert(t1.contains(t1.last()));
        assert(t2.to_multiset().count(t1.last()) > 0);
        assert(t2.contains(t1.last()));
        let i1 = choose|i: int| 0 <= i < t2.len() && t2[i] == t1.last();
        assert(t2.contains(t2.last()));
        assert(t1.to_multiset().count(t2.last()) > 0);
        assert(t1.contains(t2.last()));
        let i2 = choose|i: int| 0 <= i < t1.len() && t1[i] == t2.last();
        lemma_sorted_le_last(t1);
        lemma_sorted_le_last(t2);
        assert(lex_le(t1.last().name@, t2.last().name@)) by {
            assert(lex_le(t2[i1].name@, t2.last().name@));
        }
        assert(lex_le(t2.last().name@, t1.last().name@)) by {
            assert(lex_le(t1[i2].name@, t1.last().name@));
        }
        lemma_lex_le_antisym(t1.last().name@, t2.last().name@);
        // equal names in t1 force equal indices, so the lasts are one edge
        assert(t1[i2].name@ == t1.last().name@);
        assert(i2 == t1.len() - 1);
        assert(t1.last() == t2.last());
        // peel the shared last and recurse
        let s1 = t1.drop_last();
        let s2 = t2.drop_last();
        assert(t1.remove(t1.len() - 1) =~= s1);
        assert(t2.remove(t2.len() - 1) =~= s2);
        assert(s1.to_multiset() == t1.to_multiset().remove(t1.last()));
        assert(s2.to_multiset() == t2.to_multiset().remove(t2.last()));
        assert(s1.to_multiset() == s2.to_multiset());
        assert(sorted_by_name(s1)) by {
            assert forall|k: int| 0 <= k < s1.len() - 1 implies lex_le(
                s1[k].name@,
                (#[trigger] s1[k + 1]).name@,
            ) by {
                assert(lex_le(t1[k].name@, t1[k + 1].name@));
            }
        }
        assert(sorted_by_name(s2)) by {
            assert forall|k: int| 0 <= k < s2.len() - 1 implies lex_le(
                s2[k].name@,
                (#[trigger] s2[k + 1]).name@,
            ) by {
                assert(lex_le(t2[k].name@, t2[k + 1].name@));
            }
        }
        assert(distinct_names(s1));
        assert(s1.no_duplicates()) by {
            vstd::seq_lib::lemma_no_dup_in_concat(s1, seq![t1.last()]);
            assert(s1 + seq![t1.last()] =~= t1);
        }
        assert(s2.no_duplicates()) by {
            vstd::seq_lib::lemma_no_dup_in_concat(s2, seq![t2.last()]);
            assert(s2 + seq![t2.last()] =~= t2);
        }
        lemma_sorted_unique(s1, s2);
        assert(t1 =~= s1.push(t1.last()));
        assert(t2 =~= s2.push(t2.last()));
        assert(t1 =~= t2);
    }
}

/// Distinct names survive any rearrangement of the same edges, and rule out
/// duplicate edges altogether.
proof fn lemma_distinct_names_permutation(s1: Seq<Edge>, t: Seq<Edge>)
    requires
        distinct_names(s1),
        t.to_multiset() == s1.to_multiset(),
    ensures
        distinct_names(t),
        t.no_duplicates(),
        s1.no_duplicates(),
{
    broadcast use vstd::seq_lib::group_to_multiset_ensures;
    broadcast use vstd::multiset::group_multiset_axioms;

    assert(s1.no_duplicates()) by {
        assert forall|i: int, j: int|
            0 <= i < s1.len() && 0 <= j < s1.len() && i != j implies s1[i] != s1[j] by {
            if i < j {
                assert(s1[i].name@ != s1[j].name@);
            } else {
                assert(s1[j].name@ != s1[i].name@);
            }
        }
    }
    s1.lemma_multiset_has_no_duplicates();
    t.lemma_multiset_has_no_duplicates_conv();
    assert forall|i: int, j: int|
        #![trigger t[i], t[j]]
        0 <= i < j < t.len() implies t[i].name@ != t[j].name@ by {
        if t[i].name@ == t[j].name@ {
            assert(t[i] != t[j]);
            assert(t.contains(t[i]) && t.contains(t[j]));
            assert(s1.to_multiset().count(t[i]) > 0);
            assert(s1.to_multiset().count(t[j]) > 0);
            assert(s1.contains(t[i]) && s1.contains(t[j]));
            let a = choose|a: int| 0 <= a < s1.len() && s1[a] == t[i];
            let b = choose|b: int| 0 <= b < s1.len() && s1[b] == t[j];
            assert(a != b);
            if a < b {
                assert(s1[a].name@ != s1[b].name@);
            } else {
                assert(s1[b].name@ != s1[a].name@);
            }
        }
    }
}

/// Sorting forgets the arrival order entirely when sibling names are
/// distinct: any two arrangements of the same edges sort to one sequence.
pub proof fn lemma_sort_permutation_invariant(s1: Seq<Edge>, s2: Seq<Edge>)
    requires
        s1.to_multiset() == s2.to_multiset(),
        distinct_names(s1),
    ensures
        sort_by_name(s1) == sort_by_name(s2),
{
    lemma_sort_by_name_sorted(s1);
    lemma_sort_by_name_sorted(s2);
    lemma_distinct_names_permutation(s1, sort_by_name(s1));
    lemma_distinct_names_permutation(s1, sort_by_name(s2));
    lemma_sorted_unique(sort_by_name(s1), sort_by_name(s2));
}

/// Inserts edge index `j` into the index list `order`, keeping the selected
/// edges in stable name-sorted order.
fn insert_idx(edges: &Vec<Edge>, order: Vec<usize>, j: usize) -> (r: Vec<usize>)
    requires
        j < edges@.len(),
        forall|k: int| 0 <= k < order@.len() ==> (#[trigger] order@[k]) < edges@.len(),
    ensures
        forall|k: int| 0 <= k < r@.len() ==> (#[trigger] r@[k]) < edges@.len(),
        map_idx(edges@, r@) =~= insert_last(map_idx(edges@, order@), edges@[j as int]),
    decreases order@.len(),
{
    let mut order = order;
    let ghost m = map_idx(edges@, order@);
    if order.len() == 0 {
        order.push(j);
        proof {
            assert(map_idx(edges@, order@) =~= seq![edges@[j as int]]);
        }
        order
    } else {
        let lastpos = order.len() - 1;
        let last = order[lastpos];
        if lex_le_str(edges[last].name.as_str(), edges[j].name.as_str()) {
            proof {
                assert(m.last() == edges@[last as int]);
            }
            order.push(j);
            proof {
                assert(map_idx(edges@, order@) =~= m.push(edges@[j as int]));
            }
            order
        } else {
            proof {
                assert(m.last() == edges@[last as int]);
            }
            let _ = order.pop();
            proof {
                assert(map_idx(edges@, order@) =~= m.drop_last());
            }
            let mut r = insert_idx(edges, order, j);
            r.push(last);
            proof {
                assert(map_idx(edges@, r@) =~= insert_last(m.drop_last(), edges@[j as int]).push(
                    m.last(),
                ));
            }
            r
        }
    }
}

/// Returns the indices of `edges` arranged in stable name-sorted order.
pub fn sorted_edge_order(edges: &Vec<Edge>) -> (r: Vec<usize>)
    ensures
        forall|k: int| 0 <= k < r@.len() ==> (#[trigger] r@[k]) < edges@.len(),
        map_idx(edges@, r@) =~= sort_by_name(edges@),
        r@.len() == edges@.len(),
{
    let mut order: Vec<usize> = Vec::new();
    let n = edges.len();
    let mut i: usize = 0;
    while i < n
        invariant
            n == edges@.len(),
            i <= n,
            forall|k: int| 0 <= k < order@.len() ==> (#[trigger] order@[k]) < edges@.len(),
            map_idx(edges@, order@) =~= sort_by_name(edges@.take(i as int)),
        decreases n - i,
    {
        order = insert_idx(edges, order, i);
        proof {
            assert(edges@.take(i + 1).drop_last() =~= edges@.take(i as int));
            assert(edges@.take(i + 1).last() == edges@[i as int]);
        }
        i = i + 1;
    }
    proof {
        assert(edges@.take(n as int) =~= edges@);
        lemma_sort_by_name_sorted(edges@);
        assert(map_idx(edges@, order@).len() == order@.len());
    }
    order
}

} // verus!
