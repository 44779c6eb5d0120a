//! The laws the two assembly modes obey, stated over the model and proved
//! once and for all: how many nodes ordered-mode assembly keeps, that
//! parentless records are always roots, which records end up as roots and
//! as whose children (in which order), how the two modes diverge on
//! orphaned records, and when the two modes agree.

use vstd::prelude::*;
use crate::concept::ConceptView;
use crate::forest::{
    TreeV,
    assemble_ordered, assemble_reorder, forest_has, forest_size, id_present,
    insert_all, leaves, lemma_forest_attach_has, lemma_forest_attach_size, lemma_forest_has_push,
    lemma_forest_size_push, lemma_insert_all_app, lemma_insert_all_push,
    forest_node_children, lemma_forest_attach_children, lemma_forest_push_children,
    lemma_reorder_partition_step, lemma_root_recs_attach, lemma_root_recs_push, ordered_insert,
    parent_present, reorder_attachables, reorder_attachables_upto, reorder_roots,
    reorder_roots_upto, root_recs, tv_has, tv_leaf, tv_size,
};

verus! {

// ------------------------------------------------------------------
// Vocabulary: properties of an input record list.
// ------------------------------------------------------------------

/// No two records carry the same identifier.
pub open spec fn distinct_ids(rs: Seq<ConceptView>) -> bool {
    forall|i: int, j: int|
        0 <= i < j < rs.len() ==> (#[trigger] rs[i]).id != (#[trigger] rs[j]).id
}

/// A record that names a parent, but the named identifier is nowhere in
/// the input.
pub open spec fn orphan(rs: Seq<ConceptView>, r: ConceptView) -> bool {
    match r.parent_id {
        Some(pid) => !id_present(rs, pid),
        None => false,
    }
}

/// Whenever a record's parent is in the input at all, it appears somewhere
/// before the record: the ordered-mode input contract.
pub open spec fn parents_precede(rs: Seq<ConceptView>) -> bool {
    forall|i: int|
        0 <= i < rs.len() && (#[trigger] rs[i]).parent_id is Some && id_present(
            rs,
            rs[i].parent_id->0,
        ) ==> id_present(rs.take(i), rs[i].parent_id->0)
}

/// No orphaned record is itself named as a parent: broken ancestries,
/// where the input has them, are one level deep.
pub open spec fn no_orphan_parents(rs: Seq<ConceptView>) -> bool {
    forall|i: int, j: int|
        0 <= i < rs.len() && 0 <= j < rs.len() && (#[trigger] rs[i]).parent_id == Some(
            (#[trigger] rs[j]).id,
        ) ==> !orphan(rs, rs[j])
}

/// Every named parent is somewhere in the input.
pub open spec fn no_missing_parents(rs: Seq<ConceptView>) -> bool {
    forall|i: int|
        0 <= i < rs.len() && (#[trigger] rs[i]).parent_id is Some ==> id_present(
            rs,
            rs[i].parent_id->0,
        )
}

// ------------------------------------------------------------------
// Distinguished sublists of the input.
// ------------------------------------------------------------------

/// The orphaned records among the first `n`, in order.
pub open spec fn orphans_upto(rs: Seq<ConceptView>, n: int) -> Seq<ConceptView> {
    rs.take(n).filter(|r: ConceptView| orphan(rs, r))
}

/// The orphaned records, in order.
pub open spec fn orphans(rs: Seq<ConceptView>) -> Seq<ConceptView> {
    orphans_upto(rs, rs.len() as int)
}

/// The records without a parent reference among the first `n`, in order.
pub open spec fn null_roots_upto(rs: Seq<ConceptView>, n: int) -> Seq<ConceptView> {
    rs.take(n).filter(|r: ConceptView| r.parent_id is None)
}

/// The records without a parent reference, in order.
pub open spec fn null_roots(rs: Seq<ConceptView>) -> Seq<ConceptView> {
    null_roots_upto(rs, rs.len() as int)
}

/// The records with a parent reference among the first `n`, in order.
pub open spec fn nonroots_upto(rs: Seq<ConceptView>, n: int) -> Seq<ConceptView> {
    rs.take(n).filter(|r: ConceptView| r.parent_id is Some)
}

/// The records with a parent reference, in order.
pub open spec fn nonroots(rs: Seq<ConceptView>) -> Seq<ConceptView> {
    nonroots_upto(rs, rs.len() as int)
}

proof fn lemma_orphans_step(rs: Seq<ConceptView>, n: int)
    requires
        0 <= n < rs.len(),
    ensures
        orphans_upto(rs, n + 1) == (if orphan(rs, rs[n]) {
            orphans_upto(rs, n).push(rs[n])
        } else {
            orphans_upto(rs, n)
        }),
{
    reveal(Seq::filter);
    assert(rs.take(n + 1).drop_last() =~= rs.take(n));
    assert(rs.take(n + 1).last() == rs[n]);
}

proof fn lemma_null_split_step(rs: Seq<ConceptView>, n: int)
    requires
        0 <= n < rs.len(),
    ensures
        null_roots_upto(rs, n + 1) == (if rs[n].parent_id is None {
            null_roots_upto(rs, n).push(rs[n])
        } else {
            null_roots_upto(rs, n)
        }),
        nonroots_upto(rs, n + 1) == (if rs[n].parent_id is Some {
            nonroots_upto(rs, n).push(rs[n])
        } else {
            nonroots_upto(rs, n)
        }),
{
    reveal(Seq::filter);
    assert(rs.take(n + 1).drop_last() =~= rs.take(n));
    assert(rs.take(n + 1).last() == rs[n]);
}

proof fn lemma_filters_empty(rs: Seq<ConceptView>)
    ensures
        orphans_upto(rs, 0) == Seq::<ConceptView>::empty(),
        null_roots_upto(rs, 0) == Seq::<ConceptView>::empty(),
        nonroots_upto(rs, 0) == Seq::<ConceptView>::empty(),
        reorder_roots_upto(rs, 0) == Seq::<ConceptView>::empty(),
        reorder_attachables_upto(rs, 0) == Seq::<ConceptView>::empty(),
{
    reveal(Seq::filter);
    assert(rs.take(0) =~= Seq::<ConceptView>::empty());
}

/// Every record without a parent reference among the first `n` appears in
/// `null_roots_upto(rs, n)`.
proof fn lemma_null_roots_mem(rs: Seq<ConceptView>, n: int, i: int)
    requires
        0 <= i < n <= rs.len(),
        rs[i].parent_id is None,
    ensures
        exists|k: int|
            0 <= k < null_roots_upto(rs, n).len() && #[trigger] null_roots_upto(rs, n)[k] == rs[i],
    decreases n,
{
    lemma_null_split_step(rs, n - 1);
    if i == n - 1 {
        let s = null_roots_upto(rs, n);
        assert(s[s.len() - 1] == rs[i]);
    } else {
        lemma_null_roots_mem(rs, n - 1, i);
        let k = choose|k: int|
            0 <= k < null_roots_upto(rs, n - 1).len() && #[trigger] null_roots_upto(rs, n - 1)[k]
                == rs[i];
        assert(null_roots_upto(rs, n)[k] == rs[i]);
    }
}

/// Every record of the first `n` whose parent is not in the input appears
/// in `reorder_roots_upto(rs, n)`.
proof fn lemma_reorder_roots_mem(rs: Seq<ConceptView>, n: int, i: int)
    requires
        0 <= i < n <= rs.len(),
        !parent_present(rs, rs[i]),
    ensures
        exists|k: int|
            0 <= k < reorder_roots_upto(rs, n).len() && #[trigger] reorder_roots_upto(rs, n)[k]
                == rs[i],
    decreases n,
{
    lemma_reorder_partition_step(rs, n - 1);
    if i == n - 1 {
        let s = reorder_roots_upto(rs, n);
        assert(s[s.len() - 1] == rs[i]);
    } else {
        lemma_reorder_roots_mem(rs, n - 1, i);
        let k = choose|k: int|
            0 <= k < reorder_roots_upto(rs, n - 1).len() && #[trigger] reorder_roots_upto(
                rs,
                n - 1,
            )[k] == rs[i];
        assert(reorder_roots_upto(rs, n)[k] == rs[i]);
    }
}

/// Every record of `reorder_attachables_upto` names a parent that the
/// input holds.
proof fn lemma_attachables_pred(rs: Seq<ConceptView>, n: int)
    requires
        0 <= n <= rs.len(),
    ensures
        forall|k: int|
            0 <= k < reorder_attachables_upto(rs, n).len() ==> parent_present(
                rs,
                #[trigger] reorder_attachables_upto(rs, n)[k],
            ),
    decreases n,
{
    if n == 0 {
        lemma_filters_empty(rs);
    } else {
        lemma_attachables_pred(rs, n - 1);
        lemma_reorder_partition_step(rs, n - 1);
        let prev = reorder_attachables_upto(rs, n - 1);
        assert forall|k: int|
            0 <= k < reorder_attachables_upto(rs, n).len() implies parent_present(
            rs,
            #[trigger] reorder_attachables_upto(rs, n)[k],
        ) by {
            if k < prev.len() {
                assert(reorder_attachables_upto(rs, n)[k] == prev[k]);
            }
        }
    }
}

/// Every record of `null_roots_upto` is without a parent reference.
proof fn lemma_null_roots_pred(rs: Seq<ConceptView>, n: int)
    requires
        0 <= n <= rs.len(),
    ensures
        forall|k: int|
            0 <= k < null_roots_upto(rs, n).len() ==> (#[trigger] null_roots_upto(rs, n)[k])
                .parent_id is None,
    decreases n,
{
    if n == 0 {
        lemma_filters_empty(rs);
    } else {
        lemma_null_roots_pred(rs, n - 1);
        lemma_null_split_step(rs, n - 1);
        let prev = null_roots_upto(rs, n - 1);
        assert forall|k: int|
            0 <= k < null_roots_upto(rs, n).len() implies (#[trigger] null_roots_upto(rs, n)[k])
            .parent_id is None by {
            if k < prev.len() {
                assert(null_roots_upto(rs, n)[k] == prev[k]);
            }
        }
    }
}

// ------------------------------------------------------------------
// Ordered mode: which identifiers the forest holds, and how many nodes.
// ------------------------------------------------------------------

/// An identifier reaches the ordered-mode forest only through a
/// non-orphaned record.
proof fn lemma_ordered_ids_sub(rs: Seq<ConceptView>, n: int)
    requires
        0 <= n <= rs.len(),
    ensures
        forall|x: u128|
            #[trigger] forest_has(insert_all(Seq::empty(), rs.take(n)), x) ==> exists|i: int|
                0 <= i < n && (#[trigger] rs[i]).id == x && !orphan(rs, rs[i]),
    decreases n,
{
    let f_n = insert_all(Seq::empty(), rs.take(n));
    if n == 0 {
        assert(rs.take(0) =~= Seq::<ConceptView>::empty());
        assert(f_n == Seq::<TreeV>::empty());
        assert forall|x: u128| #[trigger] forest_has(f_n, x) implies false by {}
    } else {
        lemma_ordered_ids_sub(rs, n - 1);
        let f_prev = insert_all(Seq::empty(), rs.take(n - 1));
        let r = rs[n - 1];
        assert(rs.take(n) =~= rs.take(n - 1).push(r));
        lemma_insert_all_push(Seq::empty(), rs.take(n - 1), r);
        assert(f_n == ordered_insert(f_prev, r));
        assert forall|x: u128| #[trigger] forest_has(f_n, x) implies exists|i: int|
            0 <= i < n && (#[trigger] rs[i]).id == x && !orphan(rs, rs[i]) by {
            match r.parent_id {
                None => {
                    lemma_forest_has_push(f_prev, tv_leaf(r), x);
                    if forest_has(f_prev, x) {
                        let i = choose|i: int|
                            0 <= i < n - 1 && (#[trigger] rs[i]).id == x && !orphan(rs, rs[i]);
                        assert(rs[i].id == x && !orphan(rs, rs[i]));
                    } else {
                        assert(tv_has(tv_leaf(r), x));
                        assert(r.id == x && !orphan(rs, r));
                    }
                },
                Some(pid) => {
                    lemma_forest_attach_has(f_prev, tv_leaf(r), pid, x);
                    if forest_has(f_prev, x) {
                        let i = choose|i: int|
                            0 <= i < n - 1 && (#[trigger] rs[i]).id == x && !orphan(rs, rs[i]);
                        assert(rs[i].id == x && !orphan(rs, rs[i]));
                    } else {
                        assert(forest_has(f_prev, pid) && tv_has(tv_leaf(r), x));
                        assert(r.id == x);
                        // the parent identifier reached the forest, so it
                        // is carried by some input record: r is no orphan
                        let i = choose|i: int|
                            0 <= i < n - 1 && (#[trigger] rs[i]).id == pid && !orphan(rs, rs[i]);
                        assert(id_present(rs, pid)) by {
                            assert(rs[i].id == pid);
                        }
                        assert(!orphan(rs, r));
                    }
                },
            }
        }
    }
}

/// The forest assembled from the first `n` records: its node count, and
/// exactly which identifiers it holds.
proof fn lemma_ordered_prefix(rs: Seq<ConceptView>, n: int)
    requires
        parents_precede(rs),
        no_orphan_parents(rs),
        0 <= n <= rs.len(),
    ensures
        forest_size(insert_all(Seq::empty(), rs.take(n))) + orphans_upto(rs, n).len() == n,
        forall|x: u128|
            #[trigger] forest_has(insert_all(Seq::empty(), rs.take(n)), x) <==> exists|i: int|
                0 <= i < n && (#[trigger] rs[i]).id == x && !orphan(rs, rs[i]),
    decreases n,
{
    let f_n = insert_all(Seq::empty(), rs.take(n));
    if n == 0 {
        lemma_filters_empty(rs);
        assert(rs.take(0) =~= Seq::<ConceptView>::empty());
        assert(f_n == Seq::<TreeV>::empty());
        assert(forest_size(Seq::<TreeV>::empty()) == 0);
    } else {
        lemma_ordered_prefix(rs, n - 1);
        let f_prev = insert_all(Seq::empty(), rs.take(n - 1));
        let r = rs[n - 1];
        assert(rs.take(n) =~= rs.take(n - 1).push(r));
        lemma_insert_all_push(Seq::empty(), rs.take(n - 1), r);
        assert(f_n == ordered_insert(f_prev, r));
        lemma_orphans_step(rs, n - 1);
        assert(tv_size(tv_leaf(r)) == 1) by {
            assert(forest_size(Seq::<TreeV>::empty()) == 0);
        }
        match r.parent_id {
            None => {
                lemma_forest_size_push(f_prev, tv_leaf(r));
                assert forall|x: u128| #[trigger] forest_has(f_n, x) <==> exists|i: int|
                    0 <= i < n && (#[trigger] rs[i]).id == x && !orphan(rs, rs[i]) by {
                    lemma_forest_has_push(f_prev, tv_leaf(r), x);
                    if forest_has(f_n, x) {
                        if forest_has(f_prev, x) {
                            let i = choose|i: int|
                                0 <= i < n - 1 && (#[trigger] rs[i]).id == x && !orphan(rs, rs[i]);
                            assert(rs[i].id == x && !orphan(rs, rs[i]));
                        } else {
                            assert(r.id == x && !orphan(rs, r));
                        }
                    }
                    if exists|i: int| 0 <= i < n && (#[trigger] rs[i]).id == x && !orphan(rs, rs[i]) {
                        let i = choose|i: int|
                            0 <= i < n && (#[trigger] rs[i]).id == x && !orphan(rs, rs[i]);
                        if i < n - 1 {
                            assert(forest_has(f_prev, x));
                        } else {
                            assert(tv_has(tv_leaf(r), x));
                        }
                        assert(forest_has(f_n, x));
                    }
                }
            },
            Some(pid) => {
                lemma_forest_attach_size(f_prev, tv_leaf(r), pid);
                if orphan(rs, r) {
                    assert(!forest_has(f_prev, pid)) by {
                        if forest_has(f_prev, pid) {
                            let i = choose|i: int|
                                0 <= i < n - 1 && (#[trigger] rs[i]).id == pid && !orphan(
                                    rs,
                                    rs[i],
                                );
                            assert(id_present(rs, pid)) by {
                                assert(rs[i].id == pid);
                            }
                        }
                    }
                    assert(f_n == f_prev);
                    assert forall|x: u128| #[trigger] forest_has(f_n, x) <==> exists|i: int|
                        0 <= i < n && (#[trigger] rs[i]).id == x && !orphan(rs, rs[i]) by {
                        if forest_has(f_n, x) {
                            let i = choose|i: int|
                                0 <= i < n - 1 && (#[trigger] rs[i]).id == x && !orphan(rs, rs[i]);
                            assert(rs[i].id == x && !orphan(rs, rs[i]));
                        }
                        if exists|i: int| 0 <= i < n && (#[trigger] rs[i]).id == x && !orphan(
                            rs,
                            rs[i],
                        ) {
                            let i = choose|i: int|
                                0 <= i < n && (#[trigger] rs[i]).id == x && !orphan(rs, rs[i]);
                            assert(i < n - 1 || !orphan(rs, r));
                            assert(forest_has(f_prev, x));
                        }
                    }
                } else {
                    // the parent is in the input, hence (ordering) in the
                    // prefix, hence (one-level breakage) not an orphan,
                    // hence (induction) in the already-built forest
                    assert(id_present(rs, pid));
                    assert(id_present(rs.take(n - 1), pid));
                    let j = choose|j: int|
                        0 <= j < rs.take(n - 1).len() && (#[trigger] rs.take(n - 1)[j]).id == pid;
                    assert(rs[j].id == pid);
                    assert(rs[n - 1].parent_id == Some(rs[j].id));
                    assert(!orphan(rs, rs[j]));
                    assert(forest_has(f_prev, pid)) by {
                        assert(rs[j].id == pid && !orphan(rs, rs[j]));
                    }
                    assert forall|x: u128| #[trigger] forest_has(f_n, x) <==> exists|i: int|
                        0 <= i < n && (#[trigger] rs[i]).id == x && !orphan(rs, rs[i]) by {
                        lemma_forest_attach_has(f_prev, tv_leaf(r), pid, x);
                        if forest_has(f_n, x) {
                            if forest_has(f_prev, x) {
                                let i = choose|i: int|
                                    0 <= i < n - 1 && (#[trigger] rs[i]).id == x && !orphan(
                                        rs,
                                        rs[i],
                                    );
                                assert(rs[i].id == x && !orphan(rs, rs[i]));
                            } else {
                                assert(r.id == x && !orphan(rs, r));
                            }
                        }
                        if exists|i: int| 0 <= i < n && (#[trigger] rs[i]).id == x && !orphan(
                            rs,
                            rs[i],
                        ) {
                            let i = choose|i: int|
                                0 <= i < n && (#[trigger] rs[i]).id == x && !orphan(rs, rs[i]);
                            if i < n - 1 {
                                assert(forest_has(f_prev, x));
                            } else {
                                assert(tv_has(tv_leaf(r), x));
                            }
                            assert(forest_has(f_n, x));
                        }
                    }
                }
            },
        }
    }
}

// ------------------------------------------------------------------
// Ordered mode: sibling order under every node.
// ------------------------------------------------------------------

/// Among the first `n` records, those that name `x` as their parent, in
/// order.
pub open spec fn children_of_upto(rs: Seq<ConceptView>, n: int, x: u128) -> Seq<ConceptView> {
    rs.take(n).filter(|r: ConceptView| r.parent_id == Some(x))
}

/// The records that name `x` as their parent, in input order.
pub open spec fn children_of(rs: Seq<ConceptView>, x: u128) -> Seq<ConceptView> {
    children_of_upto(rs, rs.len() as int, x)
}

proof fn lemma_children_of_step(rs: Seq<ConceptView>, n: int, x: u128)
    requires
        0 <= n < rs.len(),
    ensures
        children_of_upto(rs, n + 1, x) == (if rs[n].parent_id == Some(x) {
            children_of_upto(rs, n, x).push(rs[n])
        } else {
            children_of_upto(rs, n, x)
        }),
{
    reveal(Seq::filter);
    assert(rs.take(n + 1).drop_last() =~= rs.take(n));
    assert(rs.take(n + 1).last() == rs[n]);
}

proof fn lemma_children_of_empty(rs: Seq<ConceptView>, x: u128)
    ensures
        children_of_upto(rs, 0, x) == Seq::<ConceptView>::empty(),
{
    reveal(Seq::filter);
    assert(rs.take(0) =~= Seq::<ConceptView>::empty());
}

proof fn lemma_children_of_push(s: Seq<ConceptView>, r: ConceptView, x: u128)
    ensures
        children_of(s.push(r), x) == (if r.parent_id == Some(x) {
            children_of(s, x).push(r)
        } else {
            children_of(s, x)
        }),
{
    let g = s.push(r);
    lemma_children_of_step(g, s.len() as int, x);
    assert(g[s.len() as int] == r);
    assert(g.take(s.len() as int) =~= s);
    assert(s.take(s.len() as int) =~= s);
    assert(children_of_upto(g, s.len() as int, x) == children_of(s, x));
}

proof fn lemma_children_of_concat(p: Seq<ConceptView>, q: Seq<ConceptView>, x: u128)
    ensures
        children_of(p + q, x) == children_of(p, x) + children_of(q, x),
    decreases q.len(),
{
    if q.len() == 0 {
        assert(p + q =~= p);
        lemma_children_of_empty(q, x);
        assert(q.take(0) =~= q);
        assert(children_of(p, x) + children_of(q, x) =~= children_of(p, x));
    } else {
        let q0 = q.drop_last();
        let r = q.last();
        assert(p + q =~= (p + q0).push(r));
        assert(q =~= q0.push(r));
        lemma_children_of_concat(p, q0, x);
        lemma_children_of_push(p + q0, r, x);
        lemma_children_of_push(q0, r, x);
        if r.parent_id == Some(x) {
            assert(children_of(p, x) + children_of(q0, x).push(r) =~= (children_of(p, x)
                + children_of(q0, x)).push(r));
        }
    }
}

/// A list of parentless records contributes children to nobody.
proof fn lemma_children_of_none(s: Seq<ConceptView>, x: u128)
    requires
        forall|k: int| 0 <= k < s.len() ==> (#[trigger] s[k]).parent_id is None,
    ensures
        children_of(s, x) == Seq::<ConceptView>::empty(),
    decreases s.len(),
{
    if s.len() == 0 {
        lemma_children_of_empty(s, x);
        assert(s.take(0) =~= s);
    } else {
        let s0 = s.drop_last();
        assert(s =~= s0.push(s.last()));
        assert forall|k: int| 0 <= k < s0.len() implies (#[trigger] s0[k]).parent_id is None by {
            assert(s0[k] == s[k]);
        }
        lemma_children_of_none(s0, x);
        lemma_children_of_push(s0, s.last(), x);
    }
}

/// Restricting the input to its parented records drops no child of `x`.
proof fn lemma_children_of_nonroots(rs: Seq<ConceptView>, n: int, x: u128)
    requires
        0 <= n <= rs.len(),
    ensures
        children_of(nonroots_upto(rs, n), x) == children_of_upto(rs, n, x),
    decreases n,
{
    if n == 0 {
        lemma_filters_empty(rs);
        lemma_children_of_empty(nonroots_upto(rs, 0), x);
        lemma_children_of_empty(rs, x);
        assert(nonroots_upto(rs, 0).take(0) =~= nonroots_upto(rs, 0));
    } else {
        lemma_children_of_nonroots(rs, n - 1, x);
        lemma_null_split_step(rs, n - 1);
        lemma_children_of_step(rs, n - 1, x);
        if rs[n - 1].parent_id is Some {
            lemma_children_of_push(nonroots_upto(rs, n - 1), rs[n - 1], x);
        }
    }
}

/// No record can name `rs[ix]` as its parent before `rs[ix]` itself has
/// appeared: the ordering contract puts present parents first, and the
/// identifier is unique.
proof fn lemma_no_children_before_parent(rs: Seq<ConceptView>, n: int, ix: int)
    requires
        distinct_ids(rs),
        parents_precede(rs),
        0 <= ix < rs.len(),
        0 <= n <= ix + 1,
    ensures
        children_of_upto(rs, n, rs[ix].id) == Seq::<ConceptView>::empty(),
    decreases n,
{
    let x = rs[ix].id;
    if n == 0 {
        lemma_children_of_empty(rs, x);
    } else {
        lemma_no_children_before_parent(rs, n - 1, ix);
        lemma_children_of_step(rs, n - 1, x);
        assert(rs[n - 1].parent_id != Some(x)) by {
            if rs[n - 1].parent_id == Some(x) {
                assert(id_present(rs, x)) by {
                    assert(rs[ix].id == x);
                }
                assert(id_present(rs.take(n - 1), x));
                let k = choose|j: int|
                    0 <= j < rs.take(n - 1).len() && (#[trigger] rs.take(n - 1)[j]).id == x;
                assert(rs[k].id == x);
                assert(k < n - 1 <= ix);
            }
        }
    }
}

/// The forest assembled from the first `n` records: under the node that
/// carries `x` sit exactly the records of the prefix that name `x` as
/// their parent, in order.
proof fn lemma_ordered_children_prefix(rs: Seq<ConceptView>, n: int)
    requires
        distinct_ids(rs),
        parents_precede(rs),
        no_orphan_parents(rs),
        0 <= n <= rs.len(),
    ensures
        forall|x: u128|
            #[trigger] forest_has(insert_all(Seq::empty(), rs.take(n)), x) ==> forest_node_children(
                insert_all(Seq::empty(), rs.take(n)),
                x,
            ) == children_of_upto(rs, n, x),
    decreases n,
{
    let f_n = insert_all(Seq::empty(), rs.take(n));
    if n == 0 {
        assert(rs.take(0) =~= Seq::<ConceptView>::empty());
        assert(f_n == Seq::<TreeV>::empty());
    } else {
        lemma_ordered_children_prefix(rs, n - 1);
        lemma_ordered_prefix(rs, n - 1);
        lemma_ordered_ids_sub(rs, n - 1);
        let f_prev = insert_all(Seq::empty(), rs.take(n - 1));
        let r = rs[n - 1];
        assert(rs.take(n) =~= rs.take(n - 1).push(r));
        lemma_insert_all_push(Seq::empty(), rs.take(n - 1), r);
        assert(f_n == ordered_insert(f_prev, r));
        // the new record's identifier is new to the forest
        assert(!forest_has(f_prev, r.id)) by {
            if forest_has(f_prev, r.id) {
                let j = choose|j: int|
                    0 <= j < n - 1 && (#[trigger] rs[j]).id == r.id && !orphan(rs, rs[j]);
                assert(rs[j].id == rs[n - 1].id);
            }
        }
        assert forall|x: u128| #[trigger] forest_has(f_n, x) implies forest_node_children(f_n, x)
            == children_of_upto(rs, n, x) by {
            lemma_children_of_step(rs, n - 1, x);
            match r.parent_id {
                None => {
                    lemma_forest_push_children(f_prev, tv_leaf(r), x);
                    lemma_forest_has_push(f_prev, tv_leaf(r), x);
                    if forest_has(f_prev, x) {
                    } else {
                        // the new root: it starts childless, and nothing
                        // earlier could name it
                        assert(tv_has(tv_leaf(r), x));
                        assert(r.id == x);
                        lemma_no_children_before_parent(rs, n, n - 1);
                        assert(forest_node_children(f_prev, x) == Seq::<ConceptView>::empty());
                    }
                },
                Some(pid) => {
                    lemma_forest_attach_has(f_prev, tv_leaf(r), pid, x);
                    if orphan(rs, r) {
                        // the parent identifier is nowhere: nothing changes
                        assert(!forest_has(f_prev, pid)) by {
                            if forest_has(f_prev, pid) {
                                let j = choose|j: int|
                                    0 <= j < n - 1 && (#[trigger] rs[j]).id == pid && !orphan(
                                        rs,
                                        rs[j],
                                    );
                                assert(id_present(rs, pid)) by {
                                    assert(rs[j].id == pid);
                                }
                            }
                        }
                        assert(f_n == f_prev);
                        assert(x != pid) by {
                            if x == pid {
                                assert(forest_has(f_prev, pid));
                            }
                        }
                    } else {
                        lemma_forest_attach_children(f_prev, tv_leaf(r), pid, x);
                        if x == pid {
                            assert(forest_has(f_prev, pid)) by {
                                assert(forest_has(f_n, pid));
                            }
                        } else if forest_has(f_prev, x) {
                        } else {
                            // only the fresh identifier is newly present
                            assert(tv_has(tv_leaf(r), x));
                            assert(r.id == x);
                            lemma_no_children_before_parent(rs, n, n - 1);
                            assert(forest_node_children(f_prev, x) == Seq::<
                                ConceptView,
                            >::empty());
                        }
                    }
                },
            }
        }
    }
}

/// Within an ordered-mode forest, the children of the node carrying `x`
/// are exactly the input records that name `x` as their parent, in input
/// order — sibling order is order of first appearance.
pub proof fn law_ordered_sibling_order(rs: Seq<ConceptView>, x: u128)
    requires
        distinct_ids(rs),
        parents_precede(rs),
        no_orphan_parents(rs),
        forest_has(assemble_ordered(rs), x),
    ensures
        forest_node_children(assemble_ordered(rs), x) == children_of(rs, x),
{
    lemma_ordered_children_prefix(rs, rs.len() as int);
    assert(rs.take(rs.len() as int) =~= rs);
}

// ------------------------------------------------------------------
// Root structure of the two modes.
// ------------------------------------------------------------------

/// The roots of an ordered-mode forest are exactly the records without a
/// parent reference, in input order.
proof fn lemma_ordered_roots_prefix(rs: Seq<ConceptView>, n: int)
    requires
        0 <= n <= rs.len(),
    ensures
        root_recs(insert_all(Seq::empty(), rs.take(n))) == null_roots_upto(rs, n),
    decreases n,
{
    if n == 0 {
        lemma_filters_empty(rs);
        assert(rs.take(0) =~= Seq::<ConceptView>::empty());
        assert(root_recs(Seq::<TreeV>::empty()) =~= Seq::<ConceptView>::empty());
    } else {
        lemma_ordered_roots_prefix(rs, n - 1);
        let f_prev = insert_all(Seq::empty(), rs.take(n - 1));
        let r = rs[n - 1];
        assert(rs.take(n) =~= rs.take(n - 1).push(r));
        lemma_insert_all_push(Seq::empty(), rs.take(n - 1), r);
        lemma_null_split_step(rs, n - 1);
        match r.parent_id {
            None => {
                lemma_root_recs_push(f_prev, tv_leaf(r));
            },
            Some(pid) => {
                lemma_root_recs_attach(f_prev, tv_leaf(r), pid);
            },
        }
    }
}

/// The roots of an ordered-mode forest are exactly the parentless input
/// records, in input order, whatever else the input holds.
pub proof fn law_ordered_roots(rs: Seq<ConceptView>)
    ensures
        root_recs(assemble_ordered(rs)) == null_roots(rs),
{
    lemma_ordered_roots_prefix(rs, rs.len() as int);
    assert(rs.take(rs.len() as int) =~= rs);
}

/// Inserting records that all name a parent neither adds a root nor
/// changes a root's record.
proof fn lemma_insert_all_roots_preserved(f: Seq<TreeV>, cs: Seq<ConceptView>)
    requires
        forall|k: int| 0 <= k < cs.len() ==> (#[trigger] cs[k]).parent_id is Some,
    ensures
        root_recs(insert_all(f, cs)) == root_recs(f),
    decreases cs.len(),
{
    if cs.len() > 0 {
        let tail = cs.subrange(1, cs.len() as int);
        assert(cs[0].parent_id is Some);
        lemma_root_recs_attach(f, tv_leaf(cs[0]), cs[0].parent_id->0);
        assert forall|k: int| 0 <= k < tail.len() implies (#[trigger] tail[k]).parent_id
            is Some by {
            assert(tail[k] == cs[k + 1]);
        }
        lemma_insert_all_roots_preserved(ordered_insert(f, cs[0]), tail);
    }
}

/// The roots of a reorder-mode forest are exactly the records whose parent
/// is nowhere in the input — among them every parentless record — in input
/// order.
pub proof fn law_reorder_roots(rs: Seq<ConceptView>)
    ensures
        root_recs(assemble_reorder(rs)) == reorder_roots(rs),
{
    let roots = reorder_roots(rs);
    lemma_attachables_pred(rs, rs.len() as int);
    assert forall|k: int|
        0 <= k < reorder_attachables(rs).len() implies (#[trigger] reorder_attachables(
        rs,
    )[k]).parent_id is Some by {
        assert(parent_present(rs, reorder_attachables(rs)[k]));
    }
    lemma_insert_all_roots_preserved(leaves(roots), reorder_attachables(rs));
    assert(root_recs(leaves(roots)) =~= roots);
}

// ------------------------------------------------------------------
// The laws.
// ------------------------------------------------------------------

/// For an acyclic input in parent-before-child order, in which no orphaned
/// record is itself named as a parent, ordered-mode assembly produces a
/// forest with one node per input record, less the orphaned records — the
/// records whose parent is absent from the input.
pub proof fn law_ordered_node_count(rs: Seq<ConceptView>)
    requires
        parents_precede(rs),
        no_orphan_parents(rs),
    ensures
        forest_size(assemble_ordered(rs)) + orphans(rs).len() == rs.len(),
{
    lemma_ordered_prefix(rs, rs.len() as int);
    assert(rs.take(rs.len() as int) =~= rs);
}

/// A record with no parent reference is a root of the produced forest in
/// both assembly modes, whatever else the input holds.
pub proof fn law_null_parent_is_root(rs: Seq<ConceptView>, i: int)
    requires
        0 <= i < rs.len(),
        rs[i].parent_id is None,
    ensures
        exists|k: int|
            0 <= k < assemble_ordered(rs).len() && (#[trigger] assemble_ordered(rs)[k]).rec
                == rs[i],
        exists|k: int|
            0 <= k < assemble_reorder(rs).len() && (#[trigger] assemble_reorder(rs)[k]).rec
                == rs[i],
{
    let n = rs.len() as int;
    assert(rs.take(n) =~= rs);
    lemma_ordered_roots_prefix(rs, n);
    lemma_null_roots_mem(rs, n, i);
    let k1 = choose|k: int|
        0 <= k < null_roots_upto(rs, n).len() && #[trigger] null_roots_upto(rs, n)[k] == rs[i];
    assert(root_recs(assemble_ordered(rs))[k1] == rs[i]);
    assert((assemble_ordered(rs)[k1]).rec == rs[i]);

    law_reorder_roots(rs);
    lemma_reorder_roots_mem(rs, n, i);
    let k2 = choose|k: int|
        0 <= k < reorder_roots_upto(rs, n).len() && #[trigger] reorder_roots_upto(rs, n)[k]
            == rs[i];
    assert(root_recs(assemble_reorder(rs))[k2] == rs[i]);
    assert((assemble_reorder(rs)[k2]).rec == rs[i]);
}

/// The two modes diverge, deliberately, on an orphaned record — one whose
/// parent identifier is absent from the input: reorder mode promotes it to
/// a root, ordered mode drops it (and, with it, its identifier) from the
/// result altogether.
pub proof fn law_orphan_divergence(rs: Seq<ConceptView>, i: int)
    requires
        distinct_ids(rs),
        0 <= i < rs.len(),
        orphan(rs, rs[i]),
    ensures
        !forest_has(assemble_ordered(rs), rs[i].id),
        exists|k: int|
            0 <= k < assemble_reorder(rs).len() && (#[trigger] assemble_reorder(rs)[k]).rec
                == rs[i],
{
    let n = rs.len() as int;
    assert(rs.take(n) =~= rs);
    lemma_ordered_ids_sub(rs, n);
    if forest_has(assemble_ordered(rs), rs[i].id) {
        let j = choose|j: int|
            0 <= j < n && (#[trigger] rs[j]).id == rs[i].id && !orphan(rs, rs[j]);
        assert(j == i);
    }

    law_reorder_roots(rs);
    lemma_reorder_roots_mem(rs, n, i);
    let k2 = choose|k: int|
        0 <= k < reorder_roots_upto(rs, n).len() && #[trigger] reorder_roots_upto(rs, n)[k]
            == rs[i];
    assert(root_recs(assemble_reorder(rs))[k2] == rs[i]);
    assert((assemble_reorder(rs)[k2]).rec == rs[i]);
}

// ------------------------------------------------------------------
// Agreement of the two modes.
// ------------------------------------------------------------------

/// Inserting records that all lack a parent reference appends them as
/// fresh roots.
proof fn lemma_insert_all_all_none(f: Seq<TreeV>, cs: Seq<ConceptView>)
    requires
        forall|k: int| 0 <= k < cs.len() ==> (#[trigger] cs[k]).parent_id is None,
    ensures
        insert_all(f, cs) == f + leaves(cs),
    decreases cs.len(),
{
    if cs.len() == 0 {
        assert(f + leaves(cs) =~= f);
    } else {
        let tail = cs.subrange(1, cs.len() as int);
        assert(cs[0].parent_id is None);
        assert(ordered_insert(f, cs[0]) == f.push(tv_leaf(cs[0])));
        assert forall|k: int| 0 <= k < tail.len() implies (#[trigger] tail[k]).parent_id
            is None by {
            assert(tail[k] == cs[k + 1]);
        }
        lemma_insert_all_all_none(f.push(tv_leaf(cs[0])), tail);
        assert(f.push(tv_leaf(cs[0])) + leaves(tail) =~= f + leaves(cs));
    }
}

/// With no missing parents, the two partitions of reorder mode coincide
/// with the partition into parentless and parented records.
proof fn lemma_filters_agree(rs: Seq<ConceptView>, n: int)
    requires
        no_missing_parents(rs),
        0 <= n <= rs.len(),
    ensures
        reorder_roots_upto(rs, n) == null_roots_upto(rs, n),
        reorder_attachables_upto(rs, n) == nonroots_upto(rs, n),
    decreases n,
{
    if n == 0 {
        lemma_filters_empty(rs);
    } else {
        lemma_filters_agree(rs, n - 1);
        lemma_reorder_partition_step(rs, n - 1);
        lemma_null_split_step(rs, n - 1);
        assert(parent_present(rs, rs[n - 1]) == (rs[n - 1].parent_id is Some));
    }
}

/// Among the records that name parents, each one's parent — whenever that
/// parent names a parent of its own — comes earlier in the input.
/// (A record whose parent is a true root may come before that root:
/// reorder mode finds roots in its initial forest regardless.)
pub open spec fn nested_parents_precede(rs: Seq<ConceptView>) -> bool {
    forall|i: int, j: int|
        0 <= i < rs.len() && 0 <= j < rs.len() && (#[trigger] rs[i]).parent_id == Some(
            (#[trigger] rs[j]).id,
        ) && rs[j].parent_id is Some ==> j < i
}

/// Where a parented record of the first `n` lands in `nonroots_upto`: at
/// the index given by how many parented records precede it.
proof fn lemma_nonroots_at(rs: Seq<ConceptView>, n: int, j: int)
    requires
        0 <= j < n <= rs.len(),
        rs[j].parent_id is Some,
    ensures
        nonroots_upto(rs, j).len() < nonroots_upto(rs, n).len(),
        nonroots_upto(rs, n)[nonroots_upto(rs, j).len() as int] == rs[j],
    decreases n,
{
    lemma_null_split_step(rs, n - 1);
    if j < n - 1 {
        lemma_nonroots_at(rs, n - 1, j);
        let p = nonroots_upto(rs, j).len() as int;
        assert(nonroots_upto(rs, n)[p] == nonroots_upto(rs, n - 1)[p]);
    }
}

/// Every entry of `nonroots_upto` is a parented input record, sitting at
/// the index that counts the parented records before it.
proof fn lemma_nonroots_origin(rs: Seq<ConceptView>, n: int, k: int)
    requires
        0 <= n <= rs.len(),
        0 <= k < nonroots_upto(rs, n).len(),
    ensures
        exists|j: int|
            0 <= j < n && (#[trigger] rs[j]).parent_id is Some && nonroots_upto(rs, n)[k] == rs[j]
                && nonroots_upto(rs, j).len() == k,
    decreases n,
{
    if n == 0 {
        lemma_filters_empty(rs);
    } else {
        lemma_null_split_step(rs, n - 1);
        if rs[n - 1].parent_id is Some && k == nonroots_upto(rs, n - 1).len() {
            assert(rs[n - 1].parent_id is Some && nonroots_upto(rs, n)[k] == rs[n - 1]
                && nonroots_upto(rs, n - 1).len() == k);
        } else {
            lemma_nonroots_origin(rs, n - 1, k);
            let j = choose|j: int|
                0 <= j < n - 1 && (#[trigger] rs[j]).parent_id is Some && nonroots_upto(
                    rs,
                    n - 1,
                )[k] == rs[j] && nonroots_upto(rs, j).len() == k;
            assert(nonroots_upto(rs, n)[k] == nonroots_upto(rs, n - 1)[k]);
            assert(rs[j].parent_id is Some && nonroots_upto(rs, n)[k] == rs[j] && nonroots_upto(
                rs,
                j,
            ).len() == k);
        }
    }
}

/// Where a parentless record of the first `n` lands in `null_roots_upto`:
/// at the index given by how many parentless records precede it.
proof fn lemma_nullroots_at(rs: Seq<ConceptView>, n: int, j: int)
    requires
        0 <= j < n <= rs.len(),
        rs[j].parent_id is None,
    ensures
        null_roots_upto(rs, j).len() < null_roots_upto(rs, n).len(),
        null_roots_upto(rs, n)[null_roots_upto(rs, j).len() as int] == rs[j],
    decreases n,
{
    lemma_null_split_step(rs, n - 1);
    if j < n - 1 {
        lemma_nullroots_at(rs, n - 1, j);
        let p = null_roots_upto(rs, j).len() as int;
        assert(null_roots_upto(rs, n)[p] == null_roots_upto(rs, n - 1)[p]);
    }
}

/// Every entry of `null_roots_upto` is a parentless input record, sitting
/// at the index that counts the parentless records before it.
proof fn lemma_nullroots_origin(rs: Seq<ConceptView>, n: int, k: int)
    requires
        0 <= n <= rs.len(),
        0 <= k < null_roots_upto(rs, n).len(),
    ensures
        exists|j: int|
            0 <= j < n && (#[trigger] rs[j]).parent_id is None && null_roots_upto(rs, n)[k]
                == rs[j] && null_roots_upto(rs, j).len() == k,
    decreases n,
{
    if n == 0 {
        lemma_filters_empty(rs);
    } else {
        lemma_null_split_step(rs, n - 1);
        if rs[n - 1].parent_id is None && k == null_roots_upto(rs, n - 1).len() {
            assert(rs[n - 1].parent_id is None && null_roots_upto(rs, n)[k] == rs[n - 1]
                && null_roots_upto(rs, n - 1).len() == k);
        } else {
            lemma_nullroots_origin(rs, n - 1, k);
            let j = choose|j: int|
                0 <= j < n - 1 && (#[trigger] rs[j]).parent_id is None && null_roots_upto(
                    rs,
                    n - 1,
                )[k] == rs[j] && null_roots_upto(rs, j).len() == k;
            assert(null_roots_upto(rs, n)[k] == null_roots_upto(rs, n - 1)[k]);
            assert(rs[j].parent_id is None && null_roots_upto(rs, n)[k] == rs[j]
                && null_roots_upto(rs, j).len() == k);
        }
    }
}

/// The roots-first rearrangement is made of the input records: distinct
/// identifiers stay distinct, and — with no parent missing from the input
/// — no parent is missing from the rearrangement either.
proof fn lemma_sorted_input_wf(rs: Seq<ConceptView>)
    requires
        distinct_ids(rs),
        no_missing_parents(rs),
    ensures
        distinct_ids(null_roots(rs) + nonroots(rs)),
        no_missing_parents(null_roots(rs) + nonroots(rs)),
        no_orphan_parents(null_roots(rs) + nonroots(rs)),
{
    let n = rs.len() as int;
    let a = null_roots(rs);
    let b = nonroots(rs);
    let s = a + b;

    // distinct identifiers: two positions with one identifier would give
    // two input positions with one identifier
    assert forall|i: int, j: int|
        0 <= i < j < s.len() implies (#[trigger] s[i]).id != (#[trigger] s[j]).id by {
        if s[i].id == s[j].id {
            if i < a.len() && j < a.len() {
                lemma_nullroots_origin(rs, n, i);
                lemma_nullroots_origin(rs, n, j);
                let mi = choose|m: int|
                    0 <= m < n && (#[trigger] rs[m]).parent_id is None && null_roots_upto(
                        rs,
                        n,
                    )[i] == rs[m] && null_roots_upto(rs, m).len() == i;
                let mj = choose|m: int|
                    0 <= m < n && (#[trigger] rs[m]).parent_id is None && null_roots_upto(
                        rs,
                        n,
                    )[j] == rs[m] && null_roots_upto(rs, m).len() == j;
                assert(rs[mi].id == rs[mj].id);
                assert(mi == mj);
            } else if i >= a.len() && j >= a.len() {
                lemma_nonroots_origin(rs, n, i - a.len());
                lemma_nonroots_origin(rs, n, j - a.len());
                let mi = choose|m: int|
                    0 <= m < n && (#[trigger] rs[m]).parent_id is Some && nonroots_upto(rs, n)[i
                        - a.len()] == rs[m] && nonroots_upto(rs, m).len() == i - a.len();
                let mj = choose|m: int|
                    0 <= m < n && (#[trigger] rs[m]).parent_id is Some && nonroots_upto(rs, n)[j
                        - a.len()] == rs[m] && nonroots_upto(rs, m).len() == j - a.len();
                assert(rs[mi].id == rs[mj].id);
                assert(mi == mj);
            } else {
                lemma_nullroots_origin(rs, n, i);
                lemma_nonroots_origin(rs, n, j - a.len());
                let mi = choose|m: int|
                    0 <= m < n && (#[trigger] rs[m]).parent_id is None && null_roots_upto(
                        rs,
                        n,
                    )[i] == rs[m] && null_roots_upto(rs, m).len() == i;
                let mj = choose|m: int|
                    0 <= m < n && (#[trigger] rs[m]).parent_id is Some && nonroots_upto(rs, n)[j
                        - a.len()] == rs[m] && nonroots_upto(rs, m).len() == j - a.len();
                assert(rs[mi].id == rs[mj].id);
                assert(mi == mj);
            }
        }
    }

    // no missing parents: every named parent is an input record, and every
    // input record is somewhere in the rearrangement
    assert forall|i: int|
        0 <= i < s.len() && (#[trigger] s[i]).parent_id is Some implies id_present(
        s,
        s[i].parent_id->0,
    ) by {
        let pid = s[i].parent_id->0;
        assert(i >= a.len()) by {
            if i < a.len() {
                lemma_nullroots_origin(rs, n, i);
            }
        }
        lemma_nonroots_origin(rs, n, i - a.len());
        let m = choose|j: int|
            0 <= j < n && (#[trigger] rs[j]).parent_id is Some && nonroots_upto(rs, n)[i
                - a.len()] == rs[j] && nonroots_upto(rs, j).len() == i - a.len();
        assert(s[i] == b[i - a.len()]);
        assert(rs[m].parent_id == Some(pid));
        assert(id_present(rs, pid));
        let k = choose|j: int| 0 <= j < rs.len() && (#[trigger] rs[j]).id == pid;
        if rs[k].parent_id is None {
            lemma_nullroots_at(rs, n, k);
            let p = null_roots_upto(rs, k).len() as int;
            assert(s[p] == a[p]);
            assert((s[p]).id == pid);
        } else {
            lemma_nonroots_at(rs, n, k);
            let p = nonroots_upto(rs, k).len() as int;
            assert(s[a.len() + p] == b[p]);
            assert((s[a.len() + p]).id == pid);
        }
    }

    // and with every parent present, no record is orphaned at all
    assert forall|i: int, j: int|
        0 <= i < s.len() && 0 <= j < s.len() && (#[trigger] s[i]).parent_id == Some(
            (#[trigger] s[j]).id,
        ) implies !orphan(s, s[j]) by {
        if s[j].parent_id is Some {
            assert(id_present(s, s[j].parent_id->0));
        }
    }
}

/// Within a reorder-mode forest built from an input with no missing
/// parents and nested parents listed first, the children of the node
/// carrying `x` are exactly the input records that name `x` as their
/// parent, in input order.
pub proof fn law_reorder_sibling_order(rs: Seq<ConceptView>, x: u128)
    requires
        distinct_ids(rs),
        no_missing_parents(rs),
        nested_parents_precede(rs),
        forest_has(assemble_reorder(rs), x),
    ensures
        forest_node_children(assemble_reorder(rs), x) == children_of(rs, x),
{
    let n = rs.len() as int;
    let a = null_roots(rs);
    let b = nonroots(rs);
    let s = a + b;
    law_modes_agree(rs);
    law_sorted_input_is_ordered(rs);
    lemma_sorted_input_wf(rs);
    law_ordered_sibling_order(s, x);
    // the rearrangement has the same children for `x` as the input
    lemma_children_of_concat(a, b, x);
    lemma_null_roots_pred(rs, n);
    lemma_children_of_none(a, x);
    lemma_children_of_nonroots(rs, n, x);
    assert(rs.take(n) =~= rs);
    assert(Seq::<ConceptView>::empty() + children_of(b, x) =~= children_of(b, x));
}
pub proof fn law_sorted_input_is_ordered(rs: Seq<ConceptView>)
    requires
        no_missing_parents(rs),
        nested_parents_precede(rs),
    ensures
        parents_precede(null_roots(rs) + nonroots(rs)),
{
    let n = rs.len() as int;
    let a = null_roots(rs);
    let b = nonroots(rs);
    let s = a + b;
    lemma_null_roots_pred(rs, n);
    assert forall|i: int|
        0 <= i < s.len() && (#[trigger] s[i]).parent_id is Some && id_present(
            s,
            s[i].parent_id->0,
        ) implies id_present(s.take(i), s[i].parent_id->0) by {
        let pid = s[i].parent_id->0;
        if i < a.len() {
            assert(s[i] == a[i]);
        } else {
            let k = i - a.len();
            assert(s[i] == b[k]);
            lemma_nonroots_origin(rs, n, k);
            let j2 = choose|j: int|
                0 <= j < n && (#[trigger] rs[j]).parent_id is Some && nonroots_upto(rs, n)[k]
                    == rs[j] && nonroots_upto(rs, j).len() == k;
            assert(rs[j2] == s[i]);
            assert(id_present(rs, pid));
            let j1 = choose|j: int| 0 <= j < rs.len() && (#[trigger] rs[j]).id == pid;
            if rs[j1].parent_id is None {
                lemma_null_roots_mem(rs, n, j1);
                let ka = choose|kk: int|
                    0 <= kk < null_roots_upto(rs, n).len() && #[trigger] null_roots_upto(
                        rs,
                        n,
                    )[kk] == rs[j1];
                assert(s[ka] == a[ka]);
                assert(s.take(i)[ka] == s[ka]);
                assert((s.take(i)[ka]).id == pid);
            } else {
                assert(rs[j2].parent_id == Some(rs[j1].id));
                assert(j1 < j2);
                lemma_nonroots_at(rs, j2, j1);
                lemma_nonroots_at(rs, n, j1);
                let p = nonroots_upto(rs, j1).len() as int;
                assert(b[p] == rs[j1]);
                assert(p < k);
                assert(s[a.len() + p] == b[p]);
                assert(s.take(i)[a.len() + p] == s[a.len() + p]);
                assert((s.take(i)[a.len() + p]).id == pid);
            }
        }
    }
}

/// For an input with no missing parents, reorder-mode assembly and
/// ordered-mode assembly of the input sorted roots-first — the parentless
/// records in input order, then the parented records in input order —
/// produce the very same forest.
pub proof fn law_modes_agree(rs: Seq<ConceptView>)
    requires
        no_missing_parents(rs),
    ensures
        assemble_reorder(rs) == assemble_ordered(null_roots(rs) + nonroots(rs)),
{
    let n = rs.len() as int;
    let a = null_roots(rs);
    let b = nonroots(rs);
    lemma_filters_agree(rs, n);
    lemma_insert_all_app(Seq::empty(), a, b);
    lemma_null_roots_pred(rs, n);
    lemma_insert_all_all_none(Seq::empty(), a);
    assert(Seq::empty() + leaves(a) =~= leaves(a));
}

} // verus!
