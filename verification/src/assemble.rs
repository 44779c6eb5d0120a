//! Building forests from flat record lists, in the two assembly modes.

use vstd::prelude::*;
use crate::concept::{Concept, ConceptView, recs_view};
use crate::forest::{
    assemble_ordered, assemble_reorder, first_with, forest_attach, forest_has, insert_all,
    leaves, lemma_first_with, lemma_forest_has_index, lemma_insert_all_push,
    lemma_reorder_partition_step, ordered_insert, parent_present, reorder_attachables,
    reorder_attachables_upto, reorder_roots, reorder_roots_upto, tv_attach, tv_has, tv_leaf,
};
use crate::tree::{
    ConceptTree, forest_view, lemma_forest_view, lemma_forest_view_push, tree_view,
};

verus! {

/// Attach `child` under the first node of the forest (searching each tree
/// depth-first, in order) whose identifier is the child's `parent_id`;
/// hand the child back unchanged when no node of the forest carries that
/// identifier.
pub fn attach_node(forest: &mut Vec<ConceptTree>, child: ConceptTree) -> (rest: Option<
    ConceptTree,
>)
    requires
        child.parent_id is Some,
    ensures
        forest_view(final(forest)@) == forest_attach(
            forest_view(old(forest)@),
            child@,
            child.parent_id->0,
        ),
        match rest {
            None => forest_has(forest_view(old(forest)@), child.parent_id->0),
            Some(c) => c == child && !forest_has(forest_view(old(forest)@), child.parent_id->0),
        },
{
    let ghost pid = child.parent_id->0;
    let ghost cv = child@;
    let ghost f0 = forest_view(old(forest)@);
    let mut pending = child;
    let mut i: usize = 0;
    while i < forest.len()
        invariant
            child.parent_id is Some,
            pid == child.parent_id->0,
            cv == child@,
            pending == child,
            i <= forest.len(),
            forest@.len() == old(forest)@.len(),
            f0 == forest_view(old(forest)@),
            forall|j: int|
                0 <= j < forest@.len() ==> tree_view(#[trigger] forest@[j]) == tree_view(
                    old(forest)@[j],
                ),
            forall|j: int|
                i <= j < forest@.len() ==> #[trigger] forest@[j] == old(forest)@[j],
            forall|j: int|
                0 <= j < i ==> !tv_has(tree_view(#[trigger] old(forest)@[j]), pid),
        decreases forest@.len() - i,
    {
        let ghost cs_pre = forest@;
        let mut t = forest.remove(i);
        proof {
            assert(t == old(forest)@[i as int]);
        }
        let ghost t_pre = t;
        let r = t.add_child_to_tree(pending);
        match r {
            None => {
                forest.insert(i, t);
                proof {
                    lemma_forest_view(old(forest)@);
                    lemma_first_with(f0, pid);
                    assert(f0[i as int] == tree_view(old(forest)@[i as int]));
                    assert(tv_has(f0[i as int], pid));
                    lemma_forest_has_index(f0, pid);
                    assert(forest_has(f0, pid));
                    let fw = first_with(f0, pid);
                    assert forall|j: int| 0 <= j < i implies !tv_has(f0[j], pid) by {
                        assert(f0[j] == tree_view(old(forest)@[j]));
                    }
                    assert(fw == i as int) by {
                        if fw < i as int {
                            assert(tv_has(f0[fw], pid));
                        } else if fw > i as int {
                            assert(!tv_has(f0[i as int], pid));
                        }
                    }
                    assert(forest@ =~= cs_pre.update(i as int, t));
                    lemma_forest_view(forest@);
                    let target = f0.update(i as int, tv_attach(f0[i as int], cv, pid));
                    assert forall|k: int|
                        0 <= k < forest@.len() implies forest_view(forest@)[k] == target[k] by {
                        assert(forest_view(forest@)[k] == tree_view(forest@[k]));
                        if k != i as int {
                            assert(forest@[k] == cs_pre[k]);
                            assert(tree_view(cs_pre[k]) == tree_view(old(forest)@[k]));
                            assert(f0[k] == tree_view(old(forest)@[k]));
                        } else {
                            assert(forest@[k] == t);
                        }
                    }
                    assert(forest_view(forest@) =~= target);
                }
                return None;
            },
            Some(c) => {
                forest.insert(i, t);
                proof {
                    assert(forest@ =~= cs_pre.update(i as int, t));
                    assert(tree_view(t) == tree_view(t_pre));
                    assert forall|j: int|
                        0 <= j < forest@.len() implies tree_view(#[trigger] forest@[j])
                        == tree_view(old(forest)@[j]) by {
                        if j != i as int {
                            assert(forest@[j] == cs_pre[j]);
                        } else {
                            assert(forest@[j] == t);
                            assert(t_pre == old(forest)@[j]);
                        }
                    }
                    assert forall|j: int|
                        i + 1 <= j < forest@.len() implies #[trigger] forest@[j] == old(
                        forest,
                    )@[j] by {
                        assert(forest@[j] == cs_pre[j]);
                    }
                }
                pending = c;
                i = i + 1;
            },
        }
    }
    proof {
        lemma_forest_view(forest@);
        lemma_forest_view(old(forest)@);
        assert forall|k: int|
            0 <= k < forest@.len() implies forest_view(forest@)[k] == f0[k] by {
            assert(forest_view(forest@)[k] == tree_view(forest@[k]));
            assert(f0[k] == tree_view(old(forest)@[k]));
        }
        assert(forest_view(forest@) =~= f0);
        assert forall|k: int| 0 <= k < f0.len() implies !(#[trigger] tv_has(f0[k], pid)) by {
            assert(f0[k] == tree_view(old(forest)@[k]));
        }
        lemma_forest_has_index(f0, pid);
        assert(!forest_has(f0, pid));
    }
    Some(pending)
}

/// Ordered-mode assembly.  Every record without a parent opens a new root,
/// in input order; every other record is attached under the first
/// already-built node carrying its `parent_id`, or silently dropped when
/// no such node has been built — the caller promised parents come first,
/// so a miss means the record's parent is missing from the input.
pub fn build_concept_tree(concepts: Vec<Concept>) -> (forest: Vec<ConceptTree>)
    ensures
        forest_view(forest@) == assemble_ordered(recs_view(concepts@)),
{
    let ghost rs = recs_view(concepts@);
    let mut forest: Vec<ConceptTree> = Vec::new();
    for i in 0..concepts.len()
        invariant
            rs == recs_view(concepts@),
            rs.len() == concepts@.len(),
            forest_view(forest@) == insert_all(Seq::empty(), rs.take(i as int)),
    {
        let ghost f_pre = forest_view(forest@);
        let c = &concepts[i];
        proof {
            assert(rs[i as int] == concepts@[i as int]@);
        }
        let node = ConceptTree::from_ref(c);
        match c.parent_id {
            None => {
                proof {
                    lemma_forest_view_push(forest@, node);
                }
                forest.push(node);
            },
            Some(_) => {
                let _dropped = attach_node(&mut forest, node);
            },
        }
        proof {
            assert(rs.take(i + 1) =~= rs.take(i as int).push(rs[i as int]));
            lemma_insert_all_push(Seq::empty(), rs.take(i as int), rs[i as int]);
            assert(forest_view(forest@) == ordered_insert(f_pre, rs[i as int]));
        }
    }
    proof {
        assert(rs.take(rs.len() as int) =~= rs);
    }
    forest
}

/// Does some record of the list carry this identifier?
fn parent_in_list(concepts: &Vec<Concept>, pid: u128) -> (b: bool)
    ensures
        b == exists|j: int|
            0 <= j < recs_view(concepts@).len() && (#[trigger] recs_view(concepts@)[j]).id == pid,
{
    let ghost rs = recs_view(concepts@);
    for j in 0..concepts.len()
        invariant
            rs == recs_view(concepts@),
            rs.len() == concepts@.len(),
            forall|k: int| 0 <= k < j ==> (#[trigger] rs[k]).id != pid,
    {
        if concepts[j].id == pid {
            proof {
                assert(rs[j as int].id == pid);
            }
            return true;
        }
        proof {
            assert(rs[j as int].id != pid);
        }
    }
    false
}

/// Reorder-mode assembly, for record lists without an ordering guarantee.
/// Records whose parent is nowhere in the input — among them every record
/// without a parent — become the roots of the result, in input order; all
/// remaining records are then attached under their parents, in input
/// order.
pub fn to_tree(concepts: Vec<Concept>) -> (forest: Vec<ConceptTree>)
    ensures
        forest_view(forest@) == assemble_reorder(recs_view(concepts@)),
{
    let ghost rs = recs_view(concepts@);
    let mut forest: Vec<ConceptTree> = Vec::new();
    let mut pending: Vec<ConceptTree> = Vec::new();
    proof {
        reveal(Seq::filter);
        assert(rs.take(0) =~= Seq::<ConceptView>::empty());
    }
    for i in 0..concepts.len()
        invariant
            rs == recs_view(concepts@),
            rs.len() == concepts@.len(),
            forest_view(forest@) == leaves(reorder_roots_upto(rs, i as int)),
            pending@.len() == reorder_attachables_upto(rs, i as int).len(),
            forall|j: int|
                0 <= j < pending@.len() ==> tree_view(#[trigger] pending@[j]) == tv_leaf(
                    reorder_attachables_upto(rs, i as int)[j],
                ),
            forall|j: int|
                0 <= j < pending@.len() ==> (#[trigger] pending@[j]).parent_id is Some,
    {
        let ghost roots_pre = reorder_roots_upto(rs, i as int);
        let ghost att_pre = reorder_attachables_upto(rs, i as int);
        let c = &concepts[i];
        proof {
            assert(rs[i as int] == concepts@[i as int]@);
            lemma_reorder_partition_step(rs, i as int);
        }
        let present = match c.parent_id {
            Some(pid) => parent_in_list(&concepts, pid),
            None => false,
        };
        proof {
            assert(present == parent_present(rs, rs[i as int]));
        }
        let node = ConceptTree::from_ref(c);
        if present {
            pending.push(node);
            proof {
                let att_post = reorder_attachables_upto(rs, i + 1);
                assert(att_post == att_pre.push(rs[i as int]));
                assert forall|j: int|
                    0 <= j < pending@.len() implies tree_view(#[trigger] pending@[j]) == tv_leaf(
                    att_post[j],
                ) by {
                    if j < att_pre.len() {
                        assert(att_post[j] == att_pre[j]);
                    } else {
                        assert(att_post[j] == rs[i as int]);
                    }
                }
            }
        } else {
            proof {
                lemma_forest_view_push(forest@, node);
            }
            forest.push(node);
            proof {
                let roots_post = reorder_roots_upto(rs, i + 1);
                assert(roots_post == roots_pre.push(rs[i as int]));
                assert(forest_view(forest@) =~= leaves(roots_post));
            }
        }
    }
    let ghost aseq = reorder_attachables(rs);
    let ghost mut k: int = 0;
    proof {
        assert(aseq == reorder_attachables_upto(rs, rs.len() as int));
        assert(leaves(reorder_roots(rs)).take(0) =~= leaves(reorder_roots(rs)).take(0));
        assert(aseq.take(0) =~= Seq::<ConceptView>::empty());
    }
    while pending.len() > 0
        invariant
            rs == recs_view(concepts@),
            aseq == reorder_attachables(rs),
            0 <= k <= aseq.len(),
            k + pending@.len() == aseq.len(),
            forall|j: int|
                0 <= j < pending@.len() ==> tree_view(#[trigger] pending@[j]) == tv_leaf(
                    aseq[k + j],
                ),
            forall|j: int|
                0 <= j < pending@.len() ==> (#[trigger] pending@[j]).parent_id is Some,
            forest_view(forest@) == insert_all(leaves(reorder_roots(rs)), aseq.take(k)),
        decreases pending@.len(),
    {
        let ghost g_pre = forest_view(forest@);
        let ghost pend_pre = pending@;
        let node = pending.remove(0);
        proof {
            assert(node == pend_pre[0]);
            assert(tree_view(node) == tv_leaf(aseq[k]));
            assert forall|j: int|
                0 <= j < pending@.len() implies tree_view(#[trigger] pending@[j]) == tv_leaf(
                aseq[k + 1 + j],
            ) by {
                assert(pending@[j] == pend_pre[j + 1]);
            }
            assert forall|j: int|
                0 <= j < pending@.len() implies (#[trigger] pending@[j]).parent_id is Some by {
                assert(pending@[j] == pend_pre[j + 1]);
            }
        }
        let _dropped = attach_node(&mut forest, node);
        proof {
            assert(aseq[k].parent_id == node.parent_id);
            assert(ordered_insert(g_pre, aseq[k]) == forest_attach(
                g_pre,
                tv_leaf(aseq[k]),
                node.parent_id->0,
            ));
            assert(aseq.take(k + 1) =~= aseq.take(k).push(aseq[k]));
            lemma_insert_all_push(leaves(reorder_roots(rs)), aseq.take(k), aseq[k]);
            k = k + 1;
        }
    }
    proof {
        assert(aseq.take(k) =~= aseq);
    }
    forest
}

} // verus!
