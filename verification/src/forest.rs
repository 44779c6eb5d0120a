//! Mathematical model of assembled concept trees and of the two assembly
//! modes: *ordered* (parents are guaranteed to precede their children) and
//! *reorder* (no ordering guarantee; records without a resolvable parent
//! become roots).

use vstd::prelude::*;
use crate::concept::ConceptView;

verus! {

/// Model of one assembled tree node: a record plus its subtrees in order.
pub struct TreeV {
    pub rec: ConceptView,
    pub children: Seq<TreeV>,
}

/// The tree consisting of one record and no children.
pub open spec fn tv_leaf(r: ConceptView) -> TreeV {
    TreeV { rec: r, children: Seq::empty() }
}

/// Does the tree contain a node with this identifier?
pub open spec fn tv_has(t: TreeV, id: u128) -> bool
    decreases t,
{
    t.rec.id == id || forest_has(t.children, id)
}

/// Does some tree of the forest contain a node with this identifier?
pub open spec fn forest_has(f: Seq<TreeV>, id: u128) -> bool
    decreases f,
{
    f.len() > 0 && (tv_has(f[0], id) || forest_has(f.subrange(1, f.len() as int), id))
}

/// A forest contains an identifier exactly when one of its trees does.
pub proof fn lemma_forest_has_index(f: Seq<TreeV>, id: u128)
    ensures
        forest_has(f, id) <==> exists|i: int|
            0 <= i < f.len() && tv_has(#[trigger] f[i], id),
    decreases f.len(),
{
    if f.len() > 0 {
        let tail = f.subrange(1, f.len() as int);
        lemma_forest_has_index(tail, id);
        if tv_has(f[0], id) {
        } else if forest_has(tail, id) {
            let i = choose|i: int| 0 <= i < tail.len() && tv_has(#[trigger] tail[i], id);
            assert(f[i + 1] == tail[i]);
            assert(tv_has(f[i + 1], id));
        } else {
            assert forall|i: int| 0 <= i < f.len() implies !tv_has(#[trigger] f[i], id) by {
                if i > 0 {
                    assert(tail[i - 1] == f[i]);
                }
            }
        }
    }
}

/// Index of the first tree of `f` whose subtree contains `id`; `f.len()`
/// when no tree does.
pub open spec fn first_with(f: Seq<TreeV>, id: u128) -> int
    decreases f.len(),
{
    if f.len() == 0 {
        0
    } else if tv_has(f[0], id) {
        0
    } else {
        1 + first_with(f.subrange(1, f.len() as int), id)
    }
}

pub proof fn lemma_first_with(f: Seq<TreeV>, id: u128)
    ensures
        0 <= first_with(f, id) <= f.len(),
        first_with(f, id) < f.len() ==> tv_has(f[first_with(f, id)], id),
        forall|j: int| 0 <= j < first_with(f, id) ==> !tv_has(#[trigger] f[j], id),
        (first_with(f, id) < f.len()) == forest_has(f, id),
    decreases f.len(),
{
    if f.len() == 0 {
    } else if tv_has(f[0], id) {
    } else {
        let tail = f.subrange(1, f.len() as int);
        lemma_first_with(tail, id);
        let w = first_with(tail, id);
        if w < tail.len() {
            assert(tail[w] == f[1 + w]);
        }
        assert forall|j: int| 0 <= j < first_with(f, id) implies !tv_has(#[trigger] f[j], id) by {
            if j > 0 {
                assert(tail[j - 1] == f[j]);
            }
        }
    }
}

/// Attach `c` as the last child of the first node (in depth-first order)
/// whose identifier is `pid`; the tree is unchanged when it holds no such
/// node.
pub open spec fn tv_attach(t: TreeV, c: TreeV, pid: u128) -> TreeV
    decreases t,
    via tv_attach_decreases
{
    if t.rec.id == pid {
        TreeV { rec: t.rec, children: t.children.push(c) }
    } else if forest_has(t.children, pid) {
        let i = first_with(t.children, pid);
        TreeV { rec: t.rec, children: t.children.update(i, tv_attach(t.children[i], c, pid)) }
    } else {
        t
    }
}

#[via_fn]
proof fn tv_attach_decreases(t: TreeV, c: TreeV, pid: u128) {
    lemma_first_with(t.children, pid);
}

/// Attach `c` under the first node of the forest (in depth-first order,
/// tree by tree) whose identifier is `pid`; the forest is unchanged when
/// no node matches.
pub open spec fn forest_attach(f: Seq<TreeV>, c: TreeV, pid: u128) -> Seq<TreeV> {
    if forest_has(f, pid) {
        let i = first_with(f, pid);
        f.update(i, tv_attach(f[i], c, pid))
    } else {
        f
    }
}

/// One assembly step: a record without a parent opens a new root at the
/// end of the forest; any other record is attached under its parent, or
/// silently dropped when the parent is nowhere in the forest.
pub open spec fn ordered_insert(f: Seq<TreeV>, r: ConceptView) -> Seq<TreeV> {
    match r.parent_id {
        None => f.push(tv_leaf(r)),
        Some(pid) => forest_attach(f, tv_leaf(r), pid),
    }
}

/// Fold [`ordered_insert`] over the records, in order, starting from `f`.
pub open spec fn insert_all(f: Seq<TreeV>, rs: Seq<ConceptView>) -> Seq<TreeV>
    decreases rs.len(),
{
    if rs.len() == 0 {
        f
    } else {
        insert_all(ordered_insert(f, rs[0]), rs.subrange(1, rs.len() as int))
    }
}

/// Ordered-mode assembly: start from the empty forest and insert every
/// record in input order.
pub open spec fn assemble_ordered(rs: Seq<ConceptView>) -> Seq<TreeV> {
    insert_all(Seq::empty(), rs)
}

/// Does some record of the list carry this identifier?
pub open spec fn id_present(rs: Seq<ConceptView>, pid: u128) -> bool {
    exists|j: int| 0 <= j < rs.len() && (#[trigger] rs[j]).id == pid
}

/// Does some record of the list carry the identifier that `r` names as its
/// parent?
pub open spec fn parent_present(rs: Seq<ConceptView>, r: ConceptView) -> bool {
    match r.parent_id {
        Some(pid) => id_present(rs, pid),
        None => false,
    }
}

/// Among the first `n` records, those that reorder-mode assembly promotes
/// to roots: records without a parent and records whose parent is absent
/// from the whole input.
pub open spec fn reorder_roots_upto(rs: Seq<ConceptView>, n: int) -> Seq<ConceptView> {
    rs.take(n).filter(|r: ConceptView| !parent_present(rs, r))
}

/// The records that reorder-mode assembly promotes to roots, in input
/// order.
pub open spec fn reorder_roots(rs: Seq<ConceptView>) -> Seq<ConceptView> {
    reorder_roots_upto(rs, rs.len() as int)
}

/// Among the first `n` records, those that reorder-mode assembly attaches
/// under a parent found in the whole input.
pub open spec fn reorder_attachables_upto(rs: Seq<ConceptView>, n: int) -> Seq<ConceptView> {
    rs.take(n).filter(|r: ConceptView| parent_present(rs, r))
}

/// The records that reorder-mode assembly attaches under a parent, in
/// input order.
pub open spec fn reorder_attachables(rs: Seq<ConceptView>) -> Seq<ConceptView> {
    reorder_attachables_upto(rs, rs.len() as int)
}

/// Taking one more record extends exactly one of the two partitions.
pub proof fn lemma_reorder_partition_step(rs: Seq<ConceptView>, n: int)
    requires
        0 <= n < rs.len(),
    ensures
        reorder_roots_upto(rs, n + 1) == (if parent_present(rs, rs[n]) {
            reorder_roots_upto(rs, n)
        } else {
            reorder_roots_upto(rs, n).push(rs[n])
        }),
        reorder_attachables_upto(rs, n + 1) == (if parent_present(rs, rs[n]) {
            reorder_attachables_upto(rs, n).push(rs[n])
        } else {
            reorder_attachables_upto(rs, n)
        }),
{
    reveal(Seq::filter);
    assert(rs.take(n + 1).drop_last() =~= rs.take(n));
    assert(rs.take(n + 1).last() == rs[n]);
}

/// Each record as a childless tree, in order.
pub open spec fn leaves(rs: Seq<ConceptView>) -> Seq<TreeV> {
    Seq::new(rs.len(), |i: int| tv_leaf(rs[i]))
}

/// Reorder-mode assembly: the records without a resolvable parent become
/// the initial forest, in input order; every other record is then attached
/// under its parent, in input order.
pub open spec fn assemble_reorder(rs: Seq<ConceptView>) -> Seq<TreeV> {
    insert_all(leaves(reorder_roots(rs)), reorder_attachables(rs))
}

/// Folding a concatenation inserts the first part, then the second.
pub proof fn lemma_insert_all_app(f: Seq<TreeV>, a: Seq<ConceptView>, b: Seq<ConceptView>)
    ensures
        insert_all(f, a + b) == insert_all(insert_all(f, a), b),
    decreases a.len(),
{
    if a.len() == 0 {
        assert(a + b =~= b);
    } else {
        let a1 = a.subrange(1, a.len() as int);
        assert((a + b)[0] == a[0]);
        assert((a + b).subrange(1, (a + b).len() as int) =~= a1 + b);
        lemma_insert_all_app(ordered_insert(f, a[0]), a1, b);
    }
}

/// Folding one more record is one more insertion.
pub proof fn lemma_insert_all_push(f: Seq<TreeV>, a: Seq<ConceptView>, r: ConceptView)
    ensures
        insert_all(f, a.push(r)) == ordered_insert(insert_all(f, a), r),
{
    let s = seq![r];
    assert(a.push(r) =~= a + s);
    lemma_insert_all_app(f, a, s);
    let g = insert_all(f, a);
    assert(s.subrange(1, 1) =~= Seq::<ConceptView>::empty());
    assert(insert_all(g, s) == insert_all(ordered_insert(g, r), s.subrange(1, 1)));
    assert(insert_all(ordered_insert(g, r), s.subrange(1, 1)) == ordered_insert(g, r));
}

/// Attaching never changes the record at the top of the tree.
pub proof fn lemma_tv_attach_rec(t: TreeV, c: TreeV, pid: u128)
    ensures
        tv_attach(t, c, pid).rec == t.rec,
{
}

/// A forest picked up at one index: it contains an identifier exactly when
/// the chosen tree or one of the others does.
proof fn lemma_has_split(f: Seq<TreeV>, i: int, x: u128)
    requires
        0 <= i < f.len(),
    ensures
        forest_has(f, x) == ((exists|j: int|
            0 <= j < f.len() && j != i && tv_has(#[trigger] f[j], x)) || tv_has(f[i], x)),
{
    lemma_forest_has_index(f, x);
    if exists|j: int| 0 <= j < f.len() && j != i && tv_has(#[trigger] f[j], x) {
        let j = choose|j: int| 0 <= j < f.len() && j != i && tv_has(#[trigger] f[j], x);
        assert(tv_has(f[j], x));
    }
    if forest_has(f, x) {
        let j = choose|j: int| 0 <= j < f.len() && tv_has(#[trigger] f[j], x);
        if j != i {
            assert(exists|k: int| 0 <= k < f.len() && k != i && tv_has(#[trigger] f[k], x));
        }
    }
}

pub proof fn lemma_forest_has_push(f: Seq<TreeV>, t: TreeV, x: u128)
    ensures
        forest_has(f.push(t), x) == (forest_has(f, x) || tv_has(t, x)),
{
    lemma_forest_has_index(f, x);
    lemma_forest_has_index(f.push(t), x);
    if forest_has(f, x) {
        let j = choose|j: int| 0 <= j < f.len() && tv_has(#[trigger] f[j], x);
        assert(f.push(t)[j] == f[j]);
        assert(tv_has(f.push(t)[j], x));
    }
    if tv_has(t, x) {
        assert(f.push(t)[f.len() as int] == t);
        assert(tv_has(f.push(t)[f.len() as int], x));
    }
    if forest_has(f.push(t), x) {
        let j = choose|j: int| 0 <= j < f.push(t).len() && tv_has(#[trigger] f.push(t)[j], x);
        if j < f.len() {
            assert(f[j] == f.push(t)[j]);
            assert(tv_has(f[j], x));
        } else {
            assert(f.push(t)[j] == t);
        }
    }
}

pub proof fn lemma_forest_has_update(f: Seq<TreeV>, i: int, t2: TreeV, x: u128)
    requires
        0 <= i < f.len(),
    ensures
        forest_has(f.update(i, t2), x) == ((exists|j: int|
            0 <= j < f.len() && j != i && tv_has(#[trigger] f[j], x)) || tv_has(t2, x)),
{
    let g = f.update(i, t2);
    lemma_has_split(g, i, x);
    assert(g[i] == t2);
    assert((exists|j: int| 0 <= j < g.len() && j != i && tv_has(#[trigger] g[j], x)) == (exists|
        j: int,
    |
        0 <= j < f.len() && j != i && tv_has(#[trigger] f[j], x))) by {
        if exists|j: int| 0 <= j < g.len() && j != i && tv_has(#[trigger] g[j], x) {
            let j = choose|j: int| 0 <= j < g.len() && j != i && tv_has(#[trigger] g[j], x);
            assert(f[j] == g[j]);
            assert(tv_has(f[j], x));
        }
        if exists|j: int| 0 <= j < f.len() && j != i && tv_has(#[trigger] f[j], x) {
            let j = choose|j: int| 0 <= j < f.len() && j != i && tv_has(#[trigger] f[j], x);
            assert(g[j] == f[j]);
            assert(tv_has(g[j], x));
        }
    }
}

/// What attaching adds to a tree's set of identifiers: the child's, when
/// the parent identifier is in the tree.
pub proof fn lemma_tv_attach_has(t: TreeV, c: TreeV, pid: u128, x: u128)
    ensures
        tv_has(tv_attach(t, c, pid), x) == (tv_has(t, x) || (tv_has(t, pid) && tv_has(c, x))),
    decreases t,
{
    lemma_first_with(t.children, pid);
    if t.rec.id == pid {
        lemma_forest_has_push(t.children, c, x);
    } else if forest_has(t.children, pid) {
        let i = first_with(t.children, pid);
        lemma_tv_attach_has(t.children[i], c, pid, x);
        lemma_forest_has_update(t.children, i, tv_attach(t.children[i], c, pid), x);
        lemma_has_split(t.children, i, x);
    }
}

/// What attaching adds to a forest's set of identifiers.
pub proof fn lemma_forest_attach_has(f: Seq<TreeV>, c: TreeV, pid: u128, x: u128)
    ensures
        forest_has(forest_attach(f, c, pid), x) == (forest_has(f, x) || (forest_has(f, pid)
            && tv_has(c, x))),
{
    lemma_first_with(f, pid);
    if forest_has(f, pid) {
        let i = first_with(f, pid);
        lemma_tv_attach_has(f[i], c, pid, x);
        lemma_forest_has_update(f, i, tv_attach(f[i], c, pid), x);
        lemma_has_split(f, i, x);
    }
}

/// Number of nodes in the tree.
pub open spec fn tv_size(t: TreeV) -> nat
    decreases t,
{
    1 + forest_size(t.children)
}

/// Number of nodes in the whole forest.
pub open spec fn forest_size(f: Seq<TreeV>) -> nat
    decreases f,
{
    if f.len() == 0 {
        0
    } else {
        tv_size(f[0]) + forest_size(f.subrange(1, f.len() as int))
    }
}

/// The records sitting directly under the first node (in depth-first
/// order) whose identifier is `x`; empty when the tree has no such node.
pub open spec fn tv_node_children(t: TreeV, x: u128) -> Seq<ConceptView>
    decreases t,
    via tv_node_children_decreases
{
    if t.rec.id == x {
        root_recs(t.children)
    } else if forest_has(t.children, x) {
        tv_node_children(t.children[first_with(t.children, x)], x)
    } else {
        Seq::empty()
    }
}

#[via_fn]
proof fn tv_node_children_decreases(t: TreeV, x: u128) {
    lemma_first_with(t.children, x);
}

/// The records sitting directly under the first node of the forest whose
/// identifier is `x`; empty when no tree holds such a node.
pub open spec fn forest_node_children(f: Seq<TreeV>, x: u128) -> Seq<ConceptView> {
    if forest_has(f, x) {
        tv_node_children(f[first_with(f, x)], x)
    } else {
        Seq::empty()
    }
}

/// Appending a tree leaves the scan for every identifier already present
/// untouched; a new identifier is found in the appended tree.
proof fn lemma_first_with_push(f: Seq<TreeV>, t: TreeV, x: u128)
    ensures
        forest_has(f, x) ==> first_with(f.push(t), x) == first_with(f, x),
        !forest_has(f, x) && tv_has(t, x) ==> first_with(f.push(t), x) == f.len(),
    decreases f.len(),
{
    lemma_first_with(f, x);
    let g = f.push(t);
    if f.len() == 0 {
        assert(g[0] == t);
        assert(g.subrange(1, g.len() as int) =~= Seq::<TreeV>::empty());
    } else {
        assert(g[0] == f[0]);
        assert(g.subrange(1, g.len() as int) =~= f.subrange(1, f.len() as int).push(t));
        lemma_first_with_push(f.subrange(1, f.len() as int), t, x);
    }
}

/// Two forests whose trees contain an identifier at exactly the same
/// positions are scanned to the same index.
proof fn lemma_first_with_congruent(f: Seq<TreeV>, g: Seq<TreeV>, x: u128)
    requires
        f.len() == g.len(),
        forall|j: int| 0 <= j < f.len() ==> tv_has(f[j], x) == tv_has(#[trigger] g[j], x),
    ensures
        first_with(f, x) == first_with(g, x),
        forest_has(f, x) == forest_has(g, x),
    decreases f.len(),
{
    lemma_first_with(f, x);
    lemma_first_with(g, x);
    if f.len() > 0 {
        assert(tv_has(f[0], x) == tv_has(g[0], x));
        let ftail = f.subrange(1, f.len() as int);
        let gtail = g.subrange(1, g.len() as int);
        assert forall|j: int|
            0 <= j < ftail.len() implies tv_has(ftail[j], x) == tv_has(#[trigger] gtail[j], x) by {
            assert(ftail[j] == f[j + 1]);
            assert(gtail[j] == g[j + 1]);
            assert(tv_has(f[j + 1], x) == tv_has(g[j + 1], x));
        }
        lemma_first_with_congruent(ftail, gtail, x);
    }
}

/// Appending a fresh root changes no existing node's children, and the
/// new root starts childless.
pub proof fn lemma_forest_push_children(f: Seq<TreeV>, c: TreeV, x: u128)
    requires
        c.children.len() == 0,
        !forest_has(f, c.rec.id),
    ensures
        forest_node_children(f.push(c), x) == forest_node_children(f, x),
{
    let g = f.push(c);
    lemma_first_with(f, x);
    lemma_first_with(g, x);
    lemma_first_with_push(f, c, x);
    lemma_forest_has_push(f, c, x);
    if forest_has(f, x) {
        assert(g[first_with(f, x)] == f[first_with(f, x)]);
    } else if tv_has(c, x) {
        assert(c.rec.id == x);
        assert(g[f.len() as int] == c);
        assert(tv_node_children(c, x) =~= Seq::<ConceptView>::empty());
    }
}

/// How attaching a fresh childless node changes each node's children: the
/// new record appears at the end of the parent node's children, and every
/// other node keeps its children as they were.
pub proof fn lemma_tv_attach_children(t: TreeV, c: TreeV, pid: u128, x: u128)
    requires
        c.children.len() == 0,
        !tv_has(t, c.rec.id),
    ensures
        tv_node_children(tv_attach(t, c, pid), x) == (if tv_has(t, pid) && x == pid {
            tv_node_children(t, x).push(c.rec)
        } else {
            tv_node_children(t, x)
        }),
    decreases t,
{
    lemma_first_with(t.children, pid);
    let t2 = tv_attach(t, c, pid);
    if t.rec.id == pid {
        lemma_root_recs_push(t.children, c);
        if x != pid {
            lemma_forest_has_push(t.children, c, x);
            lemma_first_with_push(t.children, c, x);
            lemma_first_with(t.children, x);
            lemma_first_with(t2.children, x);
            if forest_has(t.children, x) {
                assert(t2.children[first_with(t.children, x)] == t.children[first_with(
                    t.children,
                    x,
                )]);
            } else if tv_has(c, x) {
                assert(c.rec.id == x);
                assert(t2.children[t.children.len() as int] == c);
                assert(tv_node_children(c, x) =~= Seq::<ConceptView>::empty());
            }
        }
    } else if forest_has(t.children, pid) {
        let i = first_with(t.children, pid);
        assert(!tv_has(t.children[i], c.rec.id)) by {
            if tv_has(t.children[i], c.rec.id) {
                lemma_forest_has_index(t.children, c.rec.id);
            }
        }
        lemma_tv_attach_children(t.children[i], c, pid, x);
        lemma_tv_attach_has(t.children[i], c, pid, x);
        assert(tv_has(t.children[i], pid));
        assert(pid != c.rec.id);
        let ch2 = t.children.update(i, tv_attach(t.children[i], c, pid));
        assert(t2.children == ch2);
        assert(t2.rec == t.rec);
        if x == c.rec.id {
            assert(!forest_has(t.children, x));
            assert forall|j: int|
                0 <= j < t.children.len() implies !tv_has(#[trigger] t.children[j], x) by {
                if tv_has(t.children[j], x) {
                    lemma_forest_has_index(t.children, x);
                }
            }
            assert(tv_has(ch2[i], x));
            lemma_first_with(ch2, x);
            assert(forest_has(ch2, x)) by {
                lemma_forest_has_index(ch2, x);
            }
            let fw = first_with(ch2, x);
            assert(fw == i) by {
                if fw < i {
                    assert(ch2[fw] == t.children[fw]);
                    assert(tv_has(t.children[fw], x));
                } else if fw > i {
                    assert(!tv_has(ch2[i], x));
                }
            }
            assert(tv_node_children(t2, x) == tv_node_children(ch2[i], x));
            assert(tv_node_children(t.children[i], x) =~= Seq::<ConceptView>::empty());
            assert(tv_node_children(t, x) =~= Seq::<ConceptView>::empty());
        } else {
            assert forall|j: int|
                0 <= j < t.children.len() implies tv_has(t.children[j], x) == tv_has(
                #[trigger] ch2[j],
                x,
            ) by {
                if j != i {
                    assert(ch2[j] == t.children[j]);
                } else {
                    assert(ch2[i] == tv_attach(t.children[i], c, pid));
                    assert(tv_has(c, x) == (c.rec.id == x));
                }
            }
            lemma_first_with_congruent(t.children, ch2, x);
            if x == t.rec.id {
                lemma_tv_attach_rec(t.children[i], c, pid);
                assert(root_recs(ch2) =~= root_recs(t.children));
            } else if forest_has(t.children, x) {
                lemma_first_with(t.children, x);
                let iw = first_with(t.children, x);
                if iw == i {
                    assert(tv_node_children(t2, x) == tv_node_children(ch2[i], x));
                    assert(tv_node_children(t, x) == tv_node_children(t.children[i], x));
                } else {
                    assert(x != pid) by {
                        if x == pid {
                            assert(iw == i);
                        }
                    }
                    assert(ch2[iw] == t.children[iw]);
                }
            } else {
                assert(x != pid);
            }
        }
    } else {
        assert(!tv_has(t, pid));
    }
}

/// As [`lemma_tv_attach_children`], one level up.
pub proof fn lemma_forest_attach_children(f: Seq<TreeV>, c: TreeV, pid: u128, x: u128)
    requires
        c.children.len() == 0,
        !forest_has(f, c.rec.id),
    ensures
        forest_node_children(forest_attach(f, c, pid), x) == (if forest_has(f, pid) && x == pid {
            forest_node_children(f, x).push(c.rec)
        } else {
            forest_node_children(f, x)
        }),
{
    lemma_first_with(f, pid);
    if forest_has(f, pid) {
        let i = first_with(f, pid);
        let g = f.update(i, tv_attach(f[i], c, pid));
        assert(forest_attach(f, c, pid) == g);
        assert(!tv_has(f[i], c.rec.id)) by {
            if tv_has(f[i], c.rec.id) {
                lemma_forest_has_index(f, c.rec.id);
            }
        }
        lemma_tv_attach_children(f[i], c, pid, x);
        lemma_tv_attach_has(f[i], c, pid, x);
        assert(tv_has(f[i], pid));
        assert(pid != c.rec.id);
        if x == c.rec.id {
            assert(!forest_has(f, x));
            assert forall|j: int| 0 <= j < f.len() implies !tv_has(#[trigger] f[j], x) by {
                if tv_has(f[j], x) {
                    lemma_forest_has_index(f, x);
                }
            }
            assert(tv_has(g[i], x));
            lemma_first_with(g, x);
            assert(forest_has(g, x)) by {
                lemma_forest_has_index(g, x);
            }
            let fw = first_with(g, x);
            assert(fw == i) by {
                if fw < i {
                    assert(g[fw] == f[fw]);
                    assert(tv_has(f[fw], x));
                } else if fw > i {
                    assert(!tv_has(g[i], x));
                }
            }
            assert(forest_node_children(g, x) == tv_node_children(g[i], x));
            assert(tv_node_children(f[i], x) =~= Seq::<ConceptView>::empty());
        } else {
            assert forall|j: int|
                0 <= j < f.len() implies tv_has(f[j], x) == tv_has(#[trigger] g[j], x) by {
                if j != i {
                    assert(g[j] == f[j]);
                } else {
                    assert(g[i] == tv_attach(f[i], c, pid));
                    assert(tv_has(c, x) == (c.rec.id == x));
                }
            }
            lemma_first_with_congruent(f, g, x);
            if forest_has(f, x) {
                lemma_first_with(f, x);
                let iw = first_with(f, x);
                if iw == i {
                    assert(forest_node_children(g, x) == tv_node_children(g[i], x));
                    assert(forest_node_children(f, x) == tv_node_children(f[i], x));
                } else {
                    assert(x != pid) by {
                        if x == pid {
                            assert(iw == i);
                        }
                    }
                    assert(g[iw] == f[iw]);
                }
            } else {
                assert(x != pid);
            }
        }
    }
}

pub proof fn lemma_forest_size_push(f: Seq<TreeV>, t: TreeV)
    ensures
        forest_size(f.push(t)) == forest_size(f) + tv_size(t),
    decreases f.len(),
{
    let g = f.push(t);
    if f.len() == 0 {
        assert(g[0] == t);
        assert(g.subrange(1, g.len() as int) =~= Seq::<TreeV>::empty());
        assert(forest_size(Seq::<TreeV>::empty()) == 0);
    } else {
        assert(g[0] == f[0]);
        assert(g.subrange(1, g.len() as int) =~= f.subrange(1, f.len() as int).push(t));
        lemma_forest_size_push(f.subrange(1, f.len() as int), t);
    }
}

pub proof fn lemma_forest_size_update(f: Seq<TreeV>, i: int, t2: TreeV)
    requires
        0 <= i < f.len(),
    ensures
        forest_size(f.update(i, t2)) + tv_size(f[i]) == forest_size(f) + tv_size(t2),
    decreases f.len(),
{
    let g = f.update(i, t2);
    if i == 0 {
        assert(g[0] == t2);
        assert(g.subrange(1, g.len() as int) =~= f.subrange(1, f.len() as int));
    } else {
        assert(g[0] == f[0]);
        let ftail = f.subrange(1, f.len() as int);
        assert(g.subrange(1, g.len() as int) =~= ftail.update(i - 1, t2));
        lemma_forest_size_update(ftail, i - 1, t2);
        assert(ftail[i - 1] == f[i]);
    }
}

/// How attaching grows a tree: by the whole child subtree, when the parent
/// identifier is in the tree.
pub proof fn lemma_tv_attach_size(t: TreeV, c: TreeV, pid: u128)
    ensures
        tv_size(tv_attach(t, c, pid)) == tv_size(t) + (if tv_has(t, pid) {
            tv_size(c)
        } else {
            0
        }),
    decreases t,
{
    lemma_first_with(t.children, pid);
    if t.rec.id == pid {
        lemma_forest_size_push(t.children, c);
    } else if forest_has(t.children, pid) {
        let i = first_with(t.children, pid);
        lemma_tv_attach_size(t.children[i], c, pid);
        lemma_forest_size_update(t.children, i, tv_attach(t.children[i], c, pid));
    }
}

/// How attaching grows a forest.
pub proof fn lemma_forest_attach_size(f: Seq<TreeV>, c: TreeV, pid: u128)
    ensures
        forest_size(forest_attach(f, c, pid)) == forest_size(f) + (if forest_has(f, pid) {
            tv_size(c)
        } else {
            0
        }),
{
    lemma_first_with(f, pid);
    if forest_has(f, pid) {
        let i = first_with(f, pid);
        lemma_tv_attach_size(f[i], c, pid);
        lemma_forest_size_update(f, i, tv_attach(f[i], c, pid));
    }
}

/// The records sitting at the roots of the forest, in order.
pub open spec fn root_recs(f: Seq<TreeV>) -> Seq<ConceptView> {
    Seq::new(f.len(), |i: int| f[i].rec)
}

pub proof fn lemma_root_recs_push(f: Seq<TreeV>, t: TreeV)
    ensures
        root_recs(f.push(t)) == root_recs(f).push(t.rec),
{
    assert(root_recs(f.push(t)) =~= root_recs(f).push(t.rec));
}

/// Attaching adds no root and changes no root's record.
pub proof fn lemma_root_recs_attach(f: Seq<TreeV>, c: TreeV, pid: u128)
    ensures
        root_recs(forest_attach(f, c, pid)) == root_recs(f),
{
    if forest_has(f, pid) {
        let i = first_with(f, pid);
        lemma_first_with(f, pid);
        lemma_tv_attach_rec(f[i], c, pid);
        assert(root_recs(forest_attach(f, c, pid)) =~= root_recs(f));
    }
}

} // verus!
