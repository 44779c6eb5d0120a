//! Owned, nested concept trees: a concept record plus an ordered list of
//! child subtrees.

use vstd::prelude::*;
use crate::concept::{Coding, Concept, ConceptView, opt_codings_view, opt_string_view};
use crate::forest::{TreeV, forest_has, first_with, lemma_first_with, lemma_forest_has_index, tv_attach, tv_has, tv_leaf};

verus! {

/// A concept record together with its assembled children.  Two nodes are
/// the same node exactly when their identifiers agree; `==` follows that
/// rule.
#[derive(Debug)]
pub struct ConceptTree {
    pub id: u128,
    pub display: String,
    pub parent_id: Option<u128>,
    pub module_id: u128,
    pub term_codes: Option<Vec<Coding>>,
    pub leaf: bool,
    pub time_restriction_allowed: Option<bool>,
    pub filter_type: Option<String>,
    pub selectable: bool,
    pub filter_options: Option<Vec<Coding>>,
    pub version: String,
    pub children: Vec<ConceptTree>,
}

/// The record carried by a tree node.
pub open spec fn tree_rec_view(t: ConceptTree) -> ConceptView {
    ConceptView {
        id: t.id,
        display: t.display@,
        parent_id: t.parent_id,
        module_id: t.module_id,
        term_codes: opt_codings_view(t.term_codes),
        leaf: t.leaf,
        time_restriction_allowed: t.time_restriction_allowed,
        filter_type: opt_string_view(t.filter_type),
        selectable: t.selectable,
        filter_options: opt_codings_view(t.filter_options),
        version: t.version@,
    }
}

/// Mathematical image of a tree node.
pub open spec fn tree_view(t: ConceptTree) -> TreeV
    decreases t,
{
    TreeV { rec: tree_rec_view(t), children: forest_view(t.children@) }
}

/// Mathematical image of a list of tree nodes.
pub open spec fn forest_view(f: Seq<ConceptTree>) -> Seq<TreeV>
    decreases f,
{
    if f.len() == 0 {
        Seq::empty()
    } else {
        seq![tree_view(f[0])] + forest_view(f.subrange(1, f.len() as int))
    }
}

impl View for ConceptTree {
    type V = TreeV;

    open spec fn view(&self) -> TreeV {
        tree_view(*self)
    }
}

pub proof fn lemma_forest_view(f: Seq<ConceptTree>)
    ensures
        forest_view(f).len() == f.len(),
        forall|i: int| 0 <= i < f.len() ==> forest_view(f)[i] == tree_view(#[trigger] f[i]),
    decreases f.len(),
{
    if f.len() > 0 {
        let tail = f.subrange(1, f.len() as int);
        lemma_forest_view(tail);
        assert forall|i: int| 0 <= i < f.len() implies forest_view(f)[i] == tree_view(#[trigger] f[i]) by {
            if i > 0 {
                assert(tail[i - 1] == f[i]);
                assert(forest_view(f)[i] == forest_view(tail)[i - 1]);
            }
        }
    }
}

pub proof fn lemma_forest_view_push(f: Seq<ConceptTree>, t: ConceptTree)
    ensures
        forest_view(f.push(t)) == forest_view(f).push(tree_view(t)),
{
    lemma_forest_view(f);
    lemma_forest_view(f.push(t));
    assert forall|i: int| 0 <= i < forest_view(f.push(t)).len() implies forest_view(f.push(t))[i]
        == forest_view(f).push(tree_view(t))[i] by {
        if i < f.len() {
            assert(f.push(t)[i] == f[i]);
        } else {
            assert(f.push(t)[i] == t);
        }
    }
    assert(forest_view(f.push(t)) =~= forest_view(f).push(tree_view(t)));
}

impl PartialEq for ConceptTree {
    /// Node identity is the identifier alone, whatever the other fields
    /// or the children hold.
    fn eq(&self, other: &Self) -> (r: bool) {
        self.id == other.id
    }
}

impl vstd::std_specs::cmp::PartialEqSpecImpl for ConceptTree {
    open spec fn obeys_eq_spec() -> bool {
        true
    }

    open spec fn eq_spec(&self, other: &Self) -> bool {
        self.id == other.id
    }
}

impl ConceptTree {
    /// A childless tree node carrying the given record.
    pub fn from(c: Concept) -> (t: ConceptTree)
        ensures
            t@ == tv_leaf(c@),
    {
        ConceptTree {
            id: c.id,
            display: c.display,
            parent_id: c.parent_id,
            module_id: c.module_id,
            term_codes: c.term_codes,
            leaf: c.leaf,
            time_restriction_allowed: c.time_restriction_allowed,
            filter_type: c.filter_type,
            selectable: c.selectable,
            filter_options: c.filter_options,
            version: c.version,
            children: Vec::new(),
        }
    }

    /// As [`ConceptTree::from`], from a borrowed record.
    pub fn from_ref(c: &Concept) -> (t: ConceptTree)
        ensures
            t@ == tv_leaf(c@),
    {
        ConceptTree::from(c.clone())
    }

    /// Search this subtree depth-first for the node named by the child's
    /// `parent_id` and attach the child as that node's last child.  When no
    /// node of the subtree carries that identifier, the tree is left as it
    /// was and the child is handed back.
    pub fn add_child_to_tree(&mut self, child: ConceptTree) -> (rest: Option<ConceptTree>)
        requires
            child.parent_id is Some,
        ensures
            match rest {
                None => {
                    &&& tv_has(old(self)@, child.parent_id->0)
                    &&& final(self)@ == tv_attach(old(self)@, child@, child.parent_id->0)
                },
                Some(c) => {
                    &&& c == child
                    &&& !tv_has(old(self)@, child.parent_id->0)
                    &&& final(self)@ == old(self)@
                },
            },
        decreases *old(self),
    {
        let ghost pid = child.parent_id->0;
        let ghost cv = tree_view(child);
        let p = child.parent_id.unwrap();
        if self.id == p {
            proof {
                lemma_forest_view_push(self.children@, child);
            }
            self.children.push(child);
            proof {
                assert(tree_view(*self) == tv_attach(old(self)@, cv, pid));
            }
            return None;
        }
        let mut pending = child;
        let mut i: usize = 0;
        while i < self.children.len()
            invariant
                child.parent_id is Some,
                pid == child.parent_id->0,
                cv == child@,
                pending == child,
                i <= self.children.len(),
                self.children.len() == old(self).children.len(),
                tree_rec_view(*self) == tree_rec_view(*old(self)),
                old(self).id != child.parent_id->0,
                forall|j: int|
                    0 <= j < self.children@.len() ==> tree_view(#[trigger] self.children@[j])
                        == tree_view(old(self).children@[j]),
                forall|j: int|
                    i <= j < self.children@.len() ==> #[trigger] self.children@[j] == old(
                        self,
                    ).children@[j],
                forall|j: int|
                    0 <= j < i ==> !tv_has(tree_view(#[trigger] old(self).children@[j]),
                    child.parent_id->0),
            decreases self.children.len() - i,
        {
            let ghost cs_pre = self.children@;
            let mut t = self.children.remove(i);
            proof {
                assert(t == old(self).children@[i as int]);
                assert(decreases_to!(*old(self) => old(self).children));
                assert(decreases_to!(old(self).children => old(self).children@));
                assert(decreases_to!(old(self).children@ => old(self).children@[i as int]));
                assert(decreases_to!(*old(self) => t));
            }
            let ghost t_pre = t;
            let r = t.add_child_to_tree(pending);
            match r {
                None => {
                    self.children.insert(i, t);
                    proof {
                        let f = forest_view(old(self).children@);
                        lemma_forest_view(old(self).children@);
                        lemma_first_with(f, pid);
                        assert(f[i as int] == tree_view(old(self).children@[i as int]));
                        assert(tv_has(f[i as int], pid));
                        lemma_forest_has_index(f, pid);
                        assert(forest_has(f, pid));
                        let fw = first_with(f, pid);
                        assert forall|j: int| 0 <= j < i implies !tv_has(f[j], pid) by {
                            assert(f[j] == tree_view(old(self).children@[j]));
                        }
                        assert(fw == i as int) by {
                            if fw < i as int {
                                assert(tv_has(f[fw], pid));
                            } else if fw > i as int {
                                assert(!tv_has(f[i as int], pid));
                            }
                        }
                        assert(tv_has(old(self)@, pid)) by {
                            assert(old(self)@.children == f);
                        }
                        assert(self.children@ =~= cs_pre.update(i as int, t));
                        lemma_forest_view(self.children@);
                        let target = f.update(i as int, tv_attach(f[i as int], cv, pid));
                        assert forall|k: int|
                            0 <= k < self.children@.len() implies forest_view(self.children@)[k]
                            == target[k] by {
                            assert(forest_view(self.children@)[k] == tree_view(
                                self.children@[k],
                            ));
                            if k != i as int {
                                assert(self.children@[k] == cs_pre[k]);
                                assert(tree_view(cs_pre[k]) == tree_view(
                                    old(self).children@[k],
                                ));
                                assert(f[k] == tree_view(old(self).children@[k]));
                            } else {
                                assert(self.children@[k] == t);
                            }
                        }
                        assert(forest_view(self.children@) =~= target);
                        assert(tree_view(*self) == tv_attach(old(self)@, cv, pid));
                    }
                    return None;
                },
                Some(c) => {
                    self.children.insert(i, t);
                    proof {
                        assert(self.children@ =~= cs_pre.update(i as int, t));
                        assert(tree_view(t) == tree_view(t_pre));
                        assert forall|j: int|
                            0 <= j < self.children@.len() implies tree_view(
                            #[trigger] self.children@[j]) == tree_view(
                            old(self).children@[j]) by {
                            if j != i as int {
                                assert(self.children@[j] == cs_pre[j]);
                            } else {
                                assert(self.children@[j] == t);
                                assert(t_pre == old(self).children@[j]);
                            }
                        }
                        assert forall|j: int|
                            i + 1 <= j < self.children@.len() implies #[trigger] self.children@[j]
                            == old(self).children@[j] by {
                            assert(self.children@[j] == cs_pre[j]);
                        }
                    }
                    pending = c;
                    i = i + 1;
                },
            }
        }
        proof {
            lemma_forest_view(self.children@);
            lemma_forest_view(old(self).children@);
            assert forall|k: int|
                0 <= k < self.children@.len() implies forest_view(self.children@)[k]
                == forest_view(old(self).children@)[k] by {
                assert(forest_view(self.children@)[k] == tree_view(self.children@[k]));
                assert(forest_view(old(self).children@)[k] == tree_view(
                    old(self).children@[k],
                ));
            }
            assert(forest_view(self.children@) =~= forest_view(old(self).children@));
            assert(tree_view(*self) == tree_view(*old(self)));
            assert forall|k: int|
                0 <= k < old(self)@.children.len() implies !(#[trigger] tv_has(
                old(self)@.children[k],
                pid,
            )) by {
                assert(old(self)@.children[k] == tree_view(old(self).children@[k]));
            }
            lemma_forest_has_index(old(self)@.children, pid);
            assert(!forest_has(old(self)@.children, pid));
            assert(!tv_has(old(self)@, pid));
        }
        Some(pending)
    }

    /// Append `child` to this node's children.
    pub fn add_child(&mut self, child: ConceptTree)
        ensures
            final(self)@ == (TreeV {
                rec: old(self)@.rec,
                children: old(self)@.children.push(child@),
            }),
    {
        proof {
            lemma_forest_view_push(self.children@, child);
        }
        self.children.push(child);
    }
}

} // verus!
