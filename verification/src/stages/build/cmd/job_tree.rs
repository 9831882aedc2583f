//! The tree of build jobs: one node per file, directory or symlink being processed, below a
//! root node. Nodes are kept in an arena and named by their position in it.

use crate::stages::build::cmd::cmd::NodeId;
use vstd::prelude::*;

verus! {

/// A node of the tree.
pub struct TreeNode<T> {
    /// The parent of the node; none for the root.
    pub parent: Option<NodeId>,
    /// The children of the node, in the order in which they were added.
    pub children: Vec<NodeId>,
    /// What the node holds.
    pub content: T,
}

/// A tree in an arena. The root is node 0; removed nodes leave an empty slot.
pub struct JobTree<T> {
    /// The slots of the arena.
    pub nodes: Vec<Option<TreeNode<T>>>,
}

impl<T> JobTree<T> {
    /// The nodes of the tree that exist.
    pub open spec fn live(&self, id: NodeId) -> bool {
        id < self.nodes@.len() && self.nodes@[id as int] is Some
    }

    /// The node `id`, which exists.
    pub open spec fn at(&self, id: NodeId) -> TreeNode<T> {
        self.nodes@[id as int]->Some_0
    }

    /// Whether the node `i` lies below the node `a`: `a` is its parent or lies above its
    /// parent.
    pub open spec fn is_below(&self, i: NodeId, a: NodeId) -> bool
        decreases i,
    {
        if self.live(i) {
            match self.at(i).parent {
                Some(p) => if p < i {
                    p == a || self.is_below(p, a)
                } else {
                    false
                },
                None => false,
            }
        } else {
            false
        }
    }

    /// The tree is well formed: the root exists and has no parent; every other node that
    /// exists has a parent that exists and lists it as a child; every child of a node that
    /// exists exists and names that node as its parent.
    pub open spec fn wf(&self) -> bool {
        &&& self.live(0)
        &&& self.at(0).parent is None
        &&& forall|i: NodeId|
            #![trigger self.live(i)]
            self.live(i) && i != 0 ==> (self.at(i).parent matches Some(p) && p < i && self.live(p)
                && self.at(p).children@.contains(i))
        &&& forall|i: NodeId, k: int|
            #![trigger self.at(i).children@[k]]
            self.live(i) && 0 <= k < self.at(i).children@.len() ==> self.live(
                self.at(i).children@[k],
            ) && self.at(self.at(i).children@[k]).parent == Some(i)
    }

    /// `after` is this tree with one more node, in the next free slot, holding `content` and
    /// added as the last child of the node `parent`; every other slot is unchanged but for
    /// the parent's list of children.
    pub open spec fn with_child(&self, after: Self, parent: NodeId, content: T) -> bool {
        let id = self.nodes@.len() as NodeId;
        &&& after.nodes@.len() == self.nodes@.len() + 1
        &&& after.live(id)
        &&& after.at(id).content == content
        &&& after.at(id).parent == Some(parent)
        &&& after.at(id).children@.len() == 0
        &&& after.live(parent)
        &&& after.at(parent).children@ == self.at(parent).children@.push(id)
        &&& after.at(parent).content == self.at(parent).content
        &&& after.at(parent).parent == self.at(parent).parent
        &&& forall|i: NodeId|
            #![trigger after.nodes@[i as int]]
            i < self.nodes@.len() && i != parent ==> after.nodes@[i as int] == self.nodes@[i as int]
    }

    /// A tree that holds only its root.
    pub fn new(root: T) -> (r: JobTree<T>)
        ensures
            r.wf(),
            r.nodes@.len() == 1,
            r.at(0).content == root,
            r.at(0).children@.len() == 0,
    {
        let mut nodes: Vec<Option<TreeNode<T>>> = Vec::new();
        nodes.push(Some(TreeNode { parent: None, children: Vec::new(), content: root }));
        JobTree { nodes }
    }

    /// The identifier of the root.
    pub fn root_id(&self) -> (r: NodeId)
        ensures
            r == 0,
    {
        0
    }

    /// Whether the node `id` exists.
    pub fn contains_node(&self, id: NodeId) -> (r: bool)
        ensures
            r == self.live(id),
    {
        id < self.nodes.len() && self.nodes[id].is_some()
    }

    /// The node `id`, if it exists.
    pub fn node(&self, id: NodeId) -> (r: Option<&TreeNode<T>>)
        ensures
            self.live(id) ==> r == Some(&self.at(id)),
            !self.live(id) ==> r is None,
    {
        if id < self.nodes.len() {
            match &self.nodes[id] {
                Some(node) => Some(node),
                None => None,
            }
        } else {
            None
        }
    }

    /// The parent of the node `id`, if the node exists and is not the root.
    pub fn parent(&self, id: NodeId) -> (r: Option<NodeId>)
        ensures
            self.live(id) ==> r == self.at(id).parent,
            !self.live(id) ==> r is None,
    {
        match self.node(id) {
            Some(node) => node.parent,
            None => None,
        }
    }

    /// Adds a child with content `content` to the node `parent`; returns its identifier, or
    /// none if the parent does not exist.
    pub fn add_child(&mut self, parent: NodeId, content: T) -> (r: Option<NodeId>)
        requires
            old(self).wf(),
        ensures
            final(self).wf(),
            !old(self).live(parent) ==> r is None && *final(self) == *old(self),
            old(self).live(parent) ==> r == Some(old(self).nodes@.len() as NodeId),
            old(self).live(parent) ==> old(self).with_child(*final(self), parent, content),
    {
        if !self.contains_node(parent) {
            return None;
        }
        let id = self.nodes.len();
        let ghost before = self.nodes@;
        let slot = self.nodes.remove(parent);
        let mut node = match slot {
            Some(node) => node,
            None => {
                proof {
                    assert(false);
                }
                return None;
            },
        };
        node.children.push(id);
        self.nodes.insert(parent, Some(node));
        assert(self.nodes@ =~= before.update(parent as int, self.nodes@[parent as int]));
        self.nodes.push(Some(TreeNode { parent: Some(parent), children: Vec::new(), content }));
        let ghost mid = before.update(parent as int, self.nodes@[parent as int]);
        assert(self.nodes@ =~= mid.push(self.nodes@[id as int]));
        proof {
            assert forall|i: NodeId| #![trigger self.live(i)] self.live(i) && i != 0 implies (self.at(i).parent matches Some(p) && p < i && self.live(p)
                && self.at(p).children@.contains(i)) by {
                if i == id {
                    assert(self.at(parent).children@[self.at(parent).children@.len() - 1] == id);
                } else if i < id {
                    let p = old(self).at(i).parent->Some_0;
                    assert(old(self).live(i));
                    if p == parent {
                        let k = choose|k: int| 0 <= k < old(self).at(p).children@.len() && old(self).at(p).children@[k] == i;
                        assert(self.at(p).children@[k] == i);
                    } else {
                        assert(self.at(p) == old(self).at(p));
                    }
                }
            }
            assert forall|i: NodeId, k: int| #![trigger self.at(i).children@[k]] self.live(i) && 0 <= k < self.at(i).children@.len() implies self.live(
                self.at(i).children@[k],
            ) && self.at(self.at(i).children@[k]).parent == Some(i) by {
                if i == parent {
                    if k < old(self).at(parent).children@.len() {
                        assert(self.at(i).children@[k] == old(self).at(i).children@[k]);
                    }
                } else if i < id {
                    assert(self.at(i) == old(self).at(i));
                    assert(old(self).live(i));
                    assert(self.at(i).children@[k] == old(self).at(i).children@[k]);
                }
            }
        }
        Some(id)
    }
}


/// Once every live node but the root hangs from a live parent that lists it, and the node
/// `id` has no children left, no live node lies below `id` in the tree before.
proof fn lemma_nothing_live_below<T>(before: JobTree<T>, t: JobTree<T>, id: NodeId, i: NodeId)
    requires
        before.wf(),
        t.live(id),
        t.at(id).children@.len() == 0,
        t.at(id).parent == before.at(id).parent,
        forall|j: NodeId| #[trigger] t.live(j) ==> before.live(j),
        forall|j: NodeId| #![trigger t.at(j)] t.live(j) && j != id ==> t.at(j) == before.at(j),
        forall|j: NodeId|
            #![trigger t.live(j)]
            t.live(j) && j != 0 ==> (t.at(j).parent matches Some(p) && p < j && t.live(p) && t.at(p).children@.contains(j)),
    ensures
        t.live(i) ==> !before.is_below(i, id),
    decreases i,
{
    if t.live(i) && before.is_below(i, id) {
        let p = before.at(i).parent->Some_0;
        assert(p < i);
        if i == 0 {
            assert(before.at(0).parent is None);
        }
        assert(t.at(i).parent == before.at(i).parent);
        assert(t.live(p) && t.at(p).children@.contains(i));
        if p == id {
            assert(false);
        } else {
            lemma_nothing_live_below(before, t, id, p);
        }
    }
}

/// The number of slots that hold a node.
pub open spec fn live_count<T>(nodes: Seq<Option<TreeNode<T>>>) -> nat
    decreases nodes.len(),
{
    if nodes.len() == 0 {
        0
    } else {
        live_count(nodes.drop_last()) + if nodes.last() is Some {
            1nat
        } else {
            0nat
        }
    }
}

/// Emptying a slot that holds a node leaves one node fewer.
proof fn lemma_live_count_remove<T>(nodes: Seq<Option<TreeNode<T>>>, i: int)
    requires
        0 <= i < nodes.len(),
        nodes[i] is Some,
    ensures
        live_count(nodes.update(i, None)) + 1 == live_count(nodes),
    decreases nodes.len(),
{
    let u = nodes.update(i, None);
    if i == nodes.len() - 1 {
        assert(u.drop_last() =~= nodes.drop_last());
    } else {
        lemma_live_count_remove(nodes.drop_last(), i);
        assert(u.drop_last() =~= nodes.drop_last().update(i, None));
    }
}

impl<T> JobTree<T> {
    /// Replaces the content of the node `id`, if it exists; returns the old content.
    pub fn replace_content(&mut self, id: NodeId, content: T) -> (r: Option<T>)
        requires
            old(self).wf(),
        ensures
            final(self).wf(),
            final(self).nodes@.len() == old(self).nodes@.len(),
            forall|i: NodeId| #[trigger] final(self).live(i) == old(self).live(i),
            forall|i: NodeId| #![trigger final(self).nodes@[i as int]] i < old(self).nodes@.len() && i != id ==> final(self).nodes@[i as int] == old(self).nodes@[i as int],
            old(self).live(id) ==> r == Some(old(self).at(id).content) && final(self).at(id).content == content
                && final(self).at(id).parent == old(self).at(id).parent
                && final(self).at(id).children == old(self).at(id).children,
            !old(self).live(id) ==> r is None && *final(self) == *old(self),
    {
        if !self.contains_node(id) {
            return None;
        }
        let ghost before = self.nodes@;
        let slot = self.nodes.remove(id);
        let node = match slot {
            Some(node) => node,
            None => {
                proof {
                    assert(false);
                }
                return None;
            },
        };
        let TreeNode { parent, children, content: old_content } = node;
        self.nodes.insert(id, Some(TreeNode { parent, children, content }));
        assert(self.nodes@ =~= before.update(id as int, self.nodes@[id as int]));
        proof {
            assert forall|i: NodeId| #![trigger self.live(i)] self.live(i) && i != 0 implies (self.at(i).parent matches Some(p) && p < i && self.live(p)
                && self.at(p).children@.contains(i)) by {
                assert(old(self).live(i));
            }
            assert forall|i: NodeId, k: int| #![trigger self.at(i).children@[k]] self.live(i) && 0 <= k < self.at(i).children@.len() implies self.live(
                self.at(i).children@[k],
            ) && self.at(self.at(i).children@[k]).parent == Some(i) by {
                assert(old(self).live(i));
                assert(self.at(i).children@[k] == old(self).at(i).children@[k]);
            }
        }
        Some(old_content)
    }

    /// Removes all descendants of the node `id`; the node stays, without children.
    pub fn remove_children(&mut self, id: NodeId)
        requires
            old(self).wf(),
        ensures
            final(self).wf(),
            final(self).nodes@.len() == old(self).nodes@.len(),
            forall|i: NodeId| #[trigger] final(self).live(i) ==> old(self).live(i),
            old(self).live(id) ==> final(self).live(id) && final(self).at(id).children@.len() == 0
                && final(self).at(id).content == old(self).at(id).content
                && final(self).at(id).parent == old(self).at(id).parent,
            forall|i: NodeId| #![trigger final(self).at(i)] final(self).live(i) && i != id ==> final(self).at(i) == old(self).at(i),
            old(self).live(id) ==> forall|i: NodeId| #[trigger] final(self).live(i) == (old(self).live(i) && !old(self).is_below(i, id)),
            !old(self).live(id) ==> *final(self) == *old(self),
    {
        if !self.contains_node(id) {
            return;
        }
        let ghost n = self.nodes@.len();
        let slot = self.nodes.remove(id);
        let mut node = match slot {
            Some(node) => node,
            None => {
                proof {
                    assert(false);
                }
                return;
            },
        };
        let mut stack: Vec<NodeId> = Vec::new();
        std::mem::swap(&mut stack, &mut node.children);
        self.nodes.insert(id, Some(node));
        assert forall|i: NodeId| #![trigger self.at(i)] self.live(i) && i != id implies self.at(i) == old(self).at(i) by {
            assert(self.nodes@[i as int] == old(self).nodes@[i as int]);
        }
        assert forall|k: int| 0 <= k < stack@.len() implies #[trigger] stack@[k] > id by {
            assert(old(self).at(id).children@[k] == stack@[k]);
        }
        assert(stack@ == old(self).at(id).children@);
        assert forall|i: NodeId|
            #![trigger self.live(i)]
            self.live(i) && i != 0 && !stack@.contains(i) implies (self.at(i).parent matches Some(p) && p < i && self.live(p)
                && self.at(p).children@.contains(i)) by {
            assert(old(self).live(i));
            if i == id {
                assert(self.at(i).parent == old(self).at(i).parent);
            }
        }
        assert forall|i: NodeId, k: int|
            #![trigger self.at(i).children@[k]]
            self.live(i) && 0 <= k < self.at(i).children@.len() implies self.live(
                self.at(i).children@[k],
            ) && self.at(self.at(i).children@[k]).parent == Some(i) && self.at(i).children@[k] > i by {
            assert(old(self).live(i));
            let x = old(self).at(i).children@[k];
            assert(old(self).live(x));
            assert(old(self).at(x).parent == Some(i));
            if x == id {
                assert(self.at(x).parent == old(self).at(x).parent);
            }
        }
        assert forall|k: int| 0 <= k < stack@.len() implies old(self).is_below(#[trigger] stack@[k], id) by {
            let x = stack@[k];
            assert(old(self).at(id).children@[k] == x);
            assert(old(self).live(x));
            assert(old(self).at(x).parent == Some(id));
        }
        assert forall|i: NodeId| old(self).live(i) && !#[trigger] self.live(i) implies old(self).is_below(i, id) by {
            assert(self.nodes@[i as int] == old(self).nodes@[i as int]) by {
                if i != id {
                }
            }
        }
        while stack.len() > 0
            invariant
                self.nodes@.len() == n,
                n == old(self).nodes@.len(),
                self.live(0),
                self.at(0).parent is None,
                self.live(id),
                self.at(id).children@.len() == 0,
                self.at(id).content == old(self).at(id).content,
                self.at(id).parent == old(self).at(id).parent,
                forall|i: NodeId| #[trigger] self.live(i) ==> old(self).live(i),
                forall|i: NodeId| #![trigger self.at(i)] self.live(i) && i != id ==> self.at(i) == old(self).at(i),
                forall|k: int| 0 <= k < stack@.len() ==> #[trigger] stack@[k] > id,
                forall|k: int|
                    0 <= k < stack@.len() && #[trigger] self.live(stack@[k]) ==> (self.at(stack@[k]).parent matches Some(p) && (p == id || !self.live(p))),
                forall|i: NodeId|
                    #![trigger self.live(i)]
                    self.live(i) && i != 0 && !stack@.contains(i) ==> (self.at(i).parent matches Some(p) && p < i && self.live(p)
                        && self.at(p).children@.contains(i)),
                forall|i: NodeId, k: int|
                    #![trigger self.at(i).children@[k]]
                    self.live(i) && 0 <= k < self.at(i).children@.len() ==> self.live(
                        self.at(i).children@[k],
                    ) && self.at(self.at(i).children@[k]).parent == Some(i) && self.at(i).children@[k] > i,
                old(self).wf(),
                forall|k: int| 0 <= k < stack@.len() ==> old(self).is_below(#[trigger] stack@[k], id),
                forall|i: NodeId| old(self).live(i) && !#[trigger] self.live(i) ==> old(self).is_below(i, id),
            decreases live_count(self.nodes@), stack@.len(),
        {
            let ghost stack0 = stack@;
            let c = stack.pop().unwrap();
            assert(stack0 =~= stack@.push(c));
            if c < self.nodes.len() && self.nodes[c].is_some() {
                let ghost before = self.nodes@;
                let ghost prev = *self;
                let ghost removed = self.at(c);
                let taken = self.nodes.remove(c);
                self.nodes.insert(c, None);
                assert(self.nodes@ =~= before.update(c as int, None));
                proof {
                    lemma_live_count_remove(before, c as int);
                }
                let gone = match taken {
                    Some(gone) => gone,
                    None => {
                        proof {
                            assert(false);
                        }
                        return;
                    },
                };
                assert(gone == removed);
                let ghost stack1 = stack@;
                let mut k: usize = 0;
                while k < gone.children.len()
                    invariant
                        k <= gone.children@.len(),
                        gone == removed,
                        stack@ == stack1 + gone.children@.subrange(0, k as int),
                    decreases gone.children@.len() - k,
                {
                    stack.push(gone.children[k]);
                    k = k + 1;
                    assert(stack@ =~= stack1 + gone.children@.subrange(0, k as int));
                }
                assert(gone.children@.subrange(0, k as int) =~= gone.children@);
                proof {
                    assert forall|i: NodeId| #[trigger] self.live(i) implies prev.live(i) && i != c by {}
                    assert forall|k: int| 0 <= k < stack@.len() implies #[trigger] stack@[k] > id by {
                        if k >= stack1.len() {
                            assert(stack@[k] == removed.children@[k - stack1.len()]);
                            assert(prev.at(c).children@[k - stack1.len()] > c);
                            assert(stack0.contains(c));
                        }
                    }
                    assert forall|k: int| 0 <= k < stack@.len() && #[trigger] self.live(stack@[k]) implies (self.at(stack@[k]).parent matches Some(p) && (p == id || !self.live(p))) by {
                        if k >= stack1.len() {
                            assert(stack@[k] == removed.children@[k - stack1.len()]);
                            assert(prev.at(c).children@[k - stack1.len()] == stack@[k]);
                        } else {
                            assert(stack@[k] == stack0[k]);
                        }
                    }
                    assert forall|i: NodeId| #![trigger self.live(i)] self.live(i) && i != 0 && !stack@.contains(i) implies (self.at(i).parent matches Some(p) && p < i && self.live(p)
                        && self.at(p).children@.contains(i)) by {
                        assert(prev.live(i));
                        if stack0.contains(i) {
                            let j = choose|j: int| 0 <= j < stack0.len() && stack0[j] == i;
                            if j < stack1.len() {
                                assert(stack@[j] == i);
                            }
                        }
                        assert(!stack0.contains(i));
                        let p = prev.at(i).parent->Some_0;
                        if p == c {
                            let j = choose|j: int| 0 <= j < removed.children@.len() && removed.children@[j] == i;
                            assert(stack@[stack1.len() + j] == i);
                        }
                    }
                    assert forall|i: NodeId, k: int| #![trigger self.at(i).children@[k]] self.live(i) && 0 <= k < self.at(i).children@.len() implies self.live(
                        self.at(i).children@[k],
                    ) && self.at(self.at(i).children@[k]).parent == Some(i) && self.at(i).children@[k] > i by {
                        assert(prev.live(i));
                        assert(self.at(i) == prev.at(i));
                        let x = prev.at(i).children@[k];
                        assert(prev.live(x));
                        if x == c {
                            assert(prev.at(c).parent == Some(i));
                            assert(stack0[stack0.len() - 1] == c);
                            assert(false);
                        }
                    }
                    assert(old(self).is_below(c, id)) by {
                        assert(stack0[stack0.len() - 1] == c);
                    }
                    assert forall|k: int| 0 <= k < stack@.len() implies old(self).is_below(#[trigger] stack@[k], id) by {
                        if k >= stack1.len() {
                            let x = removed.children@[k - stack1.len()];
                            assert(stack@[k] == x);
                            assert(prev.at(c) == old(self).at(c));
                            assert(old(self).at(c).children@[k - stack1.len()] == x);
                            assert(old(self).live(x));
                            assert(old(self).at(x).parent == Some(c));
                            assert(prev.at(c).children@[k - stack1.len()] > c);
                        } else {
                            assert(stack@[k] == stack0[k]);
                        }
                    }
                    assert forall|i: NodeId| old(self).live(i) && !#[trigger] self.live(i) implies old(self).is_below(i, id) by {
                        if i != c {
                            assert(!prev.live(i));
                        }
                    }
                }
            }
        }
        assert forall|i: NodeId| #[trigger] self.live(i) == (old(self).live(i) && !old(self).is_below(i, id)) by {
            assert forall|j: NodeId| #![trigger self.live(j)] self.live(j) && j != 0 implies (self.at(j).parent matches Some(p)
                && p < j && self.live(p) && self.at(p).children@.contains(j)) by {
                assert(!stack@.contains(j));
            }
            lemma_nothing_live_below(*old(self), *self, id, i);
        }
    }
}

} // verus!
