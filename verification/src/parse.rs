//! The document form of a behaviour tree: a named, described tree of nodes,
//! each with its metadata, its action and its ordered children.
use crate::common::{Info, NodeAction};
use vstd::prelude::*;

verus! {

/// A behaviour tree as a document holds it.
#[derive(Debug)]
pub struct TRRBTDocument {
    pub name: String,
    pub desc: String,
    pub tree: Node,
}

/// A node of a document tree.
#[derive(Debug, PartialEq, Eq)]
pub struct Node {
    pub info: Info,
    pub children: Vec<Node>,
    pub action: NodeAction,
}

impl Node {
    /// The `i`-th child, if there is one.
    pub open spec fn child_at(self, i: int) -> Option<Node> {
        if 0 <= i < self.children@.len() {
            Some(self.children@[i])
        } else {
            None
        }
    }

    /// A node with no metadata and no children.
    pub fn new(action: NodeAction) -> (node: Self)
        ensures
            node.action == action,
            node.children@.len() == 0,
            node.info.id_view() is None,
            node.info.comment_view() is None,
    {
        Node { info: Info::default(), children: Vec::new(), action }
    }

    /// Gives the node the identifier `id`.
    pub fn set_id(&mut self, id: &str)
        ensures
            final(self).info.id_view() == Some(id@),
            final(self).info.comment_view() == old(self).info.comment_view(),
            final(self).children == old(self).children,
            final(self).action == old(self).action,
    {
        self.info.set_id(id);
    }

    /// Appends `node` as the last child.
    pub fn add_child(&mut self, node: Node)
        ensures
            final(self).children@ == old(self).children@.push(node),
            final(self).info == old(self).info,
            final(self).action == old(self).action,
    {
        self.children.push(node);
    }

    /// The `i`-th child, if there is one.
    pub fn get_child(&self, i: usize) -> (child: Option<&Self>)
        ensures
            match child {
                Some(c) => self.child_at(i as int) == Some(*c),
                None => self.child_at(i as int) is None,
            },
            i < self.children@.len() ==> child == Some(&self.children@[i as int]),
            i >= self.children@.len() ==> child is None,
    {
        if i < self.children.len() {
            Some(&self.children[i])
        } else {
            None
        }
    }
}

/// A child appended to a node is found again at the position after the
/// earlier children, and the earlier children keep their positions.
pub proof fn lemma_add_child_get_child(before: Node, after: Node, child: Node)
    requires
        after.children@ == before.children@.push(child),
    ensures
        after.child_at(before.children@.len() as int) == Some(child),
        forall|i: int| 0 <= i < before.children@.len() ==> after.child_at(i) == before.child_at(i),
        after.child_at(before.children@.len() + 1int) is None,
{
}

/// A node has a child at exactly the positions below its number of
/// children, and there it is the child in that position: every position at
/// or past the end has none.
pub proof fn lemma_child_at_in_range(node: Node, i: int)
    ensures
        0 <= i < node.children@.len() ==> node.child_at(i) == Some(node.children@[i]),
        i >= node.children@.len() ==> node.child_at(i) is None,
        node.child_at(i) is Some <==> 0 <= i < node.children@.len(),
{
}

} // verus!
