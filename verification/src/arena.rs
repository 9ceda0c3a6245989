//! The arena that stores the fields: an `ego_tree::Tree` of [`StrRange`]s,
//! seen through a flat model of its nodes.
//!
//! The tree type belongs to the `ego_tree` crate and is opaque here. Its
//! contents are named by [`arena`], and every call into the crate goes
//! through one of the functions of this module, whose contracts are taken on
//! trust from the crate's source.

use crate::str_range::StrRange;
use ego_tree::NodeId;
use ego_tree::Tree as Arena;
use vstd::prelude::*;

verus! {

/// `ego_tree::Tree`, taken as it stands: nothing of its inside is known
/// here. (It is imported as `Arena`, so that it does not read like this
/// crate's own `Tree`.)
#[verifier::external_type_specification]
#[verifier::external_body]
#[verifier::reject_recursive_types(T)]
pub struct ExTree<T>(Arena<T>);

/// `ego_tree::NodeId`, taken as it stands: an id designates a slot, see
/// [`slot`], and nothing else is known of it.
#[verifier::external_type_specification]
#[verifier::external_body]
pub struct ExNodeId(NodeId);

/// One node of the arena: its value, the slot of its parent, and the slots
/// of its children from first to last.
pub struct Node {
    pub value: StrRange,
    pub parent: Option<int>,
    pub children: Seq<int>,
}

/// The nodes that a tree holds, by slot: position in the tree's backing
/// vector, the root at slot 0. For each node, what `NodeRef::value` gives,
/// the slot of what `NodeRef::parent` gives, and the slots of what
/// `NodeRef::children` gives, in order.
pub uninterp spec fn arena(tree: ego_tree::Tree<StrRange>) -> Seq<Node>;

/// The slot that a node id designates: the index into the backing vector
/// that the id stands for.
pub uninterp spec fn slot(id: NodeId) -> int;

/// The arena with one more node, holding `value`, appended as the last child
/// of the node at `parent`.
pub open spec fn with_child(nodes: Seq<Node>, parent: int, value: StrRange) -> Seq<Node> {
    nodes.update(
        parent,
        Node { children: nodes[parent].children.push(nodes.len() as int), ..nodes[parent] },
    ).push(Node { value, parent: Some(parent), children: Seq::empty() })
}

/// Parent and child links agree, and every child lies in a later slot than
/// its parent and than its elder siblings.
pub open spec fn linked(nodes: Seq<Node>) -> bool {
    &&& nodes.len() >= 1
    &&& nodes[0].parent is None
    &&& forall|i: int|
        1 <= i < nodes.len() ==> #[trigger] nodes[i].parent is Some && 0 <= nodes[i].parent->0 < i
            && nodes[nodes[i].parent->0].children.contains(i)
    &&& forall|i: int, k: int|
        0 <= i < nodes.len() && 0 <= k < nodes[i].children.len() ==> i < (
        #[trigger] nodes[i].children[k]) < nodes.len() && nodes[nodes[i].children[k]].parent
            == Some(i)
    &&& forall|i: int, k: int, l: int|
        0 <= i < nodes.len() && 0 <= k < l < nodes[i].children.len()
            ==> #[trigger] nodes[i].children[k] < #[trigger] nodes[i].children[l]
}

/// The node at slot `i` followed by all its descendants, each node before
/// its children and the children from first to last.
pub open spec fn subtree(nodes: Seq<Node>, i: int) -> Seq<int>
    decreases nodes.len() - i, 1int, 0int,
{
    if 0 <= i < nodes.len() {
        seq![i] + forest(nodes, i, nodes[i].children)
    } else {
        Seq::empty()
    }
}

/// The subtrees of `kids`, one after the other. Only slots after `above`
/// are entered.
pub open spec fn forest(nodes: Seq<Node>, above: int, kids: Seq<int>) -> Seq<int>
    decreases nodes.len() - above, 0int, kids.len(),
{
    if kids.len() == 0 {
        Seq::empty()
    } else if above < kids[0] < nodes.len() {
        subtree(nodes, kids[0]) + forest(nodes, above, kids.drop_first())
    } else {
        forest(nodes, above, kids.drop_first())
    }
}

/// `Tree::new`: a tree whose only node is the root, holding `root`.
#[verifier::external_body]
pub(crate) fn new_tree(root: StrRange) -> (tree: ego_tree::Tree<StrRange>)
    ensures
        arena(tree) == seq![Node { value: root, parent: None, children: Seq::empty() }],
{
    ego_tree::Tree::new(root)
}

/// `Tree::root` and `NodeRef::id`: the id of the root, which is slot 0.
#[verifier::external_body]
pub(crate) fn root_id(tree: &ego_tree::Tree<StrRange>) -> (id: NodeId)
    ensures
        slot(id) == 0,
{
    tree.root().id()
}

/// `NodeMut::append` on the node that `parent` designates: the new node
/// takes the next free slot and becomes the last child of `parent`; nothing
/// else changes.
#[verifier::external_body]
pub(crate) fn append_child(
    tree: &mut ego_tree::Tree<StrRange>,
    parent: NodeId,
    value: StrRange,
) -> (id: NodeId)
    requires
        0 <= slot(parent) < arena(*old(tree)).len(),
    ensures
        slot(id) == arena(*old(tree)).len(),
        arena(*final(tree)) == with_child(arena(*old(tree)), slot(parent), value),
{
    tree.get_mut(parent).unwrap().append(value).id()
}

/// `NodeRef::value`: the value stored at a node.
#[verifier::external_body]
pub(crate) fn node_value(tree: &ego_tree::Tree<StrRange>, id: NodeId) -> (value: StrRange)
    requires
        0 <= slot(id) < arena(*tree).len(),
    ensures
        value == arena(*tree)[slot(id)].value,
{
    *tree.get(id).unwrap().value()
}

/// `NodeRef::parent`: the id of a node's parent, if it has one.
#[verifier::external_body]
pub(crate) fn node_parent(tree: &ego_tree::Tree<StrRange>, id: NodeId) -> (parent: Option<NodeId>)
    requires
        0 <= slot(id) < arena(*tree).len(),
    ensures
        match parent {
            Some(p) => arena(*tree)[slot(id)].parent == Some(slot(p)),
            None => arena(*tree)[slot(id)].parent is None,
        },
{
    tree.get(id).unwrap().parent().map(|p| p.id())
}

/// `NodeRef::has_children`: whether a node has at least one child.
#[verifier::external_body]
pub(crate) fn node_has_children(tree: &ego_tree::Tree<StrRange>, id: NodeId) -> (has: bool)
    requires
        0 <= slot(id) < arena(*tree).len(),
    ensures
        has == (arena(*tree)[slot(id)].children.len() > 0),
{
    tree.get(id).unwrap().has_children()
}

/// `NodeRef::children`: the ids of a node's children, from first to last.
#[verifier::external_body]
pub(crate) fn node_children(tree: &ego_tree::Tree<StrRange>, id: NodeId) -> (kids: Vec<NodeId>)
    requires
        0 <= slot(id) < arena(*tree).len(),
    ensures
        kids@.map_values(|k: NodeId| slot(k)) == arena(*tree)[slot(id)].children,
{
    tree.get(id).unwrap().children().map(|n| n.id()).collect()
}

/// `NodeRef::descendants`: the ids of a node and of all its descendants, in
/// the order of [`subtree`].
#[verifier::external_body]
pub(crate) fn node_descendants(tree: &ego_tree::Tree<StrRange>, id: NodeId) -> (all: Vec<NodeId>)
    requires
        linked(arena(*tree)),
        0 <= slot(id) < arena(*tree).len(),
    ensures
        all@.map_values(|k: NodeId| slot(k)) == subtree(arena(*tree), slot(id)),
{
    tree.get(id).unwrap().descendants().map(|n| n.id()).collect()
}

/// `Clone::clone` of a tree: a tree with the same nodes in the same slots.
#[verifier::external_body]
pub(crate) fn clone_tree(tree: &ego_tree::Tree<StrRange>) -> (copy: ego_tree::Tree<StrRange>)
    ensures
        arena(copy) == arena(*tree),
{
    tree.clone()
}

} // verus!
