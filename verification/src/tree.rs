//! The dependency tree: an ordered, rooted, multi-way tree of
//! [`BinaryFile`] payloads addressed by opaque identifiers, held in
//! `id_tree` behind contracts over an arena model — each node with the
//! index of its parent, in insertion order.

use vstd::prelude::*;

use crate::binary_file::BinaryFile;
use crate::binary_file::BinaryFileView;

verus! {

/// Mathematical value of one tree node: its payload and the arena index of
/// its parent (`-1` for the root).
pub ghost struct NodeModel {
    pub data: BinaryFileView,
    pub parent: int,
}

/// The nodes of a dependency tree in insertion order, each with the index of
/// its parent.  This is the abstraction of `id_tree::Tree<BinaryFile>` that
/// every contract below speaks of.
pub uninterp spec fn tree_nodes(t: id_tree::Tree<BinaryFile>) -> Seq<NodeModel>;

/// The identity a tree stamps on every identifier it hands out; two trees
/// never share it.
pub uninterp spec fn tree_tag(t: id_tree::Tree<BinaryFile>) -> int;

/// Whether the tree has only ever grown: no node was ever removed, so every
/// identifier it ever issued still addresses its node.  Every operation of
/// this crate preserves it.
pub uninterp spec fn tree_pristine(t: id_tree::Tree<BinaryFile>) -> bool;

/// The arena index a node identifier addresses.
pub uninterp spec fn node_id_index(id: id_tree::NodeId) -> int;

/// The identity of the tree a node identifier belongs to.
pub uninterp spec fn node_id_tag(id: id_tree::NodeId) -> int;

#[verifier::external_type_specification]
#[verifier::external_body]
#[verifier::reject_recursive_types(T)]
pub struct ExTree<T>(id_tree::Tree<T>);

#[verifier::external_type_specification]
#[verifier::external_body]
pub struct ExNodeId(id_tree::NodeId);

/// Whether `id` is an identifier issued by the tree `t`.
pub open spec fn valid_id(t: id_tree::Tree<BinaryFile>, id: id_tree::NodeId) -> bool {
    node_id_tag(id) == tree_tag(t) && 0 <= node_id_index(id) < tree_nodes(t).len()
}

/// The arena indices of the children of the node at index `p`, in insertion
/// order (which is declaration order for the dependency trees of this crate).
pub open spec fn children_of(nodes: Seq<NodeModel>, p: int) -> Seq<int>
    decreases nodes.len(),
{
    if nodes.len() == 0 {
        Seq::empty()
    } else if nodes.last().parent == p {
        children_of(nodes.drop_last(), p).push(nodes.len() - 1)
    } else {
        children_of(nodes.drop_last(), p)
    }
}

/// Number of nodes on the path from the root down to the node at index `i`,
/// the root itself counting 1.
pub open spec fn depth_of(nodes: Seq<NodeModel>, i: int) -> int
    decreases i,
{
    if 0 <= i < nodes.len() && 0 <= nodes[i].parent < i {
        depth_of(nodes, nodes[i].parent) + 1
    } else {
        1
    }
}

/// The largest depth of any node: the number of nodes on the longest
/// root-to-leaf path, an empty tree having height 0 and a sole root height 1.
pub open spec fn height_of(nodes: Seq<NodeModel>) -> int
    decreases nodes.len(),
{
    if nodes.len() == 0 {
        0
    } else {
        let rest = height_of(nodes.drop_last());
        let last = depth_of(nodes, nodes.len() - 1);
        if last > rest {
            last
        } else {
            rest
        }
    }
}

/// Structural well-formedness of a node arena: the root sits at index 0 with
/// no parent, and every later node hangs under an earlier one.
pub open spec fn wf_nodes(nodes: Seq<NodeModel>) -> bool {
    &&& (nodes.len() > 0 ==> nodes[0].parent == -1)
    &&& forall|i: int| 0 < i < nodes.len() ==> 0 <= #[trigger] nodes[i].parent < i
}

/// Relies on the `Clone` that `id_tree` derives for `NodeId`: it copies the
/// identifier's two plain fields, so the clone is the same value.
pub assume_specification[ <id_tree::NodeId as Clone>::clone ](id: &id_tree::NodeId) -> (r:
    id_tree::NodeId)
    ensures
        r == *id,
;

/// Appending a node changes no earlier node's depth: a depth walks only
/// parents, and every parent of an earlier node is itself earlier.
pub proof fn lemma_depth_push(nodes: Seq<NodeModel>, m: NodeModel, i: int)
    requires
        wf_nodes(nodes),
        0 <= i < nodes.len(),
    ensures
        depth_of(nodes.push(m), i) == depth_of(nodes, i),
    decreases i,
{
    let nodes2 = nodes.push(m);
    assert(nodes2[i] == nodes[i]);
    if 0 <= nodes[i].parent < i {
        lemma_depth_push(nodes, m, nodes[i].parent);
    }
}

/// Appending a node adds it to exactly its parent's child list, as the new
/// youngest child; every other child list is unchanged.
pub proof fn lemma_children_push(nodes: Seq<NodeModel>, m: NodeModel, p: int)
    ensures
        children_of(nodes.push(m), p) == if m.parent == p {
            children_of(nodes, p).push(nodes.len() as int)
        } else {
            children_of(nodes, p)
        },
{
    assert(nodes.push(m).drop_last() =~= nodes);
}

/// A prefix of a well-formed arena is well-formed.
pub proof fn lemma_wf_drop_last(nodes: Seq<NodeModel>)
    requires
        wf_nodes(nodes),
        nodes.len() > 0,
    ensures
        wf_nodes(nodes.drop_last()),
{
    assert forall|i: int| 0 < i < nodes.drop_last().len() implies 0 <= #[trigger] nodes.drop_last()[i].parent < i by {
        assert(nodes.drop_last()[i] == nodes[i]);
    }
}

/// If every node's depth is at most `b`, so is the height.
pub proof fn lemma_height_bound(nodes: Seq<NodeModel>, b: int)
    requires
        wf_nodes(nodes),
        forall|i: int| 0 <= i < nodes.len() ==> depth_of(nodes, i) <= b,
        b >= 0,
    ensures
        height_of(nodes) <= b,
    decreases nodes.len(),
{
    if nodes.len() > 0 {
        let prefix = nodes.drop_last();
        let last = nodes.last();
        lemma_wf_drop_last(nodes);
        assert(prefix.push(last) =~= nodes);
        assert forall|i: int| 0 <= i < prefix.len() implies depth_of(prefix, i) <= b by {
            lemma_depth_push(prefix, last, i);
            assert(depth_of(prefix.push(last), i) == depth_of(nodes, i));
        }
        lemma_height_bound(prefix, b);
    }
}

/// Relies on `id_tree::Tree::new`: a fresh tree holds no nodes and owns a
/// process-unique identity.
#[verifier::external_body]
pub(crate) fn tree_new() -> (t: id_tree::Tree<BinaryFile>)
    ensures
        tree_nodes(t).len() == 0,
        tree_pristine(t),
{
    id_tree::Tree::new()
}

/// Relies on `id_tree::Tree::insert` with `AsRoot`: on an empty tree it
/// appends the node at index 0, makes it the root, and returns an identifier
/// carrying the tree's identity and that index.
#[verifier::external_body]
pub(crate) fn tree_insert_root(t: &mut id_tree::Tree<BinaryFile>, data: BinaryFile) -> (id:
    id_tree::NodeId)
    requires
        tree_nodes(*old(t)).len() == 0,
        tree_pristine(*old(t)),
    ensures
        tree_nodes(*final(t)) == tree_nodes(*old(t)).push(
            NodeModel { data: data@, parent: -1 },
        ),
        tree_pristine(*final(t)),
        tree_tag(*final(t)) == tree_tag(*old(t)),
        node_id_index(id) == 0,
        node_id_tag(id) == tree_tag(*final(t)),
{
    t.insert(id_tree::Node::new(data), id_tree::InsertBehavior::AsRoot).unwrap()
}

/// Relies on `id_tree::Tree::insert` with `UnderNode`: with a valid parent
/// identifier and no identifier ever freed, it appends the node at the next
/// index, records it as the parent's youngest child, and returns an
/// identifier carrying the tree's identity and that index.
#[verifier::external_body]
pub(crate) fn tree_insert_under(
    t: &mut id_tree::Tree<BinaryFile>,
    parent: &id_tree::NodeId,
    data: BinaryFile,
) -> (id: id_tree::NodeId)
    requires
        valid_id(*old(t), *parent),
        tree_pristine(*old(t)),
    ensures
        tree_nodes(*final(t)) == tree_nodes(*old(t)).push(
            NodeModel { data: data@, parent: node_id_index(*parent) },
        ),
        tree_pristine(*final(t)),
        tree_tag(*final(t)) == tree_tag(*old(t)),
        node_id_index(id) == tree_nodes(*old(t)).len(),
        node_id_tag(id) == tree_tag(*final(t)),
{
    t.insert(id_tree::Node::new(data), id_tree::InsertBehavior::UnderNode(parent)).unwrap()
}

/// Relies on `id_tree::Tree::root_node_id`: it yields the identifier of the
/// node inserted as root — which a well-formed arena keeps at index 0 — and
/// nothing on a tree that never got one.
#[verifier::external_body]
pub fn tree_root_id(t: &id_tree::Tree<BinaryFile>) -> (r: Option<id_tree::NodeId>)
    requires
        tree_pristine(*t),
        wf_nodes(tree_nodes(*t)),
    ensures
        r is Some <==> tree_nodes(*t).len() > 0,
        r is Some ==> node_id_index(r.unwrap()) == 0 && node_id_tag(r.unwrap()) == tree_tag(*t),
{
    t.root_node_id().cloned()
}

/// Relies on `id_tree::Tree::get`: an identifier of this tree yields its
/// node's payload, one of another tree an error.
#[verifier::external_body]
pub fn tree_get(t: &id_tree::Tree<BinaryFile>, id: &id_tree::NodeId) -> (r: Option<BinaryFile>)
    requires
        tree_pristine(*t),
    ensures
        valid_id(*t, *id) ==> r is Some && r.unwrap()@ == tree_nodes(*t)[node_id_index(
            *id,
        )].data,
        node_id_tag(*id) != tree_tag(*t) ==> r is None,
{
    match t.get(id) {
        Ok(n) => Some(BinaryFile {
            name: n.data().name.clone(),
            real_path: n.data().real_path.clone(),
            interpreter: n.data().interpreter.clone(),
            is_root: n.data().is_root,
            is_executable: n.data().is_executable,
        }),
        Err(_) => None,
    }
}

/// Relies on `id_tree::Tree::children_ids`: an identifier of this tree yields
/// its node's children, eldest first, each identifier carrying the tree's
/// identity; one of another tree yields an error.
#[verifier::external_body]
pub fn tree_children(t: &id_tree::Tree<BinaryFile>, id: &id_tree::NodeId) -> (r: Option<
    Vec<id_tree::NodeId>,
>)
    requires
        tree_pristine(*t),
    ensures
        valid_id(*t, *id) ==> r is Some && r.unwrap()@.map_values(
            |c: id_tree::NodeId| node_id_index(c),
        ) == children_of(tree_nodes(*t), node_id_index(*id)) && (forall|i: int|
            0 <= i < r.unwrap()@.len() ==> node_id_tag(#[trigger] r.unwrap()@[i]) == tree_tag(
                *t,
            )),
        node_id_tag(*id) != tree_tag(*t) ==> r is None,
{
    match t.children_ids(id) {
        Ok(ids) => Some(ids.cloned().collect()),
        Err(_) => None,
    }
}

/// Relies on `id_tree::Tree::height`: the number of nodes on the longest
/// root-to-leaf path, the root counting 1 and an empty tree measuring 0.
#[verifier::external_body]
pub fn tree_height(t: &id_tree::Tree<BinaryFile>) -> (r: usize)
    requires
        tree_pristine(*t),
        wf_nodes(tree_nodes(*t)),
    ensures
        r == height_of(tree_nodes(*t)),
{
    t.height()
}

} // verus!
