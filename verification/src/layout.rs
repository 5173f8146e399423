use crate::drag_drop::DropZone;
use crate::laws::sound;
use crate::node::{clamp_percentage, Node};
use crate::pane_tree::{
    lemma_ids, lemma_lookup, lemma_lowest_tile, lemma_represents_frame,
    lemma_represents_unique, represents, PaneTree,
};
use crate::reshape::{
    after_close, after_insert, after_resize, after_split, can_close, can_insert, can_resize,
    can_split, lemma_family, lemma_redrawn_represents, lemma_redrawn_shape,
    lemma_resized_represents, lemma_resized_shape, lemma_without_represents,
    lemma_without_shape, lemma_wrapped_represents, lemma_wrapped_shape,
};
use crate::tree_api::{lemma_materialized, MosaicNode};
use crate::types::{NodeId, Percentage, SplitDirection, TileId};
use std::collections::HashMap;
use vstd::prelude::*;

verus! {

broadcast use vstd::std_specs::hash::group_hash_axioms;

/// The tile keys of a sequence of strings.
pub open spec fn tile_keys(tiles: Seq<TileId>) -> Seq<Seq<char>> {
    tiles.map_values(|tile: TileId| tile@)
}

/// The slot of a node in the arena, for writing. Calls `HashMap::get_mut`:
/// it hands out the value stored under the key, and what the caller leaves
/// in the slot is what the map holds under that key afterwards; no other
/// entry changes. Without the key there is no slot and the map stays as it
/// is.
#[verifier::external_body]
fn node_slot<'a>(nodes: &'a mut HashMap<NodeId, Node>, node_id: &NodeId) -> (res: Option<
    &'a mut Node,
>)
    ensures
        match res {
            Some(node) => {
                &&& old(nodes)@.contains_key(*node_id)
                &&& *node == old(nodes)@[*node_id]
                &&& final(nodes)@ == old(nodes)@.insert(*node_id, *final(node))
            },
            None => !old(nodes)@.contains_key(*node_id) && final(nodes)@ == old(nodes)@,
        },
{
    nodes.get_mut(node_id)
}

/// An arena, a root and a counter are a picture of `t`, nothing more and
/// nothing less. Of nothing: no root and no nodes. Of a tree: the root
/// names its top, the arena holds it, and holds no other node; no handle
/// occurs twice in it, every percentage lies within its bounds, and every
/// handle is below the counter.
pub open spec fn pictures(
    nodes: Map<NodeId, Node>,
    root: Option<NodeId>,
    next: NodeId,
    t: Option<PaneTree>,
) -> bool {
    match t {
        None => root is None && nodes.dom() == Set::<NodeId>::empty(),
        Some(tree) => {
            &&& root == Some(tree.id())
            &&& tree.distinct()
            &&& tree.bounded()
            &&& represents(nodes, tree, None)
            &&& nodes.dom() == tree.ids()
            &&& forall|id: NodeId| #[trigger] tree.ids().contains(id) ==> id < next
        },
    }
}

/// An arena, a root and a counter are a picture of one tree at most.
pub proof fn lemma_pictures_unique(
    nodes: Map<NodeId, Node>,
    root: Option<NodeId>,
    next: NodeId,
    a: Option<PaneTree>,
    b: Option<PaneTree>,
)
    requires
        pictures(nodes, root, next, a),
        pictures(nodes, root, next, b),
    ensures
        a == b,
{
    match (a, b) {
        (Some(x), Some(y)) => {
            lemma_represents_unique(nodes, x, y, None, None);
        },
        _ => {},
    }
}

/// Main layout structure: an arena of nodes addressed by handle, the handle
/// of the root, and the counter that issues handles.
///
/// A layout stands for a tree of panes, its view, or for nothing when it is
/// empty. Every operation keeps the arena a faithful picture of that tree:
/// the nodes of the arena are exactly the nodes reachable from the root, each
/// names its true parent, no handle occurs twice, and every handle was
/// issued by the counter.
#[derive(Debug)]
pub struct MosaicLayout {
    /// All nodes indexed by ID
    nodes: HashMap<NodeId, Node>,
    /// Root node ID (None when layout is empty)
    root: Option<NodeId>,
    /// Counter for generating unique node IDs
    next_id: u64,
}

impl View for MosaicLayout {
    type V = Option<PaneTree>;

    closed spec fn view(&self) -> Option<PaneTree> {
        choose|t: Option<PaneTree>| self.models(t)
    }
}

impl MosaicLayout {
    /// The arena is a picture of `t`, nothing more and nothing less.
    spec fn models(&self, t: Option<PaneTree>) -> bool {
        pictures(self.nodes@, self.root, self.next_id, t)
    }

    /// The layout is valid: it stands for a tree, or is empty.
    pub closed spec fn wf(&self) -> bool {
        exists|t: Option<PaneTree>| self.models(t)
    }

    /// The handle that the counter issues next.
    pub closed spec fn next_node_id(&self) -> NodeId {
        self.next_id
    }

    /// The tile keys of the layout, in traversal order.
    pub open spec fn tiles(&self) -> Seq<Seq<char>> {
        match self@ {
            Some(t) => t.tiles(),
            None => Seq::empty(),
        }
    }

    /// `after` is this layout with the node `node_id` rewritten to `node`.
    spec fn rewritten(&self, after: MosaicLayout, node_id: NodeId, node: Node) -> bool {
        &&& after.nodes@ == self.nodes@.insert(node_id, node)
        &&& after.root == self.root
        &&& after.next_id == self.next_id
    }

    /// A layout is a picture of one tree only, which is its view.
    proof fn lemma_view_is(&self, t: Option<PaneTree>)
        requires
            self.models(t),
        ensures
            self.wf(),
            self@ == t,
    {
        let v = self@;
        assert(self.models(v));
        lemma_pictures_unique(self.nodes@, self.root, self.next_id, t, v);
    }

    /// The view of a valid layout is sound: a tree without repeated handles,
    /// whose percentages lie within their bounds, and whose handles were all
    /// issued by the counter; or nothing.
    pub proof fn lemma_view_well_formed(&self)
        requires
            self.wf(),
        ensures
            sound(self@, self.next_node_id()),
    {
        assert(self.models(self@));
    }

    /// Makes a layout of an arena, a root and a counter that are a picture
    /// of `t`.
    pub(crate) fn assemble(
        nodes: HashMap<NodeId, Node>,
        root: Option<NodeId>,
        next_id: NodeId,
        Ghost(t): Ghost<Option<PaneTree>>,
    ) -> (res: Self)
        requires
            pictures(nodes@, root, next_id, t),
        ensures
            res.wf(),
            res@ == t,
            res.next_node_id() == next_id,
    {
        let res = MosaicLayout { nodes, root, next_id };
        proof {
            res.lemma_view_is(t);
        }
        res
    }

    /// The arena of the layout and its root.
    pub(crate) fn arena(&self) -> (res: (&HashMap<NodeId, Node>, Option<NodeId>))
        requires
            self.wf(),
        ensures
            pictures(res.0@, res.1, self.next_node_id(), self@),
    {
        proof {
            assert(self.models(self@));
        }
        (&self.nodes, self.root)
    }

    /// Create a new layout with a single tile
    pub fn new(tile_id: TileId) -> (res: Self)
        ensures
            res.wf(),
            res@ == Some(PaneTree::Tile { id: 0, tile: tile_id@, locked: false }),
            res.next_node_id() == 1,
    {
        let mut nodes: HashMap<NodeId, Node> = HashMap::new();
        let root_id: NodeId = 0;
        let root_node = Node::Tile { id: root_id, tile_id, parent: None, locked: false };
        nodes.insert(root_id, root_node);
        let res = MosaicLayout { nodes, root: Some(root_id), next_id: 1 };
        proof {
            let t = PaneTree::Tile { id: 0, tile: tile_id@, locked: false };
            assert(res.nodes@.dom() =~= t.ids());
            res.lemma_view_is(Some(t));
        }
        res
    }

    /// Create a completely empty layout with no tiles
    pub fn empty() -> (res: Self)
        ensures
            res.wf(),
            res@ is None,
            res.next_node_id() == 0,
    {
        let res = MosaicLayout { nodes: HashMap::new(), root: None, next_id: 0 };
        proof {
            assert(res.nodes@.dom() =~= Set::<NodeId>::empty());
            res.lemma_view_is(None);
        }
        res
    }

    /// Check if the layout is empty (has no tiles)
    pub fn is_empty(&self) -> (res: bool)
        requires
            self.wf(),
        ensures
            res == (self@ is None),
    {
        proof {
            assert(self.models(self@));
        }
        self.root.is_none()
    }

    /// The number of nodes in the arena, splits and tiles together.
    pub fn node_count(&self) -> (res: usize)
        requires
            self.wf(),
        ensures
            res == match self@ {
                Some(t) => t.size(),
                None => 0,
            },
    {
        proof {
            assert(self.models(self@));
            if let Some(t) = self@ {
                lemma_ids(t);
            }
        }
        self.nodes.len()
    }

    /// Issues a fresh handle.
    fn gen_id(&mut self) -> (id: NodeId)
        requires
            old(self).next_id < u64::MAX,
        ensures
            id == old(self).next_id,
            final(self).next_id == old(self).next_id + 1,
            final(self).nodes == old(self).nodes,
            final(self).root == old(self).root,
    {
        let id = self.next_id;
        self.next_id = self.next_id + 1;
        id
    }

    /// The handle that the next new node gets.
    pub fn next_id(&self) -> (res: NodeId)
        ensures
            res == self.next_node_id(),
    {
        self.next_id
    }

    /// Get the root node ID
    pub fn root(&self) -> (res: Option<&NodeId>)
        requires
            self.wf(),
        ensures
            match res {
                Some(r) => self@ matches Some(t) && t.id() == *r,
                None => self@ is None,
            },
    {
        proof {
            assert(self.models(self@));
        }
        self.root.as_ref()
    }

    /// Get a node by ID
    pub fn get_node(&self, node_id: &NodeId) -> (res: Option<&Node>)
        requires
            self.wf(),
        ensures
            match res {
                Some(node) => {
                    &&& self@ matches Some(t)
                    &&& t.ids().contains(*node_id)
                    &&& node.depicts(t.find(*node_id).unwrap(), t.parent_of(*node_id))
                    &&& node.keeps_place(*node)
                },
                None => self@ matches Some(t) ==> !t.ids().contains(*node_id),
            },
    {
        proof {
            assert(self.models(self@));
            if let Some(t) = self@ {
                if t.ids().contains(*node_id) {
                    lemma_lookup(self.nodes@, t, None, *node_id);
                    lemma_root_has_no_parent(t);
                }
            }
        }
        self.nodes.get(node_id)
    }

    /// Get a mutable reference to a node by ID.
    ///
    /// The layout stays valid as long as the node is left in its place: of
    /// the same kind, with the same handle, parent and children, and a
    /// split's percentage within its bounds. Its view is then the old tree
    /// with this node redrawn.
    pub fn get_node_mut(&mut self, node_id: &NodeId) -> (res: Option<&mut Node>)
        requires
            old(self).wf(),
        ensures
            final(self).next_node_id() == old(self).next_node_id(),
            match res {
                Some(node) => {
                    &&& old(self)@ is Some
                    &&& old(self)@.unwrap().ids().contains(*node_id)
                    &&& node.depicts(
                        old(self)@.unwrap().find(*node_id).unwrap(),
                        old(self)@.unwrap().parent_of(*node_id),
                    )
                    &&& node.keeps_place(*node)
                    &&& final(node).keeps_place(*node) ==> final(self).wf() && final(self)@
                        == Some(old(self)@.unwrap().redrawn(*node_id, *final(node)))
                },
                None => {
                    &&& old(self)@ is Some ==> !old(self)@.unwrap().ids().contains(*node_id)
                    &&& final(self).wf()
                    &&& final(self)@ == old(self)@
                },
            },
    {
        let ghost before = *self;
        proof {
            assert(self.models(self@));
            assert forall|after: MosaicLayout|
                #![trigger after.wf()]
                #![trigger after.view()]
                after.nodes@ == before.nodes@ && after.root == before.root && after.next_id
                    == before.next_id implies after.wf() && after@ == before@ by {
                assert(after.models(before@));
                after.lemma_view_is(before@);
            }
            if let Some(t) = self@ {
                if t.ids().contains(*node_id) {
                    lemma_lookup(self.nodes@, t, None, *node_id);
                    lemma_root_has_no_parent(t);
                    assert forall|after: MosaicLayout, node: Node|
                        #![trigger after.wf(), node.keeps_place(before.nodes@[*node_id])]
                        #![trigger after.view(), node.keeps_place(before.nodes@[*node_id])]
                        before.rewritten(after, *node_id, node) && node.keeps_place(
                            before.nodes@[*node_id],
                        ) implies after.wf() && after@ == Some(t.redrawn(*node_id, node)) by {
                        let w = t.redrawn(*node_id, node);
                        lemma_redrawn_shape(t, *node_id, node);
                        lemma_redrawn_represents(
                            before.nodes@,
                            after.nodes@,
                            t,
                            None,
                            *node_id,
                            node,
                        );
                        assert(after.nodes@.dom() =~= w.ids());
                        after.lemma_view_is(Some(w));
                    }
                }
            }
        }
        let res = node_slot(&mut self.nodes, node_id);
        res
    }

    /// Find a node by tile ID: the handle of the tile node that holds this
    /// tile, the lowest one where several do.
    pub fn find_tile(&self, tile_id: &TileId) -> (res: Option<NodeId>)
        requires
            self.wf(),
        ensures
            res == match self@ {
                Some(t) => t.lowest_tile(tile_id@),
                None => None,
            },
    {
        proof {
            assert(self.models(self@));
        }
        match self.root {
            Some(root_id) => self.find_below(root_id, tile_id, Ghost(self@.unwrap()), Ghost(None)),
            None => None,
        }
    }

    /// The lowest handle among the leaves below `node_id` that hold the tile.
    fn find_below(
        &self,
        node_id: NodeId,
        tile_id: &TileId,
        Ghost(sub): Ghost<PaneTree>,
        Ghost(parent): Ghost<Option<NodeId>>,
    ) -> (res: Option<NodeId>)
        requires
            represents(self.nodes@, sub, parent),
            sub.id() == node_id,
        ensures
            res == sub.lowest_tile(tile_id@),
        decreases sub,
    {
        match self.nodes.get(&node_id) {
            Some(Node::Tile { id, tile_id: held, .. }) => {
                if *held == *tile_id {
                    Some(*id)
                } else {
                    None
                }
            },
            Some(Node::Split { first, second, .. }) => {
                let a = self.find_below(*first, tile_id, Ghost(*sub->first), Ghost(Some(node_id)));
                let b = self.find_below(
                    *second,
                    tile_id,
                    Ghost(*sub->second),
                    Ghost(Some(node_id)),
                );
                match (a, b) {
                    (Some(x), Some(y)) => if x <= y {
                        Some(x)
                    } else {
                        Some(y)
                    },
                    (Some(x), None) => Some(x),
                    (None, other) => other,
                }
            },
            None => None,
        }
    }

    /// Get all tile IDs in the layout (in traversal order)
    pub fn get_all_tiles(&self) -> (tiles: Vec<TileId>)
        requires
            self.wf(),
        ensures
            tile_keys(tiles@) == self.tiles(),
    {
        let mut tiles: Vec<TileId> = Vec::new();
        proof {
            assert(self.models(self@));
            assert(tile_keys(tiles@) =~= Seq::<Seq<char>>::empty());
        }
        if let Some(root_id) = &self.root {
            self.collect_tiles(root_id, &mut tiles, Ghost(self@.unwrap()), Ghost(None));
            assert(Seq::<Seq<char>>::empty() + self@.unwrap().tiles() =~= self@.unwrap().tiles());
        }
        tiles
    }

    /// Recursively collect tile IDs
    fn collect_tiles(
        &self,
        node_id: &NodeId,
        tiles: &mut Vec<TileId>,
        Ghost(sub): Ghost<PaneTree>,
        Ghost(parent): Ghost<Option<NodeId>>,
    )
        requires
            represents(self.nodes@, sub, parent),
            sub.id() == *node_id,
        ensures
            tile_keys(final(tiles)@) == tile_keys(old(tiles)@) + sub.tiles(),
        decreases sub,
    {
        if let Some(node) = self.nodes.get(node_id) {
            match node {
                Node::Tile { tile_id, .. } => {
                    tiles.push(tile_id.clone());
                    assert(tile_keys(tiles@) =~= tile_keys(old(tiles)@) + sub.tiles());
                },
                Node::Split { first, second, .. } => {
                    self.collect_tiles(first, tiles, Ghost(*sub->first), Ghost(Some(*node_id)));
                    self.collect_tiles(second, tiles, Ghost(*sub->second), Ghost(Some(*node_id)));
                    assert(tile_keys(tiles@) =~= tile_keys(old(tiles)@) + sub.tiles());
                },
            }
        }
    }
}

/// The top node of a tree without repeated handles is no child in it.
pub proof fn lemma_root_has_no_parent(t: PaneTree)
    requires
        t.distinct(),
    ensures
        t.parent_of(t.id()) is None,
    decreases t,
{
    match t {
        PaneTree::Tile { .. } => {},
        PaneTree::Split { id, first, second, .. } => {
            lemma_ids(*first);
            lemma_ids(*second);
            lemma_absent_has_no_parent(*first, id);
            lemma_absent_has_no_parent(*second, id);
        },
    }
}

/// A handle that is not in a tree has no parent in it.
pub proof fn lemma_absent_has_no_parent(t: PaneTree, id: NodeId)
    requires
        !t.ids().contains(id),
    ensures
        t.parent_of(id) is None,
    decreases t,
{
    match t {
        PaneTree::Tile { .. } => {},
        PaneTree::Split { first, second, .. } => {
            lemma_ids(*first);
            lemma_ids(*second);
            lemma_absent_has_no_parent(*first, id);
            lemma_absent_has_no_parent(*second, id);
        },
    }
}

impl MosaicLayout {
    /// Makes the node `node_id` name `new_parent` as its parent.
    fn reparent(&mut self, node_id: NodeId, new_parent: Option<NodeId>)
        requires
            old(self).nodes@.contains_key(node_id),
        ensures
            final(self).nodes@ == old(self).nodes@.insert(
                node_id,
                old(self).nodes@[node_id].with_parent(new_parent),
            ),
            final(self).root == old(self).root,
            final(self).next_id == old(self).next_id,
    {
        if let Some(mut node) = self.nodes.remove(&node_id) {
            node.set_parent(new_parent);
            self.nodes.insert(node_id, node);
        }
        assert(self.nodes@ =~= old(self).nodes@.insert(
            node_id,
            old(self).nodes@[node_id].with_parent(new_parent),
        ));
    }

    /// Replace a child node in a split
    fn replace_child(&mut self, parent_id: NodeId, old_child: NodeId, new_child: NodeId)
        requires
            old(self).nodes@.contains_key(parent_id),
        ensures
            final(self).nodes@ == old(self).nodes@.insert(
                parent_id,
                old(self).nodes@[parent_id].with_child(old_child, new_child),
            ),
            final(self).root == old(self).root,
            final(self).next_id == old(self).next_id,
    {
        if let Some(mut node) = self.nodes.remove(&parent_id) {
            match &mut node {
                Node::Split { first, second, .. } => {
                    if *first == old_child {
                        *first = new_child;
                    } else if *second == old_child {
                        *second = new_child;
                    }
                },
                Node::Tile { .. } => {},
            }
            self.nodes.insert(parent_id, node);
        }
        assert(self.nodes@ =~= old(self).nodes@.insert(
            parent_id,
            old(self).nodes@[parent_id].with_child(old_child, new_child),
        ));
    }

    /// Gives the split `node_id` another percentage.
    fn set_percentage(&mut self, node_id: NodeId, percentage: Percentage)
        requires
            old(self).nodes@.contains_key(node_id),
        ensures
            final(self).nodes@ == old(self).nodes@.insert(
                node_id,
                old(self).nodes@[node_id].with_percentage(percentage),
            ),
            final(self).root == old(self).root,
            final(self).next_id == old(self).next_id,
    {
        if let Some(mut node) = self.nodes.remove(&node_id) {
            match &mut node {
                Node::Split { split_percentage, .. } => {
                    *split_percentage = percentage;
                },
                Node::Tile { .. } => {},
            }
            self.nodes.insert(node_id, node);
        }
        assert(self.nodes@ =~= old(self).nodes@.insert(
            node_id,
            old(self).nodes@[node_id].with_percentage(percentage),
        ));
    }

    /// The parent that the node `node_id` names.
    fn parent_of_node(&self, node_id: NodeId) -> (res: Option<NodeId>)
        requires
            self.nodes@.contains_key(node_id),
        ensures
            res == self.nodes@[node_id].parent_id(),
    {
        match self.nodes.get(&node_id) {
            Some(node) => match node.parent() {
                Some(p) => Some(*p),
                None => None,
            },
            None => None,
        }
    }

    /// Whether the node `node_id` is a locked tile.
    fn is_locked_tile(&self, node_id: NodeId) -> (res: bool)
        ensures
            res == ({
                &&& self.nodes@.contains_key(node_id)
                &&& self.nodes@[node_id] matches Node::Tile { locked, .. }
                &&& locked
            }),
    {
        match self.nodes.get(&node_id) {
            Some(Node::Tile { locked, .. }) => *locked,
            _ => false,
        }
    }

    /// Puts a new split where the node `target` stands, with `target` and
    /// the tile node `other` as its children.
    fn attach(
        &mut self,
        target: NodeId,
        other: Node,
        direction: SplitDirection,
        other_first: bool,
        percentage: Percentage,
    )
        requires
            old(self).wf(),
            old(self)@ is Some,
            old(self)@.unwrap().ids().contains(target),
            !old(self)@.unwrap().ids().contains(other.node_id()),
            other is Tile,
            other.node_id() < old(self).next_id,
            old(self).next_id < u64::MAX,
            20 <= percentage <= 80,
        ensures
            final(self).wf(),
            final(self).next_id == old(self).next_id + 1,
            final(self)@ == Some(
                old(self)@.unwrap().wrapped(
                    target,
                    old(self).next_id,
                    other.leaf(),
                    direction,
                    other_first,
                    percentage,
                ),
            ),
    {
        let ghost t = self@.unwrap();
        let ghost before = self.nodes@;
        proof {
            assert(self.models(self@));
            lemma_lookup(before, t, None, target);
        }
        let split_id = self.gen_id();
        let parent_id = self.parent_of_node(target);
        let other_id = *other.id();
        let split_node = Node::Split {
            id: split_id,
            direction,
            first: if other_first {
                other_id
            } else {
                target
            },
            second: if other_first {
                target
            } else {
                other_id
            },
            split_percentage: percentage,
            parent: parent_id,
            locked: false,
            min_percentage: 20,
            max_percentage: 80,
        };
        let ghost leaf = other.leaf();
        let mut attached = other;
        attached.set_parent(Some(split_id));
        self.nodes.insert(split_id, split_node);
        self.nodes.insert(other_id, attached);
        self.reparent(target, Some(split_id));
        match parent_id {
            Some(p) => {
                self.replace_child(p, target, split_id);
            },
            None => {
                self.root = Some(split_id);
            },
        }
        proof {
            let w = t.wrapped(target, split_id, leaf, direction, other_first, percentage);
            lemma_ids(t);
            lemma_wrapped_shape(t, target, split_id, leaf, direction, other_first, percentage);
            lemma_wrapped_represents(
                before,
                self.nodes@,
                t,
                None,
                target,
                split_id,
                leaf,
                direction,
                other_first,
                percentage,
            );
            assert(self.nodes@.dom() =~= w.ids());
            self.lemma_view_is(Some(w));
        }
    }

    /// Takes the leaf `target` out of the tree: its sibling takes the place
    /// of the split above it, and both the leaf and that split leave the
    /// arena. Returns the leaf's node.
    fn detach(&mut self, target: NodeId) -> (removed: Option<Node>)
        requires
            old(self).wf(),
            old(self)@ is Some,
            old(self)@.unwrap().is_leaf(target),
            old(self)@.unwrap().id() != target,
        ensures
            final(self).wf(),
            final(self).next_id == old(self).next_id,
            final(self)@ == Some(old(self)@.unwrap().without(target)),
            removed is Some,
            removed.unwrap() is Tile,
            removed.unwrap().node_id() == target,
            removed.unwrap().leaf() == old(self)@.unwrap().find(target).unwrap(),
    {
        let ghost t = self@.unwrap();
        let ghost before = self.nodes@;
        proof {
            assert(self.models(self@));
            lemma_ids(t);
            lemma_lookup(before, t, None, target);
            lemma_family(t, None, target);
            lemma_lookup(before, t, None, t.parent_of(target).unwrap());
            lemma_lookup(before, t, None, t.sibling_of(target).unwrap());
        }
        let parent_id = match self.parent_of_node(target) {
            Some(p) => p,
            None => {
                return None;
            },
        };
        let (sibling_id, grandparent_id) = match self.nodes.get(&parent_id) {
            Some(Node::Split { first, second, parent, .. }) => (
                if *first == target {
                    *second
                } else {
                    *first
                },
                *parent,
            ),
            _ => {
                return None;
            },
        };
        self.reparent(sibling_id, grandparent_id);
        match grandparent_id {
            Some(g) => {
                self.replace_child(g, parent_id, sibling_id);
            },
            None => {
                self.root = Some(sibling_id);
            },
        }
        let removed = self.nodes.remove(&target);
        self.nodes.remove(&parent_id);
        proof {
            let w = t.without(target);
            lemma_without_shape(t, target);
            lemma_without_represents(before, self.nodes@, t, None, target);
            assert(self.nodes@.dom() =~= w.ids());
            self.lemma_view_is(Some(w));
        }
        removed
    }

    /// Update split percentage.
    ///
    /// Clamps the percentage to the node's own bounds. Refuses, and changes
    /// nothing, where the node is absent, is no split, or is locked.
    pub fn update_split(&mut self, node_id: &NodeId, percentage: Percentage) -> (res: bool)
        requires
            old(self).wf(),
        ensures
            final(self).wf(),
            final(self).next_node_id() == old(self).next_node_id(),
            res == can_resize(old(self)@, *node_id),
            res ==> final(self)@ == after_resize(old(self)@, *node_id, percentage),
            !res ==> *final(self) == *old(self),
    {
        let ghost before = self.nodes@;
        proof {
            assert(self.models(self@));
            if let Some(t) = self@ {
                if t.ids().contains(*node_id) {
                    lemma_lookup(before, t, None, *node_id);
                }
            }
        }
        let new_percentage = match self.nodes.get(node_id) {
            Some(Node::Split { locked, min_percentage, max_percentage, .. }) => {
                if *locked {
                    return false;
                }
                clamp_percentage(percentage, *min_percentage, *max_percentage)
            },
            _ => {
                return false;
            },
        };
        self.set_percentage(*node_id, new_percentage);
        proof {
            let t = old(self)@.unwrap();
            let w = t.resized(*node_id, percentage);
            lemma_resized_shape(t, *node_id, percentage);
            lemma_resized_represents(before, self.nodes@, t, None, *node_id, percentage);
            assert(self.nodes@.dom() =~= w.ids());
            self.lemma_view_is(Some(w));
        }
        true
    }

    /// Split a tile into two panes.
    ///
    /// Puts a split in the place of the tile's node, with that node first
    /// and a new node for `new_tile_id` second. The split is bounded by 20
    /// and 80 and the percentage is brought within them. Fails, and changes
    /// nothing, only where no node holds `tile_id`.
    pub fn split_tile(
        &mut self,
        tile_id: &TileId,
        direction: SplitDirection,
        new_tile_id: TileId,
        split_percentage: Percentage,
    ) -> (res: bool)
        requires
            old(self).wf(),
            old(self).next_node_id() + 2 <= u64::MAX,
        ensures
            final(self).wf(),
            res == can_split(old(self)@, tile_id@),
            res ==> final(self)@ == after_split(
                old(self)@,
                old(self).next_node_id(),
                tile_id@,
                direction,
                new_tile_id@,
                split_percentage,
            ) && final(self).next_node_id() == old(self).next_node_id() + 2,
            !res ==> *final(self) == *old(self),
    {
        let tile_node_id = match self.find_tile(tile_id) {
            Some(id) => id,
            None => {
                return false;
            },
        };
        proof {
            assert(self.models(self@));
            lemma_lowest_tile(self@.unwrap(), tile_id@);
        }
        let new_tile_node_id = self.gen_id();
        let new_tile_node = Node::Tile {
            id: new_tile_node_id,
            tile_id: new_tile_id,
            parent: None,
            locked: false,
        };
        proof {
            assert(self.models(old(self)@));
            self.lemma_view_is(old(self)@);
        }
        self.attach(
            tile_node_id,
            new_tile_node,
            direction,
            false,
            clamp_percentage(split_percentage, 20, 80),
        );
        true
    }

    /// Close a tile.
    ///
    /// Removes the tile and the split above it, promoting the sibling. If
    /// this is the last tile, the layout becomes empty. Fails, and changes
    /// nothing, where no node holds `tile_id` or the node is locked.
    pub fn close_tile(&mut self, tile_id: &TileId) -> (res: bool)
        requires
            old(self).wf(),
        ensures
            final(self).wf(),
            final(self).next_node_id() == old(self).next_node_id(),
            res == can_close(old(self)@, tile_id@),
            res ==> final(self)@ == after_close(old(self)@, tile_id@),
            !res ==> *final(self) == *old(self),
    {
        let tile_node_id = match self.find_tile(tile_id) {
            Some(id) => id,
            None => {
                return false;
            },
        };
        proof {
            assert(self.models(self@));
            lemma_lowest_tile(self@.unwrap(), tile_id@);
            lemma_lookup(self.nodes@, self@.unwrap(), None, tile_node_id);
            lemma_ids(self@.unwrap());
        }
        if self.is_locked_tile(tile_node_id) {
            return false;
        }
        match self.parent_of_node(tile_node_id) {
            Some(_) => {
                self.detach(tile_node_id);
            },
            None => {
                self.nodes.remove(&tile_node_id);
                self.root = None;
                proof {
                    assert(self.nodes@.dom() =~= Set::<NodeId>::empty());
                    self.lemma_view_is(None);
                }
            },
        }
        true
    }

    /// Insert a tile by splitting a target tile.
    ///
    /// This is used for drag-and-drop operations. It removes the dragged
    /// tile from its current position and inserts it by splitting the
    /// target tile in the direction of the drop zone; the dragged node keeps
    /// its handle, its tile and its lock.
    ///
    /// Returns true if the operation succeeded; false, with nothing changed,
    /// if either tile wasn't found, the target is locked, or the tile is
    /// dropped onto itself.
    pub fn insert_tile_with_split(
        &mut self,
        dragged_tile_id: &TileId,
        target_tile_id: &TileId,
        drop_zone: DropZone,
    ) -> (res: bool)
        requires
            old(self).wf(),
            old(self).next_node_id() < u64::MAX,
        ensures
            final(self).wf(),
            res == can_insert(old(self)@, dragged_tile_id@, target_tile_id@),
            res ==> final(self)@ == after_insert(
                old(self)@,
                old(self).next_node_id(),
                dragged_tile_id@,
                target_tile_id@,
                drop_zone,
            ) && final(self).next_node_id() == old(self).next_node_id() + 1,
            !res ==> *final(self) == *old(self),
    {
        if *dragged_tile_id == *target_tile_id {
            return false;
        }
        let dragged_node_id = match self.find_tile(dragged_tile_id) {
            Some(id) => id,
            None => {
                return false;
            },
        };
        let target_node_id = match self.find_tile(target_tile_id) {
            Some(id) => id,
            None => {
                return false;
            },
        };
        let ghost t = self@.unwrap();
        proof {
            assert(self.models(self@));
            lemma_ids(t);
            lemma_lowest_tile(t, dragged_tile_id@);
            lemma_lowest_tile(t, target_tile_id@);
            lemma_lookup(self.nodes@, t, None, dragged_node_id);
            lemma_lookup(self.nodes@, t, None, target_node_id);
        }
        if self.is_locked_tile(target_node_id) {
            return false;
        }
        proof {
            lemma_family(t, None, dragged_node_id);
            lemma_without_shape(t, dragged_node_id);
        }
        let direction = drop_zone.split_direction();
        let dragged_is_first = drop_zone.dragged_is_first();
        match self.detach(dragged_node_id) {
            Some(dragged_node) => {
                self.attach(target_node_id, dragged_node, direction, dragged_is_first, 50);
                true
            },
            None => false,
        }
    }
}

impl MosaicLayout {
    /// Create a layout from a tree representation.
    ///
    /// A lone leaf becomes a layout of one node. A larger tree is built top
    /// down: each split takes its handle before its children are built, so
    /// every child knows its parent when it is made. The splits are bounded
    /// by 20 and 80 and their percentages are brought within these bounds.
    pub fn from_tree(tree: MosaicNode) -> (res: Self)
        requires
            tree@.size() < u64::MAX,
        ensures
            res.wf(),
            res@ == Some(tree@.materialized(tree@.first_handle())),
            res.next_node_id() == tree@.first_handle() + tree@.size(),
    {
        match &tree {
            MosaicNode::Leaf(tile_id) => MosaicLayout::new(tile_id.clone()),
            MosaicNode::Split { .. } => {
                let mut layout = MosaicLayout { nodes: HashMap::new(), root: None, next_id: 1 };
                let new_root = layout.insert_tree_recursive(&tree, None);
                layout.root = Some(new_root);
                proof {
                    let t = tree@.materialized(1);
                    lemma_materialized(tree@, 1);
                    assert(layout.nodes@.dom() =~= t.ids());
                    layout.lemma_view_is(Some(t));
                }
                layout
            },
        }
    }

    /// Recursively insert a tree node and return its ID
    fn insert_tree_recursive(&mut self, tree_node: &MosaicNode, parent_id: Option<NodeId>) -> (res:
        NodeId)
        requires
            old(self).next_id + tree_node@.size() <= u64::MAX,
            forall|id: NodeId| old(self).nodes@.contains_key(id) ==> id < old(self).next_id,
        ensures
            res == old(self).next_id,
            final(self).next_id == old(self).next_id + tree_node@.size(),
            final(self).root == old(self).root,
            represents(final(self).nodes@, tree_node@.materialized(res), parent_id),
            final(self).nodes@.dom() == old(self).nodes@.dom().union(
                tree_node@.materialized(res).ids(),
            ),
            forall|id: NodeId|
                old(self).nodes@.contains_key(id) ==> final(self).nodes@.contains_key(id)
                    && final(self).nodes@[id] == old(self).nodes@[id],
        decreases tree_node,
    {
        let ghost before = self.nodes@;
        match tree_node {
            MosaicNode::Leaf(tile_id) => {
                let node_id = self.gen_id();
                let node = Node::Tile {
                    id: node_id,
                    tile_id: tile_id.clone(),
                    parent: parent_id,
                    locked: false,
                };
                self.nodes.insert(node_id, node);
                assert(self.nodes@.dom() =~= before.dom().union(
                    tree_node@.materialized(node_id).ids(),
                ));
                node_id
            },
            MosaicNode::Split { direction, first, second, split_percentage } => {
                let node_id = self.gen_id();
                let ghost a = first.outline().materialized((node_id + 1) as NodeId);
                let ghost b = second.outline().materialized(
                    (node_id + 1 + first.outline().size()) as NodeId,
                );
                proof {
                    lemma_materialized(first.outline(), (node_id + 1) as NodeId);
                    lemma_materialized(
                        second.outline(),
                        (node_id + 1 + first.outline().size()) as NodeId,
                    );
                }
                let first_id = self.insert_tree_recursive(first, Some(node_id));
                let ghost middle = self.nodes@;
                let second_id = self.insert_tree_recursive(second, Some(node_id));
                let ghost filled = self.nodes@;
                let node = Node::Split {
                    id: node_id,
                    direction: *direction,
                    first: first_id,
                    second: second_id,
                    split_percentage: clamp_percentage(*split_percentage, 20, 80),
                    parent: parent_id,
                    locked: false,
                    min_percentage: 20,
                    max_percentage: 80,
                };
                self.nodes.insert(node_id, node);
                proof {
                    assert forall|id: NodeId| #[trigger] a.ids().contains(id) implies middle.contains_key(
                        id,
                    ) by {
                        assert(before.dom().union(a.ids()).contains(id));
                    }
                    lemma_represents_frame(middle, self.nodes@, a, Some(node_id));
                    assert forall|id: NodeId| #[trigger] b.ids().contains(id) implies filled.contains_key(
                        id,
                    ) by {
                        assert(middle.dom().union(b.ids()).contains(id));
                    }
                    lemma_represents_frame(filled, self.nodes@, b, Some(node_id));
                    assert(self.nodes@.dom() =~= before.dom().union(
                        tree_node@.materialized(node_id).ids(),
                    ));
                }
                node_id
            },
        }
    }

    /// Convert layout to tree representation.
    /// Returns None if the layout is empty
    pub fn to_tree(&self) -> (res: Option<MosaicNode>)
        requires
            self.wf(),
        ensures
            match res {
                Some(tree) => self@ is Some && tree@ == self@.unwrap().shape(),
                None => self@ is None,
            },
    {
        proof {
            assert(self.models(self@));
        }
        match self.root {
            Some(root_id) => Some(self.node_to_tree(&root_id, Ghost(self@.unwrap()), Ghost(None))),
            None => None,
        }
    }

    /// Recursively convert a node to tree representation
    fn node_to_tree(
        &self,
        node_id: &NodeId,
        Ghost(sub): Ghost<PaneTree>,
        Ghost(parent): Ghost<Option<NodeId>>,
    ) -> (res: MosaicNode)
        requires
            represents(self.nodes@, sub, parent),
            sub.id() == *node_id,
        ensures
            res@ == sub.shape(),
        decreases sub,
    {
        match self.nodes.get(node_id) {
            Some(Node::Tile { tile_id, .. }) => MosaicNode::Leaf(tile_id.clone()),
            Some(Node::Split { direction, first, second, split_percentage, .. }) => {
                let first_tree = self.node_to_tree(
                    first,
                    Ghost(*sub->first),
                    Ghost(Some(*node_id)),
                );
                let second_tree = self.node_to_tree(
                    second,
                    Ghost(*sub->second),
                    Ghost(Some(*node_id)),
                );
                MosaicNode::Split {
                    direction: *direction,
                    first: Box::new(first_tree),
                    second: Box::new(second_tree),
                    split_percentage: *split_percentage,
                }
            },
            None => MosaicNode::Leaf("error".to_string()),
        }
    }
}

impl Default for MosaicLayout {
    fn default() -> (res: Self)
        ensures
            res.wf(),
            res@ == Some(PaneTree::Tile { id: 0, tile: "default"@, locked: false }),
            res.next_node_id() == 1,
    {
        MosaicLayout::new("default".to_string())
    }
}

impl Clone for MosaicLayout {
    fn clone(&self) -> (res: Self)
        ensures
            self.wf() ==> res.wf() && res@ == self@,
            res.next_node_id() == self.next_node_id(),
    {
        let res = MosaicLayout {
            nodes: self.nodes.clone(),
            root: self.root,
            next_id: self.next_id,
        };
        proof {
            if self.wf() {
                assert(self.models(self@));
                assert(res.models(self@));
                res.lemma_view_is(self@);
            }
        }
        res
    }
}

} // verus!
