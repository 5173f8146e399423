use crate::layout::{pictures, MosaicLayout};
use crate::node::Node;
use crate::pane_tree::{lemma_ids, lemma_lookup, lemma_represents_frame, represents, PaneTree};
use crate::types::NodeId;
use std::collections::HashMap;
use vstd::prelude::*;

verus! {

broadcast use vstd::std_specs::hash::group_hash_axioms;

/// No two nodes of the list have the same handle.
pub open spec fn unique_ids(nodes: Seq<Node>) -> bool {
    forall|i: int, j: int|
        0 <= i < j < nodes.len() ==> (#[trigger] nodes[i]).node_id() != (#[trigger] nodes[j]).node_id()
}

/// The list has a node with the handle `id`.
pub open spec fn lists(nodes: Seq<Node>, id: NodeId) -> bool {
    exists|i: int| 0 <= i < nodes.len() && (#[trigger] nodes[i]).node_id() == id
}

/// The arena that a list of nodes fills: each node under its own handle.
pub open spec fn arena_of(nodes: Seq<Node>) -> Map<NodeId, Node> {
    Map::new(
        |id: NodeId| lists(nodes, id),
        |id: NodeId|
            nodes[choose|i: int| 0 <= i < nodes.len() && (#[trigger] nodes[i]).node_id() == id],
    )
}

/// A list of nodes, a root and a counter are the parts of the layout `t`:
/// no handle is listed twice, and the arena that the list fills is, with
/// the root and the counter, a picture of `t`.
pub open spec fn parts_depict(
    nodes: Seq<Node>,
    root: Option<NodeId>,
    next: NodeId,
    t: Option<PaneTree>,
) -> bool {
    unique_ids(nodes) && pictures(arena_of(nodes), root, next, t)
}

impl PaneTree {
    /// The handles of the tree, each node before its subtrees, first
    /// subtree before second.
    pub open spec fn handles(self) -> Seq<NodeId>
        decreases self,
    {
        match self {
            PaneTree::Tile { id, .. } => seq![id],
            PaneTree::Split { id, first, second, .. } => seq![id] + first.handles()
                + second.handles(),
        }
    }
}

/// The sequence of a tree's handles names each handle of the tree, and
/// names none twice where the tree has none twice.
pub proof fn lemma_handles(t: PaneTree)
    ensures
        forall|id: NodeId| t.handles().contains(id) <==> t.ids().contains(id),
        t.distinct() ==> t.handles().no_duplicates(),
        t.handles().len() == t.size(),
    decreases t,
{
    lemma_ids(t);
    match t {
        PaneTree::Tile { id, .. } => {
            assert(t.handles()[0] == id);
        },
        PaneTree::Split { id, first, second, .. } => {
            lemma_handles(*first);
            lemma_handles(*second);
            let a = first.handles();
            let b = second.handles();
            let h = t.handles();
            assert(h.len() == 1 + a.len() + b.len());
            assert(h[0] == id);
            assert forall|k: int| 0 <= k < a.len() implies h[1 + k] == a[k] by {}
            assert forall|k: int| 0 <= k < b.len() implies h[1 + a.len() + k] == b[k] by {}
            assert forall|x: NodeId| h.contains(x) <==> t.ids().contains(x) by {
                if h.contains(x) {
                    let k = choose|k: int| 0 <= k < h.len() && h[k] == x;
                    if k == 0 {
                    } else if k < 1 + a.len() {
                        assert(a[k - 1] == x);
                        assert(a.contains(x));
                    } else {
                        assert(b[k - 1 - a.len()] == x);
                        assert(b.contains(x));
                    }
                }
                if first.ids().contains(x) {
                    assert(a.contains(x));
                    let k = choose|k: int| 0 <= k < a.len() && a[k] == x;
                    assert(h[1 + k] == x);
                }
                if second.ids().contains(x) {
                    assert(b.contains(x));
                    let k = choose|k: int| 0 <= k < b.len() && b[k] == x;
                    assert(h[1 + a.len() + k] == x);
                }
            }
            if t.distinct() {
                assert forall|i: int, j: int| 0 <= i < h.len() && 0 <= j < h.len() && i != j implies h[i]
                    != h[j] by {
                    if i > 0 && i < 1 + a.len() {
                        assert(a[i - 1] == h[i]);
                        assert(a.contains(h[i]));
                    }
                    if i >= 1 + a.len() {
                        assert(b[i - 1 - a.len()] == h[i]);
                        assert(b.contains(h[i]));
                    }
                    if j > 0 && j < 1 + a.len() {
                        assert(a[j - 1] == h[j]);
                        assert(a.contains(h[j]));
                    }
                    if j >= 1 + a.len() {
                        assert(b[j - 1 - a.len()] == h[j]);
                        assert(b.contains(h[j]));
                    }
                }
            }
        },
    }
}

/// A list of nodes, a root and a counter are the parts of one layout at
/// most.
pub proof fn lemma_parts_unique(
    nodes: Seq<Node>,
    root: Option<NodeId>,
    next: NodeId,
    a: Option<PaneTree>,
    b: Option<PaneTree>,
)
    requires
        parts_depict(nodes, root, next, a),
        parts_depict(nodes, root, next, b),
    ensures
        a == b,
{
    crate::layout::lemma_pictures_unique(arena_of(nodes), root, next, a, b);
}

/// Appends the nodes below `node_id`, itself first, to `out`.
fn gather(
    nodes: &HashMap<NodeId, Node>,
    node_id: NodeId,
    out: &mut Vec<Node>,
    Ghost(sub): Ghost<PaneTree>,
    Ghost(parent): Ghost<Option<NodeId>>,
)
    requires
        represents(nodes@, sub, parent),
        sub.id() == node_id,
    ensures
        final(out)@ == old(out)@ + sub.handles().map_values(|id: NodeId| nodes@[id]),
    decreases sub,
{
    let ghost pick = |id: NodeId| nodes@[id];
    match nodes.get(&node_id) {
        Some(node) => {
            out.push(node.clone());
            match node {
                Node::Tile { .. } => {
                    assert(out@ =~= old(out)@ + sub.handles().map_values(pick));
                },
                Node::Split { first, second, .. } => {
                    let ghost start = out@;
                    gather(nodes, *first, out, Ghost(*sub->first), Ghost(Some(node_id)));
                    gather(nodes, *second, out, Ghost(*sub->second), Ghost(Some(node_id)));
                    assert(out@ =~= old(out)@ + sub.handles().map_values(pick));
                },
            }
        },
        None => {},
    }
}

/// Moves the nodes below `node_id` from `pending` to `built`, and says
/// whether they are a tree that hangs under `parent`: each node is there,
/// under its own handle and below the counter, names its true parent, and
/// keeps its percentage within its bounds. A node that was moved before is
/// no longer there, so no handle is taken twice.
fn adopt(
    pending: &mut HashMap<NodeId, Node>,
    built: &mut HashMap<NodeId, Node>,
    node_id: NodeId,
    parent: Option<NodeId>,
    next_id: NodeId,
    Ghost(hint): Ghost<PaneTree>,
) -> (res: (bool, Ghost<PaneTree>))
    requires
        forall|id: NodeId| old(built)@.contains_key(id) ==> !old(pending)@.contains_key(id),
    ensures
        forall|id: NodeId| #[trigger]
            final(pending)@.contains_key(id) ==> old(pending)@.contains_key(id) && final(pending)@[id] == old(pending)@[id],
        forall|id: NodeId| #[trigger]
            old(built)@.contains_key(id) ==> final(built)@.contains_key(id) && final(built)@[id]
                == old(built)@[id],
        forall|id: NodeId| #[trigger]
            final(built)@.contains_key(id) ==> !final(pending)@.contains_key(id),
        forall|id: NodeId| #[trigger]
            final(built)@.contains_key(id) && !old(built)@.contains_key(id) ==> old(pending)@.contains_key(id) && final(built)@[id] == old(pending)@[id],
        res.0 ==> ({
            let t = res.1@;
            &&& t.id() == node_id
            &&& t.distinct()
            &&& t.bounded()
            &&& forall|id: NodeId| #[trigger] t.ids().contains(id) ==> id < next_id
            &&& forall|id: NodeId| #[trigger]
                t.ids().contains(id) ==> old(pending)@.contains_key(id)
            &&& represents(final(built)@, t, parent)
            &&& final(built)@.dom() == old(built)@.dom().union(t.ids())
            &&& final(pending)@.dom() == old(pending)@.dom().difference(t.ids())
        }),
        hint.id() == node_id && hint.distinct() && hint.bounded() && represents(
            old(pending)@,
            hint,
            parent,
        ) && (forall|id: NodeId| #[trigger] hint.ids().contains(id) ==> id < next_id) ==> res.0
            && res.1@ == hint,
    decreases old(pending)@.dom().len(),
{
    let ghost source = pending@;
    let ghost base = built@;
    let ghost guided = hint.id() == node_id && hint.distinct() && hint.bounded() && represents(
        source,
        hint,
        parent,
    ) && (forall|id: NodeId| #[trigger] hint.ids().contains(id) ==> id < next_id);
    proof {
        lemma_ids(hint);
    }
    if node_id >= next_id {
        return (false, Ghost(hint));
    }
    let node = match pending.remove(&node_id) {
        Some(node) => node,
        None => {
            return (false, Ghost(hint));
        },
    };
    let ghost rest = pending@;
    proof {
        assert(rest.dom() =~= source.dom().remove(node_id));
        vstd::set_lib::lemma_len_subset(rest.dom(), source.dom());
    }
    let parent_matches = match (node.parent(), parent) {
        (Some(p), Some(q)) => *p == q,
        (None, None) => true,
        _ => false,
    };
    if !parent_matches || *node.id() != node_id {
        return (false, Ghost(hint));
    }
    match &node {
        Node::Tile { .. } => {
            let ghost t = node.leaf();
            built.insert(node_id, node);
            proof {
                assert(built@.dom() =~= base.dom().union(t.ids()));
                assert(pending@.dom() =~= source.dom().difference(t.ids()));
            }
            (true, Ghost(t))
        },
        Node::Split {
            direction,
            first,
            second,
            split_percentage,
            min_percentage,
            max_percentage,
            locked,
            ..
        } => {
            if !(0 <= *min_percentage && *min_percentage <= *split_percentage && *split_percentage
                <= *max_percentage && *max_percentage <= 100) {
                return (false, Ghost(hint));
            }
            let first_id = *first;
            let second_id = *second;
            let ghost hint_first = *hint->first;
            let ghost hint_second = *hint->second;
            proof {
                if guided {
                    lemma_ids(hint_first);
                    lemma_ids(hint_second);
                    assert forall|id: NodeId| #[trigger]
                        hint_first.ids().contains(id) implies rest.contains_key(id) && rest[id]
                        == source[id] by {
                        lemma_lookup(source, hint_first, Some(node_id), id);
                    }
                    lemma_represents_frame(source, rest, hint_first, Some(node_id));
                    assert forall|id: NodeId| #[trigger] hint_first.ids().contains(id) implies id
                        < next_id by {
                        assert(hint.ids().contains(id));
                    }
                }
            }
            let (first_ok, first_tree) = adopt(
                pending,
                built,
                first_id,
                Some(node_id),
                next_id,
                Ghost(hint_first),
            );
            if !first_ok {
                return (false, Ghost(hint));
            }
            let ghost rest_after_first = pending@;
            let ghost built_after_first = built@;
            proof {
                vstd::set_lib::lemma_len_subset(rest_after_first.dom(), rest.dom());
                if guided {
                    assert forall|id: NodeId| #[trigger]
                        hint_second.ids().contains(id) implies rest_after_first.contains_key(id)
                        && rest_after_first[id] == source[id] by {
                        lemma_lookup(source, hint_second, Some(node_id), id);
                        assert(rest.contains_key(id));
                        assert(!first_tree@.ids().contains(id));
                        assert(rest.dom().difference(first_tree@.ids()).contains(id));
                    }
                    lemma_represents_frame(source, rest_after_first, hint_second, Some(node_id));
                    assert forall|id: NodeId| #[trigger] hint_second.ids().contains(id) implies id
                        < next_id by {
                        assert(hint.ids().contains(id));
                    }
                }
            }
            let (second_ok, second_tree) = adopt(
                pending,
                built,
                second_id,
                Some(node_id),
                next_id,
                Ghost(hint_second),
            );
            if !second_ok {
                return (false, Ghost(hint));
            }
            let ghost built_after_second = built@;
            let ghost t = PaneTree::Split {
                id: node_id,
                direction: *direction,
                percentage: *split_percentage,
                min: *min_percentage,
                max: *max_percentage,
                locked: *locked,
                first: Box::new(first_tree@),
                second: Box::new(second_tree@),
            };
            built.insert(node_id, node);
            proof {
                let a = first_tree@;
                let b = second_tree@;
                lemma_ids(a);
                lemma_ids(b);
                assert forall|id: NodeId| #[trigger] a.ids().contains(id) implies built@.contains_key(
                    id,
                ) && built@[id] == built_after_first[id] by {
                    assert(built_after_first.dom().contains(id));
                    assert(rest.contains_key(id));
                }
                lemma_represents_frame(built_after_first, built@, a, Some(node_id));
                assert forall|id: NodeId| #[trigger] b.ids().contains(id) implies built@.contains_key(
                    id,
                ) && built@[id] == built_after_second[id] by {
                    assert(built_after_second.dom().contains(id));
                    assert(rest_after_first.contains_key(id));
                    assert(rest.contains_key(id));
                }
                lemma_represents_frame(built_after_second, built@, b, Some(node_id));
                assert(a.ids().disjoint(b.ids())) by {
                    assert forall|id: NodeId| a.ids().contains(id) && b.ids().contains(
                        id,
                    ) implies false by {
                        assert(rest_after_first.contains_key(id));
                        assert(rest.dom().difference(a.ids()).contains(id));
                    }
                }
                assert(!a.ids().contains(node_id)) by {
                    if a.ids().contains(node_id) {
                        assert(rest.contains_key(node_id));
                    }
                }
                assert(!b.ids().contains(node_id)) by {
                    if b.ids().contains(node_id) {
                        assert(rest_after_first.contains_key(node_id));
                        assert(rest.contains_key(node_id));
                    }
                }
                assert(built@.dom() =~= base.dom().union(t.ids()));
                assert(pending@.dom() =~= source.dom().difference(t.ids()));
                assert forall|id: NodeId| #[trigger] t.ids().contains(id) implies id < next_id
                    && source.contains_key(id) by {
                    if a.ids().contains(id) {
                        assert(rest.contains_key(id));
                    }
                    if b.ids().contains(id) {
                        assert(rest_after_first.contains_key(id));
                        assert(rest.contains_key(id));
                    }
                }
            }
            (true, Ghost(t))
        },
    }
}

impl MosaicLayout {
    /// The parts of the layout, as plain values that can be stored: every
    /// node, the handle of the root, and the counter.
    pub fn to_parts(&self) -> (res: (Vec<Node>, Option<NodeId>, NodeId))
        requires
            self.wf(),
        ensures
            parts_depict(res.0@, res.1, res.2, self@),
            res.2 == self.next_node_id(),
            res.0@.map_values(|node: Node| node.node_id()) == match self@ {
                Some(t) => t.handles(),
                None => Seq::empty(),
            },
    {
        let (nodes, root) = self.arena();
        let mut out: Vec<Node> = Vec::new();
        match root {
            Some(root_id) => {
                let ghost t = self@.unwrap();
                gather(nodes, root_id, &mut out, Ghost(t), Ghost(None));
                proof {
                    let pick = |id: NodeId| nodes@[id];
                    let h = t.handles();
                    lemma_handles(t);
                    assert(out@ =~= h.map_values(pick));
                    assert forall|i: int| 0 <= i < out@.len() implies (#[trigger] out@[i]).node_id()
                        == h[i] && out@[i] == nodes@[h[i]] by {
                        assert(h.contains(h[i]));
                        lemma_lookup(nodes@, t, None, h[i]);
                    }
                    assert forall|id: NodeId| lists(out@, id) <==> t.ids().contains(id) by {
                        if t.ids().contains(id) {
                            assert(h.contains(id));
                            let k = choose|k: int| 0 <= k < h.len() && h[k] == id;
                            assert(out@[k].node_id() == id);
                        }
                    }
                    assert forall|id: NodeId| lists(out@, id) implies arena_of(out@)[id]
                        == nodes@[id] by {
                        let k = choose|k: int|
                            0 <= k < out@.len() && (#[trigger] out@[k]).node_id() == id;
                        assert(out@[k] == nodes@[h[k]]);
                    }
                    assert(arena_of(out@) =~= nodes@);
                    assert(out@.map_values(|node: Node| node.node_id()) =~= h);
                }
            },
            None => {
                proof {
                    assert(arena_of(out@) =~= nodes@);
                    assert(out@.map_values(|node: Node| node.node_id()) =~= Seq::<NodeId>::empty());
                }
            },
        }
        (out, root, self.next_id())
    }

    /// Makes a layout of stored parts, where they are the parts of one: no
    /// handle listed twice, every node reachable from the root and none
    /// besides, each naming its true parent, every percentage within its
    /// bounds, every handle below the counter. Returns `None` for parts
    /// that are not.
    pub fn from_parts(nodes: Vec<Node>, root: Option<NodeId>, next_id: NodeId) -> (res: Option<
        MosaicLayout,
    >)
        ensures
            res is Some <==> exists|t: Option<PaneTree>| parts_depict(nodes@, root, next_id, t),
            res matches Some(layout) ==> layout.wf() && parts_depict(
                nodes@,
                root,
                next_id,
                layout@,
            ) && layout.next_node_id() == next_id,
    {
        let ghost all = nodes@;
        let mut remaining = nodes;
        let mut pending: HashMap<NodeId, Node> = HashMap::new();
        while remaining.len() > 0
            invariant
                all == nodes@,
                remaining@ == all.take(remaining@.len() as int),
                remaining@.len() <= all.len(),
                forall|i: int|
                    remaining@.len() <= i < all.len() ==> pending@.contains_key(
                        (#[trigger] all[i]).node_id(),
                    ) && pending@[all[i].node_id()] == all[i],
                forall|id: NodeId| #[trigger]
                    pending@.contains_key(id) ==> exists|i: int|
                        remaining@.len() <= i < all.len() && (#[trigger] all[i]).node_id() == id,
                forall|i: int, j: int|
                    remaining@.len() <= i < j < all.len() ==> (#[trigger] all[i]).node_id()
                        != (#[trigger] all[j]).node_id(),
            decreases remaining@.len(),
        {
            let ghost k = remaining@.len() - 1;
            let node = match remaining.pop() {
                Some(node) => node,
                None => {
                    return None;
                },
            };
            assert(node == all[k]);
            let id = *node.id();
            if pending.contains_key(&id) {
                proof {
                    let j = choose|j: int|
                        k + 1 <= j < all.len() && (#[trigger] all[j]).node_id() == id;
                    assert(all[k].node_id() == all[j].node_id());
                    assert(!unique_ids(all));
                }
                return None;
            }
            pending.insert(id, node);
            assert(remaining@ =~= all.take(remaining@.len() as int));
        }
        proof {
            assert(unique_ids(all));
            assert forall|id: NodeId| lists(all, id) implies pending@.contains_key(id)
                && arena_of(all)[id] == pending@[id] by {
                let k = choose|k: int| 0 <= k < all.len() && (#[trigger] all[k]).node_id() == id;
                assert(pending@.contains_key(all[k].node_id()));
            }
            assert(pending@ =~= arena_of(all));
        }
        match root {
            None => {
                if pending.is_empty() {
                    proof {
                        assert(pending@.dom() =~= Set::<NodeId>::empty());
                        assert(parts_depict(all, root, next_id, None));
                    }
                    Some(MosaicLayout::assemble(pending, None, next_id, Ghost(None)))
                } else {
                    proof {
                        assert forall|t: Option<PaneTree>| !parts_depict(
                            all,
                            root,
                            next_id,
                            t,
                        ) by {
                            if parts_depict(all, root, next_id, t) {
                                assert(pending@.dom() =~= Set::<NodeId>::empty());
                                assert(pending@.dom().len() == 0);
                            }
                        }
                    }
                    None
                }
            },
            Some(root_id) => {
                let ghost source = pending@;
                let ghost given = exists|t: Option<PaneTree>| parts_depict(all, root, next_id, t);
                let ghost hint = if given {
                    (choose|t: Option<PaneTree>| parts_depict(all, root, next_id, t)).unwrap()
                } else {
                    arbitrary()
                };
                let mut built: HashMap<NodeId, Node> = HashMap::new();
                let (ok, tree) = adopt(
                    &mut pending,
                    &mut built,
                    root_id,
                    None,
                    next_id,
                    Ghost(hint),
                );
                if !ok {
                    return None;
                }
                proof {
                    let t = tree@;
                    assert(built@.dom() =~= t.ids());
                    assert forall|id: NodeId| #[trigger] t.ids().contains(id) implies source.contains_key(
                        id,
                    ) && source[id] == built@[id] by {}
                    lemma_represents_frame(built@, source, t, None);
                    assert(pending@.dom() =~= source.dom().difference(t.ids()));
                }
                if !pending.is_empty() {
                    proof {
                        if given {
                            assert(tree@ == hint);
                            assert(pending@.dom() =~= Set::<NodeId>::empty());
                            assert(pending@.dom().len() == 0);
                        }
                    }
                    return None;
                }
                proof {
                    let t = tree@;
                    assert(source.dom() =~= t.ids()) by {
                        assert forall|id: NodeId| source.contains_key(id) implies t.ids().contains(
                            id,
                        ) by {
                            if !t.ids().contains(id) {
                                assert(source.dom().difference(t.ids()).contains(id));
                                assert(pending@.dom().contains(id));
                                assert(pending@.dom().len() > 0);
                            }
                        }
                    }
                    assert(pictures(arena_of(all), root, next_id, Some(t)));
                    assert(parts_depict(all, root, next_id, Some(t)));
                }
                Some(MosaicLayout::assemble(built, Some(root_id), next_id, Ghost(Some(tree@))))
            },
        }
    }
}

} // verus!
