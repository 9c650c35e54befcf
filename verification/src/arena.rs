//! The state arena: an `indextree` arena of [`StateData`], addressed by 0-based indices.
//!
//! The library's arenas are made by [`arena_new`] and only grown, never have a node removed:
//! [`arena_intact`] says so of an arena, and the wrappers ask it. States are added either as a
//! root or as the last child of an existing state, so the arena's storage order is creation
//! order, a state's index is its position in that order, and every parent comes before its
//! children.
use vstd::prelude::*;

use crate::model::{StateData, StateId, StateView};

verus! {

#[verifier::external_type_specification]
#[verifier::external_body]
#[verifier::reject_recursive_types(T)]
pub struct ExIndexTreeArena<T>(indextree::Arena<T>);

/// What an arena holds: for each slot in storage order, the parent's index and the data.
pub uninterp spec fn arena_nodes(arena: indextree::Arena<StateData>) -> Seq<(Option<StateId>, StateData)>;

/// No node of the arena has been removed: it has no freed slot, so every slot holds a live
/// node and `new_node` appends.
pub uninterp spec fn arena_intact(arena: indextree::Arena<StateData>) -> bool;

/// `indextree::Arena::new`: an arena with no nodes (and so none removed).
#[verifier::external_body]
pub(crate) fn arena_new() -> (a: indextree::Arena<StateData>)
    ensures
        arena_nodes(a) == Seq::<(Option<StateId>, StateData)>::empty(),
        arena_intact(a),
{
    indextree::Arena::new()
}

/// `indextree::Arena::len`: the number of slots.
#[verifier::external_body]
pub(crate) fn arena_len(a: &indextree::Arena<StateData>) -> (n: usize)
    ensures
        n == arena_nodes(*a).len(),
{
    a.len()
}

/// `indextree::Arena::new_node`: on an arena with no freed slot, stores `data` in a fresh slot
/// appended after all others, as a root. The node id's 1-based index is converted to the
/// 0-based slot index.
#[verifier::external_body]
pub(crate) fn arena_add_root(a: &mut indextree::Arena<StateData>, data: StateData) -> (id: StateId)
    requires
        arena_intact(*old(a)),
        arena_nodes(*old(a)).len() + 2 < usize::MAX,
    ensures
        arena_intact(*final(a)),
        id == arena_nodes(*old(a)).len(),
        arena_nodes(*final(a)) == arena_nodes(*old(a)).push((None, data)),
{
    usize::from(a.new_node(data)) - 1
}

/// `indextree::NodeId::append_value`: on an arena with no freed slot, stores `data` in a fresh
/// slot appended after all others, as the last child of the (live) node in slot `parent`.
#[verifier::external_body]
pub(crate) fn arena_add_child(a: &mut indextree::Arena<StateData>, parent: StateId, data: StateData) -> (id: StateId)
    requires
        arena_intact(*old(a)),
        parent < arena_nodes(*old(a)).len(),
        arena_nodes(*old(a)).len() + 2 < usize::MAX,
    ensures
        arena_intact(*final(a)),
        id == arena_nodes(*old(a)).len(),
        arena_nodes(*final(a)) == arena_nodes(*old(a)).push((Some(parent), data)),
{
    let p = a.get_node_id_at(std::num::NonZeroUsize::new(parent + 1).unwrap()).unwrap();
    usize::from(p.append_value(data, a)) - 1
}

/// `indextree::Node::get`: the data of the node in slot `i`.
#[verifier::external_body]
pub(crate) fn arena_data(a: &indextree::Arena<StateData>, i: StateId) -> (d: &StateData)
    requires
        arena_intact(*a),
        i < arena_nodes(*a).len(),
    ensures
        *d == arena_nodes(*a)[i as int].1,
{
    a[a.get_node_id_at(std::num::NonZeroUsize::new(i + 1).unwrap()).unwrap()].get()
}

/// `indextree::Node::parent`: the slot index of the parent of the node in slot `i`.
#[verifier::external_body]
pub(crate) fn arena_parent(a: &indextree::Arena<StateData>, i: StateId) -> (p: Option<StateId>)
    requires
        arena_intact(*a),
        i < arena_nodes(*a).len(),
    ensures
        p == arena_nodes(*a)[i as int].0,
{
    match a[a.get_node_id_at(std::num::NonZeroUsize::new(i + 1).unwrap()).unwrap()].parent() {
        Some(p) => Some(usize::from(p) - 1),
        None => None,
    }
}

/// `indextree::Node::get_mut`: puts `data` in slot `i` (keeping its parent) and hands back what
/// was there.
#[verifier::external_body]
pub(crate) fn arena_replace(a: &mut indextree::Arena<StateData>, i: StateId, data: StateData) -> (prev: StateData)
    requires
        arena_intact(*old(a)),
        i < arena_nodes(*old(a)).len(),
    ensures
        arena_intact(*final(a)),
        prev == arena_nodes(*old(a))[i as int].1,
        arena_nodes(*final(a)) == arena_nodes(*old(a)).update(i as int, (arena_nodes(*old(a))[i as int].0, data)),
{
    let id = a.get_node_id_at(std::num::NonZeroUsize::new(i + 1).unwrap()).unwrap();
    std::mem::replace(a[id].get_mut(), data)
}

/// The forest as a sequence of (parent, state) pairs in storage order.
pub type Nodes = Seq<(Option<StateId>, StateView)>;

/// The mathematical view of an arena.
pub open spec fn nodes_view(a: indextree::Arena<StateData>) -> Nodes {
    arena_nodes(a).map_values(|n: (Option<StateId>, StateData)| (n.0, n.1@))
}

/// The parent of slot `i`.
pub open spec fn parent_of(nodes: Nodes, i: int) -> Option<StateId> {
    nodes[i].0
}

/// The state in slot `i`.
pub open spec fn data_of(nodes: Nodes, i: int) -> StateView {
    nodes[i].1
}

/// The arena is a forest stored parents-first, and every state a transition or an enter
/// link mentions exists.
pub open spec fn wf_nodes(nodes: Nodes) -> bool {
    &&& nodes.len() + 2 < usize::MAX
    &&& forall|i: int| 0 <= i < nodes.len() ==> (#[trigger] parent_of(nodes, i) matches Some(p) ==> p < i)
    &&& forall|i: int, j: int|
        0 <= i < nodes.len() && 0 <= j < data_of(nodes, i).transitions.len()
            ==> (#[trigger] data_of(nodes, i).transitions[j]).ids_below(nodes.len())
    &&& forall|i: int| 0 <= i < nodes.len() ==> (#[trigger] data_of(nodes, i).enter_state matches Some(e) ==> e < nodes.len())
}

/// Slot `i` lies strictly below slot `a` in the forest.
pub open spec fn is_below(nodes: Nodes, i: int, a: int) -> bool
    decreases i,
{
    if 0 <= i < nodes.len() {
        match parent_of(nodes, i) {
            Some(p) => if p < i {
                p == a || is_below(nodes, p as int, a)
            } else {
                false
            },
            None => false,
        }
    } else {
        false
    }
}

/// Slot `i` lies strictly below the scope `scope` (every slot lies below the root scope).
pub open spec fn in_scope_below(nodes: Nodes, i: int, scope: Option<StateId>) -> bool {
    match scope {
        Some(s) => is_below(nodes, i, s as int),
        None => 0 <= i < nodes.len(),
    }
}

/// Slot `i` is a direct child of the scope `scope` (a root, for the root scope).
pub open spec fn in_scope(nodes: Nodes, i: int, scope: Option<StateId>) -> bool {
    0 <= i < nodes.len() && parent_of(nodes, i) == scope
}

} // verus!
