//! Initial states: which state a region enters when it becomes active.
use vstd::prelude::*;

use crate::arena::{arena_intact, arena_data, arena_len, arena_nodes, arena_parent, arena_replace, data_of, nodes_view, parent_of, wf_nodes, Nodes};
use crate::error::{BuildError, BuildErrorView};
use crate::model::{has_enter, StateData, StateId, StateView};
use crate::text::{first_where, join, join_strings, lemma_first_where};

verus! {

/// Slot `j` is a child of slot `i` marked as its region's initial state.
pub open spec fn is_enter_child(nodes: Nodes, i: int, j: int) -> bool {
    &&& parent_of(nodes, j) matches Some(p) && p == i
    &&& has_enter(data_of(nodes, j).transitions)
}

/// The first child of slot `i` (in child order, which is storage order) that is marked as its
/// region's initial state.
pub open spec fn enter_child(nodes: Nodes, i: int) -> Option<int> {
    first_where(nodes.len() as int, |j: int| is_enter_child(nodes, i, j), 0)
}

/// The state entered when slot `i` becomes active: following initial substates down as far as
/// they go, or `i` itself for a leaf.
pub open spec fn deepest_enter(nodes: Nodes, i: int) -> int
    decreases nodes.len() - i,
{
    match enter_child(nodes, i) {
        Some(c) => if i < c < nodes.len() {
            deepest_enter(nodes, c)
        } else {
            i
        },
        None => i,
    }
}

/// Every state with its `enter_state` set to the state it enters.
pub open spec fn spec_link_enter_states(nodes: Nodes) -> Nodes {
    Seq::new(
        nodes.len(),
        |k: int| (parent_of(nodes, k), StateView { enter_state: Some(deepest_enter(nodes, k) as StateId), ..data_of(nodes, k) }),
    )
}

/// Slot `k` is a top-level state marked as initial.
pub open spec fn is_root_enter(nodes: Nodes, k: int) -> bool {
    &&& parent_of(nodes, k) is None
    &&& has_enter(data_of(nodes, k).transitions)
}

/// The top-level initial states among the first `n` slots, in storage order.
pub open spec fn root_enters(nodes: Nodes, n: int) -> Seq<int>
    decreases n,
{
    if n <= 0 {
        Seq::empty()
    } else if is_root_enter(nodes, n - 1) {
        root_enters(nodes, n - 1).push(n - 1)
    } else {
        root_enters(nodes, n - 1)
    }
}

/// The names of the given slots.
pub open spec fn names_of(nodes: Nodes, ks: Seq<int>) -> Seq<Seq<char>> {
    ks.map_values(|k: int| data_of(nodes, k).name)
}

/// The FSM's initial state: the state entered from its one top-level initial state. Fails unless
/// exactly one top-level state is initial, listing the ones found.
pub open spec fn spec_find_root_enter(nodes: Nodes) -> Result<StateId, BuildErrorView> {
    let rs = root_enters(nodes, nodes.len() as int);
    if rs.len() == 1 {
        Ok(deepest_enter(nodes, rs[0]) as StateId)
    } else {
        Err(BuildErrorView::InvalidEnterStates(join(names_of(nodes, rs), ", "@)))
    }
}

/// `enter_child` names a child of `i`, which comes after it in storage order.
pub proof fn lemma_enter_child(nodes: Nodes, i: int)
    requires
        wf_nodes(nodes),
    ensures
        enter_child(nodes, i) matches Some(c) ==> i < c < nodes.len() && is_enter_child(nodes, i, c),
{
    let p = |j: int| is_enter_child(nodes, i, j);
    lemma_first_where(nodes.len() as int, p, 0);
    if let Some(c) = enter_child(nodes, i) {
        assert(p(c));
        assert(parent_of(nodes, c) matches Some(q) ==> q < c);
    }
}

/// The state a slot enters lies at or below it, inside the arena.
pub proof fn lemma_deepest_enter_range(nodes: Nodes, i: int)
    requires
        wf_nodes(nodes),
        0 <= i < nodes.len(),
    ensures
        i <= deepest_enter(nodes, i) < nodes.len(),
    decreases nodes.len() - i,
{
    lemma_enter_child(nodes, i);
    if let Some(c) = enter_child(nodes, i) {
        lemma_deepest_enter_range(nodes, c);
    }
}

/// The root-enter indices are increasing slots below `n`.
pub proof fn lemma_root_enters(nodes: Nodes, n: int)
    requires
        0 <= n <= nodes.len(),
    ensures
        forall|j: int| 0 <= j < root_enters(nodes, n).len() ==> 0 <= #[trigger] root_enters(nodes, n)[j] < n,
        forall|j: int| 0 <= j < root_enters(nodes, n).len() ==> is_root_enter(nodes, #[trigger] root_enters(nodes, n)[j]),
    decreases n,
{
    if n > 0 {
        lemma_root_enters(nodes, n - 1);
        let prev = root_enters(nodes, n - 1);
        let cur = root_enters(nodes, n);
        assert forall|j: int| 0 <= j < cur.len() implies 0 <= #[trigger] cur[j] < n && is_root_enter(nodes, cur[j]) by {
            if j < prev.len() {
                assert(cur[j] == prev[j]);
            }
        }
    }
}

/// The first child of slot `i` that is its region's initial state.
fn find_enter_child(arena: &indextree::Arena<StateData>, i: StateId) -> (r: Option<StateId>)
    requires
        wf_nodes(nodes_view(*arena)),
        arena_intact(*arena),
        i < nodes_view(*arena).len(),
    ensures
        match r {
            Some(c) => enter_child(nodes_view(*arena), i as int) == Some(c as int),
            None => enter_child(nodes_view(*arena), i as int) is None,
        },
{
    let ghost nodes = nodes_view(*arena);
    let ghost p = |j: int| is_enter_child(nodes, i as int, j);
    let n = arena_len(arena);
    let mut j: usize = 0;
    while j < n
        invariant
            nodes == nodes_view(*arena),
            arena_intact(*arena),
            n == nodes.len(),
            p == (|j: int| is_enter_child(nodes, i as int, j)),
            j <= n,
            first_where(n as int, p, 0) == first_where(n as int, p, j as int),
        decreases n - j,
    {
        let hit = match arena_parent(arena, j) {
            Some(q) => q == i && arena_data(arena, j).is_enter(),
            None => false,
        };
        proof {
            assert(parent_of(nodes, j as int) == arena_nodes(*arena)[j as int].0);
            assert(data_of(nodes, j as int) == arena_nodes(*arena)[j as int].1@);
            assert(hit == p(j as int));
        }
        if hit {
            return Some(j);
        }
        j = j + 1;
    }
    None
}

/// The state entered when slot `i` becomes active (see [`deepest_enter`]).
pub(crate) fn find_deepest_enter_state(arena: &indextree::Arena<StateData>, i: StateId) -> (r: StateId)
    requires
        wf_nodes(nodes_view(*arena)),
        arena_intact(*arena),
        i < nodes_view(*arena).len(),
    ensures
        r == deepest_enter(nodes_view(*arena), i as int),
        r < nodes_view(*arena).len(),
{
    let ghost nodes = nodes_view(*arena);
    let n = arena_len(arena);
    let mut cur = i;
    loop
        invariant
            nodes == nodes_view(*arena),
            arena_intact(*arena),
            wf_nodes(nodes),
            n == nodes.len(),
            cur < n,
            deepest_enter(nodes, i as int) == deepest_enter(nodes, cur as int),
        decreases n - cur,
    {
        proof { lemma_enter_child(nodes, cur as int); }
        match find_enter_child(arena, cur) {
            None => { return cur; },
            Some(c) => { cur = c; },
        }
    }
}

/// Sets every state's `enter_state` to the state it enters (see [`spec_link_enter_states`]).
pub(crate) fn link_enter_states(arena: &mut indextree::Arena<StateData>)
    requires
        wf_nodes(nodes_view(*old(arena))),
        arena_intact(*old(arena)),
    ensures
        nodes_view(*final(arena)) == spec_link_enter_states(nodes_view(*old(arena))),
        wf_nodes(nodes_view(*final(arena))),
        arena_intact(*final(arena)),
{
    let ghost nodes = nodes_view(*arena);
    let ghost target = spec_link_enter_states(nodes);
    let n = arena_len(arena);
    let mut all_new: Vec<StateId> = Vec::new();
    let mut i: usize = 0;
    while i < n
        invariant
            nodes == nodes_view(*arena),
            arena_intact(*arena),
            wf_nodes(nodes),
            n == nodes.len(),
            i <= n,
            all_new@.len() == i,
            forall|j: int| 0 <= j < i ==> #[trigger] all_new@[j] == deepest_enter(nodes, j),
        decreases n - i,
    {
        let e = find_deepest_enter_state(arena, i);
        all_new.push(e);
        i = i + 1;
    }
    while all_new.len() > 0
        invariant
            n == nodes.len(),
            target == spec_link_enter_states(nodes),
            all_new@.len() <= n,
            nodes_view(*arena).len() == n,
            arena_intact(*arena),
            forall|j: int| 0 <= j < all_new@.len() ==> #[trigger] all_new@[j] == deepest_enter(nodes, j),
            forall|j: int| 0 <= j < all_new@.len() ==> #[trigger] nodes_view(*arena)[j] == nodes[j],
            forall|j: int| all_new@.len() <= j < n ==> #[trigger] nodes_view(*arena)[j] == target[j],
        decreases all_new@.len(),
    {
        let e = all_new.pop().unwrap();
        let k = all_new.len();
        let ghost cur = nodes_view(*arena);
        let ghost raw = arena_nodes(*arena);
        proof {
            assert(cur[k as int] == nodes[k as int]);
            assert(cur[k as int] == (raw[k as int].0, raw[k as int].1@));
        }
        let mut d = arena_replace(arena, k, StateData::new(""));
        d.enter_state = Some(e);
        let ghost dv = d@;
        let ghost raw_mid = arena_nodes(*arena);
        arena_replace(arena, k, d);
        proof {
            assert(raw_mid[k as int].0 == raw[k as int].0);
            assert(dv == target[k as int].1);
            assert(nodes_view(*arena) =~= cur.update(k as int, (nodes[k as int].0, dv)));
        }
    }
    proof {
        let fin = nodes_view(*arena);
        assert(fin =~= target);
        assert forall|i: int| 0 <= i < fin.len() implies (#[trigger] parent_of(fin, i) matches Some(p) ==> p < i) by {
            assert(parent_of(fin, i) == parent_of(nodes, i));
        }
        assert forall|i: int, j: int|
            0 <= i < fin.len() && 0 <= j < data_of(fin, i).transitions.len()
                implies (#[trigger] data_of(fin, i).transitions[j]).ids_below(fin.len()) by {
            assert(data_of(fin, i).transitions == data_of(nodes, i).transitions);
        }
        assert forall|i: int| 0 <= i < fin.len() implies (#[trigger] data_of(fin, i).enter_state matches Some(e) ==> e < fin.len()) by {
            lemma_deepest_enter_range(nodes, i);
        }
    }
}

/// The FSM's initial state (see [`spec_find_root_enter`]).
pub(crate) fn find_root_enter_state(arena: &indextree::Arena<StateData>) -> (r: Result<StateId, BuildError>)
    requires
        wf_nodes(nodes_view(*arena)),
        arena_intact(*arena),
    ensures
        match r {
            Ok(id) => spec_find_root_enter(nodes_view(*arena)) == Ok::<StateId, BuildErrorView>(id),
            Err(e) => spec_find_root_enter(nodes_view(*arena)) == Err::<StateId, BuildErrorView>(e@),
        },
        r matches Ok(id) ==> id < nodes_view(*arena).len(),
{
    let ghost nodes = nodes_view(*arena);
    let n = arena_len(arena);
    let mut ids: Vec<StateId> = Vec::new();
    let mut names: Vec<String> = Vec::new();
    let mut k: usize = 0;
    while k < n
        invariant
            nodes == nodes_view(*arena),
            arena_intact(*arena),
            n == nodes.len(),
            k <= n,
            ids@.len() == root_enters(nodes, k as int).len(),
            forall|j: int| 0 <= j < ids@.len() ==> #[trigger] ids@[j] == root_enters(nodes, k as int)[j],
            names@.map_values(|s: String| s@) == names_of(nodes, root_enters(nodes, k as int)),
        decreases n - k,
    {
        let d = arena_data(arena, k);
        let p = arena_parent(arena, k);
        proof {
            assert(parent_of(nodes, k as int) == p);
            assert(data_of(nodes, k as int) == d@);
        }
        if p.is_none() && d.is_enter() {
            let ghost before = names@;
            ids.push(k);
            let nm = d.name.clone();
            names.push(nm);
            proof {
                let re = root_enters(nodes, k as int);
                assert(root_enters(nodes, k + 1) == re.push(k as int));
                assert(names@.map_values(|s: String| s@) =~= before.map_values(|s: String| s@).push(nm@));
                assert(names_of(nodes, re.push(k as int)) =~= names_of(nodes, re).push(data_of(nodes, k as int).name));
            }
        } else {
            proof {
                assert(root_enters(nodes, k + 1) == root_enters(nodes, k as int));
            }
        }
        k = k + 1;
    }
    proof { lemma_root_enters(nodes, n as int); }
    if ids.len() == 1 {
        let root = ids[0];
        Ok(find_deepest_enter_state(arena, root))
    } else {
        Err(BuildError::InvalidEnterStates(join_strings(&names, ", ")))
    }
}

} // verus!
