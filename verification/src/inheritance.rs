//! How a composite state's region hands control back, and what substates inherit from their
//! ancestors.
use vstd::prelude::*;

use crate::arena::{arena_intact, 
    arena_data, arena_len, arena_nodes, arena_parent, arena_replace, data_of, nodes_view, parent_of,
    wf_nodes, Nodes,
};
use crate::error::{BuildError, BuildErrorView};
use crate::model::{
    dup_action, dup_event, StateData, StateId, StateView, TransitionData, TransitionKind,
    TransitionView,
};
use crate::text::{first_where, lemma_first_where, unique_seq};
use crate::validation::lemma_unique_contains;
use crate::types::Event;

verus! {

/// The transitions hold an exit to the final pseudo-state.
pub open spec fn has_final(ts: Seq<TransitionView>) -> bool {
    exists|j: int| 0 <= j < ts.len() && (#[trigger] ts[j]) is Final
}

/// The transitions hold a completion (`Direct`) transition.
pub open spec fn has_direct(ts: Seq<TransitionView>) -> bool {
    exists|j: int| 0 <= j < ts.len() && (#[trigger] ts[j]) is Direct
}

/// Slot `i` is a substate that exits its region (`Sub --> [*]`).
pub open spec fn is_substate_exit(nodes: Nodes, i: int) -> bool {
    &&& parent_of(nodes, i) is Some
    &&& has_final(data_of(nodes, i).transitions)
}

/// Slot `i` exits its region, but its parent has no completion transition to hand off to.
pub open spec fn exit_without_completion(nodes: Nodes, i: int) -> bool {
    &&& is_substate_exit(nodes, i)
    &&& !has_direct(data_of(nodes, parent_of(nodes, i)->0 as int).transitions)
}

/// Every substate exit needs a completion transition on its parent. Fails on the first such
/// substate (in storage order).
pub open spec fn spec_substate_exits_complete(nodes: Nodes) -> Result<(), BuildErrorView> {
    match first_where(nodes.len() as int, |i: int| exit_without_completion(nodes, i), 0) {
        None => Ok(()),
        Some(i) => Err(BuildErrorView::SubstateExitWithoutCompletion {
            state: data_of(nodes, i).name,
            parent: data_of(nodes, parent_of(nodes, i)->0 as int).name,
        }),
    }
}

/// Whether the transitions hold an exit to the final pseudo-state.
fn any_final(ts: &Vec<TransitionData>) -> (r: bool)
    ensures
        r == has_final(ts@.map_values(|t: TransitionData| t@)),
{
    let ghost tv = ts@.map_values(|t: TransitionData| t@);
    let mut j: usize = 0;
    while j < ts.len()
        invariant
            j <= ts@.len(),
            tv == ts@.map_values(|t: TransitionData| t@),
            forall|q: int| 0 <= q < j ==> !(#[trigger] tv[q] is Final),
        decreases ts@.len() - j,
    {
        if ts[j].is_final() {
            assert(tv[j as int] is Final);
            return true;
        }
        j = j + 1;
    }
    false
}

/// Whether the transitions hold a completion transition.
fn any_direct(ts: &Vec<TransitionData>) -> (r: bool)
    ensures
        r == has_direct(ts@.map_values(|t: TransitionData| t@)),
{
    let ghost tv = ts@.map_values(|t: TransitionData| t@);
    let mut j: usize = 0;
    while j < ts.len()
        invariant
            j <= ts@.len(),
            tv == ts@.map_values(|t: TransitionData| t@),
            forall|q: int| 0 <= q < j ==> !(#[trigger] tv[q] is Direct),
        decreases ts@.len() - j,
    {
        if ts[j].is_direct() {
            assert(tv[j as int] is Direct);
            return true;
        }
        j = j + 1;
    }
    false
}

/// Checks that every substate exit has a completion transition on its parent to hand off to.
pub(crate) fn substate_exits_complete(arena: &indextree::Arena<StateData>) -> (r: Result<(), BuildError>)
    requires
        wf_nodes(nodes_view(*arena)),
        arena_intact(*arena),
    ensures
        match r {
            Ok(()) => spec_substate_exits_complete(nodes_view(*arena)) == Ok::<(), BuildErrorView>(()),
            Err(e) => spec_substate_exits_complete(nodes_view(*arena)) == Err::<(), BuildErrorView>(e@),
        },
{
    let ghost nodes = nodes_view(*arena);
    let ghost p = |i: int| exit_without_completion(nodes, i);
    let n = arena_len(arena);
    let mut i: usize = 0;
    while i < n
        invariant
            nodes == nodes_view(*arena),
            arena_intact(*arena),
            wf_nodes(nodes),
            n == nodes.len(),
            p == (|i: int| exit_without_completion(nodes, i)),
            i <= n,
            first_where(n as int, p, 0) == first_where(n as int, p, i as int),
        decreases n - i,
    {
        let d = arena_data(arena, i);
        proof { assert(d@ == data_of(nodes, i as int)); }
        match arena_parent(arena, i) {
            Some(pi) => {
                proof { assert(parent_of(nodes, i as int) == Some(pi)); }
                if any_final(&d.transitions) {
                    let pd = arena_data(arena, pi);
                    proof { assert(pd@ == data_of(nodes, pi as int)); }
                    if !any_direct(&pd.transitions) {
                        proof {
                            assert(p(i as int));
                            assert(first_where(n as int, p, i as int) == Some(i as int));
                        }
                        return Err(BuildError::SubstateExitWithoutCompletion { state: d.name.clone(), parent: pd.name.clone() });
                    }
                }
            },
            None => {
                proof { assert(parent_of(nodes, i as int) is None); }
            },
        }
        proof { assert(!p(i as int)); }
        i = i + 1;
    }
    Ok(())
}

// ---------------------------------------------------------------------------------------------
// Substate exits hand off to the parent's completion transitions.

/// The views of owned transitions.
pub open spec fn tdviews(ts: Seq<TransitionData>) -> Seq<TransitionView> {
    ts.map_values(|t: TransitionData| t@)
}

/// The views of borrowed transitions.
pub open spec fn trviews(ts: Seq<&TransitionData>) -> Seq<TransitionView> {
    ts.map_values(|t: &TransitionData| (*t)@)
}

/// The completion (`Direct`) transitions among `ts`, in order.
pub open spec fn completions(ts: Seq<TransitionView>) -> Seq<TransitionView>
    decreases ts.len(),
{
    if ts.len() == 0 {
        ts
    } else if ts.last() is Direct {
        completions(ts.drop_last()).push(ts.last())
    } else {
        completions(ts.drop_last())
    }
}

/// `ts` without its completion transitions.
pub open spec fn without_completions(ts: Seq<TransitionView>) -> Seq<TransitionView>
    decreases ts.len(),
{
    if ts.len() == 0 {
        ts
    } else if ts.last() is Direct {
        without_completions(ts.drop_last())
    } else {
        without_completions(ts.drop_last()).push(ts.last())
    }
}

/// Completion `c` re-targeted to start at `source` and fire on `event` (or on completion).
pub open spec fn redirect_one(c: TransitionView, source: StateId, event: Option<Seq<char>>) -> TransitionView {
    match c {
        TransitionKind::Direct { target, action, guard, .. } => match event {
            Some(e) => TransitionKind::Event { source, event: e, target, action, guard },
            None => TransitionKind::Direct { source, target, action, guard },
        },
        _ => c,
    }
}

/// A substate exit fanned out to one transition per parent completion, keeping its own trigger
/// but taking each completion's target, effect and guard; any other transition unchanged.
pub open spec fn redirect_transition(t: TransitionView, comps: Seq<TransitionView>) -> Seq<TransitionView> {
    match t {
        TransitionKind::Final { source, event, .. } => comps.map_values(|c: TransitionView| redirect_one(c, source, event)),
        _ => seq![t],
    }
}

/// `ts` with every substate exit fanned out over `comps`.
pub open spec fn rewritten(ts: Seq<TransitionView>, comps: Seq<TransitionView>) -> Seq<TransitionView>
    decreases ts.len(),
{
    if ts.len() == 0 {
        Seq::empty()
    } else {
        rewritten(ts.drop_last(), comps) + redirect_transition(ts.last(), comps)
    }
}

/// Some child of slot `p` exits its region, so `p`'s completions are realised by it.
pub open spec fn consumed(nodes: Nodes, p: int) -> bool {
    exists|c: int| 0 <= c < nodes.len() && parent_of(nodes, c) == Some(p as StateId) && #[trigger] has_final(data_of(nodes, c).transitions)
}

/// The transitions of slot `i` once substate exits are redirected.
pub open spec fn redirected_transitions(nodes: Nodes, i: int) -> Seq<TransitionView> {
    let own = data_of(nodes, i).transitions;
    let t1 = if is_substate_exit(nodes, i) {
        rewritten(own, completions(data_of(nodes, parent_of(nodes, i)->0 as int).transitions))
    } else {
        own
    };
    if consumed(nodes, i) {
        without_completions(t1)
    } else {
        t1
    }
}

/// Redirects each substate exit `Sub --> [*]` onto its parent composite's completion
/// transitions, so a completed region hands off via `Parent --> X` instead of terminating the
/// FSM; parents whose completions are so realised lose them. Top-level exits stay.
pub open spec fn spec_redirect_substate_exits(nodes: Nodes) -> Nodes {
    Seq::new(nodes.len(), |i: int| (parent_of(nodes, i), StateView { transitions: redirected_transitions(nodes, i), ..data_of(nodes, i) }))
}

/// Copies of `ts`.
fn copy_transitions(ts: &Vec<TransitionData>) -> (r: Vec<TransitionData>)
    ensures
        tdviews(r@) == tdviews(ts@),
{
    let mut r: Vec<TransitionData> = Vec::new();
    let mut j: usize = 0;
    while j < ts.len()
        invariant
            j <= ts@.len(),
            tdviews(r@) == tdviews(ts@).take(j as int),
        decreases ts@.len() - j,
    {
        let ghost before = r@;
        r.push(ts[j].duplicate());
        proof {
            assert(tdviews(r@) =~= tdviews(before).push(ts@[j as int]@));
            assert(tdviews(ts@).take(j + 1) =~= tdviews(ts@).take(j as int).push(ts@[j as int]@));
        }
        j = j + 1;
    }
    proof { assert(tdviews(ts@).take(ts@.len() as int) =~= tdviews(ts@)); }
    r
}

/// The completion transitions among `ts`.
fn completions_of(ts: &Vec<TransitionData>) -> (r: Vec<&TransitionData>)
    ensures
        trviews(r@) == completions(tdviews(ts@)),
{
    let ghost tv = tdviews(ts@);
    let mut r: Vec<&TransitionData> = Vec::new();
    let mut j: usize = 0;
    while j < ts.len()
        invariant
            j <= ts@.len(),
            tv == tdviews(ts@),
            trviews(r@) == completions(tv.take(j as int)),
        decreases ts@.len() - j,
    {
        proof {
            assert(tv.take(j + 1).drop_last() =~= tv.take(j as int));
            assert(tv.take(j + 1).last() == ts@[j as int]@);
        }
        if ts[j].is_direct() {
            let ghost before = r@;
            r.push(&ts[j]);
            proof { assert(trviews(r@) =~= trviews(before).push(ts@[j as int]@)); }
        }
        j = j + 1;
    }
    proof { assert(tv.take(ts@.len() as int) =~= tv); }
    r
}

/// `ts` without its completion transitions.
fn drop_completions(ts: &Vec<TransitionData>) -> (r: Vec<TransitionData>)
    ensures
        tdviews(r@) == without_completions(tdviews(ts@)),
{
    let ghost tv = tdviews(ts@);
    let mut r: Vec<TransitionData> = Vec::new();
    let mut j: usize = 0;
    while j < ts.len()
        invariant
            j <= ts@.len(),
            tv == tdviews(ts@),
            tdviews(r@) == without_completions(tv.take(j as int)),
        decreases ts@.len() - j,
    {
        proof {
            assert(tv.take(j + 1).drop_last() =~= tv.take(j as int));
            assert(tv.take(j + 1).last() == ts@[j as int]@);
        }
        if !ts[j].is_direct() {
            let ghost before = r@;
            r.push(ts[j].duplicate());
            proof { assert(tdviews(r@) =~= tdviews(before).push(ts@[j as int]@)); }
        }
        j = j + 1;
    }
    proof { assert(tv.take(ts@.len() as int) =~= tv); }
    r
}

/// Completion `c` re-targeted to start at `source` and fire on `event`.
fn redirect_completion(c: &TransitionData, source: StateId, event: &Option<Event>) -> (r: TransitionData)
    ensures
        r@ == redirect_one(c@, source, crate::model::opt_event_view(*event)),
{
    match c {
        TransitionKind::Direct { target, action, guard, .. } => match event {
            Some(e) => TransitionKind::Event {
                source,
                event: e.duplicate(),
                target: *target,
                action: dup_action(action),
                guard: dup_action(guard),
            },
            None => TransitionKind::Direct { source, target: *target, action: dup_action(action), guard: dup_action(guard) },
        },
        _ => c.duplicate(),
    }
}

/// `own` with every substate exit fanned out over `comps`.
fn rewrite_transitions(own: &Vec<TransitionData>, comps: &Vec<&TransitionData>) -> (r: Vec<TransitionData>)
    ensures
        tdviews(r@) == rewritten(tdviews(own@), trviews(comps@)),
{
    let ghost tv = tdviews(own@);
    let ghost cv = trviews(comps@);
    let mut r: Vec<TransitionData> = Vec::new();
    let mut j: usize = 0;
    while j < own.len()
        invariant
            j <= own@.len(),
            tv == tdviews(own@),
            cv == trviews(comps@),
            tdviews(r@) == rewritten(tv.take(j as int), cv),
        decreases own@.len() - j,
    {
        proof {
            assert(tv.take(j + 1).drop_last() =~= tv.take(j as int));
            assert(tv.take(j + 1).last() == own@[j as int]@);
        }
        let t = &own[j];
        match t {
            TransitionKind::Final { source, event, .. } => {
                let ghost base = tdviews(r@);
                let ghost fanned = cv.map_values(|c: TransitionView| redirect_one(c, *source, crate::model::opt_event_view(*event)));
                let mut q: usize = 0;
                while q < comps.len()
                    invariant
                        q <= comps@.len(),
                        cv == trviews(comps@),
                        fanned == cv.map_values(|c: TransitionView| redirect_one(c, *source, crate::model::opt_event_view(*event))),
                        tdviews(r@) == base + fanned.take(q as int),
                    decreases comps@.len() - q,
                {
                    let ghost before = r@;
                    r.push(redirect_completion(comps[q], *source, event));
                    proof {
                        assert(tdviews(r@) =~= tdviews(before).push(fanned[q as int]));
                        assert(fanned.take(q + 1) =~= fanned.take(q as int).push(fanned[q as int]));
                    }
                    q = q + 1;
                }
                proof {
                    assert(fanned.take(comps@.len() as int) =~= fanned);
                    assert(redirect_transition(own@[j as int]@, cv) == fanned);
                }
            },
            _ => {
                let ghost before = r@;
                r.push(t.duplicate());
                proof {
                    assert(tdviews(r@) =~= tdviews(before).push(t@));
                    assert(redirect_transition(t@, cv) =~= seq![t@]);
                    assert(tdviews(before).push(t@) =~= tdviews(before) + seq![t@]);
                }
            },
        }
        j = j + 1;
    }
    proof { assert(tv.take(own@.len() as int) =~= tv); }
    r
}

/// Every transition of `ts` mentions states below `n` only.
pub open spec fn all_ids_below(ts: Seq<TransitionView>, n: nat) -> bool {
    forall|j: int| 0 <= j < ts.len() ==> (#[trigger] ts[j]).ids_below(n)
}

/// Completions keep the states they mention.
pub proof fn lemma_completions_ids(ts: Seq<TransitionView>, n: nat)
    requires
        all_ids_below(ts, n),
    ensures
        all_ids_below(completions(ts), n),
        all_ids_below(without_completions(ts), n),
    decreases ts.len(),
{
    if ts.len() > 0 {
        assert(all_ids_below(ts.drop_last(), n)) by {
            assert forall|j: int| 0 <= j < ts.drop_last().len() implies (#[trigger] ts.drop_last()[j]).ids_below(n) by {
                assert(ts.drop_last()[j] == ts[j]);
            }
        }
        lemma_completions_ids(ts.drop_last(), n);
        assert(ts.last() == ts[ts.len() - 1]);
    }
}

/// Fanning substate exits out keeps the states mentioned below `n`.
pub proof fn lemma_rewritten_ids(ts: Seq<TransitionView>, comps: Seq<TransitionView>, n: nat)
    requires
        all_ids_below(ts, n),
        all_ids_below(comps, n),
    ensures
        all_ids_below(rewritten(ts, comps), n),
    decreases ts.len(),
{
    if ts.len() > 0 {
        assert(all_ids_below(ts.drop_last(), n)) by {
            assert forall|j: int| 0 <= j < ts.drop_last().len() implies (#[trigger] ts.drop_last()[j]).ids_below(n) by {
                assert(ts.drop_last()[j] == ts[j]);
            }
        }
        lemma_rewritten_ids(ts.drop_last(), comps, n);
        let t = ts.last();
        assert(t == ts[ts.len() - 1]);
        let tail = redirect_transition(t, comps);
        assert(all_ids_below(tail, n)) by {
            assert forall|j: int| 0 <= j < tail.len() implies (#[trigger] tail[j]).ids_below(n) by {
                match t {
                    TransitionKind::Final { source, event, .. } => {
                        assert(comps[j].ids_below(n));
                    },
                    _ => {},
                }
            }
        }
        let r = rewritten(ts, comps);
        let prev = rewritten(ts.drop_last(), comps);
        assert forall|j: int| 0 <= j < r.len() implies (#[trigger] r[j]).ids_below(n) by {
            if j < prev.len() {
                assert(r[j] == prev[j]);
            } else {
                assert(r[j] == tail[j - prev.len()]);
            }
        }
    }
}

/// Redirecting substate exits keeps the forest valid.
pub proof fn lemma_redirect_wf(nodes: Nodes)
    requires
        wf_nodes(nodes),
    ensures
        wf_nodes(spec_redirect_substate_exits(nodes)),
{
    let n2 = spec_redirect_substate_exits(nodes);
    let n = nodes.len();
    assert forall|i: int| 0 <= i < n2.len() implies (#[trigger] parent_of(n2, i) matches Some(p) ==> p < i) by {
        assert(parent_of(n2, i) == parent_of(nodes, i));
    }
    assert forall|i: int| 0 <= i < n2.len() implies (#[trigger] data_of(n2, i).enter_state matches Some(e) ==> e < n2.len()) by {
        assert(data_of(n2, i).enter_state == data_of(nodes, i).enter_state);
    }
    assert forall|i: int, j: int|
        0 <= i < n2.len() && 0 <= j < data_of(n2, i).transitions.len()
            implies (#[trigger] data_of(n2, i).transitions[j]).ids_below(n2.len()) by {
        let own = data_of(nodes, i).transitions;
        assert(all_ids_below(own, n)) by {
            assert forall|q: int| 0 <= q < own.len() implies (#[trigger] own[q]).ids_below(n) by {
                assert(data_of(nodes, i).transitions[q].ids_below(n));
            }
        }
        let t1 = if is_substate_exit(nodes, i) {
            let p = parent_of(nodes, i)->0 as int;
            let pts = data_of(nodes, p).transitions;
            assert(all_ids_below(pts, n)) by {
                assert forall|q: int| 0 <= q < pts.len() implies (#[trigger] pts[q]).ids_below(n) by {
                    assert(data_of(nodes, p).transitions[q].ids_below(n));
                }
            }
            lemma_completions_ids(pts, n);
            lemma_rewritten_ids(own, completions(pts), n);
            rewritten(own, completions(pts))
        } else {
            own
        };
        lemma_completions_ids(t1, n);
        assert(data_of(n2, i).transitions == redirected_transitions(nodes, i));
    }
}

/// For each state, whether some child of it exits its region.
fn consumed_flags(arena: &indextree::Arena<StateData>) -> (r: Vec<bool>)
    requires
        wf_nodes(nodes_view(*arena)),
        arena_intact(*arena),
    ensures
        r@.len() == nodes_view(*arena).len(),
        forall|p: int| 0 <= p < r@.len() ==> r@[p] == consumed(nodes_view(*arena), p),
{
    let ghost nodes = nodes_view(*arena);
    let n = arena_len(arena);
    let mut r: Vec<bool> = Vec::new();
    let mut i: usize = 0;
    while i < n
        invariant
            n == nodes.len(),
            i <= n,
            r@.len() == i,
            forall|q: int| 0 <= q < i ==> !r@[q],
        decreases n - i,
    {
        r.push(false);
        i = i + 1;
    }
    let mut c: usize = 0;
    while c < n
        invariant
            nodes == nodes_view(*arena),
            arena_intact(*arena),
            wf_nodes(nodes),
            n == nodes.len(),
            c <= n,
            r@.len() == n,
            forall|p: int| 0 <= p < n ==> r@[p] == exists|q: int| 0 <= q < c && parent_of(nodes, q) == Some(p as StateId) && #[trigger] has_final(data_of(nodes, q).transitions),
        decreases n - c,
    {
        let d = arena_data(arena, c);
        proof { assert(d@ == data_of(nodes, c as int)); }
        let ghost old_r = r@;
        match arena_parent(arena, c) {
            Some(p) => {
                if any_final(&d.transitions) {
                    r.set(p, true);
                }
            },
            None => {},
        }
        proof {
            assert forall|p: int| 0 <= p < n implies r@[p] == exists|q: int| 0 <= q < c + 1 && parent_of(nodes, q) == Some(p as StateId) && #[trigger] has_final(data_of(nodes, q).transitions) by {
                if parent_of(nodes, c as int) == Some(p as StateId) && has_final(data_of(nodes, c as int).transitions) {
                    assert(r@[p]);
                } else {
                    assert(r@[p] == old_r[p]);
                    if exists|q: int| 0 <= q < c + 1 && parent_of(nodes, q) == Some(p as StateId) && #[trigger] has_final(data_of(nodes, q).transitions) {
                        let q = choose|q: int| 0 <= q < c + 1 && parent_of(nodes, q) == Some(p as StateId) && #[trigger] has_final(data_of(nodes, q).transitions);
                        assert(q != c);
                    }
                }
            }
        }
        c = c + 1;
    }
    r
}

/// The transitions of slot `i` once substate exits are redirected.
fn redirected_of(arena: &indextree::Arena<StateData>, i: StateId, consumed_i: bool) -> (r: Vec<TransitionData>)
    requires
        wf_nodes(nodes_view(*arena)),
        arena_intact(*arena),
        i < nodes_view(*arena).len(),
        consumed_i == consumed(nodes_view(*arena), i as int),
    ensures
        tdviews(r@) == redirected_transitions(nodes_view(*arena), i as int),
{
    let ghost nodes = nodes_view(*arena);
    let d = arena_data(arena, i);
    proof { assert(d@ == data_of(nodes, i as int)); assert(tdviews(d.transitions@) == d@.transitions); }
    let t1 = match arena_parent(arena, i) {
        Some(p) => {
            if any_final(&d.transitions) {
                let pd = arena_data(arena, p);
                proof { assert(pd@ == data_of(nodes, p as int)); assert(tdviews(pd.transitions@) == pd@.transitions); }
                let comps = completions_of(&pd.transitions);
                rewrite_transitions(&d.transitions, &comps)
            } else {
                copy_transitions(&d.transitions)
            }
        },
        None => copy_transitions(&d.transitions),
    };
    if consumed_i {
        drop_completions(&t1)
    } else {
        t1
    }
}

/// Redirects each substate exit `Sub --> [*]` onto its parent composite's completion
/// transitions (see [`spec_redirect_substate_exits`]).
pub(crate) fn redirect_substate_exits(arena: &mut indextree::Arena<StateData>)
    requires
        wf_nodes(nodes_view(*old(arena))),
        arena_intact(*old(arena)),
        forall|i: int| 0 <= i < nodes_view(*old(arena)).len() ==> !exit_without_completion(nodes_view(*old(arena)), i),
    ensures
        nodes_view(*final(arena)) == spec_redirect_substate_exits(nodes_view(*old(arena))),
        wf_nodes(nodes_view(*final(arena))),
        arena_intact(*final(arena)),
{
    let ghost nodes = nodes_view(*arena);
    let ghost target = spec_redirect_substate_exits(nodes);
    let n = arena_len(arena);
    let flags = consumed_flags(arena);
    let mut all_new: Vec<Vec<TransitionData>> = Vec::new();
    let mut i: usize = 0;
    while i < n
        invariant
            nodes == nodes_view(*arena),
            arena_intact(*arena),
            wf_nodes(nodes),
            n == nodes.len(),
            i <= n,
            flags@.len() == n,
            forall|p: int| 0 <= p < n ==> flags@[p] == consumed(nodes, p),
            all_new@.len() == i,
            forall|j: int| 0 <= j < i ==> tdviews(#[trigger] all_new@[j]@) == redirected_transitions(nodes, j),
        decreases n - i,
    {
        let ts = redirected_of(arena, i, flags[i]);
        all_new.push(ts);
        i = i + 1;
    }
    while all_new.len() > 0
        invariant
            n == nodes.len(),
            target == spec_redirect_substate_exits(nodes),
            all_new@.len() <= n,
            nodes_view(*arena).len() == n,
            arena_intact(*arena),
            forall|j: int| 0 <= j < all_new@.len() ==> tdviews(#[trigger] all_new@[j]@) == redirected_transitions(nodes, j),
            forall|j: int| 0 <= j < all_new@.len() ==> #[trigger] nodes_view(*arena)[j] == nodes[j],
            forall|j: int| all_new@.len() <= j < n ==> #[trigger] nodes_view(*arena)[j] == target[j],
        decreases all_new@.len(),
    {
        let ts = all_new.pop().unwrap();
        let k = all_new.len();
        let ghost cur = nodes_view(*arena);
        let ghost raw = arena_nodes(*arena);
        proof {
            assert(cur[k as int] == nodes[k as int]);
            assert(cur[k as int] == (raw[k as int].0, raw[k as int].1@));
        }
        let mut d = arena_replace(arena, k, StateData::new(""));
        proof { assert(d@ == nodes[k as int].1); }
        d.transitions = ts;
        let ghost dv = d@;
        let ghost raw_mid = arena_nodes(*arena);
        arena_replace(arena, k, d);
        proof {
            assert(raw_mid[k as int].0 == raw[k as int].0);
            assert(dv == target[k as int].1);
            assert(nodes_view(*arena) =~= cur.update(k as int, (nodes[k as int].0, dv)));
            assert(nodes_view(*arena)[k as int] == target[k as int]);
        }
    }
    proof {
        assert(nodes_view(*arena) =~= target);
        lemma_redirect_wf(nodes);
    }
}

// ---------------------------------------------------------------------------------------------
// Deferred events are inherited from ancestors, unless a transition on the way handles them.

/// The events that trigger the transitions `ts`, in order.
pub open spec fn transition_events(ts: Seq<TransitionView>) -> Seq<Seq<char>>
    decreases ts.len(),
{
    if ts.len() == 0 {
        Seq::empty()
    } else if ts.last().ev() is Some {
        transition_events(ts.drop_last()).push(ts.last().ev()->0)
    } else {
        transition_events(ts.drop_last())
    }
}

/// The events that trigger transitions of slot `i` or of its ancestors, nearest first.
pub open spec fn chain_events(nodes: Nodes, i: int) -> Seq<Seq<char>>
    decreases i,
{
    if 0 <= i < nodes.len() {
        let own = transition_events(data_of(nodes, i).transitions);
        match parent_of(nodes, i) {
            Some(p) => if p < i {
                own + chain_events(nodes, p as int)
            } else {
                own
            },
            None => own,
        }
    } else {
        Seq::empty()
    }
}

/// The events deferred by slot `i` or by its ancestors, nearest first.
pub open spec fn chain_deferred(nodes: Nodes, i: int) -> Seq<Seq<char>>
    decreases i,
{
    if 0 <= i < nodes.len() {
        let own = data_of(nodes, i).deferred_events;
        match parent_of(nodes, i) {
            Some(p) => if p < i {
                own + chain_deferred(nodes, p as int)
            } else {
                own
            },
            None => own,
        }
    } else {
        Seq::empty()
    }
}

/// The elements of `s` that `excluded` does not hold, in order.
pub open spec fn not_in(s: Seq<Seq<char>>, excluded: Seq<Seq<char>>) -> Seq<Seq<char>>
    decreases s.len(),
{
    if s.len() == 0 {
        s
    } else if excluded.contains(s.last()) {
        not_in(s.drop_last(), excluded)
    } else {
        not_in(s.drop_last(), excluded).push(s.last())
    }
}

/// The events slot `i` defers once built: its own and its ancestors' deferred events, nearest
/// first and each once, except those a transition of it or of an ancestor handles.
pub open spec fn inherited_deferred(nodes: Nodes, i: int) -> Seq<Seq<char>> {
    unique_seq(not_in(chain_deferred(nodes, i), chain_events(nodes, i)))
}

/// Every state's deferred events replaced by the inherited ones.
pub open spec fn spec_extract_deferred_events(nodes: Nodes) -> Nodes {
    Seq::new(nodes.len(), |i: int| (parent_of(nodes, i), StateView { deferred_events: inherited_deferred(nodes, i), ..data_of(nodes, i) }))
}

/// The views of owned events.
pub open spec fn evviews(es: Seq<Event>) -> Seq<Seq<char>> {
    es.map_values(|e: Event| e@)
}

/// Whether `es` holds an event named like `e`.
pub fn contains_event(es: &Vec<Event>, e: &Event) -> (r: bool)
    ensures
        r == evviews(es@).contains(e@),
{
    let ghost v = evviews(es@);
    let mut i: usize = 0;
    while i < es.len()
        invariant
            i <= es@.len(),
            v == evviews(es@),
            forall|j: int| 0 <= j < i ==> v[j] != e@,
        decreases es@.len() - i,
    {
        if es[i].same(e) {
            assert(v[i as int] == e@);
            return true;
        }
        i = i + 1;
    }
    false
}

/// Appends the events of the transitions of slot `i` and of its ancestors to `out`.
fn collect_chain_events(arena: &indextree::Arena<StateData>, i: StateId, out: &mut Vec<Event>)
    requires
        wf_nodes(nodes_view(*arena)),
        arena_intact(*arena),
        i < nodes_view(*arena).len(),
    ensures
        evviews(final(out)@) == evviews(old(out)@) + chain_events(nodes_view(*arena), i as int),
    decreases i,
{
    let ghost nodes = nodes_view(*arena);
    let d = arena_data(arena, i);
    proof { assert(d@ == data_of(nodes, i as int)); }
    let ghost start = evviews(out@);
    let ghost tv = tdviews(d.transitions@);
    let mut j: usize = 0;
    while j < d.transitions.len()
        invariant
            j <= d.transitions@.len(),
            tv == tdviews(d.transitions@),
            evviews(out@) == start + transition_events(tv.take(j as int)),
        decreases d.transitions@.len() - j,
    {
        proof {
            assert(tv.take(j + 1).drop_last() =~= tv.take(j as int));
            assert(tv.take(j + 1).last() == d.transitions@[j as int]@);
        }
        match d.transitions[j].event() {
            Some(e) => {
                let ghost before = out@;
                out.push(e.duplicate());
                proof { assert(evviews(out@) =~= evviews(before).push(e@)); }
            },
            None => {},
        }
        j = j + 1;
    }
    proof { assert(tv.take(d.transitions@.len() as int) =~= tv); assert(tv == d@.transitions); }
    match arena_parent(arena, i) {
        Some(p) => {
            proof { assert(parent_of(nodes, i as int) == Some(p)); assert(p < i); }
            let ghost mid = evviews(out@);
            collect_chain_events(arena, p, out);
            proof {
                assert(evviews(out@) =~= start + chain_events(nodes, i as int));
            }
        },
        None => {
            proof { assert(evviews(out@) =~= start + chain_events(nodes, i as int)); }
        },
    }
}

/// Appending an element to a filtered sequence.
pub proof fn lemma_not_in_push(s: Seq<Seq<char>>, x: Seq<char>, ex: Seq<Seq<char>>)
    ensures
        not_in(s.push(x), ex) == if ex.contains(x) { not_in(s, ex) } else { not_in(s, ex).push(x) },
{
    assert(s.push(x).drop_last() =~= s);
}

/// `unique_seq` of a sequence with one more element.
pub proof fn lemma_unique_push<A>(s: Seq<A>, x: A)
    ensures
        unique_seq(s.push(x)) == if s.contains(x) { unique_seq(s) } else { unique_seq(s).push(x) },
{
    assert(s.push(x).drop_last() =~= s);
}

/// Adds the not-excluded events deferred by slot `i` and its ancestors to `out`, each once.
fn collect_chain_deferred(arena: &indextree::Arena<StateData>, i: StateId, excluded: &Vec<Event>, out: &mut Vec<Event>, Ghost(pre): Ghost<Seq<Seq<char>>>)
    requires
        wf_nodes(nodes_view(*arena)),
        arena_intact(*arena),
        i < nodes_view(*arena).len(),
        evviews(old(out)@) == unique_seq(not_in(pre, evviews(excluded@))),
    ensures
        evviews(final(out)@) == unique_seq(not_in(pre + chain_deferred(nodes_view(*arena), i as int), evviews(excluded@))),
    decreases i,
{
    let ghost nodes = nodes_view(*arena);
    let ghost ex = evviews(excluded@);
    let d = arena_data(arena, i);
    proof { assert(d@ == data_of(nodes, i as int)); }
    let ghost dv = evviews(d.deferred_events@);
    let mut j: usize = 0;
    while j < d.deferred_events.len()
        invariant
            j <= d.deferred_events@.len(),
            dv == evviews(d.deferred_events@),
            ex == evviews(excluded@),
            evviews(out@) == unique_seq(not_in(pre + dv.take(j as int), ex)),
        decreases d.deferred_events@.len() - j,
    {
        let e = &d.deferred_events[j];
        proof {
            assert(pre + dv.take(j + 1) =~= (pre + dv.take(j as int)).push(e@));
            lemma_not_in_push(pre + dv.take(j as int), e@, ex);
            lemma_unique_push(not_in(pre + dv.take(j as int), ex), e@);
            lemma_unique_contains(not_in(pre + dv.take(j as int), ex), e@);
        }
        if !contains_event(excluded, e) && !contains_event(out, e) {
            let ghost before = out@;
            out.push(e.duplicate());
            proof { assert(evviews(out@) =~= evviews(before).push(e@)); }
        }
        j = j + 1;
    }
    proof { assert(dv.take(d.deferred_events@.len() as int) =~= dv); assert(dv == d@.deferred_events); }
    match arena_parent(arena, i) {
        Some(p) => {
            proof { assert(parent_of(nodes, i as int) == Some(p)); assert(p < i); }
            collect_chain_deferred(arena, p, excluded, out, Ghost(pre + dv));
            proof {
                assert(pre + dv + chain_deferred(nodes, p as int) =~= pre + chain_deferred(nodes, i as int));
            }
        },
        None => {
            proof { assert(pre + dv =~= pre + chain_deferred(nodes, i as int)); }
        },
    }
}

/// The events slot `i` defers once built (see [`inherited_deferred`]).
fn inherited_deferred_of(arena: &indextree::Arena<StateData>, i: StateId) -> (r: Vec<Event>)
    requires
        wf_nodes(nodes_view(*arena)),
        arena_intact(*arena),
        i < nodes_view(*arena).len(),
    ensures
        evviews(r@) == inherited_deferred(nodes_view(*arena), i as int),
{
    let mut excluded: Vec<Event> = Vec::new();
    proof { assert(evviews(excluded@) =~= Seq::<Seq<char>>::empty()); }
    collect_chain_events(arena, i, &mut excluded);
    proof { assert(evviews(excluded@) =~= chain_events(nodes_view(*arena), i as int)); }
    let mut out: Vec<Event> = Vec::new();
    let ghost empty = Seq::<Seq<char>>::empty();
    proof {
        assert(evviews(out@) =~= empty);
        assert(unique_seq(not_in(empty, evviews(excluded@))) =~= empty);
    }
    collect_chain_deferred(arena, i, &excluded, &mut out, Ghost(empty));
    proof { assert(empty + chain_deferred(nodes_view(*arena), i as int) =~= chain_deferred(nodes_view(*arena), i as int)); }
    out
}

/// Replaces every state's deferred events by the ones it inherits (see
/// [`inherited_deferred`]).
pub(crate) fn extract_deferred_events(arena: &mut indextree::Arena<StateData>)
    requires
        wf_nodes(nodes_view(*old(arena))),
        arena_intact(*old(arena)),
    ensures
        nodes_view(*final(arena)) == spec_extract_deferred_events(nodes_view(*old(arena))),
        wf_nodes(nodes_view(*final(arena))),
        arena_intact(*final(arena)),
{
    let ghost nodes = nodes_view(*arena);
    let ghost target = spec_extract_deferred_events(nodes);
    let n = arena_len(arena);
    let mut all_new: Vec<Vec<Event>> = Vec::new();
    let mut i: usize = 0;
    while i < n
        invariant
            nodes == nodes_view(*arena),
            arena_intact(*arena),
            wf_nodes(nodes),
            n == nodes.len(),
            i <= n,
            all_new@.len() == i,
            forall|j: int| 0 <= j < i ==> evviews(#[trigger] all_new@[j]@) == inherited_deferred(nodes, j),
        decreases n - i,
    {
        let es = inherited_deferred_of(arena, i);
        all_new.push(es);
        i = i + 1;
    }
    while all_new.len() > 0
        invariant
            n == nodes.len(),
            target == spec_extract_deferred_events(nodes),
            all_new@.len() <= n,
            nodes_view(*arena).len() == n,
            arena_intact(*arena),
            forall|j: int| 0 <= j < all_new@.len() ==> evviews(#[trigger] all_new@[j]@) == inherited_deferred(nodes, j),
            forall|j: int| 0 <= j < all_new@.len() ==> #[trigger] nodes_view(*arena)[j] == nodes[j],
            forall|j: int| all_new@.len() <= j < n ==> #[trigger] nodes_view(*arena)[j] == target[j],
        decreases all_new@.len(),
    {
        let es = all_new.pop().unwrap();
        let k = all_new.len();
        let ghost cur = nodes_view(*arena);
        let ghost raw = arena_nodes(*arena);
        proof {
            assert(cur[k as int] == nodes[k as int]);
            assert(cur[k as int] == (raw[k as int].0, raw[k as int].1@));
        }
        let mut d = arena_replace(arena, k, StateData::new(""));
        d.deferred_events = es;
        let ghost dv = d@;
        let ghost raw_mid = arena_nodes(*arena);
        arena_replace(arena, k, d);
        proof {
            assert(raw_mid[k as int].0 == raw[k as int].0);
            assert(dv.deferred_events == target[k as int].1.deferred_events);
            assert(dv == target[k as int].1);
            assert(nodes_view(*arena) =~= cur.update(k as int, (nodes[k as int].0, dv)));
        }
    }
    proof {
        let fin = nodes_view(*arena);
        assert(fin =~= target);
        assert forall|i: int| 0 <= i < fin.len() implies (#[trigger] parent_of(fin, i) matches Some(p) ==> p < i) by {
            assert(parent_of(fin, i) == parent_of(nodes, i));
        }
        assert forall|i: int, j: int|
            0 <= i < fin.len() && 0 <= j < data_of(fin, i).transitions.len()
                implies (#[trigger] data_of(fin, i).transitions[j]).ids_below(fin.len()) by {
            assert(data_of(fin, i).transitions == data_of(nodes, i).transitions);
        }
        assert forall|i: int| 0 <= i < fin.len() implies (#[trigger] data_of(fin, i).enter_state matches Some(e) ==> e < fin.len()) by {
            assert(data_of(fin, i).enter_state == data_of(nodes, i).enter_state);
        }
    }
}

} // verus!
