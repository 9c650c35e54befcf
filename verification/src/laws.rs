//! Properties of the builder and of the FSMs it builds, stated over the models the operations'
//! contracts use.
use vstd::prelude::*;

use crate::arena::{data_of, in_scope, in_scope_below, is_below, parent_of, wf_nodes, Nodes};
use crate::builder::{
    first_named, named_in, spec_add_state, spec_add_transition, spec_build, spec_create, spec_decorate, spec_find_or_create,
    spec_mark_enter, spec_push_transition, with_state, DecorationView,
};
use crate::enter::{deepest_enter, enter_child, is_enter_child, is_root_enter, names_of, root_enters, spec_find_root_enter, spec_link_enter_states};
use crate::inheritance::{
    chain_deferred, chain_events, completions, has_final, transition_events, inherited_deferred, is_substate_exit, not_in, redirect_one, redirect_transition,
    redirected_transitions, rewritten, spec_extract_deferred_events, spec_redirect_substate_exits, spec_substate_exits_complete,
    without_completions,
};
use crate::model::{fresh_state, has_enter, ParamsView, StateId, StateView, TransitionKind, TransitionView};
use crate::text::{first_where, is_blank, lemma_first_where, unique_seq};
use crate::extract::{eventless_labels, labelled_pairs};
use crate::fsm::fsm_transitions;
use crate::validation::{
    action_clash, action_conflicted, all_transitions, first_rival, group_clash, has_rival, lemma_unique_contains,
    spec_injective_action_mapping, spec_no_conflicting_transitions, spec_unique_guards_per_event, trans_upto,
};

verus! {

/// `first_named` from `k` finds exactly the first matching slot from `k` on.
proof fn lemma_first_named(nodes: Nodes, scope: Option<StateId>, name: Seq<char>, below: bool, k: int)
    requires
        0 <= k,
        nodes.len() <= usize::MAX,
    ensures
        first_named(nodes, scope, name, below, k) matches Some(i) ==> k <= i < nodes.len()
            && named_in(nodes, scope, name, below, i as int)
            && forall|j: int| k <= j < i ==> !#[trigger] named_in(nodes, scope, name, below, j),
        first_named(nodes, scope, name, below, k) is None ==> forall|j: int|
            k <= j < nodes.len() ==> !#[trigger] named_in(nodes, scope, name, below, j),
    decreases nodes.len() - k,
{
    if k < nodes.len() {
        lemma_first_named(nodes, scope, name, below, k + 1);
    }
}

/// A matching slot with no match before it (from `k` on) is what `first_named` finds.
proof fn lemma_first_named_at(nodes: Nodes, scope: Option<StateId>, name: Seq<char>, below: bool, k: int, i: int)
    requires
        0 <= k <= i,
        named_in(nodes, scope, name, below, i),
        forall|j: int| k <= j < i ==> !#[trigger] named_in(nodes, scope, name, below, j),
        i <= usize::MAX,
    ensures
        first_named(nodes, scope, name, below, k) == Some(i as StateId),
    decreases i - k,
{
    if k < i {
        assert(!named_in(nodes, scope, name, below, k));
        lemma_first_named_at(nodes, scope, name, below, k + 1, i);
    }
}

/// Marking a state initial a second time changes nothing: `[*] --> S` twice in one scope
/// leaves the same states as once.
pub proof fn law_enter_state_idempotent(nodes: Nodes, scope: Option<StateId>, name: Seq<char>)
    requires
        nodes.len() + 2 < usize::MAX,
    ensures
        ({
            let once = spec_add_transition(nodes, scope, TransitionKind::Enter { target: name });
            spec_add_transition(once, scope, TransitionKind::Enter { target: name }) == once
        }),
{
    let (n1, id) = spec_add_state(nodes, scope, name);
    lemma_first_named(nodes, scope, name, false, 0);
    match first_named(nodes, scope, name, false, 0) {
        Some(i) => {
            assert(n1 == nodes && id == i);
        },
        None => {
            assert(n1 == nodes.push((scope, fresh_state(name))));
            assert forall|j: int| 0 <= j < nodes.len() implies !#[trigger] named_in(n1, scope, name, false, j) by {
                assert(n1[j] == nodes[j]);
                assert(!named_in(nodes, scope, name, false, j));
            }
            assert(named_in(n1, scope, name, false, nodes.len() as int));
            lemma_first_named_at(n1, scope, name, false, 0, nodes.len() as int);
        },
    }
    assert(first_named(n1, scope, name, false, 0) == Some(id));
    lemma_first_named(n1, scope, name, false, 0);
    let n2 = spec_mark_enter(n1, id);
    assert(n2.len() == n1.len());
    assert forall|j: int| 0 <= j < n2.len() implies
        #[trigger] named_in(n2, scope, name, false, j) == named_in(n1, scope, name, false, j) by {
        assert(parent_of(n2, j) == parent_of(n1, j));
        assert(data_of(n2, j).name == data_of(n1, j).name);
    }
    assert forall|j: int| 0 <= j < id implies !#[trigger] named_in(n2, scope, name, false, j) by {
        assert(named_in(n2, scope, name, false, j) == named_in(n1, scope, name, false, j));
    }
    lemma_first_named_at(n2, scope, name, false, 0, id as int);
    assert(spec_add_state(n2, scope, name) == (n2, id));
    let ts = data_of(n2, id as int).transitions;
    if !has_enter(data_of(n1, id as int).transitions) {
        assert(ts[ts.len() - 1] is Enter);
    }
    assert(has_enter(ts));
    assert(spec_mark_enter(n2, id) == n2);
}


/// Two arenas with the same states, parents and transitions (actions, deferred events and
/// enter links may differ).
pub open spec fn same_structure(a: Nodes, b: Nodes) -> bool {
    &&& a.len() == b.len()
    &&& forall|i: int| 0 <= i < a.len() ==> #[trigger] parent_of(a, i) == parent_of(b, i)
    &&& forall|i: int| 0 <= i < a.len() ==> #[trigger] data_of(a, i).transitions == data_of(b, i).transitions
}

/// `first_where` only looks at the range it scans.
proof fn lemma_first_where_same(n: int, p: spec_fn(int) -> bool, q: spec_fn(int) -> bool, k: int)
    requires
        forall|j: int| k <= j < n ==> #[trigger] p(j) == q(j),
    ensures
        first_where(n, p, k) == first_where(n, q, k),
    decreases n - k,
{
    if 0 <= k < n {
        lemma_first_where_same(n, p, q, k + 1);
    }
}

/// Arenas of the same structure list the same transitions.
proof fn lemma_same_transitions(a: Nodes, b: Nodes, i: int)
    requires
        same_structure(a, b),
        i <= a.len(),
    ensures
        trans_upto(a, i) == trans_upto(b, i),
    decreases i,
{
    if i > 0 {
        lemma_same_transitions(a, b, i - 1);
        assert(data_of(a, i - 1).transitions == data_of(b, i - 1).transitions);
    }
}

/// Arenas of the same structure enter the same states.
proof fn lemma_same_deepest(a: Nodes, b: Nodes, i: int)
    requires
        same_structure(a, b),
    ensures
        deepest_enter(a, i) == deepest_enter(b, i),
    decreases a.len() - i,
{
    let p = |j: int| is_enter_child(a, i, j);
    let q = |j: int| is_enter_child(b, i, j);
    assert forall|j: int| 0 <= j < a.len() implies #[trigger] p(j) == q(j) by {
        assert(parent_of(a, j) == parent_of(b, j));
        assert(data_of(a, j).transitions == data_of(b, j).transitions);
    }
    lemma_first_where_same(a.len() as int, p, q, 0);
    assert(enter_child(a, i) == enter_child(b, i));
    if let Some(c) = enter_child(a, i) {
        if i < c < a.len() {
            lemma_same_deepest(a, b, c);
        }
    }
}

/// Arenas of the same structure see the same events along each chain of ancestors.
proof fn lemma_same_chain_events(a: Nodes, b: Nodes, i: int)
    requires
        same_structure(a, b),
    ensures
        chain_events(a, i) == chain_events(b, i),
    decreases i,
{
    if 0 <= i < a.len() {
        assert(parent_of(a, i) == parent_of(b, i));
        assert(data_of(a, i).transitions == data_of(b, i).transitions);
        if let Some(p) = parent_of(a, i) {
            if p < i {
                lemma_same_chain_events(a, b, p as int);
            }
        }
    }
}

/// `unique_seq` holds each element once.
proof fn lemma_unique_seq_no_duplicates<A>(s: Seq<A>)
    ensures
        unique_seq(s).no_duplicates(),
    decreases s.len(),
{
    if s.len() > 0 {
        lemma_unique_seq_no_duplicates(s.drop_last());
        let u = unique_seq(s.drop_last());
        if !s.drop_last().contains(s.last()) {
            lemma_unique_contains(s.drop_last(), s.last());
            assert(!u.contains(s.last()));
            let v = u.push(s.last());
            assert forall|x: int, y: int| 0 <= x < v.len() && 0 <= y < v.len() && x != y implies v[x] != v[y] by {
                if x < u.len() && y < u.len() {
                    assert(v[x] == u[x] && v[y] == u[y]);
                } else if x < u.len() {
                    assert(v[x] == u[x]);
                } else {
                    assert(v[y] == u[y]);
                }
            }
        }
    }
}

/// `not_in` keeps nothing of what it excludes.
proof fn lemma_not_in(s: Seq<Seq<char>>, ex: Seq<Seq<char>>, x: Seq<char>)
    requires
        not_in(s, ex).contains(x),
    ensures
        !ex.contains(x),
    decreases s.len(),
{
    if s.len() > 0 {
        let prev = not_in(s.drop_last(), ex);
        if !ex.contains(s.last()) {
            let k = choose|k: int| 0 <= k < prev.len() + 1 && prev.push(s.last())[k] == x;
            if k < prev.len() {
                assert(prev[k] == x);
                lemma_not_in(s.drop_last(), ex, x);
            }
        } else {
            lemma_not_in(s.drop_last(), ex, x);
        }
    }
}

/// What a successful build went through: substate exits were redirected, the checks passed on
/// the redirected transitions, and the result is that arena with deferred events inherited and
/// enter links set.
proof fn lemma_build_ok(name: Seq<char>, nodes: Nodes)
    requires
        spec_build(name, nodes) is Ok,
    ensures
        ({
            let n1 = spec_redirect_substate_exits(nodes);
            let n2 = spec_extract_deferred_events(n1);
            let f = spec_build(name, nodes)->Ok_0;
            &&& f.nodes == spec_link_enter_states(n2)
            &&& f.name == name
            &&& !is_blank(name)
            &&& spec_find_root_enter(f.nodes) == Ok::<StateId, crate::error::BuildErrorView>(f.enter_state)
            &&& spec_injective_action_mapping(all_transitions(n1)) is Ok
            &&& spec_no_conflicting_transitions(n1, all_transitions(n1)) is Ok
            &&& spec_unique_guards_per_event(all_transitions(n1)) is Ok
            &&& same_structure(n1, n2)
            &&& same_structure(n2, f.nodes)
            &&& forall|i: int| 0 <= i < n1.len() ==> #[trigger] data_of(n1, i).transitions == redirected_transitions(nodes, i)
            &&& forall|i: int| 0 <= i < n2.len() ==> #[trigger] data_of(n2, i).deferred_events == inherited_deferred(n1, i)
            &&& forall|i: int| 0 <= i < f.nodes.len() ==> #[trigger] data_of(f.nodes, i).enter_state == Some(deepest_enter(n2, i) as StateId)
        }),
{
    let n1 = spec_redirect_substate_exits(nodes);
    let n2 = spec_extract_deferred_events(n1);
    let n3 = spec_link_enter_states(n2);
    assert forall|i: int| 0 <= i < n1.len() implies #[trigger] parent_of(n1, i) == parent_of(n2, i) by {}
    assert forall|i: int| 0 <= i < n1.len() implies #[trigger] data_of(n1, i).transitions == data_of(n2, i).transitions by {}
    assert forall|i: int| 0 <= i < n2.len() implies #[trigger] parent_of(n2, i) == parent_of(n3, i) by {}
    assert forall|i: int| 0 <= i < n2.len() implies #[trigger] data_of(n2, i).transitions == data_of(n3, i).transitions by {}
}

/// A built FSM chooses deterministically and maps each action to one event: no two transitions
/// of a state for one event (or none) are both unguarded or share a guard, and no action is
/// the effect of transitions triggered by different events.
pub proof fn law_built_fsm_is_deterministic(name: Seq<char>, nodes: Nodes)
    requires
        spec_build(name, nodes) is Ok,
    ensures
        ({
            let ts = all_transitions(spec_build(name, nodes)->Ok_0.nodes);
            forall|k: int, m: int| 0 <= k < ts.len() && 0 <= m < ts.len() ==>
                !#[trigger] group_clash(ts, k, m, false) && !group_clash(ts, k, m, true) && !action_clash(ts, k, m)
        }),
{
    lemma_build_ok(name, nodes);
    let n1 = spec_redirect_substate_exits(nodes);
    let n2 = spec_extract_deferred_events(n1);
    let f = spec_build(name, nodes)->Ok_0;
    let t1 = all_transitions(n1);
    lemma_same_transitions(n1, n2, n1.len() as int);
    lemma_same_transitions(n2, f.nodes, n2.len() as int);
    let ts = all_transitions(f.nodes);
    assert(ts == t1);
    let pu = |k: int| has_rival(t1, k, false);
    let pg = |k: int| has_rival(t1, k, true);
    let pa = |k: int| action_conflicted(t1, k);
    lemma_first_where(t1.len() as int, pu, 0);
    lemma_first_where(t1.len() as int, pg, 0);
    lemma_first_where(t1.len() as int, pa, 0);
    assert(first_rival(t1, false) is None);
    assert(first_rival(t1, true) is None);
    assert forall|k: int, m: int| 0 <= k < ts.len() && 0 <= m < ts.len() implies
        !#[trigger] group_clash(ts, k, m, false) && !group_clash(ts, k, m, true) && !action_clash(ts, k, m) by {
        assert(!pu(k));
        assert(!pg(k));
        assert(!pa(k));
    }
}

/// No transition of `comps` exits to the final pseudo-state.
pub open spec fn no_final(ts: Seq<TransitionView>) -> bool {
    forall|j: int| 0 <= j < ts.len() ==> !(#[trigger] ts[j] is Final)
}

/// Completions are completion transitions.
proof fn lemma_completions_direct(ts: Seq<TransitionView>)
    ensures
        forall|j: int| 0 <= j < completions(ts).len() ==> #[trigger] completions(ts)[j] is Direct,
    decreases ts.len(),
{
    if ts.len() > 0 {
        lemma_completions_direct(ts.drop_last());
        let prev = completions(ts.drop_last());
        assert forall|j: int| 0 <= j < completions(ts).len() implies #[trigger] completions(ts)[j] is Direct by {
            if j < prev.len() {
                assert(completions(ts)[j] == prev[j]);
            }
        }
    }
}

/// Dropping completions keeps a sequence free of exits.
proof fn lemma_without_completions_no_final(ts: Seq<TransitionView>)
    requires
        no_final(ts),
    ensures
        no_final(without_completions(ts)),
    decreases ts.len(),
{
    if ts.len() > 0 {
        assert(no_final(ts.drop_last())) by {
            assert forall|j: int| 0 <= j < ts.drop_last().len() implies !(#[trigger] ts.drop_last()[j] is Final) by {
                assert(ts.drop_last()[j] == ts[j]);
            }
        }
        lemma_without_completions_no_final(ts.drop_last());
        let prev = without_completions(ts.drop_last());
        let cur = without_completions(ts);
        assert(ts.last() == ts[ts.len() - 1]);
        assert forall|j: int| 0 <= j < cur.len() implies !(#[trigger] cur[j] is Final) by {
            if j < prev.len() {
                assert(cur[j] == prev[j]);
            }
        }
    }
}

/// Fanning exits out over completion transitions leaves no exit.
proof fn lemma_rewritten_no_final(ts: Seq<TransitionView>, comps: Seq<TransitionView>)
    requires
        forall|j: int| 0 <= j < comps.len() ==> #[trigger] comps[j] is Direct,
    ensures
        no_final(rewritten(ts, comps)),
    decreases ts.len(),
{
    if ts.len() > 0 {
        lemma_rewritten_no_final(ts.drop_last(), comps);
        let prev = rewritten(ts.drop_last(), comps);
        let tail = redirect_transition(ts.last(), comps);
        assert(no_final(tail)) by {
            assert forall|j: int| 0 <= j < tail.len() implies !(#[trigger] tail[j] is Final) by {
                if ts.last() is Final {
                    assert(comps[j] is Direct);
                }
            }
        }
        let cur = rewritten(ts, comps);
        assert forall|j: int| 0 <= j < cur.len() implies !(#[trigger] cur[j] is Final) by {
            if j < prev.len() {
                assert(cur[j] == prev[j]);
            } else {
                assert(cur[j] == tail[j - prev.len()]);
            }
        }
    }
}

/// In a built FSM only top-level states exit to the final pseudo-state: a substate's exit
/// has been handed off to its parent's completion transitions.
pub proof fn law_built_substates_hand_off(name: Seq<char>, nodes: Nodes)
    requires
        spec_build(name, nodes) is Ok,
    ensures
        ({
            let f = spec_build(name, nodes)->Ok_0;
            forall|i: int| 0 <= i < f.nodes.len() && #[trigger] parent_of(f.nodes, i) is Some
                ==> !has_final(data_of(f.nodes, i).transitions)
        }),
{
    lemma_build_ok(name, nodes);
    let n1 = spec_redirect_substate_exits(nodes);
    let n2 = spec_extract_deferred_events(n1);
    let f = spec_build(name, nodes)->Ok_0;
    assert forall|i: int| 0 <= i < f.nodes.len() && #[trigger] parent_of(f.nodes, i) is Some
        implies !has_final(data_of(f.nodes, i).transitions) by {
        assert(parent_of(f.nodes, i) == parent_of(n2, i));
        assert(parent_of(n2, i) == parent_of(n1, i));
        assert(data_of(f.nodes, i).transitions == data_of(n2, i).transitions);
        assert(data_of(n2, i).transitions == data_of(n1, i).transitions);
        assert(data_of(n1, i).transitions == redirected_transitions(nodes, i));
        assert(parent_of(n1, i) == parent_of(nodes, i));
        let own = data_of(nodes, i).transitions;
        if is_substate_exit(nodes, i) {
            let comps = completions(data_of(nodes, parent_of(nodes, i)->0 as int).transitions);
            lemma_completions_direct(data_of(nodes, parent_of(nodes, i)->0 as int).transitions);
            lemma_rewritten_no_final(own, comps);
            lemma_without_completions_no_final(rewritten(own, comps));
        } else {
            assert(no_final(own));
            lemma_without_completions_no_final(own);
        }
        let ts = data_of(f.nodes, i).transitions;
        assert(no_final(ts));
    }
}

/// In a built FSM each state defers every event at most once, and never one that a transition
/// of it or of one of its ancestors handles.
pub proof fn law_built_deferred_events(name: Seq<char>, nodes: Nodes)
    requires
        spec_build(name, nodes) is Ok,
    ensures
        ({
            let f = spec_build(name, nodes)->Ok_0;
            forall|i: int| 0 <= i < f.nodes.len() ==> {
                let d = #[trigger] data_of(f.nodes, i).deferred_events;
                &&& d.no_duplicates()
                &&& forall|e: Seq<char>| d.contains(e) ==> !chain_events(f.nodes, i).contains(e)
            }
        }),
{
    lemma_build_ok(name, nodes);
    let n1 = spec_redirect_substate_exits(nodes);
    let n2 = spec_extract_deferred_events(n1);
    let f = spec_build(name, nodes)->Ok_0;
    assert forall|i: int| 0 <= i < f.nodes.len() implies {
        let d = #[trigger] data_of(f.nodes, i).deferred_events;
        &&& d.no_duplicates()
        &&& forall|e: Seq<char>| d.contains(e) ==> !chain_events(f.nodes, i).contains(e)
    } by {
        let d = data_of(f.nodes, i).deferred_events;
        assert(d == data_of(n2, i).deferred_events);
        assert(d == inherited_deferred(n1, i));
        let t = not_in(crate::inheritance::chain_deferred(n1, i), chain_events(n1, i));
        lemma_unique_seq_no_duplicates(t);
        lemma_same_chain_events(n1, n2, i);
        lemma_same_chain_events(n2, f.nodes, i);
        assert forall|e: Seq<char>| d.contains(e) implies !chain_events(f.nodes, i).contains(e) by {
            lemma_unique_contains(t, e);
            lemma_not_in(crate::inheritance::chain_deferred(n1, i), chain_events(n1, i), e);
        }
    }
}

/// In a built FSM every state knows the state it enters, and the FSM starts in the state
/// entered from its one top-level initial state; its name is not blank.
pub proof fn law_built_enter_states(name: Seq<char>, nodes: Nodes)
    requires
        spec_build(name, nodes) is Ok,
    ensures
        ({
            let f = spec_build(name, nodes)->Ok_0;
            &&& forall|i: int| 0 <= i < f.nodes.len() ==> #[trigger] data_of(f.nodes, i).enter_state == Some(deepest_enter(f.nodes, i) as StateId)
            &&& root_enters(f.nodes, f.nodes.len() as int).len() == 1
            &&& f.enter_state == deepest_enter(f.nodes, root_enters(f.nodes, f.nodes.len() as int)[0]) as StateId
            &&& f.name == name
            &&& !is_blank(f.name)
        }),
{
    lemma_build_ok(name, nodes);
    let n1 = spec_redirect_substate_exits(nodes);
    let n2 = spec_extract_deferred_events(n1);
    let f = spec_build(name, nodes)->Ok_0;
    assert forall|i: int| 0 <= i < f.nodes.len() implies #[trigger] data_of(f.nodes, i).enter_state == Some(deepest_enter(f.nodes, i) as StateId) by {
        lemma_same_deepest(n2, f.nodes, i);
    }
}

/// Building keeps the collected states: the same forest of names, with the same enter and
/// exit actions.
pub proof fn law_build_keeps_states(name: Seq<char>, nodes: Nodes)
    requires
        spec_build(name, nodes) is Ok,
    ensures
        ({
            let f = spec_build(name, nodes)->Ok_0;
            &&& f.nodes.len() == nodes.len()
            &&& forall|i: int| 0 <= i < nodes.len() ==> #[trigger] parent_of(f.nodes, i) == parent_of(nodes, i)
                && data_of(f.nodes, i).name == data_of(nodes, i).name
                && data_of(f.nodes, i).enter_action == data_of(nodes, i).enter_action
                && data_of(f.nodes, i).exit_action == data_of(nodes, i).exit_action
        }),
{
    lemma_build_ok(name, nodes);
}

/// Every element of `ts` that is not a completion transition survives `without_completions`.
proof fn lemma_without_completions_keeps(ts: Seq<TransitionView>, t: TransitionView)
    requires
        ts.contains(t),
        !(t is Direct),
    ensures
        without_completions(ts).contains(t),
    decreases ts.len(),
{
    let k = choose|k: int| 0 <= k < ts.len() && ts[k] == t;
    if k == ts.len() - 1 {
        let w = without_completions(ts);
        assert(w[w.len() - 1] == t);
    } else {
        assert(ts.drop_last()[k] == t);
        lemma_without_completions_keeps(ts.drop_last(), t);
        let prev = without_completions(ts.drop_last());
        let j = choose|j: int| 0 <= j < prev.len() && prev[j] == t;
        if !(ts.last() is Direct) {
            assert(without_completions(ts)[j] == t);
        }
    }
}

/// A top-level exit to the final pseudo-state is left alone: building keeps every exit of a
/// top-level state.
pub proof fn law_top_level_exits_kept(name: Seq<char>, nodes: Nodes)
    requires
        spec_build(name, nodes) is Ok,
    ensures
        ({
            let f = spec_build(name, nodes)->Ok_0;
            forall|i: int, j: int| 0 <= i < nodes.len() && parent_of(nodes, i) is None
                && 0 <= j < data_of(nodes, i).transitions.len()
                && (#[trigger] data_of(nodes, i).transitions[j]) is Final
                ==> data_of(f.nodes, i).transitions.contains(data_of(nodes, i).transitions[j])
        }),
{
    lemma_build_ok(name, nodes);
    let n1 = spec_redirect_substate_exits(nodes);
    let n2 = spec_extract_deferred_events(n1);
    let f = spec_build(name, nodes)->Ok_0;
    assert forall|i: int, j: int| 0 <= i < nodes.len() && parent_of(nodes, i) is None
        && 0 <= j < data_of(nodes, i).transitions.len()
        && (#[trigger] data_of(nodes, i).transitions[j]) is Final
        implies data_of(f.nodes, i).transitions.contains(data_of(nodes, i).transitions[j]) by {
        let own = data_of(nodes, i).transitions;
        let t = own[j];
        assert(data_of(f.nodes, i).transitions == data_of(n2, i).transitions);
        assert(data_of(n2, i).transitions == data_of(n1, i).transitions);
        assert(data_of(n1, i).transitions == redirected_transitions(nodes, i));
        assert(!is_substate_exit(nodes, i));
        assert(own.contains(t));
        lemma_without_completions_keeps(own, t);
    }
}

/// Each list the extraction gives holds every item once: events, (action, event) and
/// (guard, event) pairs, and the actions and guards of transitions no event triggers.
pub proof fn law_extracted_lists_unique(nodes: Nodes)
    ensures
        unique_seq(crate::inheritance::transition_events(fsm_transitions(nodes))).no_duplicates(),
        unique_seq(labelled_pairs(fsm_transitions(nodes), false)).no_duplicates(),
        unique_seq(labelled_pairs(fsm_transitions(nodes), true)).no_duplicates(),
        unique_seq(eventless_labels(fsm_transitions(nodes), false)).no_duplicates(),
        unique_seq(eventless_labels(fsm_transitions(nodes), true)).no_duplicates(),
{
    lemma_unique_seq_no_duplicates(crate::inheritance::transition_events(fsm_transitions(nodes)));
    lemma_unique_seq_no_duplicates(labelled_pairs(fsm_transitions(nodes), false));
    lemma_unique_seq_no_duplicates(labelled_pairs(fsm_transitions(nodes), true));
    lemma_unique_seq_no_duplicates(eventless_labels(fsm_transitions(nodes), false));
    lemma_unique_seq_no_duplicates(eventless_labels(fsm_transitions(nodes), true));
}

/// Every state owns at most one `Enter` pseudo-transition.
pub open spec fn single_enter(nodes: Nodes) -> bool {
    forall|i: int, j: int, k: int|
        0 <= i < nodes.len() && 0 <= j < k < data_of(nodes, i).transitions.len()
            ==> !(#[trigger] data_of(nodes, i).transitions[j] is Enter && #[trigger] data_of(nodes, i).transitions[k] is Enter)
}

/// Finding or creating a state keeps every state's transitions.
proof fn lemma_find_or_create_single(nodes: Nodes, scope: Option<StateId>, name: Seq<char>, below: bool)
    requires
        single_enter(nodes),
    ensures
        single_enter(spec_find_or_create(nodes, scope, name).0),
        single_enter(spec_add_state(nodes, scope, name).0),
{
    let created = spec_create(nodes, scope, name).0;
    assert forall|i: int, j: int, k: int|
        0 <= i < created.len() && 0 <= j < k < data_of(created, i).transitions.len()
            implies !(#[trigger] data_of(created, i).transitions[j] is Enter && #[trigger] data_of(created, i).transitions[k] is Enter) by {
        if i < nodes.len() {
            assert(data_of(created, i) == data_of(nodes, i));
        }
    }
}

/// Appending a transition that is not `Enter` keeps at most one `Enter` per state.
proof fn lemma_push_other_single(nodes: Nodes, id: StateId, t: TransitionView)
    requires
        single_enter(nodes),
        id < nodes.len(),
        !(t is Enter),
    ensures
        single_enter(spec_push_transition(nodes, id, t)),
{
    let n2 = spec_push_transition(nodes, id, t);
    assert forall|i: int, j: int, k: int|
        0 <= i < n2.len() && 0 <= j < k < data_of(n2, i).transitions.len()
            implies !(#[trigger] data_of(n2, i).transitions[j] is Enter && #[trigger] data_of(n2, i).transitions[k] is Enter) by {
        if i == id {
            let old_ts = data_of(nodes, i).transitions;
            assert(data_of(n2, i).transitions == old_ts.push(t));
            if k < old_ts.len() {
                assert(data_of(n2, i).transitions[j] == old_ts[j]);
                assert(data_of(n2, i).transitions[k] == old_ts[k]);
            }
        } else {
            assert(data_of(n2, i) == data_of(nodes, i));
        }
    }
}

/// Every builder operation keeps each state owning at most one `Enter` pseudo-transition:
/// marking a state initial twice adds no second one.
pub proof fn law_single_enter_kept(nodes: Nodes, scope: Option<StateId>, p: ParamsView, name: Seq<char>, dec: DecorationView)
    requires
        single_enter(nodes),
        nodes.len() + 3 < usize::MAX,
    ensures
        single_enter(spec_add_transition(nodes, scope, p)),
        single_enter(spec_add_state(nodes, scope, name).0),
        single_enter(spec_decorate(nodes, scope, name, dec)),
{
    lemma_find_or_create_single(nodes, scope, name, false);
    crate::parser::lemma_transition_growth(nodes, scope, p);
    match p {
        TransitionKind::Enter { target } => {
            lemma_find_or_create_single(nodes, scope, target, false);
            let (n1, id) = spec_add_state(nodes, scope, target);
            if !has_enter(data_of(n1, id as int).transitions) {
                let n2 = spec_mark_enter(n1, id);
                assert forall|i: int, j: int, k: int|
                    0 <= i < n2.len() && 0 <= j < k < data_of(n2, i).transitions.len()
                        implies !(#[trigger] data_of(n2, i).transitions[j] is Enter && #[trigger] data_of(n2, i).transitions[k] is Enter) by {
                    if i == id {
                        let old_ts = data_of(n1, i).transitions;
                        assert(data_of(n2, i).transitions == old_ts.push(TransitionKind::Enter { target: id }));
                        if k < old_ts.len() {
                            assert(data_of(n2, i).transitions[j] == old_ts[j]);
                        } else {
                            assert(data_of(n2, i).transitions[j] == old_ts[j]);
                            assert(!(old_ts[j] is Enter));
                        }
                    } else {
                        assert(data_of(n2, i) == data_of(n1, i));
                    }
                }
            }
        },
        TransitionKind::Event { source, event, target, action, guard } => {
            lemma_find_or_create_single(nodes, scope, source, true);
            let (n1, f) = spec_find_or_create(nodes, scope, source);
            lemma_find_or_create_single(n1, scope, target, true);
            let (n2, t) = spec_find_or_create(n1, scope, target);
            lemma_push_other_single(n2, f, TransitionKind::Event { source: f, event, target: t, action, guard });
        },
        TransitionKind::Internal { source, event, action, guard } => {
            lemma_find_or_create_single(nodes, scope, source, true);
            let (n1, f) = spec_find_or_create(nodes, scope, source);
            lemma_push_other_single(n1, f, TransitionKind::Internal { source: f, event, action, guard });
        },
        TransitionKind::Direct { source, target, action, guard } => {
            lemma_find_or_create_single(nodes, scope, source, true);
            let (n1, f) = spec_find_or_create(nodes, scope, source);
            lemma_find_or_create_single(n1, scope, target, true);
            let (n2, t) = spec_find_or_create(n1, scope, target);
            lemma_push_other_single(n2, f, TransitionKind::Direct { source: f, target: t, action, guard });
        },
        TransitionKind::Final { source, event, action, guard } => {
            lemma_find_or_create_single(nodes, scope, source, true);
            let (n1, f) = spec_find_or_create(nodes, scope, source);
            lemma_push_other_single(n1, f, TransitionKind::Final { source: f, event, action, guard });
        },
    }
    let d = spec_decorate(nodes, scope, name, dec);
    crate::parser::lemma_first_named_in_arena(nodes, scope, name, true);
    assert forall|i: int, j: int, k: int|
        0 <= i < d.len() && 0 <= j < k < data_of(d, i).transitions.len()
            implies !(#[trigger] data_of(d, i).transitions[j] is Enter && #[trigger] data_of(d, i).transitions[k] is Enter) by {
        assert(data_of(d, i).transitions == data_of(nodes, i).transitions);
    }
}


/// Replacing a state by one of the same name keeps which states `first_named` finds.
proof fn lemma_first_named_rename_free(nodes: Nodes, i: int, d: StateView, scope: Option<StateId>, name: Seq<char>, below: bool)
    requires
        0 <= i < nodes.len(),
        nodes.len() <= usize::MAX,
        d.name == data_of(nodes, i).name,
    ensures
        first_named(with_state(nodes, i, d), scope, name, below, 0) == first_named(nodes, scope, name, below, 0),
{
    let n2 = with_state(nodes, i, d);
    assert forall|k: int| #![trigger parent_of(n2, k)] 0 <= k < n2.len() implies parent_of(n2, k) == parent_of(nodes, k) by {}
    assert forall|j: int| 0 <= j < n2.len() implies
        #[trigger] named_in(n2, scope, name, below, j) == named_in(nodes, scope, name, below, j) by {
        assert(data_of(n2, j).name == data_of(nodes, j).name);
        lemma_below_same(n2, nodes, j, scope);
    }
    lemma_first_named(nodes, scope, name, below, 0);
    lemma_first_named(n2, scope, name, below, 0);
    match first_named(nodes, scope, name, below, 0) {
        Some(f) => {
            assert forall|j: int| 0 <= j < f implies !#[trigger] named_in(n2, scope, name, below, j) by {
                assert(named_in(n2, scope, name, below, j) == named_in(nodes, scope, name, below, j));
            }
            assert(named_in(n2, scope, name, below, f as int) == named_in(nodes, scope, name, below, f as int));
            lemma_first_named_at(n2, scope, name, below, 0, f as int);
        },
        None => {
            match first_named(n2, scope, name, below, 0) {
                Some(g) => {
                    assert(named_in(n2, scope, name, below, g as int) == named_in(nodes, scope, name, below, g as int));
                },
                None => {},
            }
        },
    }
}

/// Arenas with the same parents agree on which slots lie below a scope.
proof fn lemma_below_same(a: Nodes, b: Nodes, j: int, scope: Option<StateId>)
    requires
        a.len() == b.len(),
        forall|k: int| #![trigger parent_of(a, k)] 0 <= k < a.len() ==> parent_of(a, k) == parent_of(b, k),
    ensures
        in_scope_below(a, j, scope) == in_scope_below(b, j, scope),
        in_scope(a, j, scope) == in_scope(b, j, scope),
{
    match scope {
        Some(sc) => lemma_is_below_same(a, b, j, sc as int),
        None => {},
    }
}

/// Arenas with the same parents agree on `is_below`.
proof fn lemma_is_below_same(a: Nodes, b: Nodes, i: int, x: int)
    requires
        a.len() == b.len(),
        forall|k: int| #![trigger parent_of(a, k)] 0 <= k < a.len() ==> parent_of(a, k) == parent_of(b, k),
    ensures
        is_below(a, i, x) == is_below(b, i, x),
    decreases i,
{
    if 0 <= i < a.len() {
        assert(parent_of(a, i) == parent_of(b, i));
        match parent_of(a, i) {
            Some(p) => if p < i {
                lemma_is_below_same(a, b, p as int, x);
            },
            None => {},
        }
    }
}

/// Of two exit actions given to one state, the second stays: `add_exit_action(n, a1)` then
/// `add_exit_action(n, a2)` is `add_exit_action(n, a2)`, which sets that state's exit action to
/// `a2` and changes nothing else of it or of any other state; a name with no state below the
/// scope changes nothing.
pub proof fn law_exit_action_last_wins(nodes: Nodes, scope: Option<StateId>, name: Seq<char>, a1: Seq<char>, a2: Seq<char>)
    requires
        nodes.len() <= usize::MAX,
    ensures
        ({
            let once = spec_decorate(nodes, scope, name, DecorationView::ExitAction(a2));
            let twice = spec_decorate(
                spec_decorate(nodes, scope, name, DecorationView::ExitAction(a1)),
                scope,
                name,
                DecorationView::ExitAction(a2),
            );
            &&& twice == once
            &&& match first_named(nodes, scope, name, true, 0) {
                Some(i) => {
                    &&& once.len() == nodes.len()
                    &&& parent_of(once, i as int) == parent_of(nodes, i as int)
                    &&& data_of(once, i as int) == (StateView { exit_action: Some(a2), ..data_of(nodes, i as int) })
                    &&& forall|j: int| 0 <= j < nodes.len() && j != i ==> #[trigger] once[j] == nodes[j]
                },
                None => once == nodes,
            }
        }),
{
    let n1 = spec_decorate(nodes, scope, name, DecorationView::ExitAction(a1));
    lemma_first_named(nodes, scope, name, true, 0);
    match first_named(nodes, scope, name, true, 0) {
        Some(i) => {
            let d = data_of(nodes, i as int);
            lemma_first_named_rename_free(nodes, i as int, StateView { exit_action: Some(a1), ..d }, scope, name, true);
            let twice = spec_decorate(n1, scope, name, DecorationView::ExitAction(a2));
            let once = spec_decorate(nodes, scope, name, DecorationView::ExitAction(a2));
            assert(twice =~= once);
        },
        None => {},
    }
}


/// Arenas that agree on the parents of their first slots agree on `is_below` there.
proof fn lemma_is_below_prefix(a: Nodes, b: Nodes, i: int, x: int)
    requires
        a.len() <= b.len(),
        forall|k: int| #![trigger parent_of(a, k)] 0 <= k < a.len() ==> parent_of(a, k) == parent_of(b, k),
        0 <= i < a.len(),
    ensures
        is_below(a, i, x) == is_below(b, i, x),
    decreases i,
{
    assert(parent_of(a, i) == parent_of(b, i));
    match parent_of(a, i) {
        Some(p) => if p < i {
            lemma_is_below_prefix(a, b, p as int, x);
        },
        None => {},
    }
}

/// Appending a slot keeps what `first_named` found.
proof fn lemma_first_named_push(nodes: Nodes, x: (Option<StateId>, StateView), scope: Option<StateId>, name: Seq<char>)
    requires
        nodes.len() + 1 <= usize::MAX,
        first_named(nodes, scope, name, true, 0) is Some,
    ensures
        first_named(nodes.push(x), scope, name, true, 0) == first_named(nodes, scope, name, true, 0),
{
    let n2 = nodes.push(x);
    lemma_first_named(nodes, scope, name, true, 0);
    let f = first_named(nodes, scope, name, true, 0)->0;
    assert forall|k: int| #![trigger parent_of(nodes, k)] 0 <= k < nodes.len() implies parent_of(nodes, k) == parent_of(n2, k) by {
        assert(n2[k] == nodes[k]);
    }
    assert forall|j: int| 0 <= j < nodes.len() implies
        #[trigger] named_in(n2, scope, name, true, j) == named_in(nodes, scope, name, true, j) by {
        assert(n2[j] == nodes[j]);
        match scope {
            Some(sc) => lemma_is_below_prefix(nodes, n2, j, sc as int),
            None => {},
        }
    }
    assert forall|j: int| 0 <= j < f implies !#[trigger] named_in(n2, scope, name, true, j) by {
        assert(named_in(n2, scope, name, true, j) == named_in(nodes, scope, name, true, j));
    }
    assert(named_in(n2, scope, name, true, f as int) == named_in(nodes, scope, name, true, f as int));
    lemma_first_named_at(n2, scope, name, true, 0, f as int);
}

/// `find_or_create` finds the state it hands back, in the arena it hands back.
proof fn lemma_find_or_create_finds(nodes: Nodes, scope: Option<StateId>, name: Seq<char>)
    requires
        nodes.len() + 1 <= usize::MAX,
        scope matches Some(sc) ==> sc < nodes.len(),
    ensures
        ({
            let (n1, id) = spec_find_or_create(nodes, scope, name);
            &&& first_named(n1, scope, name, true, 0) == Some(id)
            &&& n1.len() <= nodes.len() + 1
            &&& match first_named(nodes, scope, name, true, 0) {
                Some(i) => n1 == nodes && id == i,
                None => n1 == nodes.push((scope, fresh_state(name))) && id == nodes.len(),
            }
        }),
{
    lemma_first_named(nodes, scope, name, true, 0);
    if first_named(nodes, scope, name, true, 0) is None {
        let n1 = nodes.push((scope, fresh_state(name)));
        let i = nodes.len() as int;
        assert forall|k: int| #![trigger parent_of(nodes, k)] 0 <= k < nodes.len() implies parent_of(nodes, k) == parent_of(n1, k) by {
            assert(n1[k] == nodes[k]);
        }
        assert forall|j: int| 0 <= j < i implies !#[trigger] named_in(n1, scope, name, true, j) by {
            assert(n1[j] == nodes[j]);
            match scope {
                Some(sc) => lemma_is_below_prefix(nodes, n1, j, sc as int),
                None => {},
            }
            assert(named_in(n1, scope, name, true, j) == named_in(nodes, scope, name, true, j));
        }
        match scope {
            Some(sc) => {
                assert(parent_of(n1, i) == Some(sc));
                assert(is_below(n1, i, sc as int));
            },
            None => {},
        }
        assert(named_in(n1, scope, name, true, i));
        lemma_first_named_at(n1, scope, name, true, 0, i);
    }
}

/// The state a transition leaves from.
pub open spec fn params_source(p: ParamsView) -> Seq<char> {
    match p {
        TransitionKind::Event { source, .. } => source,
        TransitionKind::Internal { source, .. } => source,
        TransitionKind::Direct { source, .. } => source,
        TransitionKind::Enter { target } => target,
        TransitionKind::Final { source, .. } => source,
    }
}

/// The state a transition leads to, for the kinds that name one.
pub open spec fn params_target(p: ParamsView) -> Option<Seq<char>> {
    match p {
        TransitionKind::Event { target, .. } => Some(target),
        TransitionKind::Direct { target, .. } => Some(target),
        _ => None,
    }
}

/// The transition a builder records for `p`, leaving from slot `f` and leading to slot `t`.
pub open spec fn stored_transition(p: ParamsView, f: StateId, t: StateId) -> TransitionView {
    match p {
        TransitionKind::Event { event, action, guard, .. } => TransitionKind::Event { source: f, event, target: t, action, guard },
        TransitionKind::Internal { event, action, guard, .. } => TransitionKind::Internal { source: f, event, action, guard },
        TransitionKind::Direct { action, guard, .. } => TransitionKind::Direct { source: f, target: t, action, guard },
        TransitionKind::Enter { .. } => TransitionKind::Enter { target: f },
        TransitionKind::Final { event, action, guard, .. } => TransitionKind::Final { source: f, event, action, guard },
    }
}

/// Adding a transition that is not `Enter` records exactly one transition: each state it
/// names is the first state of that name below the scope, created as a new state of the scope
/// only when there is none (the source first, then the target); the transition is appended
/// to the source's transitions, and every other state, every name and every parent stays as
/// it was.
pub proof fn law_add_transition_records_one(nodes: Nodes, scope: Option<StateId>, p: ParamsView)
    requires
        nodes.len() + 3 < usize::MAX,
        scope matches Some(sc) ==> sc < nodes.len(),
        !(p is Enter),
    ensures
        ({
            let r = spec_add_transition(nodes, scope, p);
            let src = params_source(p);
            &&& first_named(r, scope, src, true, 0) is Some
            &&& ({
                let f = first_named(r, scope, src, true, 0)->0;
                let t = match params_target(p) {
                    Some(tg) => first_named(r, scope, tg, true, 0)->0,
                    None => f,
                };
                let before = if f < nodes.len() { data_of(nodes, f as int) } else { fresh_state(src) };
                &&& (first_named(nodes, scope, src, true, 0) matches Some(i) ==> f == i)
                &&& (first_named(nodes, scope, src, true, 0) is None ==> f == nodes.len())
                &&& (params_target(p) matches Some(tg) ==> {
                    &&& first_named(r, scope, tg, true, 0) is Some
                    &&& (first_named(nodes, scope, tg, true, 0) matches Some(i) ==> t == i)
                })
                &&& data_of(r, f as int) == (StateView { transitions: before.transitions.push(stored_transition(p, f, t)), ..before })
                &&& nodes.len() <= r.len() <= nodes.len() + 2
                &&& forall|j: int| 0 <= j < nodes.len() ==> #[trigger] parent_of(r, j) == parent_of(nodes, j)
                &&& forall|j: int| 0 <= j < nodes.len() && j != f ==> #[trigger] data_of(r, j) == data_of(nodes, j)
                &&& forall|j: int| nodes.len() <= j < r.len() ==> #[trigger] parent_of(r, j) == scope
                    && (data_of(r, j).name == src || params_target(p) == Some(data_of(r, j).name))
                    && (j != f ==> data_of(r, j) == fresh_state(data_of(r, j).name))
            })
        }),
{
    let src = params_source(p);
    lemma_find_or_create_finds(nodes, scope, src);
    let (n1, f) = spec_find_or_create(nodes, scope, src);
    let (n2, t) = match params_target(p) {
        Some(tg) => {
            lemma_find_or_create_finds(n1, scope, tg);
            spec_find_or_create(n1, scope, tg)
        },
        None => (n1, f),
    };
    match params_target(p) {
        Some(tg) => {
            if first_named(n1, scope, tg, true, 0) is None {
                lemma_first_named_push(n1, (scope, fresh_state(tg)), scope, src);
            }
            if first_named(nodes, scope, tg, true, 0) is Some {
                lemma_first_named_push(nodes, (scope, fresh_state(src)), scope, tg);
            }
        },
        None => {},
    }
    assert(first_named(n2, scope, src, true, 0) == Some(f));
    lemma_first_named(n2, scope, src, true, 0);
    let st = stored_transition(p, f, t);
    let d = data_of(n2, f as int);
    let r = spec_push_transition(n2, f, st);
    assert(r == spec_add_transition(nodes, scope, p));
    lemma_first_named_rename_free(n2, f as int, StateView { transitions: d.transitions.push(st), ..d }, scope, src, true);
    match params_target(p) {
        Some(tg) => {
            lemma_first_named_rename_free(n2, f as int, StateView { transitions: d.transitions.push(st), ..d }, scope, tg, true);
        },
        None => {},
    }
    assert forall|j: int| 0 <= j < nodes.len() implies #[trigger] parent_of(r, j) == parent_of(nodes, j) by {
        assert(n1[j] == nodes[j]);
    }
    assert forall|j: int| 0 <= j < nodes.len() && j != f implies #[trigger] data_of(r, j) == data_of(nodes, j) by {
        assert(n1[j] == nodes[j]);
    }
}


/// Dropping completion transitions keeps whether a state is initial.
proof fn lemma_without_completions_enter(ts: Seq<TransitionView>)
    ensures
        has_enter(without_completions(ts)) == has_enter(ts),
    decreases ts.len(),
{
    if ts.len() > 0 {
        lemma_without_completions_enter(ts.drop_last());
        let prev = without_completions(ts.drop_last());
        let w = without_completions(ts);
        if has_enter(ts) {
            let k = choose|k: int| 0 <= k < ts.len() && (#[trigger] ts[k]) is Enter;
            if k < ts.len() - 1 {
                assert(ts.drop_last()[k] == ts[k]);
                let q = choose|q: int| 0 <= q < prev.len() && (#[trigger] prev[q]) is Enter;
                if !(ts.last() is Direct) {
                    assert(w[q] == prev[q]);
                }
            } else {
                assert(w[w.len() - 1] == ts.last());
            }
        }
        if has_enter(w) {
            let q = choose|q: int| 0 <= q < w.len() && (#[trigger] w[q]) is Enter;
            if q < prev.len() {
                assert(w[q] == prev[q]);
                let k = choose|k: int| 0 <= k < ts.drop_last().len() && (#[trigger] ts.drop_last()[k]) is Enter;
                assert(ts[k] == ts.drop_last()[k]);
            } else {
                assert(ts[ts.len() - 1] is Enter);
            }
        }
    }
}

/// Fanning substate exits out over completion transitions keeps whether a state is initial.
proof fn lemma_rewritten_enter(ts: Seq<TransitionView>, comps: Seq<TransitionView>)
    requires
        forall|j: int| 0 <= j < comps.len() ==> #[trigger] comps[j] is Direct,
    ensures
        has_enter(rewritten(ts, comps)) == has_enter(ts),
    decreases ts.len(),
{
    if ts.len() > 0 {
        lemma_rewritten_enter(ts.drop_last(), comps);
        let prev = rewritten(ts.drop_last(), comps);
        let tail = redirect_transition(ts.last(), comps);
        let w = rewritten(ts, comps);
        assert(w == prev + tail);
        assert forall|j: int| 0 <= j < tail.len() implies (#[trigger] tail[j] is Enter) == (ts.last() is Enter) by {
            if ts.last() is Final {
                assert(comps[j] is Direct);
            }
        }
        if has_enter(ts) {
            let k = choose|k: int| 0 <= k < ts.len() && (#[trigger] ts[k]) is Enter;
            if k < ts.len() - 1 {
                assert(ts.drop_last()[k] == ts[k]);
                let q = choose|q: int| 0 <= q < prev.len() && (#[trigger] prev[q]) is Enter;
                assert(w[q] == prev[q]);
            } else {
                assert(tail == seq![ts.last()]);
                assert(w[prev.len() as int] == tail[0]);
            }
        }
        if has_enter(w) {
            let q = choose|q: int| 0 <= q < w.len() && (#[trigger] w[q]) is Enter;
            if q < prev.len() {
                assert(w[q] == prev[q]);
                let k = choose|k: int| 0 <= k < ts.drop_last().len() && (#[trigger] ts.drop_last()[k]) is Enter;
                assert(ts[k] == ts.drop_last()[k]);
            } else {
                assert(w[q] == tail[q - prev.len()]);
                assert(ts[ts.len() - 1] is Enter);
            }
        }
    }
}

/// Arenas agreeing on which slots are top-level initial states have the same list of them.
proof fn lemma_same_root_enters(a: Nodes, b: Nodes, n: int)
    requires
        forall|k: int| 0 <= k < n ==> #[trigger] is_root_enter(a, k) == is_root_enter(b, k),
    ensures
        root_enters(a, n) == root_enters(b, n),
    decreases n,
{
    if n > 0 {
        lemma_same_root_enters(a, b, n - 1);
        assert(is_root_enter(a, n - 1) == is_root_enter(b, n - 1));
    }
}

/// When building gets past its checks (every substate exit has a parent completion, and the
/// redirected transitions map each action to one event, hold no conflicting transitions and
/// no duplicate guards), it succeeds exactly when one top-level state is initial and the name
/// is not blank. With another number of initial top-level states it reports their names,
/// whatever the name; with one and a blank name it reports the name. On success the FSM has
/// the given name and starts in the state entered from that initial state. A substate exit
/// without a parent completion is reported before anything else.
pub proof fn law_build_outcome(name: Seq<char>, nodes: Nodes)
    ensures
        spec_substate_exits_complete(nodes) matches Err(e) ==> spec_build(name, nodes) == Err::<crate::fsm::FsmView, crate::error::BuildErrorView>(e),
        ({
            let n1 = spec_redirect_substate_exits(nodes);
            let ts = all_transitions(n1);
            let rs = root_enters(nodes, nodes.len() as int);
            (spec_substate_exits_complete(nodes) is Ok && spec_injective_action_mapping(ts) is Ok
                && spec_no_conflicting_transitions(n1, ts) is Ok && spec_unique_guards_per_event(ts) is Ok) ==> {
                &&& rs.len() != 1 ==> spec_build(name, nodes) == Err::<crate::fsm::FsmView, crate::error::BuildErrorView>(
                    crate::error::BuildErrorView::InvalidEnterStates(crate::text::join(names_of(nodes, rs), ", "@)))
                &&& (rs.len() == 1 && is_blank(name)) ==> spec_build(name, nodes) == Err::<crate::fsm::FsmView, crate::error::BuildErrorView>(
                    crate::error::BuildErrorView::EmptyName)
                &&& (rs.len() == 1 && !is_blank(name)) ==> (spec_build(name, nodes) matches Ok(f)
                    && f.name == name
                    && f.enter_state == deepest_enter(f.nodes, rs[0]) as StateId)
            }
        }),
{
    let n1 = spec_redirect_substate_exits(nodes);
    let n2 = spec_extract_deferred_events(n1);
    let n3 = spec_link_enter_states(n2);
    if spec_substate_exits_complete(nodes) is Ok {
        assert forall|k: int| 0 <= k < nodes.len() implies #[trigger] is_root_enter(n3, k) == is_root_enter(nodes, k) by {
            let own = data_of(nodes, k).transitions;
            let t1 = if is_substate_exit(nodes, k) {
                lemma_completions_direct(data_of(nodes, parent_of(nodes, k)->0 as int).transitions);
                lemma_rewritten_enter(own, completions(data_of(nodes, parent_of(nodes, k)->0 as int).transitions));
                rewritten(own, completions(data_of(nodes, parent_of(nodes, k)->0 as int).transitions))
            } else {
                own
            };
            lemma_without_completions_enter(t1);
            assert(data_of(n1, k).transitions == redirected_transitions(nodes, k));
            assert(data_of(n3, k).transitions == data_of(n1, k).transitions);
            assert(parent_of(n3, k) == parent_of(nodes, k));
        }
        assert(n3.len() == nodes.len());
        lemma_same_root_enters(n3, nodes, nodes.len() as int);
        let rs = root_enters(nodes, nodes.len() as int);
        assert(names_of(n3, rs) =~= names_of(nodes, rs)) by {
            lemma_root_enters_range(nodes, nodes.len() as int);
        }
    }
}

/// The top-level initial states among the first `n` slots lie among them.
proof fn lemma_root_enters_range(nodes: Nodes, n: int)
    ensures
        forall|j: int| 0 <= j < root_enters(nodes, n).len() ==> 0 <= #[trigger] root_enters(nodes, n)[j] < n,
    decreases n,
{
    if n > 0 {
        lemma_root_enters_range(nodes, n - 1);
        let prev = root_enters(nodes, n - 1);
        assert forall|j: int| 0 <= j < root_enters(nodes, n).len() implies 0 <= #[trigger] root_enters(nodes, n)[j] < n by {
            if j < prev.len() {
                assert(root_enters(nodes, n)[j] == prev[j]);
            }
        }
    }
}


/// `not_in` keeps exactly the elements it does not exclude.
proof fn lemma_not_in_contains(s: Seq<Seq<char>>, ex: Seq<Seq<char>>, x: Seq<char>)
    ensures
        not_in(s, ex).contains(x) == (s.contains(x) && !ex.contains(x)),
    decreases s.len(),
{
    if s.len() > 0 {
        lemma_not_in_contains(s.drop_last(), ex, x);
        let prev = not_in(s.drop_last(), ex);
        assert(s =~= s.drop_last().push(s.last()));
        if s.contains(x) && !ex.contains(x) {
            let k = choose|k: int| 0 <= k < s.len() && s[k] == x;
            if k < s.len() - 1 {
                assert(s.drop_last()[k] == x);
                let q = choose|q: int| 0 <= q < prev.len() && prev[q] == x;
                if !ex.contains(s.last()) {
                    assert(prev.push(s.last())[q] == x);
                }
            } else {
                assert(not_in(s, ex) == prev.push(s.last()));
                assert(prev.push(s.last())[prev.len() as int] == x);
            }
        }
        if not_in(s, ex).contains(x) {
            lemma_not_in(s, ex, x);
            let w = not_in(s, ex);
            let q = choose|q: int| 0 <= q < w.len() && w[q] == x;
            if !ex.contains(s.last()) && q == prev.len() {
                assert(s[s.len() - 1] == x);
            } else {
                assert(w[q] == prev[q]);
                assert(prev.contains(x));
                let k = choose|k: int| 0 <= k < s.drop_last().len() && s.drop_last()[k] == x;
                assert(s[k] == x);
            }
        }
    }
}

/// `not_in` of a concatenation is the concatenation of `not_in`s.
proof fn lemma_not_in_concat(a: Seq<Seq<char>>, b: Seq<Seq<char>>, ex: Seq<Seq<char>>)
    ensures
        not_in(a + b, ex) == not_in(a, ex) + not_in(b, ex),
    decreases b.len(),
{
    if b.len() == 0 {
        assert(a + b =~= a);
        assert(not_in(a, ex) + not_in(b, ex) =~= not_in(a, ex));
    } else {
        lemma_not_in_concat(a, b.drop_last(), ex);
        assert((a + b).drop_last() =~= a + b.drop_last());
        assert((a + b).last() == b.last());
        if !ex.contains(b.last()) {
            assert(not_in(a, ex) + not_in(b, ex) =~= (not_in(a, ex) + not_in(b.drop_last(), ex)).push(b.last()));
        }
    }
}

/// `not_in` keeps a sequence none of whose elements it excludes.
proof fn lemma_not_in_keeps_all(a: Seq<Seq<char>>, ex: Seq<Seq<char>>)
    requires
        forall|k: int| 0 <= k < a.len() ==> !ex.contains(#[trigger] a[k]),
    ensures
        not_in(a, ex) == a,
    decreases a.len(),
{
    if a.len() > 0 {
        lemma_not_in_keeps_all(a.drop_last(), ex);
        assert(a.drop_last().push(a.last()) =~= a);
        assert(!ex.contains(a[a.len() - 1]));
    }
}

/// `unique_seq` of a sequence without duplicates, followed by elements it already holds, is
/// that sequence.
proof fn lemma_unique_absorbs(a: Seq<Seq<char>>, b: Seq<Seq<char>>)
    requires
        a.no_duplicates(),
        forall|k: int| 0 <= k < b.len() ==> a.contains(#[trigger] b[k]),
    ensures
        unique_seq(a + b) == a,
    decreases a.len() + b.len(),
{
    if b.len() == 0 {
        assert(a + b =~= a);
        if a.len() > 0 {
            lemma_unique_absorbs(a.drop_last(), Seq::empty());
            assert(a.drop_last() + Seq::<Seq<char>>::empty() =~= a.drop_last());
            if a.drop_last().contains(a.last()) {
                let k = choose|k: int| 0 <= k < a.drop_last().len() && a.drop_last()[k] == a.last();
                assert(a[k] == a[a.len() - 1]);
            }
            assert(a.drop_last().push(a.last()) =~= a);
        }
    } else {
        assert forall|k: int| 0 <= k < b.drop_last().len() implies a.contains(#[trigger] b.drop_last()[k]) by {
            assert(b.drop_last()[k] == b[k]);
        }
        lemma_unique_absorbs(a, b.drop_last());
        assert((a + b).drop_last() =~= a + b.drop_last());
        assert((a + b).last() == b[b.len() - 1]);
        let k = choose|k: int| 0 <= k < a.len() && a[k] == b[b.len() - 1];
        assert((a + b.drop_last())[k] == a[k]);
    }
}

/// An event deferred along the chain of slot `i` once deferred events are inherited, and not
/// handled along that chain, is one slot `i` itself inherits.
proof fn lemma_inherited_covers(nodes: Nodes, i: int, x: Seq<char>)
    requires
        chain_deferred(spec_extract_deferred_events(nodes), i).contains(x),
        !chain_events(nodes, i).contains(x),
    ensures
        inherited_deferred(nodes, i).contains(x),
    decreases i,
{
    let m = spec_extract_deferred_events(nodes);
    assert(0 <= i < nodes.len());
    assert(parent_of(m, i) == parent_of(nodes, i));
    let own = inherited_deferred(nodes, i);
    assert(data_of(m, i).deferred_events == own);
    if !own.contains(x) {
        let p = parent_of(nodes, i)->0;
        assert(parent_of(nodes, i) is Some && p < i);
        assert(chain_deferred(m, i) == own + chain_deferred(m, p as int));
        let k = choose|k: int| 0 <= k < chain_deferred(m, i).len() && chain_deferred(m, i)[k] == x;
        assert(chain_deferred(m, p as int)[k - own.len()] == x);
        let ce_i = chain_events(nodes, i);
        let ce_p = chain_events(nodes, p as int);
        assert(ce_i == transition_events(data_of(nodes, i).transitions) + ce_p);
        if ce_p.contains(x) {
            let q = choose|q: int| 0 <= q < ce_p.len() && ce_p[q] == x;
            assert(ce_i[q + transition_events(data_of(nodes, i).transitions).len()] == x);
        }
        lemma_inherited_covers(nodes, p as int, x);
        lemma_unique_contains(not_in(chain_deferred(nodes, p as int), ce_p), x);
        lemma_not_in_contains(chain_deferred(nodes, p as int), ce_p, x);
        let cd_p = chain_deferred(nodes, p as int);
        let cd_i = chain_deferred(nodes, i);
        assert(cd_i == data_of(nodes, i).deferred_events + cd_p);
        let q = choose|q: int| 0 <= q < cd_p.len() && cd_p[q] == x;
        assert(cd_i[q + data_of(nodes, i).deferred_events.len()] == x);
        lemma_not_in_contains(cd_i, ce_i, x);
        lemma_unique_contains(not_in(cd_i, ce_i), x);
    }
}

/// Inheriting deferred events a second time changes nothing.
pub proof fn law_deferred_inheritance_idempotent(nodes: Nodes)
    ensures
        spec_extract_deferred_events(spec_extract_deferred_events(nodes)) == spec_extract_deferred_events(nodes),
{
    let m = spec_extract_deferred_events(nodes);
    let m2 = spec_extract_deferred_events(m);
    assert(same_structure(m, nodes)) by {
        assert forall|i: int| 0 <= i < m.len() implies #[trigger] parent_of(m, i) == parent_of(nodes, i) by {}
        assert forall|i: int| 0 <= i < m.len() implies #[trigger] data_of(m, i).transitions == data_of(nodes, i).transitions by {}
    }
    assert forall|i: int| 0 <= i < m.len() implies #[trigger] inherited_deferred(m, i) == inherited_deferred(nodes, i) by {
        lemma_same_chain_events(m, nodes, i);
        let ce = chain_events(nodes, i);
        let own = inherited_deferred(nodes, i);
        lemma_unique_seq_no_duplicates(not_in(chain_deferred(nodes, i), ce));
        assert forall|k: int| 0 <= k < own.len() implies !ce.contains(#[trigger] own[k]) by {
            assert(own.contains(own[k]));
            lemma_unique_contains(not_in(chain_deferred(nodes, i), ce), own[k]);
            lemma_not_in(chain_deferred(nodes, i), ce, own[k]);
        }
        lemma_not_in_keeps_all(own, ce);
        let rest = match parent_of(nodes, i) {
            Some(p) => if p < i { chain_deferred(m, p as int) } else { Seq::empty() },
            None => Seq::empty(),
        };
        assert(chain_deferred(m, i) =~= own + rest);
        lemma_not_in_concat(own, rest, ce);
        let extra = not_in(rest, ce);
        assert forall|k: int| 0 <= k < extra.len() implies own.contains(#[trigger] extra[k]) by {
            let y = extra[k];
            assert(extra.contains(y));
            lemma_not_in_contains(rest, ce, y);
            let q = choose|q: int| 0 <= q < rest.len() && rest[q] == y;
            assert((own + rest)[own.len() + q] == y);
            assert(chain_deferred(m, i).contains(y));
            lemma_inherited_covers(nodes, i, y);
        }
        lemma_unique_absorbs(own, extra);
    }
    assert(m2 =~= m);
}

} // verus!
