//! The facts a code generator needs from a built FSM: its events, actions and guards, and the
//! states sharing each enter or exit action.
use vstd::prelude::*;

use crate::arena::{data_of, Nodes};
use crate::fsm::{fsm_transitions, opt_ref_action_view, opt_ref_event_view, qualified_name, State, Transition, UmlFsm};
use crate::inheritance::transition_events;
use crate::model::{StateView, TransitionView};
use crate::text::{first_where, lemma_first_where, unique_seq};
use crate::types::{Action, Event};
use crate::validation::lemma_unique_contains;

verus! {

/// The (action or guard, event) pairs of the event-triggered transitions among `ts` that have
/// an action (`guards` unset) or a guard (`guards` set), in order.
pub open spec fn labelled_pairs(ts: Seq<TransitionView>, guards: bool) -> Seq<(Seq<char>, Seq<char>)>
    decreases ts.len(),
{
    if ts.len() == 0 {
        Seq::empty()
    } else {
        let prev = labelled_pairs(ts.drop_last(), guards);
        let t = ts.last();
        let label = if guards { t.grd() } else { t.act() };
        match (label, t.ev()) {
            (Some(l), Some(e)) => prev.push((l, e)),
            _ => prev,
        }
    }
}

/// The actions (`guards` unset) or guards (`guards` set) of the transitions among `ts` that no
/// event triggers, in order.
pub open spec fn eventless_labels(ts: Seq<TransitionView>, guards: bool) -> Seq<Seq<char>>
    decreases ts.len(),
{
    if ts.len() == 0 {
        Seq::empty()
    } else {
        let prev = eventless_labels(ts.drop_last(), guards);
        let t = ts.last();
        let label = if guards { t.grd() } else { t.act() };
        match (label, t.ev()) {
            (Some(l), None) => prev.push(l),
            _ => prev,
        }
    }
}

/// The views of event references.
pub open spec fn event_refs_view(es: Seq<&Event>) -> Seq<Seq<char>> {
    es.map_values(|e: &Event| e@)
}

/// The views of action references.
pub open spec fn action_refs_view(es: Seq<&Action>) -> Seq<Seq<char>> {
    es.map_values(|a: &Action| a@)
}

/// The views of (action, event) reference pairs.
pub open spec fn pair_refs_view(ps: Seq<(&Action, &Event)>) -> Seq<(Seq<char>, Seq<char>)> {
    ps.map_values(|p: (&Action, &Event)| (p.0@, p.1@))
}

/// The views of transitions.
pub open spec fn transitions_view<'a>(ts: Seq<Transition<'a>>) -> Seq<TransitionView> {
    ts.map_values(|t: Transition<'a>| t@)
}

/// Whether `seen` holds an event named like `e`.
fn has_event(seen: &Vec<&Event>, e: &Event) -> (r: bool)
    ensures
        r == event_refs_view(seen@).contains(e@),
{
    let mut i: usize = 0;
    while i < seen.len()
        invariant
            i <= seen@.len(),
            forall|j: int| 0 <= j < i ==> seen@[j]@ != e@,
        decreases seen@.len() - i,
    {
        if seen[i].same(e) {
            assert(event_refs_view(seen@)[i as int] == e@);
            return true;
        }
        i = i + 1;
    }
    proof {
        if event_refs_view(seen@).contains(e@) {
            let k = choose|k: int| 0 <= k < seen@.len() && event_refs_view(seen@)[k] == e@;
            assert(seen@[k]@ == e@);
        }
    }
    false
}

/// Whether `seen` holds an action named like `a`.
fn has_action(seen: &Vec<&Action>, a: &Action) -> (r: bool)
    ensures
        r == action_refs_view(seen@).contains(a@),
{
    let mut i: usize = 0;
    while i < seen.len()
        invariant
            i <= seen@.len(),
            forall|j: int| 0 <= j < i ==> seen@[j]@ != a@,
        decreases seen@.len() - i,
    {
        if seen[i].same(a) {
            assert(action_refs_view(seen@)[i as int] == a@);
            return true;
        }
        i = i + 1;
    }
    proof {
        if action_refs_view(seen@).contains(a@) {
            let k = choose|k: int| 0 <= k < seen@.len() && action_refs_view(seen@)[k] == a@;
            assert(seen@[k]@ == a@);
        }
    }
    false
}

/// Whether `seen` holds the pair `p`.
fn has_pair(seen: &Vec<(&Action, &Event)>, a: &Action, e: &Event) -> (r: bool)
    ensures
        r == pair_refs_view(seen@).contains((a@, e@)),
{
    let mut i: usize = 0;
    while i < seen.len()
        invariant
            i <= seen@.len(),
            forall|j: int| 0 <= j < i ==> (seen@[j].0@, seen@[j].1@) != (a@, e@),
        decreases seen@.len() - i,
    {
        let (x, y) = seen[i];
        if x.same(a) && y.same(e) {
            assert(pair_refs_view(seen@)[i as int] == (a@, e@));
            return true;
        }
        i = i + 1;
    }
    proof {
        if pair_refs_view(seen@).contains((a@, e@)) {
            let k = choose|k: int| 0 <= k < seen@.len() && pair_refs_view(seen@)[k] == (a@, e@);
            assert((seen@[k].0@, seen@[k].1@) == (a@, e@));
        }
    }
    false
}

/// Appending `x` to `s` extends `unique_seq(s)` by `x` unless `s` already holds it.
proof fn lemma_unique_push<A>(s: Seq<A>, x: A)
    ensures
        unique_seq(s.push(x)) == if s.contains(x) { unique_seq(s) } else { unique_seq(s).push(x) },
{
    assert(s.push(x).drop_last() =~= s);
}

/// Every event that triggers a transition, each once, in order of first use.
pub fn events<'a>(fsm: &'a UmlFsm) -> (r: Vec<&'a Event>)
    requires
        fsm.wf(),
    ensures
        event_refs_view(r@) == unique_seq(transition_events(fsm_transitions(fsm@.nodes))),
{
    let ts = fsm.transitions();
    let ghost tv = transitions_view(ts@);
    let mut r: Vec<&'a Event> = Vec::new();
    let mut i: usize = 0;
    while i < ts.len()
        invariant
            i <= ts@.len(),
            tv == transitions_view(ts@),
            event_refs_view(r@) == unique_seq(transition_events(tv.take(i as int))),
        decreases ts@.len() - i,
    {
        let ghost prev = transition_events(tv.take(i as int));
        proof {
            assert(tv.take(i + 1).drop_last() =~= tv.take(i as int));
            assert(tv.take(i + 1).last() == ts@[i as int]@);
        }
        match ts[i].event() {
            Some(e) => {
                proof {
                    assert(transition_events(tv.take(i + 1)) == prev.push(e@));
                    lemma_unique_push(prev, e@);
                    lemma_unique_contains(prev, e@);
                }
                if !has_event(&r, e) {
                    let ghost before = r@;
                    r.push(e);
                    proof { assert(event_refs_view(r@) =~= event_refs_view(before).push(e@)); }
                }
            },
            None => {},
        }
        i = i + 1;
    }
    proof { assert(tv.take(ts@.len() as int) =~= tv); }
    r
}

/// The distinct (action or guard, event) pairs of event-triggered transitions, in order of
/// first use.
fn labelled_event_pairs<'a>(fsm: &'a UmlFsm, guards: bool) -> (r: Vec<(&'a Action, &'a Event)>)
    requires
        fsm.wf(),
    ensures
        pair_refs_view(r@) == unique_seq(labelled_pairs(fsm_transitions(fsm@.nodes), guards)),
{
    let ts = fsm.transitions();
    let ghost tv = transitions_view(ts@);
    let mut r: Vec<(&'a Action, &'a Event)> = Vec::new();
    let mut i: usize = 0;
    while i < ts.len()
        invariant
            i <= ts@.len(),
            tv == transitions_view(ts@),
            pair_refs_view(r@) == unique_seq(labelled_pairs(tv.take(i as int), guards)),
        decreases ts@.len() - i,
    {
        let ghost prev = labelled_pairs(tv.take(i as int), guards);
        proof {
            assert(tv.take(i + 1).drop_last() =~= tv.take(i as int));
            assert(tv.take(i + 1).last() == ts@[i as int]@);
        }
        let t = ts[i];
        let label = if guards { t.guard() } else { t.action() };
        match (label, t.event()) {
            (Some(l), Some(e)) => {
                proof {
                    assert(labelled_pairs(tv.take(i + 1), guards) == prev.push((l@, e@)));
                    lemma_unique_push(prev, (l@, e@));
                    lemma_unique_contains(prev, (l@, e@));
                }
                if !has_pair(&r, l, e) {
                    let ghost before = r@;
                    r.push((l, e));
                    proof { assert(pair_refs_view(r@) =~= pair_refs_view(before).push((l@, e@))); }
                }
            },
            _ => {
                proof { assert(labelled_pairs(tv.take(i + 1), guards) == prev); }
            },
        }
        i = i + 1;
    }
    proof { assert(tv.take(ts@.len() as int) =~= tv); }
    r
}

/// Every (action, event) pair of event-triggered transitions, each once, in order of first use.
pub fn actions<'a>(fsm: &'a UmlFsm) -> (r: Vec<(&'a Action, &'a Event)>)
    requires
        fsm.wf(),
    ensures
        pair_refs_view(r@) == unique_seq(labelled_pairs(fsm_transitions(fsm@.nodes), false)),
{
    labelled_event_pairs(fsm, false)
}

/// Every (guard, event) pair of event-triggered transitions, each once, in order of first use.
pub fn guards<'a>(fsm: &'a UmlFsm) -> (r: Vec<(&'a Action, &'a Event)>)
    requires
        fsm.wf(),
    ensures
        pair_refs_view(r@) == unique_seq(labelled_pairs(fsm_transitions(fsm@.nodes), true)),
{
    labelled_event_pairs(fsm, true)
}

/// The distinct actions or guards of the transitions no event triggers, in order of first use.
fn eventless_transition_labels<'a>(fsm: &'a UmlFsm, guards: bool) -> (r: Vec<&'a Action>)
    requires
        fsm.wf(),
    ensures
        action_refs_view(r@) == unique_seq(eventless_labels(fsm_transitions(fsm@.nodes), guards)),
{
    let ts = fsm.transitions();
    let ghost tv = transitions_view(ts@);
    let mut r: Vec<&'a Action> = Vec::new();
    let mut i: usize = 0;
    while i < ts.len()
        invariant
            i <= ts@.len(),
            tv == transitions_view(ts@),
            action_refs_view(r@) == unique_seq(eventless_labels(tv.take(i as int), guards)),
        decreases ts@.len() - i,
    {
        let ghost prev = eventless_labels(tv.take(i as int), guards);
        proof {
            assert(tv.take(i + 1).drop_last() =~= tv.take(i as int));
            assert(tv.take(i + 1).last() == ts@[i as int]@);
        }
        let t = ts[i];
        let label = if guards { t.guard() } else { t.action() };
        match (label, t.event()) {
            (Some(l), None) => {
                proof {
                    assert(eventless_labels(tv.take(i + 1), guards) == prev.push(l@));
                    lemma_unique_push(prev, l@);
                    lemma_unique_contains(prev, l@);
                }
                if !has_action(&r, l) {
                    let ghost before = r@;
                    r.push(l);
                    proof { assert(action_refs_view(r@) =~= action_refs_view(before).push(l@)); }
                }
            },
            _ => {
                proof { assert(eventless_labels(tv.take(i + 1), guards) == prev); }
            },
        }
        i = i + 1;
    }
    proof { assert(tv.take(ts@.len() as int) =~= tv); }
    r
}

/// The actions of transitions no event triggers (completion transitions and event-less exits),
/// each once, in order of first use.
pub fn direct_transition_actions<'a>(fsm: &'a UmlFsm) -> (r: Vec<&'a Action>)
    requires
        fsm.wf(),
    ensures
        action_refs_view(r@) == unique_seq(eventless_labels(fsm_transitions(fsm@.nodes), false)),
{
    eventless_transition_labels(fsm, false)
}

/// The guards of transitions no event triggers, each once, in order of first use.
pub fn direct_transition_guards<'a>(fsm: &'a UmlFsm) -> (r: Vec<&'a Action>)
    requires
        fsm.wf(),
    ensures
        action_refs_view(r@) == unique_seq(eventless_labels(fsm_transitions(fsm@.nodes), true)),
{
    eventless_transition_labels(fsm, true)
}

/// An enter or exit action and the states that run it, by qualified name.
#[derive(Debug, PartialEq, Eq)]
pub struct StateAction {
    pub action: Action,
    pub states: Vec<String>,
}

impl View for StateAction {
    type V = (Seq<char>, Seq<Seq<char>>);

    open spec fn view(&self) -> (Seq<char>, Seq<Seq<char>>) {
        (self.action@, self.states@.map_values(|s: String| s@))
    }
}

/// A state's enter action (`enter` set) or exit action.
pub open spec fn state_action(d: StateView, enter: bool) -> Option<Seq<char>> {
    if enter {
        d.enter_action
    } else {
        d.exit_action
    }
}

/// Whether group `k` is the group for action `a`.
pub open spec fn group_for(g: Seq<(Seq<char>, Seq<Seq<char>>)>, a: Seq<char>) -> spec_fn(int) -> bool {
    |k: int| g[k].0 == a
}

/// The position of the group for action `a`, if there is one.
pub open spec fn group_index(g: Seq<(Seq<char>, Seq<Seq<char>>)>, a: Seq<char>) -> Option<int> {
    first_where(g.len() as int, group_for(g, a), 0)
}

/// The enter (or exit) actions of the first `n` states, each with the qualified names (joined
/// by `::`) of the states that run it; groups in order of first use, states in state order.
pub open spec fn action_groups(nodes: Nodes, enter: bool, n: int) -> Seq<(Seq<char>, Seq<Seq<char>>)>
    decreases n,
{
    if n <= 0 {
        Seq::empty()
    } else {
        let g = action_groups(nodes, enter, n - 1);
        match state_action(data_of(nodes, n - 1), enter) {
            None => g,
            Some(a) => {
                let q = qualified_name(nodes, n - 1, "::"@);
                match group_index(g, a) {
                    Some(k) => g.update(k, (a, g[k].1.push(q))),
                    None => g.push((a, seq![q])),
                }
            },
        }
    }
}

/// The views of state-action groups.
pub open spec fn groups_view(gs: Seq<StateAction>) -> Seq<(Seq<char>, Seq<Seq<char>>)> {
    gs.map_values(|g: StateAction| g@)
}

/// The position of the group for `a` (see [`group_index`]).
fn find_group(groups: &Vec<StateAction>, a: &Action) -> (r: Option<usize>)
    ensures
        match r {
            Some(k) => group_index(groups_view(groups@), a@) == Some(k as int) && k < groups@.len(),
            None => group_index(groups_view(groups@), a@) is None,
        },
{
    let ghost g = groups_view(groups@);
    let ghost p = group_for(g, a@);
    let mut k: usize = 0;
    while k < groups.len()
        invariant
            g == groups_view(groups@),
            p == group_for(g, a@),
            k <= groups@.len(),
            first_where(g.len() as int, p, 0) == first_where(g.len() as int, p, k as int),
        decreases groups@.len() - k,
    {
        proof { assert(g[k as int] == groups@[k as int]@); }
        if groups[k].action.same(a) {
            return Some(k);
        }
        k = k + 1;
    }
    None
}

/// Groups the states' enter (or exit) actions by action (see [`action_groups`]).
fn group_state_actions(fsm: &UmlFsm, enter: bool) -> (r: Vec<StateAction>)
    requires
        fsm.wf(),
    ensures
        groups_view(r@) == action_groups(fsm@.nodes, enter, fsm@.nodes.len() as int),
{
    let ghost nodes = fsm@.nodes;
    let states = fsm.states();
    let mut groups: Vec<StateAction> = Vec::new();
    let mut i: usize = 0;
    while i < states.len()
        invariant
            fsm.wf(),
            nodes == fsm@.nodes,
            states@.len() == nodes.len(),
            forall|j: int| #![trigger states@[j]] 0 <= j < states@.len() ==> states@[j]@ == j && states@[j].machine() == fsm && states@[j].wf(),
            i <= states@.len(),
            groups_view(groups@) == action_groups(nodes, enter, i as int),
        decreases states@.len() - i,
    {
        let s = states[i];
        proof { assert(s@ == i && s.machine() == fsm && s.wf()); }
        let sel = if enter { s.enter_action() } else { s.exit_action() };
        let ghost g = groups_view(groups@);
        match sel {
            None => {},
            Some(a) => {
                let name = s.qualified_name("::");
                match find_group(&groups, a) {
                    Some(k) => {
                        let ghost before = groups@;
                        let mut grp = groups.remove(k);
                        let ghost gv = grp@;
                        let ghost gs = grp.states@;
                        grp.states.push(name);
                        proof {
                            let pq = |q: int| g[q].0 == a@;
                            lemma_first_where(g.len() as int, pq, 0);
                            assert(pq(k as int));
                            assert(gv == g[k as int]);
                            assert(grp.states@ == gs.push(name));
                            assert(grp@.1 =~= gv.1.push(name@));
                            assert(grp@ == (a@, g[k as int].1.push(name@)));
                        }
                        let ghost gnew = grp@;
                        groups.insert(k, grp);
                        proof {
                            assert(groups@ =~= before.remove(k as int).insert(k as int, groups@[k as int]));
                            assert forall|q: int| 0 <= q < groups@.len() implies #[trigger] groups_view(groups@)[q]
                                == g.update(k as int, gnew)[q] by {
                                if q < k {
                                    assert(groups@[q] == before[q]);
                                } else if q > k {
                                    assert(groups@[q] == before[q]);
                                }
                            }
                            assert(groups_view(groups@) =~= g.update(k as int, (a@, g[k as int].1.push(name@))));
                        }
                    },
                    None => {
                        let mut v: Vec<String> = Vec::new();
                        v.push(name);
                        let grp = StateAction { action: a.duplicate(), states: v };
                        proof { assert(grp@.1 =~= seq![name@]); }
                        groups.push(grp);
                        proof {
                            assert(groups_view(groups@) =~= g.push((a@, seq![name@])));
                        }
                    },
                }
            },
        }
        i = i + 1;
    }
    groups
}

/// Every enter action with the states that run it, by qualified name; groups in order of
/// first use, states in state order.
pub fn enter_actions(fsm: &UmlFsm) -> (r: Vec<StateAction>)
    requires
        fsm.wf(),
    ensures
        groups_view(r@) == action_groups(fsm@.nodes, true, fsm@.nodes.len() as int),
{
    group_state_actions(fsm, true)
}

/// Every exit action with the states that run it, by qualified name; groups in order of first
/// use, states in state order.
pub fn exit_actions(fsm: &UmlFsm) -> (r: Vec<StateAction>)
    requires
        fsm.wf(),
    ensures
        groups_view(r@) == action_groups(fsm@.nodes, false, fsm@.nodes.len() as int),
{
    group_state_actions(fsm, false)
}


/// The (action, event) pairs are exactly those of the event-triggered transitions with an
/// action, whether or not they are guarded; likewise the (guard, event) pairs for the guarded
/// ones. `actions` and `guards` list each once.
pub proof fn law_labelled_pairs(ts: Seq<TransitionView>, guards: bool)
    ensures
        forall|a: Seq<char>, e: Seq<char>| #[trigger] unique_seq(labelled_pairs(ts, guards)).contains((a, e)) <==>
            exists|k: int| 0 <= k < ts.len() && (#[trigger] ts[k]).ev() == Some(e) && (if guards { ts[k].grd() } else { ts[k].act() }) == Some(a),
{
    lemma_labelled_pairs(ts, guards);
    assert forall|a: Seq<char>, e: Seq<char>| #[trigger] unique_seq(labelled_pairs(ts, guards)).contains((a, e)) <==>
        exists|k: int| 0 <= k < ts.len() && (#[trigger] ts[k]).ev() == Some(e) && (if guards { ts[k].grd() } else { ts[k].act() }) == Some(a) by {
        lemma_unique_contains(labelled_pairs(ts, guards), (a, e));
    }
}

/// [`law_labelled_pairs`] before duplicates are dropped.
proof fn lemma_labelled_pairs(ts: Seq<TransitionView>, guards: bool)
    ensures
        forall|a: Seq<char>, e: Seq<char>| #[trigger] labelled_pairs(ts, guards).contains((a, e)) <==>
            exists|k: int| 0 <= k < ts.len() && (#[trigger] ts[k]).ev() == Some(e) && (if guards { ts[k].grd() } else { ts[k].act() }) == Some(a),
    decreases ts.len(),
{
    if ts.len() > 0 {
        let prev_ts = ts.drop_last();
        lemma_labelled_pairs(prev_ts, guards);
        let prev = labelled_pairs(prev_ts, guards);
        let cur = labelled_pairs(ts, guards);
        let t = ts.last();
        assert forall|a: Seq<char>, e: Seq<char>| #[trigger] cur.contains((a, e)) <==>
            exists|k: int| 0 <= k < ts.len() && (#[trigger] ts[k]).ev() == Some(e) && (if guards { ts[k].grd() } else { ts[k].act() }) == Some(a) by {
            if cur.contains((a, e)) {
                if prev.contains((a, e)) {
                    let k = choose|k: int| 0 <= k < prev_ts.len() && (#[trigger] prev_ts[k]).ev() == Some(e) && (if guards { prev_ts[k].grd() } else { prev_ts[k].act() }) == Some(a);
                    assert(ts[k] == prev_ts[k]);
                } else {
                    let q = choose|q: int| 0 <= q < cur.len() && cur[q] == (a, e);
                    if q < prev.len() {
                        assert(cur[q] == prev[q]);
                    }
                    assert(ts[ts.len() - 1] == t);
                }
            }
            if exists|k: int| 0 <= k < ts.len() && (#[trigger] ts[k]).ev() == Some(e) && (if guards { ts[k].grd() } else { ts[k].act() }) == Some(a) {
                let k = choose|k: int| 0 <= k < ts.len() && (#[trigger] ts[k]).ev() == Some(e) && (if guards { ts[k].grd() } else { ts[k].act() }) == Some(a);
                if k < ts.len() - 1 {
                    assert(prev_ts[k] == ts[k]);
                    assert(prev.contains((a, e)));
                    let q = choose|q: int| 0 <= q < prev.len() && prev[q] == (a, e);
                    if ((if guards { t.grd() } else { t.act() }) is Some && t.ev() is Some) {
                        assert(cur[q] == prev[q]);
                    }
                } else {
                    assert(cur[prev.len() as int] == (a, e));
                }
            }
        }
    }
}

/// The actions (or guards) of event-less transitions are exactly those of the transitions no
/// event triggers that have one, whether or not they are guarded; listed once each.
pub proof fn law_eventless_labels(ts: Seq<TransitionView>, guards: bool)
    ensures
        forall|a: Seq<char>| #[trigger] unique_seq(eventless_labels(ts, guards)).contains(a) <==>
            exists|k: int| 0 <= k < ts.len() && (#[trigger] ts[k]).ev() is None && (if guards { ts[k].grd() } else { ts[k].act() }) == Some(a),
{
    lemma_eventless_labels(ts, guards);
    assert forall|a: Seq<char>| #[trigger] unique_seq(eventless_labels(ts, guards)).contains(a) <==>
        exists|k: int| 0 <= k < ts.len() && (#[trigger] ts[k]).ev() is None && (if guards { ts[k].grd() } else { ts[k].act() }) == Some(a) by {
        lemma_unique_contains(eventless_labels(ts, guards), a);
    }
}

/// [`law_eventless_labels`] before duplicates are dropped.
proof fn lemma_eventless_labels(ts: Seq<TransitionView>, guards: bool)
    ensures
        forall|a: Seq<char>| #[trigger] eventless_labels(ts, guards).contains(a) <==>
            exists|k: int| 0 <= k < ts.len() && (#[trigger] ts[k]).ev() is None && (if guards { ts[k].grd() } else { ts[k].act() }) == Some(a),
    decreases ts.len(),
{
    if ts.len() > 0 {
        let prev_ts = ts.drop_last();
        lemma_eventless_labels(prev_ts, guards);
        let prev = eventless_labels(prev_ts, guards);
        let cur = eventless_labels(ts, guards);
        let t = ts.last();
        assert forall|a: Seq<char>| #[trigger] cur.contains(a) <==>
            exists|k: int| 0 <= k < ts.len() && (#[trigger] ts[k]).ev() is None && (if guards { ts[k].grd() } else { ts[k].act() }) == Some(a) by {
            if cur.contains(a) {
                if prev.contains(a) {
                    let k = choose|k: int| 0 <= k < prev_ts.len() && (#[trigger] prev_ts[k]).ev() is None && (if guards { prev_ts[k].grd() } else { prev_ts[k].act() }) == Some(a);
                    assert(ts[k] == prev_ts[k]);
                } else {
                    let q = choose|q: int| 0 <= q < cur.len() && cur[q] == a;
                    if q < prev.len() {
                        assert(cur[q] == prev[q]);
                    }
                    assert(ts[ts.len() - 1] == t);
                }
            }
            if exists|k: int| 0 <= k < ts.len() && (#[trigger] ts[k]).ev() is None && (if guards { ts[k].grd() } else { ts[k].act() }) == Some(a) {
                let k = choose|k: int| 0 <= k < ts.len() && (#[trigger] ts[k]).ev() is None && (if guards { ts[k].grd() } else { ts[k].act() }) == Some(a);
                if k < ts.len() - 1 {
                    assert(prev_ts[k] == ts[k]);
                    assert(prev.contains(a));
                    let q = choose|q: int| 0 <= q < prev.len() && prev[q] == a;
                    if ((if guards { t.grd() } else { t.act() }) is Some && t.ev() is None) {
                        assert(cur[q] == prev[q]);
                    }
                } else {
                    assert(cur[prev.len() as int] == a);
                }
            }
        }
    }
}


/// What `group_index` finds: the first group for `a`, or none.
proof fn lemma_group_index(g: Seq<(Seq<char>, Seq<Seq<char>>)>, a: Seq<char>)
    ensures
        group_index(g, a) matches Some(k) ==> 0 <= k < g.len() && g[k].0 == a,
        group_index(g, a) is None ==> forall|k: int| 0 <= k < g.len() ==> #[trigger] g[k].0 != a,
{
    lemma_first_where(g.len() as int, group_for(g, a), 0);
    if group_index(g, a) is None {
        assert forall|k: int| 0 <= k < g.len() implies #[trigger] g[k].0 != a by {
            assert(!group_for(g, a)(k));
        }
    }
}

/// Among the first `n` states, one that runs the enter (or exit) action `a` has the
/// qualified name `name`.
pub open spec fn runs_action(nodes: Nodes, enter: bool, n: int, a: Seq<char>, name: Seq<char>) -> bool {
    exists|i: int| 0 <= i < n && state_action(data_of(nodes, i), enter) == Some(a) && name == #[trigger] qualified_name(nodes, i, "::"@)
}

/// Grouping the states' enter (or exit) actions: each action has one group; a group lists,
/// by qualified name (joined by `::`), states that run its action; and every state that runs
/// an action is listed, by qualified name, in that action's group.
pub proof fn law_action_groups(nodes: Nodes, enter: bool, n: int)
    requires
        0 <= n,
    ensures
        ({
            let g = action_groups(nodes, enter, n);
            &&& forall|j: int, q: int| 0 <= j < g.len() && 0 <= q < g[j].1.len() ==> runs_action(nodes, enter, n, g[j].0, #[trigger] g[j].1[q])
            &&& forall|i: int| 0 <= i < n && #[trigger] state_action(data_of(nodes, i), enter) is Some ==> exists|j: int|
                0 <= j < g.len() && Some(#[trigger] g[j].0) == state_action(data_of(nodes, i), enter)
                    && g[j].1.contains(qualified_name(nodes, i, "::"@))
            &&& forall|j1: int, j2: int| 0 <= j1 < j2 < g.len() ==> #[trigger] g[j1].0 != #[trigger] g[j2].0
        }),
    decreases n,
{
    if n > 0 {
        law_action_groups(nodes, enter, n - 1);
        let g = action_groups(nodes, enter, n - 1);
        let cur = action_groups(nodes, enter, n);
        let last = n - 1;
        let lastq = qualified_name(nodes, last, "::"@);
        // What the first `n - 1` states run, the first `n` run.
        assert forall|a: Seq<char>, x: Seq<char>| runs_action(nodes, enter, n - 1, a, x) implies runs_action(nodes, enter, n, a, x) by {
            let i = choose|i: int| 0 <= i < n - 1 && state_action(data_of(nodes, i), enter) == Some(a) && x == #[trigger] qualified_name(nodes, i, "::"@);
            assert(0 <= i < n && state_action(data_of(nodes, i), enter) == Some(a) && x == qualified_name(nodes, i, "::"@));
        }
        match state_action(data_of(nodes, last), enter) {
            None => {
                assert(cur == g);
                assert forall|j: int, r: int| 0 <= j < cur.len() && 0 <= r < cur[j].1.len() implies runs_action(nodes, enter, n, cur[j].0, #[trigger] cur[j].1[r]) by {
                    assert(runs_action(nodes, enter, n - 1, g[j].0, g[j].1[r]));
                }
                assert forall|i: int| 0 <= i < n && #[trigger] state_action(data_of(nodes, i), enter) is Some implies exists|j: int|
                    0 <= j < cur.len() && Some(#[trigger] cur[j].0) == state_action(data_of(nodes, i), enter)
                        && cur[j].1.contains(qualified_name(nodes, i, "::"@)) by {
                    assert(i < last);
                    let j = choose|j: int| 0 <= j < g.len() && Some(#[trigger] g[j].0) == state_action(data_of(nodes, i), enter)
                        && g[j].1.contains(qualified_name(nodes, i, "::"@));
                    assert(Some(cur[j].0) == state_action(data_of(nodes, i), enter));
                }
            },
            Some(a) => {
                assert(runs_action(nodes, enter, n, a, lastq)) by {
                    assert(0 <= last < n && state_action(data_of(nodes, last), enter) == Some(a) && lastq == qualified_name(nodes, last, "::"@));
                }
                lemma_group_index(g, a);
                match group_index(g, a) {
                    Some(k) => {
                        assert(cur == g.update(k, (a, g[k].1.push(lastq))));
                        assert forall|j: int, r: int| 0 <= j < cur.len() && 0 <= r < cur[j].1.len() implies runs_action(nodes, enter, n, cur[j].0, #[trigger] cur[j].1[r]) by {
                            if j == k && r == g[k].1.len() {
                                assert(cur[j].1 == g[k].1.push(lastq));
                                assert(cur[j].1[r] == lastq);
                            } else if j == k {
                                assert(cur[j].1 == g[k].1.push(lastq));
                                assert(cur[j].1[r] == g[j].1[r]);
                                assert(runs_action(nodes, enter, n - 1, g[j].0, g[j].1[r]));
                            } else {
                                assert(cur[j] == g[j]);
                                assert(runs_action(nodes, enter, n - 1, g[j].0, g[j].1[r]));
                            }
                        }
                        assert forall|i: int| 0 <= i < n && #[trigger] state_action(data_of(nodes, i), enter) is Some implies exists|j: int|
                            0 <= j < cur.len() && Some(#[trigger] cur[j].0) == state_action(data_of(nodes, i), enter)
                                && cur[j].1.contains(qualified_name(nodes, i, "::"@)) by {
                            if i == last {
                                assert(cur[k].1 == g[k].1.push(lastq));
                                assert(cur[k].1[g[k].1.len() as int] == lastq);
                                assert(Some(cur[k].0) == state_action(data_of(nodes, i), enter));
                            } else {
                                let j = choose|j: int| 0 <= j < g.len() && Some(#[trigger] g[j].0) == state_action(data_of(nodes, i), enter)
                                    && g[j].1.contains(qualified_name(nodes, i, "::"@));
                                let x = qualified_name(nodes, i, "::"@);
                                let r = choose|r: int| 0 <= r < g[j].1.len() && g[j].1[r] == x;
                                if j == k {
                                    assert(cur[j].1 == g[k].1.push(lastq));
                                    assert(cur[j].1[r] == x);
                                } else {
                                    assert(cur[j] == g[j]);
                                }
                                assert(Some(cur[j].0) == state_action(data_of(nodes, i), enter));
                            }
                        }
                        assert forall|j1: int, j2: int| 0 <= j1 < j2 < cur.len() implies #[trigger] cur[j1].0 != #[trigger] cur[j2].0 by {
                            assert(cur[j1].0 == g[j1].0);
                            assert(cur[j2].0 == g[j2].0);
                        }
                    },
                    None => {
                        assert(cur == g.push((a, seq![lastq])));
                        assert forall|j: int, r: int| 0 <= j < cur.len() && 0 <= r < cur[j].1.len() implies runs_action(nodes, enter, n, cur[j].0, #[trigger] cur[j].1[r]) by {
                            if j == g.len() {
                                assert(cur[j].1[r] == lastq);
                            } else {
                                assert(cur[j] == g[j]);
                                assert(runs_action(nodes, enter, n - 1, g[j].0, g[j].1[r]));
                            }
                        }
                        assert forall|i: int| 0 <= i < n && #[trigger] state_action(data_of(nodes, i), enter) is Some implies exists|j: int|
                            0 <= j < cur.len() && Some(#[trigger] cur[j].0) == state_action(data_of(nodes, i), enter)
                                && cur[j].1.contains(qualified_name(nodes, i, "::"@)) by {
                            if i == last {
                                let j = g.len() as int;
                                assert(cur[j].1[0] == lastq);
                                assert(Some(cur[j].0) == state_action(data_of(nodes, i), enter));
                            } else {
                                let j = choose|j: int| 0 <= j < g.len() && Some(#[trigger] g[j].0) == state_action(data_of(nodes, i), enter)
                                    && g[j].1.contains(qualified_name(nodes, i, "::"@));
                                assert(cur[j] == g[j]);
                                assert(Some(cur[j].0) == state_action(data_of(nodes, i), enter));
                            }
                        }
                        assert forall|j1: int, j2: int| 0 <= j1 < j2 < cur.len() implies #[trigger] cur[j1].0 != #[trigger] cur[j2].0 by {
                            assert(cur[j1] == g[j1]);
                            if j2 == g.len() {
                                assert(g[j1].0 != a);
                            } else {
                                assert(cur[j2] == g[j2]);
                            }
                        }
                    },
                }
            },
        }
    }
}

} // verus!
