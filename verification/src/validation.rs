//! The rules a collected FSM must satisfy before it is built.
use vstd::prelude::*;

use crate::arena::{arena_intact, arena_data, arena_len, arena_nodes, arena_parent, data_of, nodes_view, parent_of, wf_nodes, Nodes};
use crate::error::{BuildError, BuildErrorView};
use crate::model::{dup_event, has_enter, opt_action_view, opt_event_view, StateData, StateId, TransitionData, TransitionView};
use crate::text::{first_where, join, join_strings, lemma_first_where, unique_seq};
use crate::types::{Action, Event};

verus! {

/// The transitions of the first `i` states, in storage order.
pub open spec fn trans_upto(nodes: Nodes, i: int) -> Seq<TransitionView>
    decreases i,
{
    if i <= 0 {
        Seq::empty()
    } else {
        trans_upto(nodes, i - 1) + data_of(nodes, i - 1).transitions
    }
}

/// Every transition of the FSM, state by state in storage order.
pub open spec fn all_transitions(nodes: Nodes) -> Seq<TransitionView> {
    trans_upto(nodes, nodes.len() as int)
}

/// The views of a sequence of transition references.
pub open spec fn tviews(ts: Seq<&TransitionData>) -> Seq<TransitionView> {
    ts.map_values(|t: &TransitionData| (*t)@)
}

/// Every transition of the arena, state by state in storage order.
pub(crate) fn collect_transitions(arena: &indextree::Arena<StateData>) -> (r: Vec<&TransitionData>)
    requires
        arena_intact(*arena),
    ensures
        tviews(r@) == all_transitions(nodes_view(*arena)),
{
    let ghost nodes = nodes_view(*arena);
    let n = arena_len(arena);
    let mut r: Vec<&TransitionData> = Vec::new();
    let mut i: usize = 0;
    while i < n
        invariant
            n == nodes.len(),
            nodes == nodes_view(*arena),
            arena_intact(*arena),
            i <= n,
            tviews(r@) == trans_upto(nodes, i as int),
        decreases n - i,
    {
        let d = arena_data(arena, i);
        proof {
            assert(d@ == data_of(nodes, i as int));
        }
        let m = d.transitions.len();
        let mut j: usize = 0;
        while j < m
            invariant
                m == d.transitions@.len(),
                d@ == data_of(nodes, i as int),
                j <= m,
                tviews(r@) == trans_upto(nodes, i as int) + d@.transitions.take(j as int),
            decreases m - j,
        {
            let ghost before = r@;
            r.push(&d.transitions[j]);
            proof {
                assert(tviews(r@) =~= tviews(before).push(d.transitions@[j as int]@));
                assert(d@.transitions.take(j + 1) =~= d@.transitions.take(j as int).push(d.transitions@[j as int]@));
                assert(tviews(r@) =~= trans_upto(nodes, i as int) + d@.transitions.take(j + 1));
            }
            j = j + 1;
        }
        proof {
            assert(d@.transitions.take(m as int) =~= d@.transitions);
        }
        i = i + 1;
    }
    r
}

/// Whether two optional events carry the same name.
pub fn same_event(a: Option<&Event>, b: Option<&Event>) -> (r: bool)
    ensures
        r == (match (a, b) {
            (Some(x), Some(y)) => x@ == y@,
            (None, None) => true,
            _ => false,
        }),
{
    match (a, b) {
        (Some(x), Some(y)) => x.same(y),
        (None, None) => true,
        _ => false,
    }
}

/// Whether two optional actions carry the same name.
pub fn same_action(a: Option<&Action>, b: Option<&Action>) -> (r: bool)
    ensures
        r == (match (a, b) {
            (Some(x), Some(y)) => x@ == y@,
            (None, None) => true,
            _ => false,
        }),
{
    match (a, b) {
        (Some(x), Some(y)) => x.same(y),
        (None, None) => true,
        _ => false,
    }
}

// ---------------------------------------------------------------------------------------------
// Each action triggered by at most one event.

/// Transitions `k` and `m` carry the same action for two different events.
pub open spec fn action_clash(ts: Seq<TransitionView>, k: int, m: int) -> bool {
    &&& ts[k].ev() is Some
    &&& ts[m].ev() is Some
    &&& ts[k].act() is Some
    &&& ts[m].act() == ts[k].act()
    &&& ts[m].ev() != ts[k].ev()
}

/// Transition `k`'s action is also the effect of a transition with a different event.
pub open spec fn action_conflicted(ts: Seq<TransitionView>, k: int) -> bool {
    exists|m: int| 0 <= m < ts.len() && #[trigger] action_clash(ts, k, m)
}

/// The events of the event-triggered transitions whose action is `a`, in order.
pub open spec fn action_events(ts: Seq<TransitionView>, a: Seq<char>) -> Seq<Seq<char>>
    decreases ts.len(),
{
    if ts.len() == 0 {
        Seq::empty()
    } else {
        let prefix = action_events(ts.drop_last(), a);
        if ts.last().act() == Some(a) && ts.last().ev() is Some {
            prefix.push(ts.last().ev()->0)
        } else {
            prefix
        }
    }
}

/// An action may be the effect of transitions triggered by one event only. Fails on the first
/// transition (in order) whose action another event also triggers, listing that action's
/// distinct events in order of first use.
pub open spec fn spec_injective_action_mapping(ts: Seq<TransitionView>) -> Result<(), BuildErrorView> {
    match first_where(ts.len() as int, |k: int| action_conflicted(ts, k), 0) {
        None => Ok(()),
        Some(k) => {
            let a = ts[k].act()->0;
            Err(BuildErrorView::MultipleEventsPerAction { action: a, events: join(unique_seq(action_events(ts, a)), ", "@) })
        },
    }
}

/// Whether `s` holds `x`.
fn contains_string(s: &Vec<String>, x: &String) -> (r: bool)
    ensures
        r == s@.map_values(|p: String| p@).contains(x@),
{
    let ghost views = s@.map_values(|p: String| p@);
    let mut i: usize = 0;
    while i < s.len()
        invariant
            i <= s@.len(),
            views == s@.map_values(|p: String| p@),
            forall|j: int| 0 <= j < i ==> views[j] != x@,
        decreases s@.len() - i,
    {
        if s[i] == *x {
            assert(views[i as int] == x@);
            return true;
        }
        i = i + 1;
    }
    false
}

/// `unique_seq` keeps exactly the elements of its argument.
pub proof fn lemma_unique_contains<A>(s: Seq<A>, x: A)
    ensures
        unique_seq(s).contains(x) == s.contains(x),
    decreases s.len(),
{
    if s.len() > 0 {
        lemma_unique_contains(s.drop_last(), x);
        assert(s =~= s.drop_last().push(s.last()));
        if s.drop_last().contains(s.last()) {
            if s.contains(x) {
                let k = choose|k: int| 0 <= k < s.len() && s[k] == x;
                if k == s.len() - 1 {
                    assert(s.drop_last().contains(x));
                } else {
                    assert(s.drop_last()[k] == x);
                }
            }
        } else {
            let u = unique_seq(s.drop_last());
            if s.contains(x) {
                let k = choose|k: int| 0 <= k < s.len() && s[k] == x;
                if k == s.len() - 1 {
                    assert(u.push(s.last())[u.len() as int] == x);
                } else {
                    assert(s.drop_last()[k] == x);
                    let k2 = choose|k2: int| 0 <= k2 < u.len() && u[k2] == x;
                    assert(u.push(s.last())[k2] == x);
                }
            }
            if u.push(s.last()).contains(x) {
                let k = choose|k: int| 0 <= k < u.len() + 1 && u.push(s.last())[k] == x;
                if k == u.len() {
                    assert(s[s.len() - 1] == x);
                } else {
                    assert(u[k] == x);
                    let k2 = choose|k2: int| 0 <= k2 < s.drop_last().len() && s.drop_last()[k2] == x;
                    assert(s[k2] == x);
                }
            }
        }
    }
}

/// The distinct events of the transitions whose action is `a`, in order of first use.
fn distinct_action_events(ts: &Vec<&TransitionData>, a: &Action) -> (r: Vec<String>)
    ensures
        r@.map_values(|p: String| p@) == unique_seq(action_events(tviews(ts@), a@)),
{
    let ghost tv = tviews(ts@);
    let mut r: Vec<String> = Vec::new();
    let mut i: usize = 0;
    while i < ts.len()
        invariant
            i <= ts@.len(),
            tv == tviews(ts@),
            r@.map_values(|p: String| p@) == unique_seq(action_events(tv.take(i as int), a@)),
        decreases ts@.len() - i,
    {
        let t = ts[i];
        proof {
            assert(tv.take(i + 1).drop_last() =~= tv.take(i as int));
            assert(tv.take(i + 1).last() == t@);
        }
        let ghost prev = action_events(tv.take(i as int), a@);
        match (t.action(), t.event()) {
            (Some(ta), Some(te)) => {
                if ta.same(a) {
                    let name = te.0.clone();
                    proof {
                        assert(action_events(tv.take(i + 1), a@) == prev.push(te@));
                        lemma_unique_contains(prev, te@);
                        assert(prev.push(te@).drop_last() =~= prev);
                    }
                    if !contains_string(&r, &name) {
                        let ghost before = r@;
                        r.push(name);
                        proof {
                            assert(r@.map_values(|p: String| p@) =~= before.map_values(|p: String| p@).push(te@));
                        }
                    }
                } else {
                    proof {
                        assert(action_events(tv.take(i + 1), a@) == prev);
                    }
                }
            },
            _ => {
                proof {
                    assert(action_events(tv.take(i + 1), a@) == prev);
                }
            },
        }
        i = i + 1;
    }
    proof {
        assert(tv.take(ts@.len() as int) =~= tv);
    }
    r
}

/// Checks that each action is the effect of transitions triggered by one event only.
pub fn injective_action_mapping(ts: &Vec<&TransitionData>) -> (r: Result<(), BuildError>)
    ensures
        match r {
            Ok(()) => spec_injective_action_mapping(tviews(ts@)) == Ok::<(), BuildErrorView>(()),
            Err(e) => spec_injective_action_mapping(tviews(ts@)) == Err::<(), BuildErrorView>(e@),
        },
{
    let ghost tv = tviews(ts@);
    let ghost p = |k: int| action_conflicted(tv, k);
    let n = ts.len();
    let mut k: usize = 0;
    while k < n
        invariant
            n == ts@.len(),
            tv == tviews(ts@),
            p == (|k: int| action_conflicted(tv, k)),
            k <= n,
            first_where(n as int, p, 0) == first_where(n as int, p, k as int),
        decreases n - k,
    {
        let tk = ts[k];
        let mut hit = false;
        match (tk.event(), tk.action()) {
            (Some(ek), Some(ak)) => {
                let mut m: usize = 0;
                while m < n
                    invariant
                        n == ts@.len(),
                        tv == tviews(ts@),
                        m <= n,
                        k < n,
                        tk@ == tv[k as int],
                        tv[k as int].ev() == Some(ek@),
                        tv[k as int].act() == Some(ak@),
                        hit ==> action_conflicted(tv, k as int),
                        !hit ==> forall|j: int| 0 <= j < m ==> !action_clash(tv, k as int, j),
                    decreases n - m,
                {
                    if !hit {
                        let tm = ts[m];
                        proof { assert(tm@ == tv[m as int]); }
                        match (tm.event(), tm.action()) {
                            (Some(em), Some(am)) => {
                                if am.same(ak) && !em.same(ek) {
                                    hit = true;
                                    assert(action_clash(tv, k as int, m as int));
                                }
                            },
                            _ => {},
                        }
                    }
                    m = m + 1;
                }
                if hit {
                    proof {
                        assert(p(k as int));
                        assert(first_where(n as int, p, k as int) == Some(k as int));
                    }
                    let events = distinct_action_events(ts, ak);
                    let joined = join_strings(&events, ", ");
                    return Err(BuildError::MultipleEventsPerAction { action: ak.duplicate(), events: joined });
                }
                proof {
                    assert(!action_conflicted(tv, k as int));
                }
            },
            _ => {
                proof {
                    assert(tk@ == tv[k as int]);
                    assert(!action_conflicted(tv, k as int));
                }
            },
        }
        proof {
            assert(!p(k as int));
        }
        k = k + 1;
    }
    Ok(())
}

// ---------------------------------------------------------------------------------------------
// Deterministic choice among transitions of one state for one event.

/// Transitions `k` and `m` leave the same state for the same event (or none).
pub open spec fn same_group(ts: Seq<TransitionView>, k: int, m: int) -> bool {
    &&& k != m
    &&& !(ts[k] is Enter)
    &&& !(ts[m] is Enter)
    &&& ts[k].src() == ts[m].src()
    &&& ts[k].ev() == ts[m].ev()
}

/// Transitions `k` and `m` of one group are rivals: both unguarded (when `guards` is unset), or
/// carrying the same guard (when it is set).
pub open spec fn group_clash(ts: Seq<TransitionView>, k: int, m: int, guards: bool) -> bool {
    &&& same_group(ts, k, m)
    &&& if guards {
        ts[k].grd() == ts[m].grd()
    } else {
        ts[k].grd() is None && ts[m].grd() is None
    }
}

/// Transition `k` has a rival in its group.
pub open spec fn has_rival(ts: Seq<TransitionView>, k: int, guards: bool) -> bool {
    exists|m: int| 0 <= m < ts.len() && #[trigger] group_clash(ts, k, m, guards)
}

/// The first transition (in order) that has a rival in its group.
pub open spec fn first_rival(ts: Seq<TransitionView>, guards: bool) -> Option<int> {
    first_where(ts.len() as int, |k: int| has_rival(ts, k, guards), 0)
}

/// At most one transition of a state for an event may be unguarded (the default branch).
/// Fails on the first transition (in order) that has an unguarded rival.
pub open spec fn spec_no_conflicting_transitions(nodes: Nodes, ts: Seq<TransitionView>) -> Result<(), BuildErrorView> {
    match first_rival(ts, false) {
        None => Ok(()),
        Some(k) => Err(BuildErrorView::ConflictingTransitions { state: data_of(nodes, ts[k].src() as int).name, event: ts[k].ev() }),
    }
}

/// The guards of the transitions of a state for an event must differ. Fails on the first
/// transition (in order) whose guard a rival repeats.
pub open spec fn spec_unique_guards_per_event(ts: Seq<TransitionView>) -> Result<(), BuildErrorView> {
    match first_rival(ts, true) {
        None => Ok(()),
        Some(k) => Err(BuildErrorView::DuplicateGuard(ts[k].ev())),
    }
}

/// Scans for the first transition that has a rival in its group.
fn first_group_clash(ts: &Vec<&TransitionData>, guards: bool) -> (r: Option<usize>)
    ensures
        first_rival(tviews(ts@), guards) == (match r { Some(k) => Some(k as int), None => None::<int> }),
        r matches Some(k) ==> k < ts@.len(),
{
    let ghost tv = tviews(ts@);
    let ghost p = |k: int| has_rival(tv, k, guards);
    let n = ts.len();
    let mut k: usize = 0;
    while k < n
        invariant
            n == ts@.len(),
            tv == tviews(ts@),
            p == (|k: int| has_rival(tv, k, guards)),
            k <= n,
            first_where(n as int, p, 0) == first_where(n as int, p, k as int),
        decreases n - k,
    {
        let tk = ts[k];
        proof { assert(tk@ == tv[k as int]); }
        let eligible = !tk.is_enter() && (guards || tk.guard().is_none());
        if eligible {
            let mut m: usize = 0;
            while m < n
                invariant
                    n == ts@.len(),
                    tv == tviews(ts@),
                    m <= n,
                    k < n,
                    p == (|k: int| has_rival(tv, k, guards)),
                    first_where(n as int, p, 0) == first_where(n as int, p, k as int),
                    tk@ == tv[k as int],
                    !(tv[k as int] is Enter),
                    !guards ==> tv[k as int].grd() is None,
                    forall|j: int| 0 <= j < m ==> !#[trigger] group_clash(tv, k as int, j, guards),
                decreases n - m,
            {
                let tm = ts[m];
                proof { assert(tm@ == tv[m as int]); }
                let hit = m != k && !tm.is_enter() && tm.source() == tk.source()
                    && same_event(tm.event(), tk.event())
                    && (if guards { same_action(tm.guard(), tk.guard()) } else { tm.guard().is_none() });
                if hit {
                    proof {
                        assert(group_clash(tv, k as int, m as int, guards));
                        assert(p(k as int));
                        assert(first_where(n as int, p, k as int) == Some(k as int));
                    }
                    return Some(k);
                }
                proof {
                    assert(!group_clash(tv, k as int, m as int, guards));
                }
                m = m + 1;
            }
            proof {
                assert(!p(k as int));
            }
        } else {
            proof {
                assert(!p(k as int));
            }
        }
        k = k + 1;
    }
    None
}

/// Checks that a state has at most one unguarded transition per event (or per completion).
pub(crate) fn no_conflicting_transitions(arena: &indextree::Arena<StateData>, ts: &Vec<&TransitionData>) -> (r: Result<(), BuildError>)
    requires
        wf_nodes(nodes_view(*arena)),
        arena_intact(*arena),
        tviews(ts@) == all_transitions(nodes_view(*arena)),
    ensures
        match r {
            Ok(()) => spec_no_conflicting_transitions(nodes_view(*arena), tviews(ts@)) == Ok::<(), BuildErrorView>(()),
            Err(e) => spec_no_conflicting_transitions(nodes_view(*arena), tviews(ts@)) == Err::<(), BuildErrorView>(e@),
        },
{
    match first_group_clash(ts, false) {
        None => Ok(()),
        Some(k) => {
            let t = ts[k];
            proof {
                assert(t@ == tviews(ts@)[k as int]);
                lemma_all_transitions_ids(nodes_view(*arena), k as int);
            }
            let d = arena_data(arena, t.source());
            Err(BuildError::ConflictingTransitions { state: d.name.clone(), event: dup_event_ref(t.event()) })
        },
    }
}

/// Checks that the transitions of a state for one event carry distinct guards.
pub fn unique_guards_per_event(ts: &Vec<&TransitionData>) -> (r: Result<(), BuildError>)
    ensures
        match r {
            Ok(()) => spec_unique_guards_per_event(tviews(ts@)) == Ok::<(), BuildErrorView>(()),
            Err(e) => spec_unique_guards_per_event(tviews(ts@)) == Err::<(), BuildErrorView>(e@),
        },
{
    match first_group_clash(ts, true) {
        None => Ok(()),
        Some(k) => {
            let t = ts[k];
            proof { assert(t@ == tviews(ts@)[k as int]); }
            Err(BuildError::DuplicateGuard(dup_event_ref(t.event())))
        },
    }
}

/// An owned copy of an optional event reference.
pub fn dup_event_ref(e: Option<&Event>) -> (r: Option<Event>)
    ensures
        opt_event_view(r) == (match e {
            Some(x) => Some(x@),
            None => None,
        }),
{
    match e {
        Some(x) => Some(x.duplicate()),
        None => None,
    }
}

/// Each transition of a valid arena mentions existing states only.
pub proof fn lemma_all_transitions_ids(nodes: Nodes, k: int)
    requires
        wf_nodes(nodes),
        0 <= k < all_transitions(nodes).len(),
    ensures
        all_transitions(nodes)[k].ids_below(nodes.len()),
{
    lemma_trans_upto_ids(nodes, nodes.len() as int, k);
}

/// Each transition among those of the first `i` states mentions existing states only.
pub proof fn lemma_trans_upto_ids(nodes: Nodes, i: int, k: int)
    requires
        wf_nodes(nodes),
        i <= nodes.len(),
        0 <= k < trans_upto(nodes, i).len(),
    ensures
        trans_upto(nodes, i)[k].ids_below(nodes.len()),
    decreases i,
{
    if i > 0 {
        let prev = trans_upto(nodes, i - 1);
        if k < prev.len() {
            lemma_trans_upto_ids(nodes, i - 1, k);
        } else {
            assert(trans_upto(nodes, i)[k] == data_of(nodes, i - 1).transitions[k - prev.len()]);
        }
    }
}

} // verus!
