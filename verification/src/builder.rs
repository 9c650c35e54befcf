use vstd::prelude::*;

use crate::arena::{
    arena_intact,
    arena_add_child, arena_add_root, arena_data, arena_len, arena_new, arena_nodes, arena_parent, arena_replace,
    data_of, in_scope, in_scope_below, is_below, nodes_view, parent_of, wf_nodes, Nodes,
};
use crate::model::{
    fresh_state, has_enter, ParamsView, StateData, StateId, StateView, TransitionData, TransitionKind,
    TransitionParameters, TransitionView,
};
use crate::types::{Action, Event};
use crate::enter::{find_root_enter_state, link_enter_states, spec_find_root_enter, spec_link_enter_states};
use crate::error::{BuildError, BuildErrorView, Error, ErrorView};
use crate::fsm::{FsmView, UmlFsm};
use crate::inheritance::{
    exit_without_completion, extract_deferred_events, redirect_substate_exits, spec_extract_deferred_events,
    spec_redirect_substate_exits, spec_substate_exits_complete, substate_exits_complete,
};
use crate::text::{blank, first_where, is_blank, lemma_first_where};
use crate::validation::{
    all_transitions, collect_transitions, injective_action_mapping, no_conflicting_transitions,
    spec_injective_action_mapping, spec_no_conflicting_transitions, spec_unique_guards_per_event,
    unique_guards_per_event,
};

verus! {

/// What building a collected FSM called `name` yields: every substate exit must have a
/// completion transition to hand off to; substate exits are then redirected onto those; the
/// transitions must map each action to one event, choose deterministically and carry distinct
/// guards; deferred events are inherited; every state learns the state it enters; exactly one
/// top-level state must be initial; and the name must not be blank.
pub open spec fn spec_build(name: Seq<char>, nodes: Nodes) -> Result<FsmView, BuildErrorView> {
    match spec_substate_exits_complete(nodes) {
        Err(e) => Err(e),
        Ok(_) => {
            let n1 = spec_redirect_substate_exits(nodes);
            let ts = all_transitions(n1);
            match spec_injective_action_mapping(ts) {
                Err(e) => Err(e),
                Ok(_) => match spec_no_conflicting_transitions(n1, ts) {
                    Err(e) => Err(e),
                    Ok(_) => match spec_unique_guards_per_event(ts) {
                        Err(e) => Err(e),
                        Ok(_) => {
                            let n3 = spec_link_enter_states(spec_extract_deferred_events(n1));
                            match spec_find_root_enter(n3) {
                                Err(e) => Err(e),
                                Ok(enter) => if is_blank(name) {
                                    Err(BuildErrorView::EmptyName)
                                } else {
                                    Ok(FsmView { name, enter_state: enter, nodes: n3 })
                                },
                            }
                        },
                    },
                },
            }
        },
    }
}

/// Slot `i` holds a state named `name` that is a child of `scope`: a direct child, or, when
/// `below` is set, any descendant.
pub open spec fn named_in(nodes: Nodes, scope: Option<StateId>, name: Seq<char>, below: bool, i: int) -> bool {
    &&& 0 <= i < nodes.len()
    &&& data_of(nodes, i).name == name
    &&& if below { in_scope_below(nodes, i, scope) } else { in_scope(nodes, i, scope) }
}

/// The first slot, from `i` on, that satisfies [`named_in`].
pub open spec fn first_named(nodes: Nodes, scope: Option<StateId>, name: Seq<char>, below: bool, i: int) -> Option<StateId>
    decreases nodes.len() - i,
{
    if 0 <= i < nodes.len() {
        if named_in(nodes, scope, name, below, i) {
            Some(i as StateId)
        } else {
            first_named(nodes, scope, name, below, i + 1)
        }
    } else {
        None
    }
}

/// The arena with a fresh state named `name` appended to the scope.
pub open spec fn spec_create(nodes: Nodes, scope: Option<StateId>, name: Seq<char>) -> (Nodes, StateId) {
    (nodes.push((scope, fresh_state(name))), nodes.len() as StateId)
}

/// `add_state`: the scope's own state of that name, or a fresh one in the scope.
pub open spec fn spec_add_state(nodes: Nodes, scope: Option<StateId>, name: Seq<char>) -> (Nodes, StateId) {
    match first_named(nodes, scope, name, false, 0) {
        Some(i) => (nodes, i),
        None => spec_create(nodes, scope, name),
    }
}

/// The state of that name anywhere below the scope, or a fresh one in the scope.
pub open spec fn spec_find_or_create(nodes: Nodes, scope: Option<StateId>, name: Seq<char>) -> (Nodes, StateId) {
    match first_named(nodes, scope, name, true, 0) {
        Some(i) => (nodes, i),
        None => spec_create(nodes, scope, name),
    }
}

/// The arena with `f` applied to the state in slot `id`.
pub open spec fn with_state(nodes: Nodes, id: int, s: StateView) -> Nodes {
    nodes.update(id, (parent_of(nodes, id), s))
}

/// The arena with transition `t` appended to the state in slot `id`.
pub open spec fn spec_push_transition(nodes: Nodes, id: StateId, t: TransitionView) -> Nodes {
    let d = data_of(nodes, id as int);
    with_state(nodes, id as int, StateView { transitions: d.transitions.push(t), ..d })
}

/// The arena with slot `id` marked as its scope's initial state (once).
pub open spec fn spec_mark_enter(nodes: Nodes, id: StateId) -> Nodes {
    if has_enter(data_of(nodes, id as int).transitions) {
        nodes
    } else {
        spec_push_transition(nodes, id, TransitionKind::Enter { target: id })
    }
}

/// `add_transition`: resolves the named states (source first) and records the transition on
/// its source.
pub open spec fn spec_add_transition(nodes: Nodes, scope: Option<StateId>, p: ParamsView) -> Nodes {
    match p {
        TransitionKind::Enter { target } => {
            let (n1, id) = spec_add_state(nodes, scope, target);
            spec_mark_enter(n1, id)
        },
        TransitionKind::Event { source, event, target, action, guard } => {
            let (n1, f) = spec_find_or_create(nodes, scope, source);
            let (n2, t) = spec_find_or_create(n1, scope, target);
            spec_push_transition(n2, f, TransitionKind::Event { source: f, event, target: t, action, guard })
        },
        TransitionKind::Internal { source, event, action, guard } => {
            let (n1, f) = spec_find_or_create(nodes, scope, source);
            spec_push_transition(n1, f, TransitionKind::Internal { source: f, event, action, guard })
        },
        TransitionKind::Direct { source, target, action, guard } => {
            let (n1, f) = spec_find_or_create(nodes, scope, source);
            let (n2, t) = spec_find_or_create(n1, scope, target);
            spec_push_transition(n2, f, TransitionKind::Direct { source: f, target: t, action, guard })
        },
        TransitionKind::Final { source, event, action, guard } => {
            let (n1, f) = spec_find_or_create(nodes, scope, source);
            spec_push_transition(n1, f, TransitionKind::Final { source: f, event, action, guard })
        },
    }
}

/// Which part of a state a description decorates.
#[derive(Debug)]
pub enum Decoration {
    EnterAction(Action),
    ExitAction(Action),
    DeferredEvent(Event),
}

/// The view of a decoration.
pub enum DecorationView {
    EnterAction(Seq<char>),
    ExitAction(Seq<char>),
    DeferredEvent(Seq<char>),
}

impl View for Decoration {
    type V = DecorationView;

    open spec fn view(&self) -> DecorationView {
        match *self {
            Decoration::EnterAction(a) => DecorationView::EnterAction(a@),
            Decoration::ExitAction(a) => DecorationView::ExitAction(a@),
            Decoration::DeferredEvent(e) => DecorationView::DeferredEvent(e@),
        }
    }
}

/// A state with a decoration applied.
pub open spec fn decorate(d: StateView, dec: DecorationView) -> StateView {
    match dec {
        DecorationView::EnterAction(a) => StateView { enter_action: Some(a), ..d },
        DecorationView::ExitAction(a) => StateView { exit_action: Some(a), ..d },
        DecorationView::DeferredEvent(e) => StateView { deferred_events: d.deferred_events.push(e), ..d },
    }
}

/// Decorates the state of that name below the scope, if there is one.
pub open spec fn spec_decorate(nodes: Nodes, scope: Option<StateId>, name: Seq<char>, dec: DecorationView) -> Nodes {
    match first_named(nodes, scope, name, true, 0) {
        Some(i) => with_state(nodes, i as int, decorate(data_of(nodes, i as int), dec)),
        None => nodes,
    }
}

/// Replacing one state keeps the forest valid when the new state only mentions existing states.
pub proof fn lemma_with_state_wf(nodes: Nodes, id: int, s: StateView)
    requires
        wf_nodes(nodes),
        0 <= id < nodes.len(),
        forall|j: int| 0 <= j < s.transitions.len() ==> (#[trigger] s.transitions[j]).ids_below(nodes.len()),
        s.enter_state matches Some(e) ==> e < nodes.len(),
    ensures
        wf_nodes(with_state(nodes, id, s)),
        with_state(nodes, id, s).len() == nodes.len(),
{
    let n2 = with_state(nodes, id, s);
    assert forall|i: int| 0 <= i < n2.len() implies (#[trigger] parent_of(n2, i) matches Some(p) ==> p < i) by {
        assert(parent_of(n2, i) == parent_of(nodes, i));
    }
    assert forall|i: int, j: int|
        0 <= i < n2.len() && 0 <= j < data_of(n2, i).transitions.len()
            implies (#[trigger] data_of(n2, i).transitions[j]).ids_below(n2.len()) by {
        if i != id {
            assert(data_of(n2, i) == data_of(nodes, i));
        }
    }
    assert forall|i: int| 0 <= i < n2.len() implies (#[trigger] data_of(n2, i).enter_state matches Some(e) ==> e < n2.len()) by {
        if i != id {
            assert(data_of(n2, i) == data_of(nodes, i));
        }
    }
}

/// Collects states, transitions and descriptions scope by scope, then validates and
/// normalises them into a [`crate::fsm::UmlFsm`].
#[derive(Debug)]
pub struct UmlFsmBuilder {
    pub(crate) name: String,
    pub(crate) arena: indextree::Arena<StateData>,
    pub(crate) scope: Option<StateId>,
}

impl UmlFsmBuilder {
    /// The collected states form a valid forest and the scope is one of them.
    pub closed spec fn wf(self) -> bool {
        &&& wf_nodes(nodes_view(self.arena))
        &&& arena_intact(self.arena)
        &&& (self.scope matches Some(s) ==> s < nodes_view(self.arena).len())
    }

    /// The states collected so far.
    pub closed spec fn nodes(self) -> Nodes {
        nodes_view(self.arena)
    }

    /// The scope new states are added to (`None` for the top level).
    pub closed spec fn current_scope(self) -> Option<StateId> {
        self.scope
    }

    /// What a well-formed builder guarantees of its states: they form a valid forest whose
    /// size leaves room below `usize::MAX`, and the scope is one of them.
    pub proof fn lemma_wf_bounds(self)
        requires
            self.wf(),
        ensures
            wf_nodes(self.nodes()),
            self.nodes().len() + 2 < usize::MAX,
            self.current_scope() matches Some(s) ==> s < self.nodes().len(),
    {
    }

    /// The FSM's name.
    pub closed spec fn fsm_name(self) -> Seq<char> {
        self.name@
    }

    /// A builder for an FSM called `name`, with no states, at the top-level scope.
    pub fn new(name: &str) -> (r: Self)
        ensures
            r.wf(),
            r.fsm_name() == name@,
            r.nodes() == Seq::<(Option<StateId>, StateView)>::empty(),
            r.current_scope() is None,
    {
        let arena = arena_new();
        proof {
            assert(nodes_view(arena) =~= Seq::<(Option<StateId>, StateView)>::empty());
        }
        UmlFsmBuilder { name: name.to_owned(), arena, scope: None }
    }

    /// Makes `scope` the current scope and returns the previous one.
    pub fn set_scope(&mut self, scope: Option<StateId>) -> (prev: Option<StateId>)
        requires
            old(self).wf(),
            scope matches Some(s) ==> s < old(self).nodes().len(),
        ensures
            final(self).wf(),
            prev == old(self).current_scope(),
            final(self).current_scope() == scope,
            final(self).nodes() == old(self).nodes(),
            final(self).fsm_name() == old(self).fsm_name(),
    {
        let prev = self.scope;
        self.scope = scope;
        prev
    }

    /// The state in slot `i` is below slot `a`.
    fn below(&self, i: StateId, a: StateId) -> (r: bool)
        requires
            self.wf(),
            i < self.nodes().len(),
        ensures
            r == is_below(self.nodes(), i as int, a as int),
    {
        let ghost nodes = self.nodes();
        let mut cur = i;
        loop
            invariant
                nodes == self.nodes(),
                arena_intact(self.arena),
                wf_nodes(nodes),
                cur < nodes.len(),
                is_below(nodes, i as int, a as int) == is_below(nodes, cur as int, a as int),
            decreases cur,
        {
            let p = arena_parent(&self.arena, cur);
            proof {
                assert(parent_of(nodes, cur as int) == p);
            }
            match p {
                None => { return false; },
                Some(p) => {
                    if p == a {
                        return true;
                    }
                    cur = p;
                },
            }
        }
    }

    /// The first state named `name` in (or, with `below`, anywhere below) the current scope.
    fn find_named(&self, name: &String, below: bool) -> (r: Option<StateId>)
        requires
            self.wf(),
        ensures
            r == first_named(self.nodes(), self.current_scope(), name@, below, 0),
            r matches Some(i) ==> i < self.nodes().len(),
    {
        let ghost nodes = self.nodes();
        let n = arena_len(&self.arena);
        let mut i: usize = 0;
        while i < n
            invariant
                nodes == self.nodes(),
                arena_intact(self.arena),
                wf_nodes(nodes),
                n == nodes.len(),
                i <= n,
                self.current_scope() matches Some(s) ==> s < n,
                first_named(nodes, self.current_scope(), name@, below, 0)
                    == first_named(nodes, self.current_scope(), name@, below, i as int),
            decreases n - i,
        {
            let d = arena_data(&self.arena, i);
            let hit = if d.name == *name {
                if below {
                    match self.scope {
                        Some(s) => self.below(i, s),
                        None => true,
                    }
                } else {
                    arena_parent(&self.arena, i) == self.scope
                }
            } else {
                false
            };
            proof {
                assert(data_of(nodes, i as int) == d@);
                assert(parent_of(nodes, i as int) == arena_nodes(self.arena)[i as int].0);
                assert(hit == named_in(nodes, self.current_scope(), name@, below, i as int));
            }
            if hit {
                return Some(i);
            }
            i = i + 1;
        }
        None
    }

    /// Appends a fresh state named `name` to the current scope.
    fn create_state(&mut self, name: &String) -> (id: StateId)
        requires
            old(self).wf(),
            old(self).nodes().len() + 3 < usize::MAX,
        ensures
            final(self).wf(),
            (final(self).nodes(), id) == spec_create(old(self).nodes(), old(self).current_scope(), name@),
            final(self).current_scope() == old(self).current_scope(),
            final(self).fsm_name() == old(self).fsm_name(),
    {
        let ghost old_nodes = self.nodes();
        let data = StateData::new(name.as_str());
        let id = match self.scope {
            Some(s) => arena_add_child(&mut self.arena, s, data),
            None => arena_add_root(&mut self.arena, data),
        };
        proof {
            let new_nodes = self.nodes();
            assert(new_nodes =~= old_nodes.push((self.scope, fresh_state(name@))));
            assert forall|i: int, j: int|
                0 <= i < new_nodes.len() && 0 <= j < data_of(new_nodes, i).transitions.len()
                    implies (#[trigger] data_of(new_nodes, i).transitions[j]).ids_below(new_nodes.len()) by {
                if i < old_nodes.len() {
                    assert(data_of(new_nodes, i) == data_of(old_nodes, i));
                }
            }
            assert forall|i: int| 0 <= i < new_nodes.len()
                implies (#[trigger] parent_of(new_nodes, i) matches Some(p) ==> p < i) by {
                if i < old_nodes.len() {
                    assert(parent_of(new_nodes, i) == parent_of(old_nodes, i));
                }
            }
            assert forall|i: int| 0 <= i < new_nodes.len()
                implies (#[trigger] data_of(new_nodes, i).enter_state matches Some(e) ==> e < new_nodes.len()) by {
                if i < old_nodes.len() {
                    assert(data_of(new_nodes, i) == data_of(old_nodes, i));
                }
            }
        }
        id
    }

    /// The scope's own state named `name`, created in the scope if there is none.
    pub fn add_state(&mut self, name: &str) -> (id: StateId)
        requires
            old(self).wf(),
            old(self).nodes().len() + 3 < usize::MAX,
        ensures
            final(self).wf(),
            (final(self).nodes(), id) == spec_add_state(old(self).nodes(), old(self).current_scope(), name@),
            id < final(self).nodes().len(),
            final(self).current_scope() == old(self).current_scope(),
            final(self).fsm_name() == old(self).fsm_name(),
    {
        let name = name.to_owned();
        match self.find_named(&name, false) {
            Some(id) => id,
            None => self.create_state(&name),
        }
    }

    /// The state named `name` anywhere below the scope, created in the scope if there is none.
    fn find_or_create_state(&mut self, name: &str) -> (id: StateId)
        requires
            old(self).wf(),
            old(self).nodes().len() + 3 < usize::MAX,
        ensures
            final(self).wf(),
            (final(self).nodes(), id) == spec_find_or_create(old(self).nodes(), old(self).current_scope(), name@),
            id < final(self).nodes().len(),
            final(self).current_scope() == old(self).current_scope(),
            final(self).fsm_name() == old(self).fsm_name(),
    {
        let name = name.to_owned();
        match self.find_named(&name, true) {
            Some(id) => id,
            None => self.create_state(&name),
        }
    }

    /// Puts `data` in slot `id` and hands back what was there.
    fn swap_state(&mut self, id: StateId, data: StateData) -> (prev: StateData)
        requires
            arena_intact(old(self).arena),
            id < old(self).nodes().len(),
        ensures
            arena_intact(final(self).arena),
            prev@ == data_of(old(self).nodes(), id as int),
            final(self).nodes() == with_state(old(self).nodes(), id as int, data@),
            final(self).scope == old(self).scope,
            final(self).name == old(self).name,
    {
        let prev = arena_replace(&mut self.arena, id, data);
        proof {
            assert(self.nodes() =~= with_state(old(self).nodes(), id as int, data@));
        }
        prev
    }

    /// Appends transition `t` to the state in slot `id`.
    fn push_transition(&mut self, id: StateId, t: TransitionData)
        requires
            old(self).wf(),
            id < old(self).nodes().len(),
            t@.ids_below(old(self).nodes().len()),
        ensures
            final(self).wf(),
            final(self).nodes() == spec_push_transition(old(self).nodes(), id, t@),
            final(self).current_scope() == old(self).current_scope(),
            final(self).fsm_name() == old(self).fsm_name(),
    {
        let ghost old_nodes = self.nodes();
        let mut d = self.swap_state(id, StateData::new(""));
        let ghost before = d@;
        d.transitions.push(t);
        proof {
            let expected = StateView { transitions: before.transitions.push(t@), ..before };
            assert(d@.transitions =~= expected.transitions);
            assert(d@ == expected);
            assert forall|j: int| 0 <= j < expected.transitions.len()
                implies (#[trigger] expected.transitions[j]).ids_below(old_nodes.len()) by {
                if j < before.transitions.len() {
                    assert(expected.transitions[j] == data_of(old_nodes, id as int).transitions[j]);
                }
            }
            lemma_with_state_wf(old_nodes, id as int, expected);
        }
        self.swap_state(id, d);
        proof {
            assert(self.nodes() =~= spec_push_transition(old_nodes, id, t@));
        }
    }

    /// Marks `name` as the initial state of the current scope (`[*] --> name`), creating it in
    /// the scope if needed. A state owns at most one `Enter` transition.
    pub fn add_enter_state(&mut self, name: &str) -> (id: StateId)
        requires
            old(self).wf(),
            old(self).nodes().len() + 3 < usize::MAX,
        ensures
            final(self).wf(),
            final(self).nodes() == spec_add_transition(old(self).nodes(), old(self).current_scope(), TransitionKind::Enter { target: name@ }),
            id == spec_add_state(old(self).nodes(), old(self).current_scope(), name@).1,
            final(self).current_scope() == old(self).current_scope(),
            final(self).fsm_name() == old(self).fsm_name(),
    {
        let id = self.add_state(name);
        let is_enter = arena_data(&self.arena, id).is_enter();
        if !is_enter {
            self.push_transition(id, TransitionKind::Enter { target: id });
        }
        id
    }

    /// Records a transition on its source state, resolving (or creating) the states it names:
    /// the source first, then the target.
    pub fn add_transition(&mut self, params: TransitionParameters)
        requires
            old(self).wf(),
            old(self).nodes().len() + 4 < usize::MAX,
        ensures
            final(self).wf(),
            final(self).nodes() == spec_add_transition(old(self).nodes(), old(self).current_scope(), params@),
            final(self).current_scope() == old(self).current_scope(),
            final(self).fsm_name() == old(self).fsm_name(),
    {
        match params {
            TransitionKind::Enter { target } => {
                self.add_enter_state(target);
            },
            TransitionKind::Event { source, event, target, action, guard } => {
                let f = self.find_or_create_state(source);
                let t = self.find_or_create_state(target);
                self.push_transition(f, TransitionKind::Event { source: f, event, target: t, action, guard });
            },
            TransitionKind::Internal { source, event, action, guard } => {
                let f = self.find_or_create_state(source);
                self.push_transition(f, TransitionKind::Internal { source: f, event, action, guard });
            },
            TransitionKind::Direct { source, target, action, guard } => {
                let f = self.find_or_create_state(source);
                let t = self.find_or_create_state(target);
                self.push_transition(f, TransitionKind::Direct { source: f, target: t, action, guard });
            },
            TransitionKind::Final { source, event, action, guard } => {
                let f = self.find_or_create_state(source);
                self.push_transition(f, TransitionKind::Final { source: f, event, action, guard });
            },
        }
    }

    /// Applies a decoration to the state named `state_name` below the scope, if there is one.
    fn decorate_state(&mut self, state_name: &str, dec: Decoration)
        requires
            old(self).wf(),
        ensures
            final(self).wf(),
            final(self).nodes() == spec_decorate(old(self).nodes(), old(self).current_scope(), state_name@, dec@),
            final(self).current_scope() == old(self).current_scope(),
            final(self).fsm_name() == old(self).fsm_name(),
    {
        let ghost old_nodes = self.nodes();
        let name = state_name.to_owned();
        match self.find_named(&name, true) {
            Some(id) => {
                let mut d = self.swap_state(id, StateData::new(""));
                let ghost before = d@;
                match dec {
                    Decoration::EnterAction(a) => { d.enter_action = Some(a); },
                    Decoration::ExitAction(a) => { d.exit_action = Some(a); },
                    Decoration::DeferredEvent(e) => { d.deferred_events.push(e); },
                }
                proof {
                    let expected = decorate(before, dec@);
                    assert(d@.deferred_events =~= expected.deferred_events);
                    assert(d@.transitions =~= expected.transitions);
                    assert(d@ == expected);
                    lemma_with_state_wf(old_nodes, id as int, expected);
                }
                self.swap_state(id, d);
                proof {
                    assert(self.nodes() =~= spec_decorate(old_nodes, self.scope, name@, dec@));
                }
            },
            None => {},
        }
    }

    /// Sets the enter action of the state named `state_name` below the scope, if there is one.
    pub fn add_enter_action(&mut self, state_name: &str, action: Action)
        requires
            old(self).wf(),
        ensures
            final(self).wf(),
            final(self).nodes() == spec_decorate(old(self).nodes(), old(self).current_scope(), state_name@, DecorationView::EnterAction(action@)),
            final(self).current_scope() == old(self).current_scope(),
            final(self).fsm_name() == old(self).fsm_name(),
    {
        self.decorate_state(state_name, Decoration::EnterAction(action));
    }

    /// Sets the exit action of the state named `state_name` below the scope, if there is one.
    pub fn add_exit_action(&mut self, state_name: &str, action: Action)
        requires
            old(self).wf(),
        ensures
            final(self).wf(),
            final(self).nodes() == spec_decorate(old(self).nodes(), old(self).current_scope(), state_name@, DecorationView::ExitAction(action@)),
            final(self).current_scope() == old(self).current_scope(),
            final(self).fsm_name() == old(self).fsm_name(),
    {
        self.decorate_state(state_name, Decoration::ExitAction(action));
    }

    /// Adds `event` to the events deferred by the state named `state_name` below the scope, if
    /// there is one.
    pub fn add_deferred_event(&mut self, state_name: &str, event: Event)
        requires
            old(self).wf(),
        ensures
            final(self).wf(),
            final(self).nodes() == spec_decorate(old(self).nodes(), old(self).current_scope(), state_name@, DecorationView::DeferredEvent(event@)),
            final(self).current_scope() == old(self).current_scope(),
            final(self).fsm_name() == old(self).fsm_name(),
    {
        self.decorate_state(state_name, Decoration::DeferredEvent(event));
    }

    /// Validates and normalises the collected states into an FSM (see [`spec_build`]).
    pub fn build(self) -> (r: Result<UmlFsm, Error>)
        requires
            self.wf(),
        ensures
            match r {
                Ok(f) => f.wf() && spec_build(self.fsm_name(), self.nodes()) == Ok::<FsmView, BuildErrorView>(f@),
                Err(e) => spec_build(self.fsm_name(), self.nodes()) matches Err(b) && e@ == ErrorView::Build(b),
            },
    {
        let ghost nodes = self.nodes();
        let UmlFsmBuilder { name, mut arena, scope: _ } = self;
        if let Err(e) = substate_exits_complete(&arena) {
            return Err(Error::Build(e));
        }
        proof {
            let p = |i: int| exit_without_completion(nodes, i);
            lemma_first_where(nodes.len() as int, p, 0);
            assert(first_where(nodes.len() as int, p, 0) is None);
            assert forall|i: int| 0 <= i < nodes.len() implies !exit_without_completion(nodes, i) by {
                assert(!p(i));
            }
        }
        redirect_substate_exits(&mut arena);
        let ghost n1 = nodes_view(arena);
        let checked = {
            let ts = collect_transitions(&arena);
            match injective_action_mapping(&ts) {
                Err(e) => Err(e),
                Ok(()) => match no_conflicting_transitions(&arena, &ts) {
                    Err(e) => Err(e),
                    Ok(()) => unique_guards_per_event(&ts),
                },
            }
        };
        if let Err(e) = checked {
            return Err(Error::Build(e));
        }
        extract_deferred_events(&mut arena);
        link_enter_states(&mut arena);
        let enter = match find_root_enter_state(&arena) {
            Ok(id) => id,
            Err(e) => { return Err(Error::Build(e)); },
        };
        if blank(name.as_str()) {
            return Err(Error::Build(BuildError::EmptyName));
        }
        Ok(UmlFsm::new(name, enter, arena))
    }
}

} // verus!
