//! The built FSM and read-only views of its states and transitions.
use vstd::prelude::*;

use crate::arena::{arena_intact, arena_data, arena_len, arena_parent, data_of, nodes_view, parent_of, wf_nodes, Nodes};
use crate::enter::{deepest_enter, find_deepest_enter_state, lemma_deepest_enter_range};
use crate::model::{opt_action_view, StateData, StateId, TransitionData, TransitionKind, TransitionView};
use crate::text::{compare_text, text_order, TextOrder};
use crate::types::{Action, Event};

verus! {

/// The mathematical view of a built FSM.
pub struct FsmView {
    pub name: Seq<char>,
    /// The state the FSM starts in.
    pub enter_state: StateId,
    pub nodes: Nodes,
}

/// The FSM's states form a valid forest and its start state is one of them.
pub open spec fn fsm_wf(f: FsmView) -> bool {
    &&& wf_nodes(f.nodes)
    &&& f.enter_state < f.nodes.len()
}

/// A validated, normalised state machine: a forest of states, each with its transitions,
/// enter/exit actions and deferred events.
#[derive(Debug)]
pub struct UmlFsm {
    name: String,
    enter_state: StateId,
    arena: indextree::Arena<StateData>,
}

impl View for UmlFsm {
    type V = FsmView;

    closed spec fn view(&self) -> FsmView {
        FsmView { name: self.name@, enter_state: self.enter_state, nodes: nodes_view(self.arena) }
    }
}

/// `ts` without `Enter` pseudo-transitions.
pub open spec fn without_enter(ts: Seq<TransitionView>) -> Seq<TransitionView>
    decreases ts.len(),
{
    if ts.len() == 0 {
        Seq::empty()
    } else if ts.last() is Enter {
        without_enter(ts.drop_last())
    } else {
        without_enter(ts.drop_last()).push(ts.last())
    }
}

/// A transition that moves without an event: a direct transition to a state, or an exit to
/// the final pseudo-state that no event triggers.
pub open spec fn eventless_move(t: TransitionView) -> bool {
    t is Direct || (t is Final && t.ev() is None)
}

/// The transitions of `ts` that move without an event, in order.
pub open spec fn eventless_moves(ts: Seq<TransitionView>) -> Seq<TransitionView>
    decreases ts.len(),
{
    if ts.len() == 0 {
        Seq::empty()
    } else if eventless_move(ts.last()) {
        eventless_moves(ts.drop_last()).push(ts.last())
    } else {
        eventless_moves(ts.drop_last())
    }
}

/// The real transitions of the first `i` states, state by state in storage order.
pub open spec fn visible_upto(nodes: Nodes, i: int) -> Seq<TransitionView>
    decreases i,
{
    if i <= 0 {
        Seq::empty()
    } else {
        visible_upto(nodes, i - 1) + without_enter(data_of(nodes, i - 1).transitions)
    }
}

/// Every real transition of the FSM (no `Enter` pseudo-transition), state by state.
pub open spec fn fsm_transitions(nodes: Nodes) -> Seq<TransitionView> {
    visible_upto(nodes, nodes.len() as int)
}

/// The names of slot `i` and its ancestors, outermost first, joined by `sep`.
pub open spec fn qualified_name(nodes: Nodes, i: int, sep: Seq<char>) -> Seq<char>
    decreases i,
{
    match parent_of(nodes, i) {
        Some(p) => if 0 <= p < i {
            qualified_name(nodes, p as int, sep) + sep + data_of(nodes, i).name
        } else {
            data_of(nodes, i).name
        },
        None => data_of(nodes, i).name,
    }
}

/// The states whose parent is `p` (`None`: the top-level states) among the first `n` slots.
pub open spec fn children_upto(nodes: Nodes, p: Option<StateId>, n: int) -> Seq<StateId>
    decreases n,
{
    if n <= 0 {
        Seq::empty()
    } else if parent_of(nodes, n - 1) == p {
        children_upto(nodes, p, n - 1).push((n - 1) as StateId)
    } else {
        children_upto(nodes, p, n - 1)
    }
}

/// Every element of `children_upto` is a slot below `n` whose parent is `p`.
pub proof fn lemma_children_upto(nodes: Nodes, p: Option<StateId>, n: int)
    requires
        0 <= n <= nodes.len(),
        nodes.len() <= usize::MAX,
    ensures
        forall|j: int| 0 <= j < children_upto(nodes, p, n).len() ==>
            #[trigger] children_upto(nodes, p, n)[j] < n && parent_of(nodes, children_upto(nodes, p, n)[j] as int) == p,
    decreases n,
{
    if n > 0 {
        lemma_children_upto(nodes, p, n - 1);
        let prev = children_upto(nodes, p, n - 1);
        let cur = children_upto(nodes, p, n);
        assert forall|j: int| 0 <= j < cur.len() implies
            #[trigger] cur[j] < n && parent_of(nodes, cur[j] as int) == p by {
            if j < prev.len() {
                assert(cur[j] == prev[j]);
            } else {
                assert(cur == prev.push((n - 1) as StateId));
            }
        }
    }
}

impl UmlFsm {
    /// The FSM's states form a valid forest and its start state is one of them.
    pub open spec fn wf(self) -> bool {
        fsm_wf(self@) && self.intact()
    }

    /// No state of the FSM's arena has been removed.
    pub closed spec fn intact(self) -> bool {
        arena_intact(self.arena)
    }

    /// An FSM with the given name, start state and states.
    pub(crate) fn new(name: String, enter_state: StateId, arena: indextree::Arena<StateData>) -> (r: UmlFsm)
        requires
            wf_nodes(nodes_view(arena)),
            arena_intact(arena),
            enter_state < nodes_view(arena).len(),
        ensures
            r.wf(),
            r@ == (FsmView { name: name@, enter_state, nodes: nodes_view(arena) }),
    {
        UmlFsm { name, enter_state, arena }
    }

    /// The FSM's name.
    pub fn name(&self) -> (r: &str)
        ensures
            r@ == self@.name,
    {
        self.name.as_str()
    }

    /// The state the FSM starts in.
    pub fn enter_state(&self) -> (r: State<'_>)
        requires
            self.wf(),
        ensures
            r.wf(),
            r.machine() == self,
            r@ == self@.enter_state,
    {
        State { id: self.enter_state, fsm: self }
    }

    /// The number of states.
    pub fn state_count(&self) -> (r: usize)
        ensures
            r == self@.nodes.len(),
    {
        arena_len(&self.arena)
    }

    /// Every state, in storage order (each parent before its children).
    pub fn states(&self) -> (r: Vec<State<'_>>)
        requires
            self.wf(),
        ensures
            r@.len() == self@.nodes.len(),
            forall|i: int| #![trigger r@[i]] 0 <= i < r@.len() ==> r@[i]@ == i && r@[i].machine() == self && r@[i].wf(),
    {
        let n = arena_len(&self.arena);
        let mut r: Vec<State<'_>> = Vec::new();
        let mut i: usize = 0;
        while i < n
            invariant
                n == self@.nodes.len(),
                self.wf(),
                i <= n,
                r@.len() == i,
                forall|j: int| #![trigger r@[j]] 0 <= j < i ==> r@[j]@ == j && r@[j].machine() == self && r@[j].wf(),
            decreases n - i,
        {
            let ghost before = r@;
            let s = State { id: i, fsm: self };
            r.push(s);
            proof {
                assert(s.machine() == self);
                assert forall|j: int| #![trigger r@[j]] 0 <= j < i + 1 implies r@[j]@ == j && r@[j].machine() == self && r@[j].wf() by {
                    if j < i {
                        assert(r@[j] == before[j]);
                    } else {
                        assert(r@[j] == s);
                    }
                }
            }
            i = i + 1;
        }
        r
    }

    /// Every real transition (no `Enter` pseudo-transition), state by state in storage order.
    pub fn transitions(&self) -> (r: Vec<Transition<'_>>)
        requires
            self.wf(),
        ensures
            r@.map_values(|t: Transition<'_>| t@) == fsm_transitions(self@.nodes),
            forall|k: int| 0 <= k < r@.len() ==> (#[trigger] r@[k]).within(self),
    {
        let ghost nodes = self@.nodes;
        let n = arena_len(&self.arena);
        let mut r: Vec<Transition<'_>> = Vec::new();
        let mut i: usize = 0;
        while i < n
            invariant
                nodes == self@.nodes,
                self.wf(),
                n == nodes.len(),
                i <= n,
                r@.map_values(|t: Transition<'_>| t@) == visible_upto(nodes, i as int),
                forall|k: int| 0 <= k < r@.len() ==> (#[trigger] r@[k]).within(self),
            decreases n - i,
        {
            let s = State { id: i, fsm: self };
            let ts = s.transitions();
            let ghost before = r@;
            let mut j: usize = 0;
            while j < ts.len()
                invariant
                    self.wf(),
                    0 <= j <= ts@.len(),
                    r@ == before + ts@.take(j as int),
                    forall|k: int| 0 <= k < before.len() ==> (#[trigger] before[k]).within(self),
                    forall|k: int| 0 <= k < ts@.len() ==> (#[trigger] ts@[k]).within(self),
                decreases ts@.len() - j,
            {
                r.push(ts[j]);
                proof { assert(ts@.take(j + 1) =~= ts@.take(j as int).push(ts@[j as int])); }
                j = j + 1;
            }
            proof {
                assert(ts@.take(ts@.len() as int) =~= ts@);
                assert(r@.map_values(|t: Transition<'_>| t@) =~= before.map_values(|t: Transition<'_>| t@)
                    + ts@.map_values(|t: Transition<'_>| t@));
                assert forall|k: int| 0 <= k < r@.len() implies (#[trigger] r@[k]).within(self) by {
                    if k < before.len() {
                        assert(r@[k] == before[k]);
                    } else {
                        assert(r@[k] == ts@[k - before.len()]);
                    }
                }
            }
            i = i + 1;
        }
        r
    }
}

/// A state of a built FSM.
#[derive(Clone, Copy, Debug)]
pub struct State<'a> {
    id: StateId,
    fsm: &'a UmlFsm,
}

impl<'a> View for State<'a> {
    type V = StateId;

    /// The state's slot in its FSM.
    closed spec fn view(&self) -> StateId {
        self.id
    }
}

impl<'a> State<'a> {
    /// The FSM the state belongs to.
    pub closed spec fn machine(self) -> &'a UmlFsm {
        self.fsm
    }

    /// The state belongs to a well-formed FSM.
    pub open spec fn wf(self) -> bool {
        &&& self.machine().wf()
        &&& self@ < self.machine()@.nodes.len()
    }

    /// What the arena stores about the state.
    pub open spec fn data(self) -> crate::model::StateView {
        data_of(self.machine()@.nodes, self@ as int)
    }

    /// The state in slot `id` of `fsm`.
    pub fn new(id: StateId, fsm: &'a UmlFsm) -> (r: State<'a>)
        requires
            fsm.wf(),
            id < fsm@.nodes.len(),
        ensures
            r.wf(),
            r@ == id,
            r.machine() == fsm,
    {
        State { id, fsm }
    }

    /// The stored data of this state.
    fn node_data(&self) -> (r: &'a StateData)
        requires
            self.wf(),
        ensures
            r@ == self.data(),
    {
        arena_data(&self.fsm.arena, self.id)
    }

    /// The state's name.
    pub fn name(&self) -> (r: &'a str)
        requires
            self.wf(),
        ensures
            r@ == self.data().name,
    {
        self.node_data().name.as_str()
    }

    /// Whether this state is the initial state of its region.
    pub fn is_enter(&self) -> (r: bool)
        requires
            self.wf(),
        ensures
            r == crate::model::has_enter(self.data().transitions),
    {
        self.node_data().is_enter()
    }

    /// The action run on entering the state.
    pub fn enter_action(&self) -> (r: Option<&'a Action>)
        requires
            self.wf(),
        ensures
            opt_ref_action_view(r) == self.data().enter_action,
    {
        match &self.node_data().enter_action {
            Some(a) => Some(a),
            None => None,
        }
    }

    /// The action run on leaving the state.
    pub fn exit_action(&self) -> (r: Option<&'a Action>)
        requires
            self.wf(),
        ensures
            opt_ref_action_view(r) == self.data().exit_action,
    {
        match &self.node_data().exit_action {
            Some(a) => Some(a),
            None => None,
        }
    }

    /// The events this state defers (its own and those inherited from its ancestors).
    pub fn deferred_events(&self) -> (r: &'a Vec<Event>)
        requires
            self.wf(),
        ensures
            r@.map_values(|e: Event| e@) == self.data().deferred_events,
    {
        &self.node_data().deferred_events
    }

    /// The state's real outgoing transitions: the `Enter` pseudo-transition, whose source is
    /// `[*]` rather than this state, is left out.
    pub fn transitions(&self) -> (r: Vec<Transition<'a>>)
        requires
            self.wf(),
        ensures
            r@.map_values(|t: Transition<'a>| t@) == without_enter(self.data().transitions),
            forall|k: int| 0 <= k < r@.len() ==> (#[trigger] r@[k]).within(self.machine()),
    {
        let ghost nodes = self.machine()@.nodes;
        let d = self.node_data();
        let m = d.transitions.len();
        let mut r: Vec<Transition<'a>> = Vec::new();
        let mut j: usize = 0;
        while j < m
            invariant
                self.wf(),
                nodes == self.machine()@.nodes,
                d@ == self.data(),
                m == d.transitions@.len(),
                j <= m,
                r@.map_values(|t: Transition<'a>| t@) == without_enter(d@.transitions.take(j as int)),
                forall|k: int| 0 <= k < r@.len() ==> (#[trigger] r@[k]).within(self.machine()),
            decreases m - j,
        {
            let t = &d.transitions[j];
            proof {
                assert(d@.transitions.take(j + 1).drop_last() =~= d@.transitions.take(j as int));
                assert(d@.transitions.take(j + 1).last() == t@);
                assert(t@.ids_below(nodes.len()));
            }
            if !t.is_enter() {
                let ghost before = r@;
                let v = Transition::from(t, self.fsm);
                r.push(v);
                proof {
                    assert(r@.map_values(|t: Transition<'a>| t@) =~= before.map_values(|t: Transition<'a>| t@).push(v@));
                }
            }
            j = j + 1;
        }
        proof { assert(d@.transitions.take(m as int) =~= d@.transitions); }
        r
    }

    /// The state's transitions that move without an event (see [`eventless_move`]), in order:
    /// the choices taken, first guard first, as soon as the state is entered.
    pub fn direct_transitions(&self) -> (r: Vec<Transition<'a>>)
        requires
            self.wf(),
        ensures
            r@.map_values(|t: Transition<'a>| t@) == eventless_moves(without_enter(self.data().transitions)),
            forall|k: int| 0 <= k < r@.len() ==> (#[trigger] r@[k]).within(self.machine()),
    {
        let all = self.transitions();
        let ghost av = all@.map_values(|t: Transition<'a>| t@);
        let mut r: Vec<Transition<'a>> = Vec::new();
        let mut j: usize = 0;
        while j < all.len()
            invariant
                av == all@.map_values(|t: Transition<'a>| t@),
                forall|k: int| 0 <= k < all@.len() ==> (#[trigger] all@[k]).within(self.machine()),
                j <= all@.len(),
                r@.map_values(|t: Transition<'a>| t@) == eventless_moves(av.take(j as int)),
                forall|k: int| 0 <= k < r@.len() ==> (#[trigger] r@[k]).within(self.machine()),
            decreases all@.len() - j,
        {
            let t = all[j];
            proof {
                assert(av.take(j + 1).drop_last() =~= av.take(j as int));
                assert(av.take(j + 1).last() == t@);
            }
            let keep = match t {
                TransitionKind::Direct { .. } => true,
                TransitionKind::Final { event: None, .. } => true,
                _ => false,
            };
            if keep {
                let ghost before = r@;
                r.push(t);
                proof {
                    assert(r@.map_values(|t: Transition<'a>| t@) =~= before.map_values(|t: Transition<'a>| t@).push(t@));
                }
            }
            j = j + 1;
        }
        proof { assert(av.take(all@.len() as int) =~= av); }
        r
    }

    /// The state's parent, if it is a substate.
    pub fn parent(&self) -> (r: Option<State<'a>>)
        requires
            self.wf(),
        ensures
            match r {
                Some(p) => parent_of(self.machine()@.nodes, self@ as int) == Some(p@) && p.wf() && p.machine() == self.machine(),
                None => parent_of(self.machine()@.nodes, self@ as int) is None,
            },
    {
        match arena_parent(&self.fsm.arena, self.id) {
            Some(p) => {
                proof { assert(parent_of(self.machine()@.nodes, self@ as int) == Some(p)); }
                Some(State { id: p, fsm: self.fsm })
            },
            None => None,
        }
    }

    /// The state's direct substates, in order.
    pub fn substates(&self) -> (r: Vec<State<'a>>)
        requires
            self.wf(),
        ensures
            r@.map_values(|s: State<'a>| s@) == children_upto(self.machine()@.nodes, Some(self@), self.machine()@.nodes.len() as int),
            forall|k: int| 0 <= k < r@.len() ==> (#[trigger] r@[k]).wf() && r@[k].machine() == self.machine(),
    {
        let ghost nodes = self.machine()@.nodes;
        let n = arena_len(&self.fsm.arena);
        let mut r: Vec<State<'a>> = Vec::new();
        let mut i: usize = 0;
        while i < n
            invariant
                self.wf(),
                nodes == self.machine()@.nodes,
                n == nodes.len(),
                i <= n,
                r@.map_values(|s: State<'a>| s@) == children_upto(nodes, Some(self@), i as int),
                forall|k: int| 0 <= k < r@.len() ==> (#[trigger] r@[k]).wf() && r@[k].machine() == self.machine(),
            decreases n - i,
        {
            let p = arena_parent(&self.fsm.arena, i);
            proof { assert(parent_of(nodes, i as int) == p); }
            if p == Some(self.id) {
                let ghost before = r@;
                r.push(State { id: i, fsm: self.fsm });
                proof {
                    assert(r@.map_values(|s: State<'a>| s@) =~= before.map_values(|s: State<'a>| s@).push(i));
                }
            }
            i = i + 1;
        }
        r
    }

    /// The state entered when this state becomes active: the deepest nested initial substate
    /// (each composite descends into its `[*] -->` child), or this state if it is a leaf.
    pub fn enter_state(&self) -> (r: State<'a>)
        requires
            self.wf(),
        ensures
            r@ == deepest_enter(self.machine()@.nodes, self@ as int),
            r.wf(),
            r.machine() == self.machine(),
    {
        let e = find_deepest_enter_state(&self.fsm.arena, self.id);
        State { id: e, fsm: self.fsm }
    }

    /// The names of this state and its ancestors, outermost first, joined by `sep`.
    pub fn qualified_name(&self, sep: &str) -> (r: String)
        requires
            self.wf(),
        ensures
            r@ == qualified_name(self.machine()@.nodes, self@ as int, sep@),
        decreases self@,
    {
        match self.parent() {
            Some(p) => {
                proof { assert(wf_nodes(self.machine()@.nodes)); assert(parent_of(self.machine()@.nodes, self@ as int) matches Some(q) ==> q < self@); }
                let mut r = p.qualified_name(sep);
                r.append(sep);
                r.append(self.name());
                r
            },
            None => self.name().to_owned(),
        }
    }
}

/// A transition of a built FSM, with its states resolved.
pub type Transition<'a> = TransitionKind<State<'a>, &'a Event, &'a Action>;

/// The view of an optional action reference.
pub open spec fn opt_ref_action_view(a: Option<&Action>) -> Option<Seq<char>> {
    match a {
        Some(a) => Some(a@),
        None => None,
    }
}

/// The view of an optional event reference.
pub open spec fn opt_ref_event_view(e: Option<&Event>) -> Option<Seq<char>> {
    match e {
        Some(e) => Some(e@),
        None => None,
    }
}

impl<'a> View for TransitionKind<State<'a>, &'a Event, &'a Action> {
    type V = TransitionView;

    open spec fn view(&self) -> TransitionView {
        match *self {
            TransitionKind::Event { source, event, target, action, guard } => TransitionKind::Event {
                source: source@,
                event: event@,
                target: target@,
                action: opt_ref_action_view(action),
                guard: opt_ref_action_view(guard),
            },
            TransitionKind::Internal { source, event, action, guard } => TransitionKind::Internal {
                source: source@,
                event: event@,
                action: opt_ref_action_view(action),
                guard: opt_ref_action_view(guard),
            },
            TransitionKind::Direct { source, target, action, guard } => TransitionKind::Direct {
                source: source@,
                target: target@,
                action: opt_ref_action_view(action),
                guard: opt_ref_action_view(guard),
            },
            TransitionKind::Enter { target } => TransitionKind::Enter { target: target@ },
            TransitionKind::Final { source, event, action, guard } => TransitionKind::Final {
                source: source@,
                event: opt_ref_event_view(event),
                action: opt_ref_action_view(action),
                guard: opt_ref_action_view(guard),
            },
        }
    }
}


/// The name of state `id` among `nodes`.
pub open spec fn state_name(nodes: Nodes, id: StateId) -> Seq<char> {
    data_of(nodes, id as int).name
}

/// How a transition reads: `Source --[event [guard] / action]--> Destination`, with
/// `(direct)` for a transition without an event, `(internal)` for one that leads to no state
/// and `[*]` for an exit.
pub open spec fn transition_text(nodes: Nodes, t: TransitionView) -> Seq<char> {
    let event = match t.ev() {
        Some(e) => e,
        None => "(direct)"@,
    };
    let guard = match t.grd() {
        Some(g) => " ["@ + g + "]"@,
        None => Seq::empty(),
    };
    let action = match t.act() {
        Some(a) => " / "@ + a,
        None => Seq::empty(),
    };
    let dest = match t {
        TransitionKind::Final { .. } => "[*]"@,
        _ => match t.dst() {
            Some(d) => state_name(nodes, d),
            None => "(internal)"@,
        },
    };
    state_name(nodes, t.src()) + " --["@ + event + guard + action + "]--> "@ + dest
}

/// The event's name, empty for a transition without one.
pub open spec fn event_or_empty(t: TransitionView) -> Seq<char> {
    match t.ev() {
        Some(e) => e,
        None => Seq::empty(),
    }
}

/// Transitions ordered by their source's name, then by their event's name.
pub open spec fn transition_order(nodes: Nodes, a: TransitionView, b: TransitionView) -> TextOrder {
    match text_order(state_name(nodes, a.src()), state_name(nodes, b.src())) {
        TextOrder::Same => text_order(event_or_empty(a), event_or_empty(b)),
        o => o,
    }
}

impl<'a> TransitionKind<State<'a>, &'a Event, &'a Action> {
    /// The state that owns the transition (for `Enter`, its target).
    pub open spec fn source_state(self) -> State<'a> {
        match self {
            TransitionKind::Event { source, .. } => source,
            TransitionKind::Internal { source, .. } => source,
            TransitionKind::Direct { source, .. } => source,
            TransitionKind::Enter { target } => target,
            TransitionKind::Final { source, .. } => source,
        }
    }

    /// Every state of the transition is a valid state of `fsm`.
    pub open spec fn within(self, fsm: &'a UmlFsm) -> bool {
        match self {
            TransitionKind::Event { source, target, .. } => source.wf() && source.machine() == fsm && target.wf() && target.machine() == fsm,
            TransitionKind::Internal { source, .. } => source.wf() && source.machine() == fsm,
            TransitionKind::Direct { source, target, .. } => source.wf() && source.machine() == fsm && target.wf() && target.machine() == fsm,
            TransitionKind::Enter { target } => target.wf() && target.machine() == fsm,
            TransitionKind::Final { source, .. } => source.wf() && source.machine() == fsm,
        }
    }

    /// The transition `data` of `fsm`, with its states resolved.
    pub fn from(data: &'a TransitionData, fsm: &'a UmlFsm) -> (r: Transition<'a>)
        requires
            fsm.wf(),
            data@.ids_below(fsm@.nodes.len()),
        ensures
            r@ == data@,
            r.within(fsm),
    {
        match data {
            TransitionKind::Event { source, event, target, action, guard } => TransitionKind::Event {
                source: State { id: *source, fsm },
                event,
                target: State { id: *target, fsm },
                action: action.as_ref(),
                guard: guard.as_ref(),
            },
            TransitionKind::Internal { source, event, action, guard } => TransitionKind::Internal {
                source: State { id: *source, fsm },
                event,
                action: action.as_ref(),
                guard: guard.as_ref(),
            },
            TransitionKind::Direct { source, target, action, guard } => TransitionKind::Direct {
                source: State { id: *source, fsm },
                target: State { id: *target, fsm },
                action: action.as_ref(),
                guard: guard.as_ref(),
            },
            TransitionKind::Enter { target } => TransitionKind::Enter { target: State { id: *target, fsm } },
            TransitionKind::Final { source, event, action, guard } => TransitionKind::Final {
                source: State { id: *source, fsm },
                event: event.as_ref(),
                action: action.as_ref(),
                guard: guard.as_ref(),
            },
        }
    }

    /// The state that owns the transition (for `Enter`, its target).
    pub fn source(&self) -> (r: State<'a>)
        ensures
            r@ == self@.src(),
            r == self.source_state(),
    {
        match self {
            TransitionKind::Event { source, .. } => *source,
            TransitionKind::Internal { source, .. } => *source,
            TransitionKind::Direct { source, .. } => *source,
            TransitionKind::Enter { target } => *target,
            TransitionKind::Final { source, .. } => *source,
        }
    }

    /// The triggering event, if any.
    pub fn event(&self) -> (r: Option<&'a Event>)
        ensures
            opt_ref_event_view(r) == self@.ev(),
    {
        match self {
            TransitionKind::Event { event, .. } => Some(*event),
            TransitionKind::Internal { event, .. } => Some(*event),
            TransitionKind::Final { event, .. } => *event,
            _ => None,
        }
    }

    /// The state the transition leads to; `None` for internal transitions and exits, which do
    /// not lead to a state.
    pub fn destination(&self) -> (r: Option<State<'a>>)
        ensures
            match r {
                Some(s) => self@.dst() == Some(s@),
                None => self@.dst() is None,
            },
    {
        match self {
            TransitionKind::Event { target, .. } => Some(*target),
            TransitionKind::Direct { target, .. } => Some(*target),
            _ => None,
        }
    }

    /// The transition's action, if any.
    pub fn action(&self) -> (r: Option<&'a Action>)
        ensures
            opt_ref_action_view(r) == self@.act(),
    {
        match self {
            TransitionKind::Event { action, .. } => *action,
            TransitionKind::Internal { action, .. } => *action,
            TransitionKind::Direct { action, .. } => *action,
            TransitionKind::Enter { .. } => None,
            TransitionKind::Final { action, .. } => *action,
        }
    }

    /// The transition's guard, if any.
    pub fn guard(&self) -> (r: Option<&'a Action>)
        ensures
            opt_ref_action_view(r) == self@.grd(),
    {
        match self {
            TransitionKind::Event { guard, .. } => *guard,
            TransitionKind::Internal { guard, .. } => *guard,
            TransitionKind::Direct { guard, .. } => *guard,
            TransitionKind::Enter { .. } => None,
            TransitionKind::Final { guard, .. } => *guard,
        }
    }

    /// The transition as text; see [`transition_text`].
    pub fn to_string(&self) -> (r: String)
        requires
            self.within(self.source_state().machine()),
        ensures
            r@ == transition_text(self.source_state().machine()@.nodes, self@),
    {
        let mut r = self.source().name().to_owned();
        r.append(" --[");
        match self.event() {
            Some(e) => r.append(e.0.as_str()),
            None => r.append("(direct)"),
        }
        match self.guard() {
            Some(g) => {
                r.append(" [");
                r.append(g.0.as_str());
                r.append("]");
            },
            None => {},
        }
        match self.action() {
            Some(a) => {
                r.append(" / ");
                r.append(a.0.as_str());
            },
            None => {},
        }
        r.append("]--> ");
        match self {
            TransitionKind::Event { target, .. } => r.append(target.name()),
            TransitionKind::Direct { target, .. } => r.append(target.name()),
            TransitionKind::Final { .. } => r.append("[*]"),
            _ => r.append("(internal)"),
        }
        r
    }

    /// The transition's place against `other`: by source name, then by event name.
    pub fn order(&self, other: &Transition<'a>) -> (r: TextOrder)
        requires
            self.within(self.source_state().machine()),
            other.within(self.source_state().machine()),
        ensures
            r == transition_order(self.source_state().machine()@.nodes, self@, other@),
    {
        let by_source = compare_text(self.source().name(), other.source().name());
        match by_source {
            TextOrder::Same => {
                let a = match self.event() {
                    Some(e) => e.0.as_str(),
                    None => "",
                };
                let b = match other.event() {
                    Some(e) => e.0.as_str(),
                    None => "",
                };
                proof {
                    reveal_strlit("");
                }
                compare_text(a, b)
            },
            o => o,
        }
    }
}

/// Whether every transition of `ts` has a guard, so that none of them may be taken.
pub fn all_guarded<'a>(ts: &Vec<Transition<'a>>) -> (r: bool)
    ensures
        r == forall|k: int| 0 <= k < ts@.len() ==> (#[trigger] ts@[k])@.grd() is Some,
{
    let mut j: usize = 0;
    while j < ts.len()
        invariant
            j <= ts@.len(),
            forall|k: int| 0 <= k < j ==> (#[trigger] ts@[k])@.grd() is Some,
        decreases ts@.len() - j,
    {
        if ts[j].guard().is_none() {
            return false;
        }
        j = j + 1;
    }
    true
}

} // verus!