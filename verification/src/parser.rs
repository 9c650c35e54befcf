//! Reading FSMs from PlantUML state diagrams.
use vstd::prelude::*;

use crate::arena::{data_of, Nodes};
use crate::builder::{
    first_named, spec_add_state, spec_add_transition, spec_build, spec_create, spec_decorate, spec_find_or_create,
    spec_mark_enter, spec_push_transition, with_state, Decoration, DecorationView, UmlFsmBuilder,
};
use crate::diagram::{spec_parse_diagram, DiagramView, StateDiagram};
use crate::error::{Error, ErrorView, ParseError, ParseErrorView};
use crate::fsm::{FsmView, UmlFsm};
use crate::model::{StateId, StateView, TransitionKind, TransitionParameters};
use crate::submachine::{all_named, diagram_views, first_duplicate, sub_names, view_subs, SubMachineResolver, SubsView};
use crate::plan::{ops_view, plan_region, plan_scope, Op, OpView, OwnedParams};

verus! {

/// Where carrying out a plan stands: the states so far, the current region, and the regions
/// to go back to.
pub struct ApplyState {
    pub nodes: Nodes,
    pub scope: Option<StateId>,
    pub stack: Seq<Option<StateId>>,
}

/// The effect of one operation on the builder.
pub open spec fn apply_op(st: ApplyState, op: OpView) -> ApplyState {
    match op {
        OpView::Push(n) => {
            let (n1, id) = spec_add_state(st.nodes, st.scope, n);
            ApplyState { nodes: n1, scope: Some(id), stack: st.stack.push(st.scope) }
        },
        OpView::Pop => if st.stack.len() == 0 {
            st
        } else {
            ApplyState { scope: st.stack.last(), stack: st.stack.drop_last(), ..st }
        },
        OpView::Add(p) => ApplyState { nodes: spec_add_transition(st.nodes, st.scope, p), ..st },
        OpView::Decorate(n, d) => ApplyState { nodes: spec_decorate(st.nodes, st.scope, n, d), ..st },
    }
}

/// The builder after the first `k` operations, from an empty one at the top level.
pub open spec fn apply_ops(ops: Seq<OpView>, k: int) -> ApplyState
    decreases k,
{
    if k <= 0 {
        ApplyState { nodes: Seq::empty(), scope: None, stack: Seq::empty() }
    } else {
        apply_op(apply_ops(ops, k - 1), ops[k - 1])
    }
}

/// The most operations a plan may hold: every operation adds at most two states, and an FSM
/// with more states than this could not be held in memory anyway.
pub open spec fn max_ops() -> int {
    (usize::MAX / 4) as int
}

/// A diagram's name, or the empty name.
pub open spec fn name_or_empty(n: Option<Seq<char>>) -> Seq<char> {
    match n {
        Some(s) => s,
        None => Seq::empty(),
    }
}

/// The FSM of a parsed diagram, with the sub-FSMs `subs`: the diagram's plan, carried out on an
/// empty builder named after the diagram, then built.
pub open spec fn spec_fsm_of(d: DiagramView, subs: SubsView) -> Result<FsmView, ErrorView> {
    match plan_scope(d.items, None, subs, Seq::empty()) {
        Err(e) => Err(ErrorView::Parse(e)),
        Ok(ops) => if ops.len() >= max_ops() {
            Err(ErrorView::Parse(ParseErrorView::TooLarge))
        } else {
            match spec_build(name_or_empty(d.name), apply_ops(ops, ops.len() as int).nodes) {
                Ok(f) => Ok(f),
                Err(b) => Err(ErrorView::Build(b)),
            }
        },
    }
}

/// Adding a state or a transition adds at most two states, keeps the others, and a state
/// added or found lies in the result.
proof fn lemma_op_growth(nodes: Nodes, scope: Option<StateId>, op: OpView)
    requires
        nodes.len() + 3 < usize::MAX,
    ensures
        match op {
            OpView::Push(n) => {
                let (n1, id) = spec_add_state(nodes, scope, n);
                nodes.len() <= n1.len() <= nodes.len() + 1 && id < n1.len()
            },
            OpView::Add(p) => nodes.len() <= spec_add_transition(nodes, scope, p).len() <= nodes.len() + 2,
            OpView::Decorate(n, d) => spec_decorate(nodes, scope, n, d).len() == nodes.len(),
            OpView::Pop => true,
        },
{
    match op {
        OpView::Push(n) => {
            lemma_first_named_bound(nodes, scope, n, false, 0);
        },
        OpView::Add(p) => {
            match p {
                TransitionKind::Enter { target } => {
                    lemma_first_named_bound(nodes, scope, target, false, 0);
                },
                TransitionKind::Event { source, target, .. } => {
                    lemma_first_named_bound(nodes, scope, source, true, 0);
                    let (n1, f) = spec_find_or_create(nodes, scope, source);
                    lemma_first_named_bound(n1, scope, target, true, 0);
                },
                TransitionKind::Direct { source, target, .. } => {
                    lemma_first_named_bound(nodes, scope, source, true, 0);
                    let (n1, f) = spec_find_or_create(nodes, scope, source);
                    lemma_first_named_bound(n1, scope, target, true, 0);
                },
                TransitionKind::Internal { source, .. } => {
                    lemma_first_named_bound(nodes, scope, source, true, 0);
                },
                TransitionKind::Final { source, .. } => {
                    lemma_first_named_bound(nodes, scope, source, true, 0);
                },
            }
        },
        OpView::Decorate(n, d) => {
            lemma_first_named_bound(nodes, scope, n, true, 0);
        },
        OpView::Pop => {},
    }
}

/// `first_named` finds a slot of the arena.
proof fn lemma_first_named_bound(nodes: Nodes, scope: Option<StateId>, name: Seq<char>, below: bool, k: int)
    requires
        0 <= k,
        nodes.len() <= usize::MAX,
    ensures
        first_named(nodes, scope, name, below, k) matches Some(i) ==> i < nodes.len(),
    decreases nodes.len() - k,
{
    if k < nodes.len() {
        lemma_first_named_bound(nodes, scope, name, below, k + 1);
    }
}

/// The parameters of an owned transition, borrowing its state names.
fn params_of(p: &OwnedParams) -> (r: TransitionParameters<'_>)
    ensures
        r@ == p@,
{
    match p {
        TransitionKind::Event { source, event, target, action, guard } => TransitionKind::Event {
            source: source.as_str(),
            event: event.duplicate(),
            target: target.as_str(),
            action: crate::model::dup_action(action),
            guard: crate::model::dup_action(guard),
        },
        TransitionKind::Internal { source, event, action, guard } => TransitionKind::Internal {
            source: source.as_str(),
            event: event.duplicate(),
            action: crate::model::dup_action(action),
            guard: crate::model::dup_action(guard),
        },
        TransitionKind::Direct { source, target, action, guard } => TransitionKind::Direct {
            source: source.as_str(),
            target: target.as_str(),
            action: crate::model::dup_action(action),
            guard: crate::model::dup_action(guard),
        },
        TransitionKind::Enter { target } => TransitionKind::Enter { target: target.as_str() },
        TransitionKind::Final { source, event, action, guard } => TransitionKind::Final {
            source: source.as_str(),
            event: crate::model::dup_event(event),
            action: crate::model::dup_action(action),
            guard: crate::model::dup_action(guard),
        },
    }
}

/// Carries out a plan on an empty builder (see [`apply_ops`]).
fn apply_plan(builder: &mut UmlFsmBuilder, ops: &Vec<Op>)
    requires
        old(builder).wf(),
        old(builder).nodes() == Seq::<(Option<StateId>, StateView)>::empty(),
        old(builder).current_scope() is None,
        ops@.len() < max_ops(),
    ensures
        final(builder).wf(),
        final(builder).nodes() == apply_ops(ops_view(ops@), ops@.len() as int).nodes,
        final(builder).fsm_name() == old(builder).fsm_name(),
{
    let ghost ov = ops_view(ops@);
    let mut stack: Vec<Option<StateId>> = Vec::new();
    let mut i: usize = 0;
    while i < ops.len()
        invariant
            ov == ops_view(ops@),
            ops@.len() < max_ops(),
            i <= ops@.len(),
            builder.wf(),
            builder.nodes() == apply_ops(ov, i as int).nodes,
            builder.current_scope() == apply_ops(ov, i as int).scope,
            stack@ == apply_ops(ov, i as int).stack,
            builder.nodes().len() <= 2 * i,
            builder.current_scope() matches Some(x) ==> x < builder.nodes().len(),
            forall|k: int| 0 <= k < stack@.len() ==> (#[trigger] stack@[k] matches Some(x) ==> x < builder.nodes().len()),
            builder.fsm_name() == old(builder).fsm_name(),
        decreases ops@.len() - i,
    {
        let ghost st = apply_ops(ov, i as int);
        let ghost len0 = builder.nodes().len();
        proof {
            assert(ov[i as int] == ops@[i as int]@);
            lemma_op_growth(st.nodes, st.scope, ov[i as int]);
        }
        match &ops[i] {
            Op::Push(n) => {
                let id = builder.add_state(n.as_str());
                let prev = builder.set_scope(Some(id));
                let ghost before = stack@;
                stack.push(prev);
                proof {
                    assert forall|k: int| 0 <= k < stack@.len() implies (#[trigger] stack@[k] matches Some(x) ==> x < builder.nodes().len()) by {
                        if k < before.len() {
                            assert(stack@[k] == before[k]);
                            assert(before[k] matches Some(x) ==> x < len0);
                        }
                    }
                }
            },
            Op::Pop => {
                if stack.len() > 0 {
                    let ghost before = stack@;
                    let p = stack.pop().unwrap();
                    proof { assert(p == before.last()); assert(before[before.len() - 1] == p); }
                    builder.set_scope(p);
                    proof {
                        assert forall|k: int| 0 <= k < stack@.len() implies (#[trigger] stack@[k] matches Some(x) ==> x < builder.nodes().len()) by {
                            assert(stack@[k] == before[k]);
                        }
                    }
                }
            },
            Op::Add(p) => {
                builder.add_transition(params_of(p));
            },
            Op::Decorate(n, d) => {
                match d {
                    Decoration::EnterAction(a) => builder.add_enter_action(n.as_str(), a.duplicate()),
                    Decoration::ExitAction(a) => builder.add_exit_action(n.as_str(), a.duplicate()),
                    Decoration::DeferredEvent(e) => builder.add_deferred_event(n.as_str(), e.duplicate()),
                }
            },
        }
        proof {
            assert(builder.nodes().len() >= len0);
        }
        i = i + 1;
    }
}

/// The FSM of a parsed diagram, resolving sub-FSM references through `subs` (see
/// [`spec_fsm_of`]).
fn build_fsm<'a>(diagram: &'a StateDiagram, subs: SubMachineResolver<'a>) -> (r: Result<UmlFsm, Error>)
    requires
        subs.visiting() == Seq::<Seq<char>>::empty(),
    ensures
        match spec_fsm_of(diagram@, subs.subs()) {
            Ok(f) => r matches Ok(m) && m.wf() && m@ == f,
            Err(e) => r matches Err(x) && x@ == e,
        },
{
    let res = subs;
    let mut ops: Vec<Op> = Vec::new();
    let fuel = res.sub_count() - res.depth();
    match plan_region(&diagram.elements, None, &res, &mut ops, fuel) {
        Err(e) => { return Err(Error::Parse(e)); },
        Ok(()) => {},
    }
    proof { assert(ops_view(ops@) =~= Seq::<OpView>::empty() + ops_view(ops@)); }
    if ops.len() >= usize::MAX / 4 {
        return Err(Error::Parse(ParseError::TooLarge));
    }
    let name = match diagram.name() {
        Some(n) => n.to_owned(),
        None => String::new(),
    };
    let mut builder = UmlFsmBuilder::new(name.as_str());
    apply_plan(&mut builder, &ops);
    builder.build()
}

impl UmlFsm {
    /// Parses a single FSM with no sub-FSM references (see [`spec_parse_diagram`] and
    /// [`spec_fsm_of`]).
    pub fn try_parse(root: &str) -> (r: Result<UmlFsm, Error>)
        ensures
            match spec_parse_diagram(root@) {
                Err(e) => r matches Err(x) && x@ == ErrorView::Parse(e),
                Ok(d) => match spec_fsm_of(d, SubsView::empty()) {
                    Ok(f) => r matches Ok(m) && m.wf() && m@ == f,
                    Err(e) => r matches Err(x) && x@ == e,
                },
            },
    {
        let diagram = match StateDiagram::parse(root) {
            Err(e) => { return Err(Error::Parse(e)); },
            Ok(d) => d,
        };
        build_fsm(&diagram, SubMachineResolver::none())
    }
}

/// Reading the first `n` texts as diagrams, in order, or the first error.
pub open spec fn parse_all(ts: Seq<Seq<char>>, n: int) -> Result<Seq<DiagramView>, ParseErrorView>
    decreases n,
{
    if n <= 0 {
        Ok(Seq::empty())
    } else {
        match parse_all(ts, n - 1) {
            Err(e) => Err(e),
            Ok(ds) => match spec_parse_diagram(ts[n - 1]) {
                Err(e) => Err(e),
                Ok(d) => Ok(ds.push(d)),
            },
        }
    }
}

/// Once a text fails to parse, reading more texts fails with its error.
proof fn lemma_parse_all_err(ts: Seq<Seq<char>>, n: int, m: int)
    requires
        n <= m,
        parse_all(ts, n) is Err,
    ensures
        parse_all(ts, m) == parse_all(ts, n),
    decreases m - n,
{
    if n < m {
        lemma_parse_all_err(ts, n, m - 1);
    }
}

/// Reading a root FSM together with a pool of sub-FSMs: the root is read, then each sub-FSM in
/// order; every sub-FSM needs a distinct `@startuml` name; then the root's FSM is made with the
/// sub-FSMs (see [`spec_fsm_of`]).
pub open spec fn spec_parse_with_subs(root: Seq<char>, subs: Seq<Seq<char>>) -> Result<FsmView, ErrorView> {
    match spec_parse_diagram(root) {
        Err(e) => Err(ErrorView::Parse(e)),
        Ok(d) => match parse_all(subs, subs.len() as int) {
            Err(e) => Err(ErrorView::Parse(e)),
            Ok(ds) => if !all_named(ds) {
                Err(ErrorView::Parse(ParseErrorView::UnnamedSubMachine))
            } else {
                let sv = view_subs(ds);
                match first_duplicate(sub_names(sv), 0) {
                    Some(k) => Err(ErrorView::Parse(ParseErrorView::DuplicateSubMachine(sub_names(sv)[k]))),
                    None => spec_fsm_of(d, sv),
                }
            },
        },
    }
}

/// The views of string slices.
pub open spec fn strs_view(ss: Seq<&str>) -> Seq<Seq<char>> {
    ss.map_values(|s: &str| s@)
}

impl UmlFsm {
    /// Parses a root FSM together with a pool of sub-FSMs: a `state X : SubName` in any of them
    /// splices in the region of the sub-FSM named `SubName` as `X`'s region. References must
    /// not form a cycle (see [`spec_parse_with_subs`]).
    pub fn try_parse_with_subs(root: &str, subs: &[&str]) -> (r: Result<UmlFsm, Error>)
        ensures
            match spec_parse_with_subs(root@, strs_view(subs@)) {
                Ok(f) => r matches Ok(m) && m.wf() && m@ == f,
                Err(e) => r matches Err(x) && x@ == e,
            },
    {
        let root_diagram = match StateDiagram::parse(root) {
            Err(e) => { return Err(Error::Parse(e)); },
            Ok(d) => d,
        };
        let ghost sv = strs_view(subs@);
        let mut diagrams: Vec<StateDiagram> = Vec::new();
        let mut k: usize = 0;
        proof { assert(diagram_views(diagrams@) =~= Seq::<DiagramView>::empty()); }
        while k < subs.len()
            invariant
                sv == strs_view(subs@),
                spec_parse_diagram(root@) == Ok::<DiagramView, ParseErrorView>(root_diagram@),
                k <= subs@.len(),
                parse_all(sv, k as int) == Ok::<Seq<DiagramView>, ParseErrorView>(diagram_views(diagrams@)),
            decreases subs@.len() - k,
        {
            proof { assert(sv[k as int] == subs@[k as int]@); }
            match StateDiagram::parse(subs[k]) {
                Err(e) => {
                    proof {
                        assert(parse_all(sv, k + 1) == Err::<Seq<DiagramView>, ParseErrorView>(e@));
                        lemma_parse_all_err(sv, k + 1, sv.len() as int);
                    }
                    return Err(Error::Parse(e));
                },
                Ok(d) => {
                    let ghost before = diagrams@;
                    diagrams.push(d);
                    proof { assert(diagram_views(diagrams@) =~= diagram_views(before).push(d@)); }
                },
            }
            k = k + 1;
        }
        let resolver = match SubMachineResolver::try_from_subs(diagrams.as_slice()) {
            Err(e) => { return Err(e); },
            Ok(r) => r,
        };
        build_fsm(&root_diagram, resolver)
    }
}

/// Adding a state or a transition only grows the arena, by at most two states, and any state
/// it names lies in the result.
pub proof fn lemma_transition_growth(nodes: Nodes, scope: Option<StateId>, p: crate::model::ParamsView)
    requires
        nodes.len() + 3 < usize::MAX,
    ensures
        nodes.len() <= spec_add_transition(nodes, scope, p).len() <= nodes.len() + 2,
        match p {
            TransitionKind::Enter { target } => spec_add_state(nodes, scope, target).1 < spec_add_state(nodes, scope, target).0.len(),
            TransitionKind::Event { source, .. } => spec_find_or_create(nodes, scope, source).1 < spec_find_or_create(nodes, scope, source).0.len(),
            TransitionKind::Internal { source, .. } => spec_find_or_create(nodes, scope, source).1 < spec_find_or_create(nodes, scope, source).0.len(),
            TransitionKind::Direct { source, .. } => spec_find_or_create(nodes, scope, source).1 < spec_find_or_create(nodes, scope, source).0.len(),
            TransitionKind::Final { source, .. } => spec_find_or_create(nodes, scope, source).1 < spec_find_or_create(nodes, scope, source).0.len(),
        },
{
    lemma_op_growth(nodes, scope, OpView::Add(p));
    match p {
        TransitionKind::Enter { target } => { lemma_first_named_bound(nodes, scope, target, false, 0); },
        TransitionKind::Event { source, .. } => { lemma_first_named_bound(nodes, scope, source, true, 0); },
        TransitionKind::Internal { source, .. } => { lemma_first_named_bound(nodes, scope, source, true, 0); },
        TransitionKind::Direct { source, .. } => { lemma_first_named_bound(nodes, scope, source, true, 0); },
        TransitionKind::Final { source, .. } => { lemma_first_named_bound(nodes, scope, source, true, 0); },
    }
}

/// `first_named` finds a slot of the arena.
pub proof fn lemma_first_named_in_arena(nodes: Nodes, scope: Option<StateId>, name: Seq<char>, below: bool)
    requires
        nodes.len() <= usize::MAX,
    ensures
        first_named(nodes, scope, name, below, 0) matches Some(i) ==> i < nodes.len(),
{
    lemma_first_named_bound(nodes, scope, name, below, 0);
}

} // verus!
