//! Turning a parsed diagram into an FSM: the diagram's elements become a plan of builder
//! operations, region by region, which is then carried out and built.
use vstd::prelude::*;

use crate::builder::{Decoration, DecorationView};
use crate::diagram::{opt_str, Element, ElementView, StateElements};
use crate::error::{ParseError, ParseErrorView};
use crate::labels::{
    parse_description, parse_label, parse_state_description, parse_transition_label, DescriptionView, LabelView,
    StateDescription, TransitionLabel,
};
use crate::model::{dup_action, ParamsView, TransitionKind};
use crate::submachine::{sub_index, SubMachineResolver, SubsView};
use crate::text::chars_of;
use crate::types::{Action, Event};

verus! {

/// One builder operation of a plan.
pub enum OpView {
    /// Add the named state to the current region and make it the current region.
    Push(Seq<char>),
    /// Go back to the region the matching `Push` left.
    Pop,
    /// Add a transition.
    Add(ParamsView),
    /// Decorate the named state.
    Decorate(Seq<char>, DecorationView),
}

/// A transition naming its states, owning its text.
pub type OwnedParams = TransitionKind<String, Event, Action>;

impl View for TransitionKind<String, Event, Action> {
    type V = ParamsView;

    open spec fn view(&self) -> ParamsView {
        match *self {
            TransitionKind::Event { source, event, target, action, guard } => TransitionKind::Event {
                source: source@,
                event: event@,
                target: target@,
                action: crate::model::opt_action_view(action),
                guard: crate::model::opt_action_view(guard),
            },
            TransitionKind::Internal { source, event, action, guard } => TransitionKind::Internal {
                source: source@,
                event: event@,
                action: crate::model::opt_action_view(action),
                guard: crate::model::opt_action_view(guard),
            },
            TransitionKind::Direct { source, target, action, guard } => TransitionKind::Direct {
                source: source@,
                target: target@,
                action: crate::model::opt_action_view(action),
                guard: crate::model::opt_action_view(guard),
            },
            TransitionKind::Enter { target } => TransitionKind::Enter { target: target@ },
            TransitionKind::Final { source, event, action, guard } => TransitionKind::Final {
                source: source@,
                event: crate::model::opt_event_view(event),
                action: crate::model::opt_action_view(action),
                guard: crate::model::opt_action_view(guard),
            },
        }
    }
}

/// One builder operation of a plan (see [`OpView`]).
#[derive(Debug)]
pub enum Op {
    Push(String),
    Pop,
    Add(OwnedParams),
    Decorate(String, Decoration),
}

impl View for Op {
    type V = OpView;

    open spec fn view(&self) -> OpView {
        match *self {
            Op::Push(n) => OpView::Push(n@),
            Op::Pop => OpView::Pop,
            Op::Add(p) => OpView::Add(p@),
            Op::Decorate(n, d) => OpView::Decorate(n@, d@),
        }
    }
}

/// The views of operations.
pub open spec fn ops_view(ops: Seq<Op>) -> Seq<OpView> {
    ops.map_values(|o: Op| o@)
}

/// The position of a region's composite state (`-1` for the top level).
pub open spec fn rank(s: Option<usize>) -> int {
    match s {
        Some(p) => p as int,
        None => -1,
    }
}

/// Element `j` is a composite state directly inside region `s` (and after it).
pub open spec fn is_child(items: Seq<ElementView>, s: Option<usize>, j: int) -> bool {
    &&& items[j] matches ElementView::Composite { parent, .. } && parent == s
    &&& rank(s) < j
}

/// The label of a transition line: none at all, or a label to read.
pub open spec fn label_parts(d: Option<Seq<char>>) -> Result<LabelView, ParseErrorView> {
    match d {
        None => Ok(LabelView { events: Seq::empty(), guard: None, action: None }),
        Some(l) => parse_label(l),
    }
}

/// A transition line `src --> dst : label`: one transition per event, or a single completion
/// transition when the label names no event.
pub open spec fn transition_ops(src: Seq<char>, dst: Seq<char>, l: LabelView) -> Seq<OpView> {
    if l.events.len() == 0 {
        seq![OpView::Add(TransitionKind::Direct { source: src, target: dst, action: l.action, guard: l.guard })]
    } else {
        l.events.map_values(|e: Seq<char>| OpView::Add(TransitionKind::Event { source: src, event: e, target: dst, action: l.action, guard: l.guard }))
    }
}

/// An exit line `src --> [*] : label`: one exit per event, or a single event-less exit.
pub open spec fn exit_ops(src: Seq<char>, l: LabelView) -> Seq<OpView> {
    if l.events.len() == 0 {
        seq![OpView::Add(TransitionKind::Final { source: src, event: None, action: l.action, guard: l.guard })]
    } else {
        l.events.map_values(|e: Seq<char>| OpView::Add(TransitionKind::Final { source: src, event: Some(e), action: l.action, guard: l.guard }))
    }
}

/// A state description: its enter or exit action, a deferred event, or an internal transition
/// per event; a description that cannot be read is skipped.
pub open spec fn description_ops(name: Seq<char>, d: Seq<char>) -> Seq<OpView> {
    match parse_description(d) {
        Err(_) => Seq::empty(),
        Ok(DescriptionView::Entry(a)) => seq![OpView::Decorate(name, DecorationView::EnterAction(a))],
        Ok(DescriptionView::Exit(a)) => seq![OpView::Decorate(name, DecorationView::ExitAction(a))],
        Ok(DescriptionView::DeferEvent(e)) => seq![OpView::Decorate(name, DecorationView::DeferredEvent(e))],
        Ok(DescriptionView::InternalTransition(l)) =>
            l.events.map_values(|e: Seq<char>| OpView::Add(TransitionKind::Internal { source: name, event: e, action: l.action, guard: l.guard })),
    }
}

/// The operations of element `j` in one of the passes over region `s` that do not descend:
/// initial states (pass 0), transitions (1), exits (2), and descriptions that are not sub-FSM
/// references (3).
pub open spec fn element_ops(items: Seq<ElementView>, s: Option<usize>, subs: SubsView, pass: int, j: int) -> Result<Seq<OpView>, ParseErrorView> {
    match items[j] {
        ElementView::Enter { scope, name } => if pass == 0 && scope == s {
            Ok(seq![OpView::Add(TransitionKind::Enter { target: name })])
        } else {
            Ok(Seq::empty())
        },
        ElementView::Transition { scope, source, target, description } => if pass == 1 && scope == s {
            match label_parts(description) {
                Err(e) => Err(e),
                Ok(l) => Ok(transition_ops(source, target, l)),
            }
        } else {
            Ok(Seq::empty())
        },
        ElementView::Exit { scope, source, description } => if pass == 2 && scope == s {
            match label_parts(description) {
                Err(e) => Err(e),
                Ok(l) => Ok(exit_ops(source, l)),
            }
        } else {
            Ok(Seq::empty())
        },
        ElementView::Description { scope, name, description } => if pass == 3 && scope == s && sub_index(subs, description, 0) is None {
            Ok(description_ops(name, description))
        } else {
            Ok(Seq::empty())
        },
        ElementView::Composite { .. } => Ok(Seq::empty()),
    }
}

/// `acc` followed by what `r` holds, or `r`'s error.
pub open spec fn after(acc: Seq<OpView>, r: Result<Seq<OpView>, ParseErrorView>) -> Result<Seq<OpView>, ParseErrorView> {
    match r {
        Ok(rest) => Ok(acc + rest),
        Err(e) => Err(e),
    }
}

/// The operations of one non-descending pass over region `s`, from element `j` on.
pub open spec fn pass_ops(items: Seq<ElementView>, s: Option<usize>, subs: SubsView, pass: int, j: int) -> Result<Seq<OpView>, ParseErrorView>
    decreases items.len() - j,
{
    if 0 <= j < items.len() {
        match element_ops(items, s, subs, pass, j) {
            Err(e) => Err(e),
            Ok(a) => after(a, pass_ops(items, s, subs, pass, j + 1)),
        }
    } else {
        Ok(Seq::empty())
    }
}

/// The plan for region `s` of `items`, with the sub-FSMs `subs` and the sub-FSMs `vis` being
/// expanded: first each composite state (added, then its region), then each sub-FSM reference
/// (the state added, then the sub-FSM's region), then the initial states, the transitions, the
/// exits, and last the other descriptions, each in the order they appear. The first error in
/// that order wins.
pub open spec fn plan_scope(items: Seq<ElementView>, s: Option<usize>, subs: SubsView, vis: Seq<Seq<char>>) -> Result<Seq<OpView>, ParseErrorView>
    decreases subs.len() - vis.len(), items.len() - rank(s), 2int, 0int,
{
    match comp_ops(items, s, subs, vis, 0) {
        Err(e) => Err(e),
        Ok(a) => match sub_ops(items, s, subs, vis, 0) {
            Err(e) => Err(e),
            Ok(b) => match pass_ops(items, s, subs, 0, 0) {
                Err(e) => Err(e),
                Ok(c) => match pass_ops(items, s, subs, 1, 0) {
                    Err(e) => Err(e),
                    Ok(d) => match pass_ops(items, s, subs, 2, 0) {
                        Err(e) => Err(e),
                        Ok(x) => match pass_ops(items, s, subs, 3, 0) {
                            Err(e) => Err(e),
                            Ok(f) => Ok(a + b + c + d + x + f),
                        },
                    },
                },
            },
        },
    }
}

/// The plans of the composite states directly inside region `s`, from element `j` on.
pub open spec fn comp_ops(items: Seq<ElementView>, s: Option<usize>, subs: SubsView, vis: Seq<Seq<char>>, j: int) -> Result<Seq<OpView>, ParseErrorView>
    decreases subs.len() - vis.len(), items.len() - rank(s), 1int, items.len() - j,
{
    if 0 <= j < items.len() && j <= usize::MAX {
        if is_child(items, s, j) {
            match plan_scope(items, Some(j as usize), subs, vis) {
                Err(e) => Err(e),
                Ok(inner) => after(seq![OpView::Push(items[j]->Composite_name)] + inner + seq![OpView::Pop], comp_ops(items, s, subs, vis, j + 1)),
            }
        } else {
            comp_ops(items, s, subs, vis, j + 1)
        }
    } else {
        Ok(Seq::empty())
    }
}

/// The expansions of the sub-FSM references directly inside region `s`, from element `j` on.
/// A reference to a sub-FSM already being expanded is a cycle (as is any reference once every
/// sub-FSM is being expanded).
pub open spec fn sub_ops(items: Seq<ElementView>, s: Option<usize>, subs: SubsView, vis: Seq<Seq<char>>, j: int) -> Result<Seq<OpView>, ParseErrorView>
    decreases subs.len() - vis.len(), items.len() - rank(s), 1int, items.len() - j,
{
    if 0 <= j < items.len() {
        match items[j] {
            ElementView::Description { scope, name, description } => if scope == s {
                match sub_index(subs, description, 0) {
                    None => sub_ops(items, s, subs, vis, j + 1),
                    Some(k) => if vis.contains(description) || vis.len() >= subs.len() {
                        Err(ParseErrorView::CyclicSubMachine(description))
                    } else {
                        match plan_scope(subs[k].1, None, subs, vis.push(description)) {
                            Err(e) => Err(e),
                            Ok(inner) => after(seq![OpView::Push(name)] + inner + seq![OpView::Pop], sub_ops(items, s, subs, vis, j + 1)),
                        }
                    },
                }
            } else {
                sub_ops(items, s, subs, vis, j + 1)
            },
            _ => sub_ops(items, s, subs, vis, j + 1),
        }
    } else {
        Ok(Seq::empty())
    }
}

/// `after` composes with concatenation.
proof fn lemma_after_after(a: Seq<OpView>, b: Seq<OpView>, r: Result<Seq<OpView>, ParseErrorView>)
    ensures
        after(a, after(b, r)) == after(a + b, r),
{
    if let Ok(rest) = r {
        assert(a + (b + rest) =~= (a + b) + rest);
    }
}

/// The label of a transition line (see [`label_parts`]).
fn label_of(d: &Option<String>) -> (r: Result<TransitionLabel, ParseError>)
    ensures
        match r {
            Ok(l) => label_parts(opt_str(*d)) == Ok::<LabelView, ParseErrorView>(l@),
            Err(e) => label_parts(opt_str(*d)) == Err::<LabelView, ParseErrorView>(e@),
        },
{
    match d {
        None => {
            let l = TransitionLabel { events: Vec::new(), guard: None, action: None };
            proof { assert(l@.events =~= Seq::<Seq<char>>::empty()); }
            Ok(l)
        },
        Some(text) => {
            let cs = chars_of(text.as_str());
            parse_transition_label(&cs)
        },
    }
}

/// Appends the operations of a transition line (see [`transition_ops`]).
fn push_transition_ops(out: &mut Vec<Op>, src: &String, dst: &String, l: &TransitionLabel)
    ensures
        ops_view(final(out)@) == ops_view(old(out)@) + transition_ops(src@, dst@, l@),
{
    let ghost start = ops_view(out@);
    if l.events.len() == 0 {
        out.push(Op::Add(TransitionKind::Direct {
            source: src.clone(),
            target: dst.clone(),
            action: dup_action(&l.action),
            guard: dup_action(&l.guard),
        }));
        proof { assert(ops_view(out@) =~= start + transition_ops(src@, dst@, l@)); }
    } else {
        let ghost all = transition_ops(src@, dst@, l@);
        let mut k: usize = 0;
        while k < l.events.len()
            invariant
                k <= l.events@.len(),
                l.events@.len() > 0,
                all == transition_ops(src@, dst@, l@),
                all.len() == l.events@.len(),
                ops_view(out@) == start + all.take(k as int),
            decreases l.events@.len() - k,
        {
            let ghost before = ops_view(out@);
            out.push(Op::Add(TransitionKind::Event {
                source: src.clone(),
                event: l.events[k].duplicate(),
                target: dst.clone(),
                action: dup_action(&l.action),
                guard: dup_action(&l.guard),
            }));
            proof {
                assert(all[k as int] == OpView::Add(TransitionKind::Event { source: src@, event: l@.events[k as int], target: dst@, action: l@.action, guard: l@.guard }));
                assert(ops_view(out@) =~= before.push(all[k as int]));
                assert(all.take(k + 1) =~= all.take(k as int).push(all[k as int]));
            }
            k = k + 1;
        }
        proof { assert(all.take(k as int) =~= all); }
    }
}

/// Appends the operations of an exit line (see [`exit_ops`]).
fn push_exit_ops(out: &mut Vec<Op>, src: &String, l: &TransitionLabel)
    ensures
        ops_view(final(out)@) == ops_view(old(out)@) + exit_ops(src@, l@),
{
    let ghost start = ops_view(out@);
    if l.events.len() == 0 {
        out.push(Op::Add(TransitionKind::Final {
            source: src.clone(),
            event: None,
            action: dup_action(&l.action),
            guard: dup_action(&l.guard),
        }));
        proof { assert(ops_view(out@) =~= start + exit_ops(src@, l@)); }
    } else {
        let ghost all = exit_ops(src@, l@);
        let mut k: usize = 0;
        while k < l.events.len()
            invariant
                k <= l.events@.len(),
                l.events@.len() > 0,
                all == exit_ops(src@, l@),
                all.len() == l.events@.len(),
                ops_view(out@) == start + all.take(k as int),
            decreases l.events@.len() - k,
        {
            let ghost before = ops_view(out@);
            out.push(Op::Add(TransitionKind::Final {
                source: src.clone(),
                event: Some(l.events[k].duplicate()),
                action: dup_action(&l.action),
                guard: dup_action(&l.guard),
            }));
            proof {
                assert(all[k as int] == OpView::Add(TransitionKind::Final { source: src@, event: Some(l@.events[k as int]), action: l@.action, guard: l@.guard }));
                assert(ops_view(out@) =~= before.push(all[k as int]));
                assert(all.take(k + 1) =~= all.take(k as int).push(all[k as int]));
            }
            k = k + 1;
        }
        proof { assert(all.take(k as int) =~= all); }
    }
}

/// Appends the operations of a state description (see [`description_ops`]).
fn push_description_ops(out: &mut Vec<Op>, name: &String, d: &String)
    ensures
        ops_view(final(out)@) == ops_view(old(out)@) + description_ops(name@, d@),
{
    let ghost start = ops_view(out@);
    let cs = chars_of(d.as_str());
    match parse_state_description(&cs) {
        Err(_) => {
            proof { assert(ops_view(out@) =~= start + description_ops(name@, d@)); }
        },
        Ok(StateDescription::Entry(a)) => {
            out.push(Op::Decorate(name.clone(), Decoration::EnterAction(a)));
            proof { assert(ops_view(out@) =~= start + description_ops(name@, d@)); }
        },
        Ok(StateDescription::Exit(a)) => {
            out.push(Op::Decorate(name.clone(), Decoration::ExitAction(a)));
            proof { assert(ops_view(out@) =~= start + description_ops(name@, d@)); }
        },
        Ok(StateDescription::DeferEvent(e)) => {
            out.push(Op::Decorate(name.clone(), Decoration::DeferredEvent(e)));
            proof { assert(ops_view(out@) =~= start + description_ops(name@, d@)); }
        },
        Ok(StateDescription::InternalTransition(l)) => {
            let ghost all = description_ops(name@, d@);
            let mut k: usize = 0;
            while k < l.events.len()
                invariant
                    k <= l.events@.len(),
                    all == l@.events.map_values(|e: Seq<char>| OpView::Add(TransitionKind::Internal { source: name@, event: e, action: l@.action, guard: l@.guard })),
                    all.len() == l.events@.len(),
                    ops_view(out@) == start + all.take(k as int),
                decreases l.events@.len() - k,
            {
                let ghost before = ops_view(out@);
                out.push(Op::Add(TransitionKind::Internal {
                    source: name.clone(),
                    event: l.events[k].duplicate(),
                    action: dup_action(&l.action),
                    guard: dup_action(&l.guard),
                }));
                proof {
                    assert(ops_view(out@) =~= before.push(all[k as int]));
                    assert(all.take(k + 1) =~= all.take(k as int).push(all[k as int]));
                }
                k = k + 1;
            }
            proof { assert(all.take(k as int) =~= all); }
        },
    }
}

/// Appends the operations of one non-descending pass over region `s` (see [`pass_ops`]).
fn run_pass<'a>(items: &'a StateElements, s: Option<usize>, res: &SubMachineResolver<'a>, out: &mut Vec<Op>, pass: usize) -> (r: Result<(), ParseError>)
    requires
        pass <= 3,
    ensures
        match r {
            Ok(()) => after(ops_view(old(out)@), pass_ops(items@, s, res.subs(), pass as int, 0)) == Ok::<Seq<OpView>, ParseErrorView>(ops_view(final(out)@)),
            Err(e) => pass_ops(items@, s, res.subs(), pass as int, 0) == Err::<Seq<OpView>, ParseErrorView>(e@),
        },
{
    let ghost start = ops_view(out@);
    let ghost subs = res.subs();
    let n = items.items.len();
    let mut j: usize = 0;
    proof { assert(start + Seq::<OpView>::empty() =~= start); }
    while j < n
        invariant
            n == items@.len(),
            pass <= 3,
            subs == res.subs(),
            j <= n,
            after(start, pass_ops(items@, s, subs, pass as int, 0)) == after(ops_view(out@), pass_ops(items@, s, subs, pass as int, j as int)),
            pass_ops(items@, s, subs, pass as int, 0) is Err ==> pass_ops(items@, s, subs, pass as int, 0) == pass_ops(items@, s, subs, pass as int, j as int),
        decreases n - j,
    {
        let ghost before = ops_view(out@);
        let ghost rest = pass_ops(items@, s, subs, pass as int, j + 1);
        let e = &items.items[j];
        proof { assert(items@[j as int] == e@); }
        match e {
            Element::Enter { scope, name } => {
                if pass == 0 && *scope == s {
                    out.push(Op::Add(TransitionKind::Enter { target: name.clone() }));
                }
            },
            Element::Transition { scope, source, target, description } => {
                if pass == 1 && *scope == s {
                    match label_of(description) {
                        Err(x) => { return Err(x); },
                        Ok(l) => { push_transition_ops(out, source, target, &l); },
                    }
                }
            },
            Element::Exit { scope, source, description } => {
                if pass == 2 && *scope == s {
                    match label_of(description) {
                        Err(x) => { return Err(x); },
                        Ok(l) => { push_exit_ops(out, source, &l); },
                    }
                }
            },
            Element::Description { scope, name, description } => {
                if pass == 3 && *scope == s && !res.is_ref(description.as_str()) {
                    push_description_ops(out, name, description);
                }
            },
            Element::Composite { .. } => {},
        }
        proof {
            let ea = element_ops(items@, s, subs, pass as int, j as int);
            assert(ea is Ok);
            let a = ea->Ok_0;
            assert(ops_view(out@) =~= before + a);
            lemma_after_after(before, a, rest);
        }
        j = j + 1;
    }
    proof {
        assert(ops_view(out@) + Seq::<OpView>::empty() =~= ops_view(out@));
    }
    Ok(())
}

/// Appends the plan for region `s` of `items` to `out` (see [`plan_scope`]), expanding sub-FSM
/// references through `res`.
pub(crate) fn plan_region<'a>(items: &'a StateElements, s: Option<usize>, res: &SubMachineResolver<'a>, out: &mut Vec<Op>, fuel: usize) -> (r: Result<(), ParseError>)
    requires
        fuel == res.subs().len() - res.visiting().len(),
        res.visiting().len() <= res.subs().len(),
    ensures
        match r {
            Ok(()) => after(ops_view(old(out)@), plan_scope(items@, s, res.subs(), res.visiting())) == Ok::<Seq<OpView>, ParseErrorView>(ops_view(final(out)@)),
            Err(e) => plan_scope(items@, s, res.subs(), res.visiting()) == Err::<Seq<OpView>, ParseErrorView>(e@),
        },
    decreases fuel, items@.len() - rank(s),
{
    let ghost subs = res.subs();
    let ghost vis = res.visiting();
    let ghost start = ops_view(out@);
    let n = items.items.len();
    // Composite states, each with its region.
    let mut j: usize = 0;
    proof { assert(start + Seq::<OpView>::empty() =~= start); }
    while j < n
        invariant
            n == items@.len(),
            fuel == subs.len() - vis.len(),
            vis.len() <= subs.len(),
            subs == res.subs(),
            vis == res.visiting(),
            j <= n,
            after(start, comp_ops(items@, s, subs, vis, 0)) == after(ops_view(out@), comp_ops(items@, s, subs, vis, j as int)),
            comp_ops(items@, s, subs, vis, 0) is Err ==> comp_ops(items@, s, subs, vis, 0) == comp_ops(items@, s, subs, vis, j as int),
        decreases n - j,
    {
        let ghost before = ops_view(out@);
        let ghost rest = comp_ops(items@, s, subs, vis, j + 1);
        let e = &items.items[j];
        proof { assert(items@[j as int] == e@); }
        match e {
            Element::Composite { name, parent } => {
                let below = match s {
                    None => true,
                    Some(p) => p < j,
                };
                if *parent == s && below {
                    proof { assert(is_child(items@, s, j as int)); }
                    out.push(Op::Push(name.clone()));
                    let ghost pushed = ops_view(out@);
                    match plan_region(items, Some(j), res, out, fuel) {
                        Err(x) => { return Err(x); },
                        Ok(()) => {},
                    }
                    let ghost inner = plan_scope(items@, Some(j), subs, vis)->Ok_0;
                    let ghost mid = ops_view(out@);
                    proof { assert(mid == pushed + inner); }
                    out.push(Op::Pop);
                    proof {
                        assert(ops_view(out@) =~= mid.push(OpView::Pop));
                        assert(pushed =~= before.push(OpView::Push(name@)));
                        assert(ops_view(out@) =~= before + (seq![OpView::Push(name@)] + inner + seq![OpView::Pop]));
                        lemma_after_after(before, seq![OpView::Push(name@)] + inner + seq![OpView::Pop], rest);
                    }
                } else {
                    proof { assert(!is_child(items@, s, j as int)); }
                }
            },
            _ => {
                proof { assert(!is_child(items@, s, j as int)); }
            },
        }
        j = j + 1;
    }
    let ghost after_comps = ops_view(out@);
    proof { assert(after_comps + Seq::<OpView>::empty() =~= after_comps); }
    // Sub-FSM references, each with the sub-FSM's region.
    let mut j: usize = 0;
    proof { assert(after_comps + Seq::<OpView>::empty() =~= after_comps); }
    while j < n
        invariant
            n == items@.len(),
            fuel == subs.len() - vis.len(),
            vis.len() <= subs.len(),
            subs == res.subs(),
            vis == res.visiting(),
            j <= n,
            after(after_comps, sub_ops(items@, s, subs, vis, 0)) == after(ops_view(out@), sub_ops(items@, s, subs, vis, j as int)),
            after(start, comp_ops(items@, s, subs, vis, 0)) == Ok::<Seq<OpView>, ParseErrorView>(after_comps),
            sub_ops(items@, s, subs, vis, 0) is Err ==> sub_ops(items@, s, subs, vis, 0) == sub_ops(items@, s, subs, vis, j as int),
        decreases n - j,
    {
        let ghost before = ops_view(out@);
        let ghost rest = sub_ops(items@, s, subs, vis, j + 1);
        let e = &items.items[j];
        proof { assert(items@[j as int] == e@); }
        match e {
            Element::Description { scope, name, description } => {
                if *scope == s && res.is_ref(description.as_str()) {
                    if fuel == 0 {
                        return Err(ParseError::CyclicSubMachine(description.clone()));
                    }
                    match res.enter(description.as_str()) {
                        Err(_) => {
                            return Err(ParseError::CyclicSubMachine(description.clone()));
                        },
                        Ok(None) => {},
                        Ok(Some(g)) => {
                            out.push(Op::Push(name.clone()));
                            let ghost pushed = ops_view(out@);
                            let sub = g.elements();
                            match plan_region(sub, None, g.resolver(), out, fuel - 1) {
                                Err(x) => { return Err(x); },
                                Ok(()) => {},
                            }
                            let ghost inner = plan_scope(sub@, None, subs, vis.push(description@))->Ok_0;
                            let ghost mid = ops_view(out@);
                            proof { assert(mid == pushed + inner); }
                            out.push(Op::Pop);
                            proof {
                                assert(ops_view(out@) =~= mid.push(OpView::Pop));
                                assert(pushed =~= before.push(OpView::Push(name@)));
                                assert(ops_view(out@) =~= before + (seq![OpView::Push(name@)] + inner + seq![OpView::Pop]));
                                lemma_after_after(before, seq![OpView::Push(name@)] + inner + seq![OpView::Pop], rest);
                            }
                        },
                    }
                }
            },
            _ => {},
        }
        j = j + 1;
    }
    let ghost after_subs = ops_view(out@);
    match run_pass(items, s, res, out, 0) {
        Err(x) => { return Err(x); },
        Ok(()) => {},
    }
    let ghost after_enters = ops_view(out@);
    match run_pass(items, s, res, out, 1) {
        Err(x) => { return Err(x); },
        Ok(()) => {},
    }
    let ghost after_transitions = ops_view(out@);
    match run_pass(items, s, res, out, 2) {
        Err(x) => { return Err(x); },
        Ok(()) => {},
    }
    let ghost after_exits = ops_view(out@);
    match run_pass(items, s, res, out, 3) {
        Err(x) => { return Err(x); },
        Ok(()) => {},
    }
    proof {
        let a = comp_ops(items@, s, subs, vis, 0)->Ok_0;
        let b = sub_ops(items@, s, subs, vis, 0)->Ok_0;
        let c = pass_ops(items@, s, subs, 0, 0)->Ok_0;
        let d = pass_ops(items@, s, subs, 1, 0)->Ok_0;
        let x = pass_ops(items@, s, subs, 2, 0)->Ok_0;
        let f = pass_ops(items@, s, subs, 3, 0)->Ok_0;
        assert(ops_view(out@) =~= start + (a + b + c + d + x + f));
    }
    Ok(())
}


/// Element `j` is a line that pass `pass` reads a label from: a transition line of region `s`
/// (pass 1) or an exit line of it (pass 2).
pub open spec fn labelled_line(items: Seq<ElementView>, s: Option<usize>, pass: int, j: int) -> bool {
    match items[j] {
        ElementView::Transition { scope, .. } => pass == 1 && scope == s,
        ElementView::Exit { scope, .. } => pass == 2 && scope == s,
        _ => false,
    }
}

/// The label text of element `j`, for transition and exit lines.
pub open spec fn line_label(items: Seq<ElementView>, j: int) -> Option<Seq<char>> {
    match items[j] {
        ElementView::Transition { description, .. } => description,
        ElementView::Exit { description, .. } => description,
        _ => None,
    }
}

/// What pass `pass` adds: initial states (pass 0), transitions with an event or completion
/// transitions (1), exits to the final pseudo-state (2), or decorations and internal
/// transitions (3).
pub open spec fn pass_kind(pass: int, op: OpView) -> bool {
    if pass == 0 {
        op matches OpView::Add(TransitionKind::Enter { .. })
    } else if pass == 1 {
        op matches OpView::Add(p) && (p is Event || p is Direct)
    } else if pass == 2 {
        op matches OpView::Add(TransitionKind::Final { .. })
    } else {
        op is Decorate || (op matches OpView::Add(TransitionKind::Internal { .. }))
    }
}

/// A transition line becomes one transition per event of its label, in order, each with the
/// label's action and guard, or a single completion transition when the label names no
/// event; an exit line likewise becomes one exit per event, or one event-less exit.
pub proof fn law_line_ops(src: Seq<char>, dst: Seq<char>, l: LabelView)
    ensures
        l.events.len() == 0 ==> transition_ops(src, dst, l) == seq![OpView::Add(TransitionKind::Direct { source: src, target: dst, action: l.action, guard: l.guard })],
        l.events.len() > 0 ==> transition_ops(src, dst, l).len() == l.events.len()
            && forall|i: int| 0 <= i < l.events.len() ==> #[trigger] transition_ops(src, dst, l)[i]
                == OpView::Add(TransitionKind::Event { source: src, event: l.events[i], target: dst, action: l.action, guard: l.guard }),
        l.events.len() == 0 ==> exit_ops(src, l) == seq![OpView::Add(TransitionKind::Final { source: src, event: None, action: l.action, guard: l.guard })],
        l.events.len() > 0 ==> exit_ops(src, l).len() == l.events.len()
            && forall|i: int| 0 <= i < l.events.len() ==> #[trigger] exit_ops(src, l)[i]
                == OpView::Add(TransitionKind::Final { source: src, event: Some(l.events[i]), action: l.action, guard: l.guard }),
{
}

/// A region's plan is the composite states' plans, then the sub-FSM expansions, then the
/// initial states, the transitions, the exits and the decorations, each pass adding only its
/// own kind. The transition and exit passes fail exactly when a line of theirs has a label
/// that cannot be read, with the error of the first such line.
pub proof fn law_region_plan(items: Seq<ElementView>, s: Option<usize>, subs: SubsView, vis: Seq<Seq<char>>)
    ensures
        plan_scope(items, s, subs, vis) matches Ok(ops) ==> ops == comp_ops(items, s, subs, vis, 0)->Ok_0
            + sub_ops(items, s, subs, vis, 0)->Ok_0 + pass_ops(items, s, subs, 0, 0)->Ok_0
            + pass_ops(items, s, subs, 1, 0)->Ok_0 + pass_ops(items, s, subs, 2, 0)->Ok_0
            + pass_ops(items, s, subs, 3, 0)->Ok_0,
        forall|pass: int| 0 <= pass <= 3 ==> (#[trigger] pass_ops(items, s, subs, pass, 0) matches Ok(ops) ==>
            forall|k: int| 0 <= k < ops.len() ==> pass_kind(pass, #[trigger] ops[k])),
        forall|pass: int| pass == 1 || pass == 2 ==> match #[trigger] pass_ops(items, s, subs, pass, 0) {
            Ok(_) => forall|j: int| 0 <= j < items.len() && #[trigger] labelled_line(items, s, pass, j) ==> label_parts(line_label(items, j)) is Ok,
            Err(e) => exists|j: int| {
                &&& 0 <= j < items.len()
                &&& #[trigger] labelled_line(items, s, pass, j)
                &&& label_parts(line_label(items, j)) == Err::<LabelView, ParseErrorView>(e)
                &&& forall|i: int| 0 <= i < j && #[trigger] labelled_line(items, s, pass, i) ==> label_parts(line_label(items, i)) is Ok
            },
        },
{
    assert forall|pass: int| 0 <= pass <= 3 implies (#[trigger] pass_ops(items, s, subs, pass, 0) matches Ok(ops) ==>
        forall|k: int| 0 <= k < ops.len() ==> pass_kind(pass, #[trigger] ops[k])) by {
        lemma_pass_kinds(items, s, subs, pass, 0);
    }
    assert forall|pass: int| pass == 1 || pass == 2 implies match #[trigger] pass_ops(items, s, subs, pass, 0) {
        Ok(_) => forall|j: int| 0 <= j < items.len() && #[trigger] labelled_line(items, s, pass, j) ==> label_parts(line_label(items, j)) is Ok,
        Err(e) => exists|j: int| {
            &&& 0 <= j < items.len()
            &&& #[trigger] labelled_line(items, s, pass, j)
            &&& label_parts(line_label(items, j)) == Err::<LabelView, ParseErrorView>(e)
            &&& forall|i: int| 0 <= i < j && #[trigger] labelled_line(items, s, pass, i) ==> label_parts(line_label(items, i)) is Ok
        },
    } by {
        lemma_pass_labels(items, s, subs, pass, 0);
    }
}

/// Each op of a pass from element `j` on is of the pass's kind.
proof fn lemma_pass_kinds(items: Seq<ElementView>, s: Option<usize>, subs: SubsView, pass: int, j: int)
    requires
        0 <= pass <= 3,
    ensures
        pass_ops(items, s, subs, pass, j) matches Ok(ops) ==> forall|k: int| 0 <= k < ops.len() ==> pass_kind(pass, #[trigger] ops[k]),
    decreases items.len() - j,
{
    if 0 <= j < items.len() {
        lemma_pass_kinds(items, s, subs, pass, j + 1);
        match element_ops(items, s, subs, pass, j) {
            Err(_) => {},
            Ok(a) => {
                assert forall|k: int| 0 <= k < a.len() implies pass_kind(pass, #[trigger] a[k]) by {
                    match items[j] {
                        ElementView::Description { scope, name, description } => {
                            match parse_description(description) {
                                Ok(DescriptionView::InternalTransition(l)) => {
                                    assert(a[k] == OpView::Add(TransitionKind::Internal { source: name, event: l.events[k], action: l.action, guard: l.guard }));
                                },
                                _ => {},
                            }
                        },
                        ElementView::Transition { source, target, description, .. } => {
                            let l = label_parts(description)->Ok_0;
                            if l.events.len() > 0 {
                                assert(a[k] == OpView::Add(TransitionKind::Event { source, event: l.events[k], target, action: l.action, guard: l.guard }));
                            }
                        },
                        ElementView::Exit { source, description, .. } => {
                            let l = label_parts(description)->Ok_0;
                            if l.events.len() > 0 {
                                assert(a[k] == OpView::Add(TransitionKind::Final { source, event: Some(l.events[k]), action: l.action, guard: l.guard }));
                            }
                        },
                        _ => {},
                    }
                }
                match pass_ops(items, s, subs, pass, j + 1) {
                    Ok(rest) => {
                        assert forall|k: int| 0 <= k < (a + rest).len() implies pass_kind(pass, #[trigger] (a + rest)[k]) by {
                            if k < a.len() {
                                assert((a + rest)[k] == a[k]);
                            } else {
                                assert((a + rest)[k] == rest[k - a.len()]);
                            }
                        }
                    },
                    Err(_) => {},
                }
            },
        }
    }
}

/// The transition and exit passes from element `j` on fail exactly at the first of their
/// lines, from `j` on, whose label cannot be read.
proof fn lemma_pass_labels(items: Seq<ElementView>, s: Option<usize>, subs: SubsView, pass: int, j: int)
    requires
        pass == 1 || pass == 2,
        0 <= j,
    ensures
        match pass_ops(items, s, subs, pass, j) {
            Ok(_) => forall|q: int| j <= q < items.len() && #[trigger] labelled_line(items, s, pass, q) ==> label_parts(line_label(items, q)) is Ok,
            Err(e) => exists|q: int| {
                &&& j <= q < items.len()
                &&& #[trigger] labelled_line(items, s, pass, q)
                &&& label_parts(line_label(items, q)) == Err::<LabelView, ParseErrorView>(e)
                &&& forall|i: int| j <= i < q && #[trigger] labelled_line(items, s, pass, i) ==> label_parts(line_label(items, i)) is Ok
            },
        },
    decreases items.len() - j,
{
    if j < items.len() {
        lemma_pass_labels(items, s, subs, pass, j + 1);
        let here = labelled_line(items, s, pass, j) && label_parts(line_label(items, j)) is Err;
        assert(element_ops(items, s, subs, pass, j) is Err <==> here);
        if here {
            assert(labelled_line(items, s, pass, j));
        } else {
            match pass_ops(items, s, subs, pass, j + 1) {
                Ok(_) => {},
                Err(e) => {
                    let q = choose|q: int| {
                        &&& j + 1 <= q < items.len()
                        &&& #[trigger] labelled_line(items, s, pass, q)
                        &&& label_parts(line_label(items, q)) == Err::<LabelView, ParseErrorView>(e)
                        &&& forall|i: int| j + 1 <= i < q && #[trigger] labelled_line(items, s, pass, i) ==> label_parts(line_label(items, i)) is Ok
                    };
                    assert(labelled_line(items, s, pass, q));
                },
            }
        }
    }
}

} // verus!
