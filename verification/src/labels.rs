//! The UML text inside a diagram: transition labels (`events [guard] / action`) and state
//! descriptions (`entry / A`, `exit / A`, `E / defer`, or an internal transition's label).
use vstd::prelude::*;

use crate::error::{ParseError, ParseErrorView};
use crate::text::{
    chars_of, comma_items, find_char, index_from, index_of, lead_end, trail_end, same_chars, slice_of, split_char, split_on, string_of, trim, trimmed,
};
use crate::types::{Action, Event};

verus! {

/// A transition label: the events that trigger it (one transition each), its guard and its
/// action.
#[derive(Debug)]
pub struct TransitionLabel {
    pub events: Vec<Event>,
    pub guard: Option<Action>,
    pub action: Option<Action>,
}

/// The mathematical view of a [`TransitionLabel`].
pub struct LabelView {
    pub events: Seq<Seq<char>>,
    pub guard: Option<Seq<char>>,
    pub action: Option<Seq<char>>,
}

impl View for TransitionLabel {
    type V = LabelView;

    open spec fn view(&self) -> LabelView {
        LabelView {
            events: self.events@.map_values(|e: Event| e@),
            guard: crate::model::opt_action_view(self.guard),
            action: crate::model::opt_action_view(self.action),
        }
    }
}

/// The label `l` cut at its first `/`: the part before, and the trimmed action after it.
pub open spec fn split_action(l: Seq<char>) -> (Seq<char>, Option<Seq<char>>) {
    match index_of(l, '/') {
        None => (l, None),
        Some(i) => (l.subrange(0, i), Some(trim(l.subrange(i + 1, l.len() as int)))),
    }
}

/// The events of the event list `e`: none if it is empty, else its comma-separated items.
pub open spec fn label_events(e: Seq<char>) -> Seq<Seq<char>> {
    if e.len() == 0 {
        Seq::empty()
    } else {
        comma_items(e)
    }
}

/// The label with the given event list, guard and action: each comma-separated event must be
/// named, and a label needs an event, a guard or an action.
pub open spec fn events_label(e: Seq<char>, guard: Option<Seq<char>>, action: Option<Seq<char>>) -> Result<LabelView, ParseErrorView> {
    let events = label_events(e);
    if exists|k: int| 0 <= k < events.len() && (#[trigger] events[k]).len() == 0 {
        Err(ParseErrorView::MissingEventName)
    } else if events.len() == 0 && guard is None && action is None {
        Err(ParseErrorView::EmptyTransition)
    } else {
        Ok(LabelView { events, guard, action })
    }
}

/// Reading a transition label `events [guard] / action` (each part optional; the guard, if
/// any, closes the part before `/`).
pub open spec fn parse_label(l: Seq<char>) -> Result<LabelView, ParseErrorView> {
    let (head, action) = split_action(l);
    if action matches Some(a) && a.len() == 0 {
        Err(ParseErrorView::MissingActionName)
    } else {
        match index_of(head, '[') {
            None => events_label(trim(head), None, action),
            Some(i) => {
                let rest = head.subrange(i + 1, head.len() as int);
                match index_of(rest, ']') {
                    None => Err(ParseErrorView::InvalidTransitionDescription(l)),
                    Some(j) => {
                        let g = trim(rest.subrange(0, j));
                        if g.len() == 0 || trim(rest.subrange(j + 1, rest.len() as int)).len() != 0 {
                            Err(ParseErrorView::InvalidTransitionDescription(l))
                        } else {
                            events_label(trim(head.subrange(0, i)), Some(g), action)
                        }
                    },
                }
            },
        }
    }
}

/// The trimmed, comma-separated events of `e` as events, or `None` if one is unnamed.
fn event_list(e: &Vec<char>) -> (r: Option<Vec<Event>>)
    requires
        e@.len() > 0,
    ensures
        match r {
            Some(es) => es@.map_values(|x: Event| x@) == comma_items(e@)
                && forall|k: int| 0 <= k < comma_items(e@).len() ==> (#[trigger] comma_items(e@)[k]).len() > 0,
            None => exists|k: int| 0 <= k < comma_items(e@).len() && (#[trigger] comma_items(e@)[k]).len() == 0,
        },
{
    let parts = split_char(e, ',');
    let ghost pv = parts@.map_values(|l: Vec<char>| l@);
    let ghost items = comma_items(e@);
    let mut es: Vec<Event> = Vec::new();
    let mut k: usize = 0;
    while k < parts.len()
        invariant
            pv == parts@.map_values(|l: Vec<char>| l@),
            pv == split_on(e@, ','),
            items == comma_items(e@),
            items.len() == pv.len(),
            k <= parts@.len(),
            es@.map_values(|x: Event| x@) == items.take(k as int),
            forall|q: int| 0 <= q < k ==> (#[trigger] items[q]).len() > 0,
        decreases parts@.len() - k,
    {
        let t = trimmed(&parts[k]);
        proof {
            assert(pv[k as int] == parts@[k as int]@);
            assert(items[k as int] == trim(pv[k as int]));
        }
        if t.len() == 0 {
            return None;
        }
        let ghost before = es@;
        es.push(Event(string_of(t.as_slice())));
        proof {
            assert(es@.map_values(|x: Event| x@) =~= before.map_values(|x: Event| x@).push(t@));
            assert(items.take(k + 1) =~= items.take(k as int).push(items[k as int]));
        }
        k = k + 1;
    }
    proof { assert(items.take(k as int) =~= items); }
    Some(es)
}

/// Reads the label with the event list `e`, guard and action (see [`events_label`]).
fn make_label(e: &Vec<char>, guard: Option<Action>, action: Option<Action>) -> (r: Result<TransitionLabel, ParseError>)
    ensures
        match r {
            Ok(l) => events_label(e@, crate::model::opt_action_view(guard), crate::model::opt_action_view(action)) == Ok::<LabelView, ParseErrorView>(l@),
            Err(x) => events_label(e@, crate::model::opt_action_view(guard), crate::model::opt_action_view(action)) == Err::<LabelView, ParseErrorView>(x@),
        },
{
    let events = if e.len() == 0 {
        let v: Vec<Event> = Vec::new();
        proof { assert(v@.map_values(|x: Event| x@) =~= Seq::<Seq<char>>::empty()); }
        v
    } else {
        match event_list(e) {
            Some(es) => es,
            None => {
                proof {
                    let items = comma_items(e@);
                    let k = choose|k: int| 0 <= k < items.len() && (#[trigger] items[k]).len() == 0;
                    assert(items[k].len() == 0);
                }
                return Err(ParseError::MissingEventName);
            },
        }
    };
    if events.len() == 0 && guard.is_none() && action.is_none() {
        return Err(ParseError::EmptyTransition);
    }
    Ok(TransitionLabel { events, guard, action })
}

/// An action named by the characters `cs`.
fn action_of(cs: &Vec<char>) -> (r: Action)
    ensures
        r@ == cs@,
{
    Action(string_of(cs.as_slice()))
}

/// Reads a transition label (see [`parse_label`]).
pub fn parse_transition_label(l: &Vec<char>) -> (r: Result<TransitionLabel, ParseError>)
    ensures
        match r {
            Ok(x) => parse_label(l@) == Ok::<LabelView, ParseErrorView>(x@),
            Err(e) => parse_label(l@) == Err::<LabelView, ParseErrorView>(e@),
        },
{
    let n = l.len();
    let (head, action) = match find_char(l, '/') {
        None => (slice_of(l, 0, n), None),
        Some(i) => {
            let a = trimmed(&slice_of(l, i + 1, n));
            if a.len() == 0 {
                return Err(ParseError::MissingActionName);
            }
            (slice_of(l, 0, i), Some(action_of(&a)))
        },
    };
    proof { assert(l@.subrange(0, l@.len() as int) =~= l@); }
    match find_char(&head, '[') {
        None => make_label(&trimmed(&head), None, action),
        Some(i) => {
            let rest = slice_of(&head, i + 1, head.len());
            match find_char(&rest, ']') {
                None => Err(ParseError::InvalidTransitionDescription(string_of(l.as_slice()))),
                Some(j) => {
                    let g = trimmed(&slice_of(&rest, 0, j));
                    let after = trimmed(&slice_of(&rest, j + 1, rest.len()));
                    if g.len() == 0 || after.len() != 0 {
                        Err(ParseError::InvalidTransitionDescription(string_of(l.as_slice())))
                    } else {
                        make_label(&trimmed(&slice_of(&head, 0, i)), Some(action_of(&g)), action)
                    }
                },
            }
        },
    }
}

/// What a state description says.
#[derive(Debug)]
pub enum StateDescription {
    /// `entry / A`: the state's enter action.
    Entry(Action),
    /// `exit / A`: the state's exit action.
    Exit(Action),
    /// `E / defer`: an event the state defers.
    DeferEvent(Event),
    /// `E [g] / A`: an internal transition.
    InternalTransition(TransitionLabel),
}

/// The mathematical view of a [`StateDescription`].
pub enum DescriptionView {
    Entry(Seq<char>),
    Exit(Seq<char>),
    DeferEvent(Seq<char>),
    InternalTransition(LabelView),
}

impl View for StateDescription {
    type V = DescriptionView;

    open spec fn view(&self) -> DescriptionView {
        match *self {
            StateDescription::Entry(a) => DescriptionView::Entry(a@),
            StateDescription::Exit(a) => DescriptionView::Exit(a@),
            StateDescription::DeferEvent(e) => DescriptionView::DeferEvent(e@),
            StateDescription::InternalTransition(l) => DescriptionView::InternalTransition(l@),
        }
    }
}

/// A description read as an internal transition, which needs an event.
pub open spec fn internal_description(d: Seq<char>) -> Result<DescriptionView, ParseErrorView> {
    match parse_label(d) {
        Err(e) => Err(e),
        Ok(l) => if l.events.len() == 0 {
            Err(ParseErrorView::UnrecognisedStateDescription(d))
        } else {
            Ok(DescriptionView::InternalTransition(l))
        },
    }
}

/// Reading a state description: `entry / A`, `exit / A`, `E / defer`, or an internal
/// transition's label.
pub open spec fn parse_description(d: Seq<char>) -> Result<DescriptionView, ParseErrorView> {
    match index_of(d, '/') {
        Some(i) => {
            let left = trim(d.subrange(0, i));
            let right = trim(d.subrange(i + 1, d.len() as int));
            if left == "entry"@ {
                if right.len() == 0 { Err(ParseErrorView::MissingActionName) } else { Ok(DescriptionView::Entry(right)) }
            } else if left == "exit"@ {
                if right.len() == 0 { Err(ParseErrorView::MissingActionName) } else { Ok(DescriptionView::Exit(right)) }
            } else if right == "defer"@ {
                if left.len() == 0 { Err(ParseErrorView::MissingEventName) } else { Ok(DescriptionView::DeferEvent(left)) }
            } else {
                internal_description(d)
            }
        },
        None => if trim(d) == "entry"@ || trim(d) == "exit"@ {
            Err(ParseErrorView::MissingStateAction)
        } else {
            internal_description(d)
        },
    }
}

/// Whether the characters `cs` spell `word`.
fn is_word(cs: &Vec<char>, word: &str) -> (r: bool)
    ensures
        r == (cs@ == word@),
{
    let w = chars_of(word);
    same_chars(cs, &w)
}

/// Reads `d` as an internal transition's label (see [`internal_description`]).
fn parse_internal(d: &Vec<char>) -> (r: Result<StateDescription, ParseError>)
    ensures
        match r {
            Ok(x) => internal_description(d@) == Ok::<DescriptionView, ParseErrorView>(x@),
            Err(e) => internal_description(d@) == Err::<DescriptionView, ParseErrorView>(e@),
        },
{
    match parse_transition_label(d) {
        Err(e) => Err(e),
        Ok(l) => {
            if l.events.len() == 0 {
                Err(ParseError::UnrecognisedStateDescription(string_of(d.as_slice())))
            } else {
                Ok(StateDescription::InternalTransition(l))
            }
        },
    }
}

/// Reads a state description (see [`parse_description`]).
pub fn parse_state_description(d: &Vec<char>) -> (r: Result<StateDescription, ParseError>)
    ensures
        match r {
            Ok(x) => parse_description(d@) == Ok::<DescriptionView, ParseErrorView>(x@),
            Err(e) => parse_description(d@) == Err::<DescriptionView, ParseErrorView>(e@),
        },
{
    let n = d.len();
    match find_char(d, '/') {
        Some(i) => {
            let left = trimmed(&slice_of(d, 0, i));
            let right = trimmed(&slice_of(d, i + 1, n));
            if is_word(&left, "entry") {
                if right.len() == 0 { Err(ParseError::MissingActionName) } else { Ok(StateDescription::Entry(action_of(&right))) }
            } else if is_word(&left, "exit") {
                if right.len() == 0 { Err(ParseError::MissingActionName) } else { Ok(StateDescription::Exit(action_of(&right))) }
            } else if is_word(&right, "defer") {
                if left.len() == 0 {
                    Err(ParseError::MissingEventName)
                } else {
                    Ok(StateDescription::DeferEvent(Event(string_of(left.as_slice()))))
                }
            } else {
                parse_internal(d)
            }
        },
        None => {
            let t = trimmed(d);
            if is_word(&t, "entry") || is_word(&t, "exit") {
                Err(ParseError::MissingStateAction)
            } else {
                parse_internal(d)
            }
        },
    }
}


/// The text of a label before its guard and action: before its first `/`, and before its
/// first `[` when that comes earlier.
pub open spec fn event_text(l: Seq<char>) -> Seq<char> {
    let s = match index_of(l, '/') {
        Some(i) => i,
        None => l.len() as int,
    };
    let b = match index_of(l, '[') {
        Some(j) => if j < s { j } else { s },
        None => s,
    };
    l.subrange(0, b)
}

/// Looking for `c` in a prefix of `l` finds what looking in `l` finds, if it lies in the
/// prefix.
proof fn lemma_index_prefix(l: Seq<char>, m: int, c: char, i: int)
    requires
        0 <= i,
        0 <= m <= l.len(),
    ensures
        index_from(l.subrange(0, m), c, i) == (match index_from(l, c, i) {
            Some(j) => if j < m { Some(j) } else { None },
            None => None,
        }),
    decreases l.len() - i,
{
    if i < l.len() {
        lemma_index_prefix(l, m, c, i + 1);
    }
}

/// `index_from` finds `c` at or after its start.
proof fn lemma_index_from(l: Seq<char>, c: char, i: int)
    requires
        0 <= i,
    ensures
        index_from(l, c, i) matches Some(j) ==> i <= j < l.len() && l[j] == c,
    decreases l.len() - i,
{
    if i < l.len() && l[i] != c {
        lemma_index_from(l, c, i + 1);
    }
}

/// The leading whitespace `lead_end` skips lies within the text.
proof fn lemma_lead_end(s: Seq<char>, i: int)
    requires
        0 <= i <= s.len(),
    ensures
        i <= lead_end(s, i) <= s.len(),
    decreases s.len() - i,
{
    if i < s.len() && crate::text::is_ws(s[i]) {
        lemma_lead_end(s, i + 1);
    }
}

/// `trail_end` ends between its bounds.
proof fn lemma_trail_end(s: Seq<char>, j: int, lo: int)
    requires
        0 <= lo <= j <= s.len(),
    ensures
        lo <= trail_end(s, j, lo) <= j,
    decreases j - lo,
{
    if lo < j && crate::text::is_ws(s[j - 1]) {
        lemma_trail_end(s, j - 1, lo);
    }
}

/// Trimming keeps only characters of the text.
proof fn lemma_trim_within(p: Seq<char>, x: char)
    ensures
        trim(p).contains(x) ==> p.contains(x),
{
    lemma_lead_end(p, 0);
    let a = lead_end(p, 0);
    lemma_trail_end(p, p.len() as int, a);
    let b = trail_end(p, p.len() as int, a);
    if trim(p).contains(x) {
        let k = choose|k: int| 0 <= k < trim(p).len() && trim(p)[k] == x;
        assert(p[a + k] == x);
    }
}

/// No piece of `split_on(s, c)` holds `c`.
proof fn lemma_split_on_pieces(s: Seq<char>, c: char)
    ensures
        forall|k: int| 0 <= k < split_on(s, c).len() ==> !(#[trigger] split_on(s, c)[k]).contains(c),
    decreases s.len(),
{
    crate::text::lemma_split_on(s, c);
    if s.len() > 0 {
        lemma_split_on_pieces(s.drop_last(), c);
        let prev = split_on(s.drop_last(), c);
        crate::text::lemma_split_on(s.drop_last(), c);
        let cur = split_on(s, c);
        assert forall|k: int| 0 <= k < cur.len() implies !(#[trigger] cur[k]).contains(c) by {
            if s.last() == c {
                if k < prev.len() {
                    assert(cur[k] == prev[k]);
                } else {
                    assert(cur[k] =~= Seq::<char>::empty());
                }
            } else if k == prev.len() - 1 {
                let last = prev.last().push(s.last());
                assert(cur[k] == last);
                assert(!prev[prev.len() - 1].contains(c));
                if last.contains(c) {
                    let q = choose|q: int| 0 <= q < last.len() && last[q] == c;
                    if q < prev.last().len() {
                        assert(prev.last()[q] == c);
                    }
                }
            } else {
                assert(cur[k] == prev[k]);
            }
        }
    }
}

/// The events of a label are read from its text before the guard and the action, the same
/// whether a guard follows or not: none when that text is blank, else its comma-separated
/// items, each trimmed; every event is named and holds no comma.
pub proof fn law_label_events(l: Seq<char>)
    ensures
        parse_label(l) matches Ok(x) ==> {
            &&& x.events == (if trim(event_text(l)).len() == 0 {
                Seq::<Seq<char>>::empty()
            } else {
                comma_items(trim(event_text(l)))
            })
            &&& forall|k: int| 0 <= k < x.events.len() ==> (#[trigger] x.events[k]).len() > 0 && !x.events[k].contains(',')
        },
{
    if parse_label(l) is Ok {
        let x = parse_label(l)->Ok_0;
        lemma_index_from(l, '/', 0);
        let s = match index_of(l, '/') {
            Some(i) => i,
            None => l.len() as int,
        };
        let head = split_action(l).0;
        assert(head =~= l.subrange(0, s));
        lemma_index_prefix(l, s, '[', 0);
        lemma_index_from(l, '[', 0);
        let et = match index_of(head, '[') {
            None => head,
            Some(i) => head.subrange(0, i),
        };
        assert(et =~= event_text(l));
        let e = trim(et);
        assert(x.events == label_events(e));
        if e.len() > 0 {
            lemma_split_on_pieces(e, ',');
            assert forall|k: int| 0 <= k < x.events.len() implies !(#[trigger] x.events[k]).contains(',') by {
                let p = split_on(e, ',')[k];
                assert(x.events[k] == trim(p));
                lemma_trim_within(p, ',');
            }
        }
    }
}

/// A description read as an internal transition keeps the whole label: its events, its guard
/// and its action are those `parse_label` reads from the same text, and it has an event.
pub proof fn law_internal_transition_label(d: Seq<char>)
    ensures
        parse_description(d) matches Ok(DescriptionView::InternalTransition(l)) ==> parse_label(d) == Ok::<LabelView, ParseErrorView>(l)
            && l.events.len() > 0,
        internal_description(d) matches Ok(DescriptionView::InternalTransition(l)) ==> parse_label(d) == Ok::<LabelView, ParseErrorView>(l)
            && l.events.len() > 0,
{
}


/// The guard and the action of a label: the action is the trimmed text after the label's
/// first `/`; the guard is the trimmed text between the first `[` before that `/` and the
/// first `]` after it. A label without `/` has no action, one without such a `[` no guard.
pub proof fn law_label_guard_action(l: Seq<char>)
    ensures
        parse_label(l) matches Ok(x) ==> {
            &&& x.action == (match index_of(l, '/') {
                Some(i) => Some(trim(l.subrange(i + 1, l.len() as int))),
                None => None,
            })
            &&& ({
                let s = match index_of(l, '/') {
                    Some(i) => i,
                    None => l.len() as int,
                };
                match index_of(l, '[') {
                    Some(b) => if b < s {
                        let r = l.subrange(b + 1, s);
                        x.guard matches Some(g) && index_of(r, ']') matches Some(j) && g == trim(r.subrange(0, j))
                    } else {
                        x.guard is None
                    },
                    None => x.guard is None,
                }
            })
        },
{
    if parse_label(l) is Ok {
        lemma_index_from(l, '/', 0);
        lemma_index_from(l, '[', 0);
        let s = match index_of(l, '/') {
            Some(i) => i,
            None => l.len() as int,
        };
        let head = split_action(l).0;
        assert(head =~= l.subrange(0, s));
        lemma_index_prefix(l, s, '[', 0);
        match index_of(head, '[') {
            Some(b) => {
                assert(head.subrange(b + 1, head.len() as int) =~= l.subrange(b + 1, s));
            },
            None => {},
        }
    }
}

} // verus!
