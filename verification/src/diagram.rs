//! PlantUML state diagrams, read line by line.
//!
//! A diagram lies between `@startuml [Name]` and `@enduml`. Inside, each non-blank line that
//! is not a comment (`'`) is one of:
//! - `state Name {` opening a composite state, closed by a line `}`;
//! - `state Name` declaring a state;
//! - `[state ]Name : description` describing a state;
//! - `[*] --> Name` marking the initial state of the enclosing region;
//! - `Source --> [*][ : label]` leaving for the final pseudo-state;
//! - `Source --> Target[ : label]` a transition.
use vstd::prelude::*;

use crate::error::{ParseError, ParseErrorView};
use crate::text::{
    chars_of, find_char, find_from, find_text, has_prefix, index_of, lines, same_chars, slice_of, split_lines,
    starts_with, string_of, trim, trimmed,
};

verus! {

/// One element of a diagram. A `scope` (or a composite's `parent`) is the position of the
/// enclosing composite state among the elements, `None` at the top level.
#[derive(Debug)]
pub enum Element {
    Composite { name: String, parent: Option<usize> },
    Description { scope: Option<usize>, name: String, description: String },
    Enter { scope: Option<usize>, name: String },
    Transition { scope: Option<usize>, source: String, target: String, description: Option<String> },
    Exit { scope: Option<usize>, source: String, description: Option<String> },
}

/// The mathematical view of an [`Element`].
pub enum ElementView {
    Composite { name: Seq<char>, parent: Option<usize> },
    Description { scope: Option<usize>, name: Seq<char>, description: Seq<char> },
    Enter { scope: Option<usize>, name: Seq<char> },
    Transition { scope: Option<usize>, source: Seq<char>, target: Seq<char>, description: Option<Seq<char>> },
    Exit { scope: Option<usize>, source: Seq<char>, description: Option<Seq<char>> },
}

/// The view of an optional string.
pub open spec fn opt_str(s: Option<String>) -> Option<Seq<char>> {
    match s {
        Some(s) => Some(s@),
        None => None,
    }
}

impl View for Element {
    type V = ElementView;

    open spec fn view(&self) -> ElementView {
        match *self {
            Element::Composite { name, parent } => ElementView::Composite { name: name@, parent },
            Element::Description { scope, name, description } =>
                ElementView::Description { scope, name: name@, description: description@ },
            Element::Enter { scope, name } => ElementView::Enter { scope, name: name@ },
            Element::Transition { scope, source, target, description } =>
                ElementView::Transition { scope, source: source@, target: target@, description: opt_str(description) },
            Element::Exit { scope, source, description } =>
                ElementView::Exit { scope, source: source@, description: opt_str(description) },
        }
    }
}

/// The elements of a diagram (or of a sub-FSM), in the order they appear.
#[derive(Debug)]
pub struct StateElements {
    pub items: Vec<Element>,
}

/// The views of elements.
pub open spec fn items_view(items: Seq<Element>) -> Seq<ElementView> {
    items.map_values(|e: Element| e@)
}

impl View for StateElements {
    type V = Seq<ElementView>;

    open spec fn view(&self) -> Seq<ElementView> {
        items_view(self.items@)
    }
}

impl Default for StateElements {
    fn default() -> (r: Self)
        ensures
            r@ == Seq::<ElementView>::empty(),
    {
        let r = StateElements { items: Vec::new() };
        assert(r@ =~= Seq::<ElementView>::empty());
        r
    }
}

/// A parsed diagram: its `@startuml` name, if any, and its elements.
#[derive(Debug)]
pub struct StateDiagram {
    pub name: Option<String>,
    pub elements: StateElements,
}

/// The mathematical view of a [`StateDiagram`].
pub struct DiagramView {
    pub name: Option<Seq<char>>,
    pub items: Seq<ElementView>,
}

impl View for StateDiagram {
    type V = DiagramView;

    open spec fn view(&self) -> DiagramView {
        DiagramView { name: opt_str(self.name), items: self.elements@ }
    }
}

impl StateDiagram {
    /// The diagram's `@startuml` name, if any.
    pub fn name(&self) -> (r: Option<&str>)
        ensures
            match r {
                Some(s) => self@.name == Some(s@),
                None => self@.name is None,
            },
    {
        match &self.name {
            Some(s) => Some(s.as_str()),
            None => None,
        }
    }

    /// The diagram's elements.
    pub fn elements(&self) -> (r: &StateElements)
        ensures
            r@ == self@.items,
    {
        &self.elements
    }
}

/// What one line of a diagram is.
pub enum LineView {
    Blank,
    Start(Option<Seq<char>>),
    End,
    Close,
    Open(Seq<char>),
    Declare(Seq<char>),
    Describe(Seq<char>, Seq<char>),
    EnterLine(Seq<char>),
    ExitLine(Seq<char>, Option<Seq<char>>),
    Arrow(Seq<char>, Seq<char>, Option<Seq<char>>),
}

/// `s` cut at its `:` at position `i` into a state name and a description, both needed.
pub open spec fn describe(s: Seq<char>, i: int) -> Result<LineView, ParseErrorView> {
    let n = trim(s.subrange(0, i));
    let d = trim(s.subrange(i + 1, s.len() as int));
    if n.len() == 0 {
        Err(ParseErrorView::MissingStateName)
    } else if d.len() == 0 {
        Err(ParseErrorView::MissingDescription)
    } else {
        Ok(LineView::Describe(n, d))
    }
}

/// `s` cut at its first `:` into the part before and the trimmed label after it (none if
/// blank or absent).
pub open spec fn split_label(s: Seq<char>) -> (Seq<char>, Option<Seq<char>>) {
    match index_of(s, ':') {
        None => (trim(s), None),
        Some(j) => {
            let lb = trim(s.subrange(j + 1, s.len() as int));
            (trim(s.subrange(0, j)), if lb.len() == 0 { None } else { Some(lb) })
        },
    }
}

/// A line with an arrow `-->` at position `i`.
pub open spec fn arrow(t: Seq<char>, i: int) -> Result<LineView, ParseErrorView> {
    let left = trim(t.subrange(0, i));
    let (right, label) = split_label(t.subrange(i + 3, t.len() as int));
    if left == "[*]"@ {
        if right.len() == 0 { Err(ParseErrorView::MissingDestinationState) } else { Ok(LineView::EnterLine(right)) }
    } else if left.len() == 0 {
        Err(ParseErrorView::MissingSourceState)
    } else if right == "[*]"@ {
        Ok(LineView::ExitLine(left, label))
    } else if right.len() == 0 {
        Err(ParseErrorView::MissingDestinationState)
    } else {
        Ok(LineView::Arrow(left, right, label))
    }
}

/// What a `state ...` line (with `rest` after the keyword, trimmed) declares.
pub open spec fn state_line(rest: Seq<char>) -> Result<LineView, ParseErrorView> {
    if rest.len() > 0 && rest.last() == '{' {
        let n = trim(rest.drop_last());
        if n.len() == 0 { Err(ParseErrorView::MissingCompositeStateName) } else { Ok(LineView::Open(n)) }
    } else {
        match index_of(rest, ':') {
            Some(i) => describe(rest, i),
            None => if rest.len() == 0 { Err(ParseErrorView::MissingCompositeStateName) } else { Ok(LineView::Declare(rest)) },
        }
    }
}

/// What a line of a diagram is.
pub open spec fn classify(line: Seq<char>) -> Result<LineView, ParseErrorView> {
    let t = trim(line);
    if t.len() == 0 || t[0] == '\'' {
        Ok(LineView::Blank)
    } else if has_prefix(t, "@startuml"@) {
        let n = trim(t.subrange(9, t.len() as int));
        Ok(LineView::Start(if n.len() == 0 { None } else { Some(n) }))
    } else if has_prefix(t, "@enduml"@) {
        Ok(LineView::End)
    } else if t == "}"@ {
        Ok(LineView::Close)
    } else if has_prefix(t, "state "@) {
        state_line(trim(t.subrange(6, t.len() as int)))
    } else {
        match find_from(t, "-->"@, 0) {
            Some(i) => arrow(t, i),
            None => match index_of(t, ':') {
                Some(i) => describe(t, i),
                None => Err(ParseErrorView::Grammar(t)),
            },
        }
    }
}

/// Where a parse stands after some lines.
pub struct ParseState {
    /// Before `@startuml` (0), inside the diagram (1), after `@enduml` (2).
    pub phase: nat,
    pub name: Option<Seq<char>>,
    pub items: Seq<ElementView>,
    /// The positions of the composite states open at this point, innermost last.
    pub stack: Seq<usize>,
}

/// The innermost open composite state.
pub open spec fn top(stack: Seq<usize>) -> Option<usize> {
    if stack.len() == 0 { None } else { Some(stack.last()) }
}

/// The effect of one line.
pub open spec fn step(st: ParseState, line: Seq<char>) -> Result<ParseState, ParseErrorView> {
    let t = trim(line);
    let c = classify(line);
    if c == Ok::<LineView, ParseErrorView>(LineView::Blank) {
        Ok(st)
    } else if st.phase == 0 {
        match c {
            Ok(LineView::Start(n)) => Ok(ParseState { phase: 1, name: n, ..st }),
            _ => Err(ParseErrorView::Grammar(t)),
        }
    } else if st.phase != 1 {
        Err(ParseErrorView::Grammar(t))
    } else {
        let s = top(st.stack);
        match c {
            Err(e) => Err(e),
            Ok(LineView::Blank) => Ok(st),
            Ok(LineView::Start(_)) => Err(ParseErrorView::Grammar(t)),
            Ok(LineView::End) => if st.stack.len() > 0 {
                Err(ParseErrorView::Grammar(t))
            } else {
                Ok(ParseState { phase: 2, ..st })
            },
            Ok(LineView::Close) => if st.stack.len() == 0 {
                Err(ParseErrorView::Grammar(t))
            } else {
                Ok(ParseState { stack: st.stack.drop_last(), ..st })
            },
            Ok(LineView::Open(n)) => Ok(ParseState {
                items: st.items.push(ElementView::Composite { name: n, parent: s }),
                stack: st.stack.push(st.items.len() as usize),
                ..st
            }),
            Ok(LineView::Declare(n)) => Ok(ParseState { items: st.items.push(ElementView::Composite { name: n, parent: s }), ..st }),
            Ok(LineView::Describe(n, d)) =>
                Ok(ParseState { items: st.items.push(ElementView::Description { scope: s, name: n, description: d }), ..st }),
            Ok(LineView::EnterLine(n)) => Ok(ParseState { items: st.items.push(ElementView::Enter { scope: s, name: n }), ..st }),
            Ok(LineView::ExitLine(src, l)) =>
                Ok(ParseState { items: st.items.push(ElementView::Exit { scope: s, source: src, description: l }), ..st }),
            Ok(LineView::Arrow(src, dst, l)) =>
                Ok(ParseState { items: st.items.push(ElementView::Transition { scope: s, source: src, target: dst, description: l }), ..st }),
        }
    }
}

/// The state after the first `n` lines, or the first error.
pub open spec fn parse_upto(ls: Seq<Seq<char>>, n: int) -> Result<ParseState, ParseErrorView>
    decreases n,
{
    if n <= 0 {
        Ok(ParseState { phase: 0, name: None, items: Seq::empty(), stack: Seq::empty() })
    } else {
        match parse_upto(ls, n - 1) {
            Err(e) => Err(e),
            Ok(st) => step(st, ls[n - 1]),
        }
    }
}

/// Reading a diagram: every line in turn, then the diagram must have been opened and closed.
pub open spec fn spec_parse_diagram(text: Seq<char>) -> Result<DiagramView, ParseErrorView> {
    let ls = lines(text);
    match parse_upto(ls, ls.len() as int) {
        Err(e) => Err(e),
        Ok(st) => if st.phase == 0 {
            Err(ParseErrorView::EmptyInput)
        } else if st.phase == 1 {
            Err(ParseErrorView::Grammar("missing @enduml"@))
        } else {
            Ok(DiagramView { name: st.name, items: st.items })
        },
    }
}

/// Once a line fails, the parse fails with its error.
proof fn lemma_parse_err(ls: Seq<Seq<char>>, n: int, m: int)
    requires
        n <= m,
        parse_upto(ls, n) is Err,
    ensures
        parse_upto(ls, m) == parse_upto(ls, n),
    decreases m - n,
{
    if n < m {
        lemma_parse_err(ls, n, m - 1);
    }
}

/// One line of a diagram (see [`LineView`]).
#[derive(Debug)]
pub enum Line {
    Blank,
    Start(Option<String>),
    End,
    Close,
    Open(String),
    Declare(String),
    Describe(String, String),
    EnterLine(String),
    ExitLine(String, Option<String>),
    Arrow(String, String, Option<String>),
}

impl View for Line {
    type V = LineView;

    open spec fn view(&self) -> LineView {
        match *self {
            Line::Blank => LineView::Blank,
            Line::Start(n) => LineView::Start(opt_str(n)),
            Line::End => LineView::End,
            Line::Close => LineView::Close,
            Line::Open(n) => LineView::Open(n@),
            Line::Declare(n) => LineView::Declare(n@),
            Line::Describe(n, d) => LineView::Describe(n@, d@),
            Line::EnterLine(n) => LineView::EnterLine(n@),
            Line::ExitLine(s, l) => LineView::ExitLine(s@, opt_str(l)),
            Line::Arrow(s, t, l) => LineView::Arrow(s@, t@, opt_str(l)),
        }
    }
}

/// The view of a line result.
pub open spec fn line_result(r: Result<Line, ParseError>) -> Result<LineView, ParseErrorView> {
    match r {
        Ok(l) => Ok(l@),
        Err(e) => Err(e@),
    }
}

/// A string of the characters `cs`.
fn text_of(cs: &Vec<char>) -> (r: String)
    ensures
        r@ == cs@,
{
    string_of(cs.as_slice())
}

/// Whether the characters `cs` spell `word`.
fn spells(cs: &Vec<char>, word: &str) -> (r: bool)
    ensures
        r == (cs@ == word@),
{
    let w = chars_of(word);
    same_chars(cs, &w)
}

/// Cuts `s` at its `:` at position `i` (see [`describe`]).
fn describe_line(s: &Vec<char>, i: usize) -> (r: Result<Line, ParseError>)
    requires
        i < s@.len(),
    ensures
        line_result(r) == describe(s@, i as int),
{
    let len = s.len();
    let n = trimmed(&slice_of(s, 0, i));
    let d = trimmed(&slice_of(s, i + 1, len));
    if n.len() == 0 {
        Err(ParseError::MissingStateName)
    } else if d.len() == 0 {
        Err(ParseError::MissingDescription)
    } else {
        Ok(Line::Describe(text_of(&n), text_of(&d)))
    }
}

/// Cuts `s` into the part before its first `:` and the label after it (see [`split_label`]).
fn split_label_of(s: &Vec<char>) -> (r: (Vec<char>, Option<String>))
    ensures
        (r.0@, opt_str(r.1)) == split_label(s@),
{
    let len = s.len();
    match find_char(s, ':') {
        None => (trimmed(s), None),
        Some(j) => {
            let lb = trimmed(&slice_of(s, j + 1, len));
            let before = trimmed(&slice_of(s, 0, j));
            if lb.len() == 0 { (before, None) } else { (before, Some(text_of(&lb))) }
        },
    }
}

/// A line with an arrow at position `i` (see [`arrow`]).
fn arrow_line(t: &Vec<char>, i: usize) -> (r: Result<Line, ParseError>)
    requires
        i + 3 <= t@.len(),
    ensures
        line_result(r) == arrow(t@, i as int),
{
    let len = t.len();
    let left = trimmed(&slice_of(t, 0, i));
    let (right, label) = split_label_of(&slice_of(t, i + 3, len));
    if spells(&left, "[*]") {
        if right.len() == 0 { Err(ParseError::MissingDestinationState) } else { Ok(Line::EnterLine(text_of(&right))) }
    } else if left.len() == 0 {
        Err(ParseError::MissingSourceState)
    } else if spells(&right, "[*]") {
        Ok(Line::ExitLine(text_of(&left), label))
    } else if right.len() == 0 {
        Err(ParseError::MissingDestinationState)
    } else {
        Ok(Line::Arrow(text_of(&left), text_of(&right), label))
    }
}

/// A `state ...` line (see [`state_line`]).
fn state_decl(rest: &Vec<char>) -> (r: Result<Line, ParseError>)
    ensures
        line_result(r) == state_line(rest@),
{
    if rest.len() > 0 && rest[rest.len() - 1] == '{' {
        let n = trimmed(&slice_of(rest, 0, rest.len() - 1));
        proof { assert(rest@.subrange(0, rest@.len() - 1) =~= rest@.drop_last()); }
        if n.len() == 0 { Err(ParseError::MissingCompositeStateName) } else { Ok(Line::Open(text_of(&n))) }
    } else {
        match find_char(rest, ':') {
            Some(i) => describe_line(rest, i),
            None => if rest.len() == 0 { Err(ParseError::MissingCompositeStateName) } else { Ok(Line::Declare(text_of(rest))) },
        }
    }
}

/// What a line of a diagram is (see [`classify`]).
pub fn classify_line(line: &Vec<char>) -> (r: Result<Line, ParseError>)
    ensures
        line_result(r) == classify(line@),
{
    let t = trimmed(line);
    proof {
        reveal_strlit("@startuml");
        reveal_strlit("state ");
        reveal_strlit("-->");
    }
    if t.len() == 0 || t[0] == '\'' {
        Ok(Line::Blank)
    } else if starts_with(&t, "@startuml") {
        let n = trimmed(&slice_of(&t, 9, t.len()));
        if n.len() == 0 { Ok(Line::Start(None)) } else { Ok(Line::Start(Some(text_of(&n)))) }
    } else if starts_with(&t, "@enduml") {
        Ok(Line::End)
    } else if spells(&t, "}") {
        Ok(Line::Close)
    } else if starts_with(&t, "state ") {
        state_decl(&trimmed(&slice_of(&t, 6, t.len())))
    } else {
        match find_text(&t, "-->") {
            Some(i) => arrow_line(&t, i),
            None => match find_char(&t, ':') {
                Some(i) => describe_line(&t, i),
                None => Err(ParseError::Grammar(text_of(&t))),
            },
        }
    }
}

/// The view of a parse state held in variables.
pub open spec fn state_view(phase: u8, name: Option<String>, items: Seq<Element>, stack: Seq<usize>) -> ParseState {
    ParseState { phase: phase as nat, name: opt_str(name), items: items_view(items), stack }
}

impl StateDiagram {
    /// Reads a diagram from its text (see [`spec_parse_diagram`]).
    pub fn parse(text: &str) -> (r: Result<StateDiagram, ParseError>)
        ensures
            match r {
                Ok(d) => spec_parse_diagram(text@) == Ok::<DiagramView, ParseErrorView>(d@),
                Err(e) => spec_parse_diagram(text@) == Err::<DiagramView, ParseErrorView>(e@),
            },
    {
        let cs = chars_of(text);
        let ls = split_lines(&cs);
        let ghost lv = ls@.map_values(|l: Vec<char>| l@);
        let mut phase: u8 = 0;
        let mut name: Option<String> = None;
        let mut items: Vec<Element> = Vec::new();
        let mut stack: Vec<usize> = Vec::new();
        proof { assert(items_view(items@) =~= Seq::<ElementView>::empty()); }
        let mut i: usize = 0;
        while i < ls.len()
            invariant
                lv == ls@.map_values(|l: Vec<char>| l@),
                lv == lines(text@),
                i <= ls@.len(),
                phase <= 2,
                parse_upto(lv, i as int) == Ok::<ParseState, ParseErrorView>(state_view(phase, name, items@, stack@)),
            decreases ls@.len() - i,
        {
            let line = &ls[i];
            proof { assert(lv[i as int] == line@); }
            let c = classify_line(line);
            let t = trimmed(line);
            let ghost st = state_view(phase, name, items@, stack@);
            let ghost s = top(stack@);
            let is_blank = match &c {
                Ok(Line::Blank) => true,
                _ => false,
            };
            if is_blank {
                proof { assert(step(st, line@) == Ok::<ParseState, ParseErrorView>(st)); }
            } else if phase == 0 {
                match c {
                    Ok(Line::Start(n)) => {
                        phase = 1;
                        name = n;
                    },
                    _ => {
                        let e = ParseError::Grammar(text_of(&t));
                        proof {
                            assert(parse_upto(lv, i + 1) == Err::<ParseState, ParseErrorView>(e@));
                            lemma_parse_err(lv, i + 1, lv.len() as int);
                        }
                        return Err(e);
                    },
                }
            } else if phase != 1 {
                let e = ParseError::Grammar(text_of(&t));
                proof {
                    assert(parse_upto(lv, i + 1) == Err::<ParseState, ParseErrorView>(e@));
                    lemma_parse_err(lv, i + 1, lv.len() as int);
                }
                return Err(e);
            } else {
                let scope: Option<usize> = if stack.len() == 0 { None } else { Some(stack[stack.len() - 1]) };
                proof { assert(scope == s); }
                let ghost before = items@;
                let failed: Option<ParseError> = match c {
                    Err(e) => Some(e),
                    Ok(Line::Blank) => None,
                    Ok(Line::Start(_)) => Some(ParseError::Grammar(text_of(&t))),
                    Ok(Line::End) => if stack.len() > 0 {
                        Some(ParseError::Grammar(text_of(&t)))
                    } else {
                        phase = 2;
                        None
                    },
                    Ok(Line::Close) => if stack.len() == 0 {
                        Some(ParseError::Grammar(text_of(&t)))
                    } else {
                        stack.pop();
                        None
                    },
                    Ok(Line::Open(n)) => {
                        let at = items.len();
                        items.push(Element::Composite { name: n, parent: scope });
                        stack.push(at);
                        None
                    },
                    Ok(Line::Declare(n)) => {
                        items.push(Element::Composite { name: n, parent: scope });
                        None
                    },
                    Ok(Line::Describe(n, d)) => {
                        items.push(Element::Description { scope, name: n, description: d });
                        None
                    },
                    Ok(Line::EnterLine(n)) => {
                        items.push(Element::Enter { scope, name: n });
                        None
                    },
                    Ok(Line::ExitLine(src, l)) => {
                        items.push(Element::Exit { scope, source: src, description: l });
                        None
                    },
                    Ok(Line::Arrow(src, dst, l)) => {
                        items.push(Element::Transition { scope, source: src, target: dst, description: l });
                        None
                    },
                };
                match failed {
                    Some(e) => {
                        proof {
                            assert(parse_upto(lv, i + 1) == Err::<ParseState, ParseErrorView>(e@));
                            lemma_parse_err(lv, i + 1, lv.len() as int);
                        }
                        return Err(e);
                    },
                    None => {
                        proof {
                            if items@.len() == before.len() + 1 {
                                assert(items_view(items@) =~= items_view(before).push(items@.last()@));
                            } else {
                                assert(items@ == before);
                            }
                            assert(step(st, line@) == Ok::<ParseState, ParseErrorView>(state_view(phase, name, items@, stack@)));
                        }
                    },
                }
            }
            i = i + 1;
        }
        proof { assert(lv.len() == ls@.len()); }
        if phase == 0 {
            Err(ParseError::EmptyInput)
        } else if phase == 1 {
            Err(ParseError::Grammar("missing @enduml".to_owned()))
        } else {
            Ok(StateDiagram { name, elements: StateElements { items } })
        }
    }
}

} // verus!
