use vstd::prelude::*;

verus! {

/// An event that triggers transitions, named by the diagram.
#[derive(Debug, Clone, PartialEq, Eq, Hash)]
pub struct Event(pub String);

/// An action (transition effect, guard, or enter/exit behaviour), named by the diagram.
#[derive(Debug, Clone, PartialEq, Eq, Hash)]
pub struct Action(pub String);

impl View for Event {
    type V = Seq<char>;

    open spec fn view(&self) -> Seq<char> {
        self.0@
    }
}

impl View for Action {
    type V = Seq<char>;

    open spec fn view(&self) -> Seq<char> {
        self.0@
    }
}

impl Event {
    /// An event with the given name.
    pub fn named(s: &str) -> (r: Event)
        ensures
            r@ == s@,
    {
        Event(s.to_owned())
    }

    /// A copy of this event.
    pub fn duplicate(&self) -> (r: Event)
        ensures
            r == *self,
    {
        Event(self.0.clone())
    }

    /// Whether both events carry the same name.
    pub fn same(&self, other: &Event) -> (r: bool)
        ensures
            r == (self@ == other@),
    {
        self.0 == other.0
    }

    /// The event's name.
    pub fn name(&self) -> (r: &str)
        ensures
            r@ == self@,
    {
        self.0.as_str()
    }
}

impl Action {
    /// An action with the given name.
    pub fn named(s: &str) -> (r: Action)
        ensures
            r@ == s@,
    {
        Action(s.to_owned())
    }

    /// A copy of this action.
    pub fn duplicate(&self) -> (r: Action)
        ensures
            r == *self,
    {
        Action(self.0.clone())
    }

    /// Whether both actions carry the same name.
    pub fn same(&self, other: &Action) -> (r: bool)
        ensures
            r == (self@ == other@),
    {
        self.0 == other.0
    }

    /// The action's name.
    pub fn name(&self) -> (r: &str)
        ensures
            r@ == self@,
    {
        self.0.as_str()
    }
}

impl<'a> From<&'a str> for Event {
    fn from(s: &'a str) -> (r: Event) {
        Event(s.to_owned())
    }
}

impl<'a> From<&'a str> for Action {
    fn from(s: &'a str) -> (r: Action) {
        Action(s.to_owned())
    }
}


// A `String` has no spec-level constructor, so `from` promises nothing beyond its type here;
// verified code builds events and actions through `Event::named` / `Action::named`, whose
// contracts state the name.
impl<'a> vstd::std_specs::convert::FromSpecImpl<&'a str> for Event {
    open spec fn obeys_from_spec() -> bool {
        false
    }

    open spec fn from_spec(s: &'a str) -> Event {
        arbitrary()
    }
}

impl<'a> vstd::std_specs::convert::FromSpecImpl<&'a str> for Action {
    open spec fn obeys_from_spec() -> bool {
        false
    }

    open spec fn from_spec(s: &'a str) -> Action {
        arbitrary()
    }
}

} // verus!
