//! Sub-FSM references: `state X : SubName` splices the sub-FSM named `SubName` (by its
//! `@startuml` name) into `X` as its region. References must not form a cycle.
use vstd::prelude::*;

use crate::diagram::{ElementView, StateDiagram, StateElements};
use crate::error::{Error, ErrorView, ParseError, ParseErrorView};
use crate::text::same_text;

verus! {

/// The named sub-FSMs a resolver knows: each name with the elements of its region.
pub type SubsView = Seq<(Seq<char>, Seq<ElementView>)>;

/// The position of the first sub-FSM called `name` from `k` on.
pub open spec fn sub_index(subs: SubsView, name: Seq<char>, k: int) -> Option<int>
    decreases subs.len() - k,
{
    if 0 <= k < subs.len() {
        if subs[k].0 == name {
            Some(k)
        } else {
            sub_index(subs, name, k + 1)
        }
    } else {
        None
    }
}

/// The first entry (from `k` on) whose name an earlier entry already has.
pub open spec fn first_duplicate(names: Seq<Seq<char>>, k: int) -> Option<int>
    decreases names.len() - k,
{
    if 0 <= k < names.len() {
        if names.take(k).contains(names[k]) {
            Some(k)
        } else {
            first_duplicate(names, k + 1)
        }
    } else {
        None
    }
}

/// The views of diagrams.
pub open spec fn diagram_views(ds: Seq<StateDiagram>) -> Seq<crate::diagram::DiagramView> {
    ds.map_values(|d: StateDiagram| d@)
}

/// Every diagram has a `@startuml` name.
pub open spec fn all_named(dvs: Seq<crate::diagram::DiagramView>) -> bool {
    forall|k: int| 0 <= k < dvs.len() ==> (#[trigger] dvs[k]).name is Some
}

/// The sub-FSMs of named diagrams: each `@startuml` name with the diagram's elements.
pub open spec fn view_subs(dvs: Seq<crate::diagram::DiagramView>) -> SubsView {
    Seq::new(dvs.len(), |k: int| (dvs[k].name->0, dvs[k].items))
}

/// The names of sub-FSMs.
pub open spec fn sub_names(subs: SubsView) -> Seq<Seq<char>> {
    subs.map_values(|e: (Seq<char>, Seq<ElementView>)| e.0)
}

/// Resolves `state X : SubName` descriptions against a pool of named sub-FSMs and rejects
/// reference cycles. A plain parse uses [`SubMachineResolver::none`], which resolves nothing.
#[derive(Debug)]
pub struct SubMachineResolver<'a> {
    machines: Vec<(&'a str, &'a StateElements)>,
    visiting: Vec<&'a str>,
}

/// The view of resolver entries.
pub open spec fn entries_view<'a>(es: Seq<(&'a str, &'a StateElements)>) -> SubsView {
    es.map_values(|e: (&'a str, &'a StateElements)| (e.0@, e.1@))
}

/// The view of a stack of names.
pub open spec fn names_view<'a>(ns: Seq<&'a str>) -> Seq<Seq<char>> {
    ns.map_values(|n: &'a str| n@)
}

/// An in-flight sub-FSM expansion: the elements of the sub-FSM being spliced in, and the
/// resolver to expand them with, which knows the sub-FSM is in flight. The resolver it came
/// from is left as it was, so once the guard is dropped the sub-FSM can be entered again.
#[derive(Debug)]
pub struct SubMachineGuard<'a> {
    elements: &'a StateElements,
    inner: SubMachineResolver<'a>,
}

impl<'a> SubMachineGuard<'a> {
    /// What the guard's elements are.
    pub closed spec fn elements_view(self) -> Seq<ElementView> {
        self.elements@
    }

    /// The resolver for the expansion.
    pub closed spec fn inner(self) -> SubMachineResolver<'a> {
        self.inner
    }

    /// The elements of the sub-FSM being expanded.
    pub fn elements(&self) -> (r: &'a StateElements)
        ensures
            r@ == self.elements_view(),
    {
        self.elements
    }

    /// The resolver to expand the sub-FSM's elements with.
    pub fn resolver(&self) -> (r: &SubMachineResolver<'a>)
        ensures
            *r == self.inner(),
    {
        &self.inner
    }
}

/// A sub-FSM entry for a diagram: its `@startuml` name with its elements; an unnamed sub-FSM
/// cannot be referenced.
pub fn named_entry<'a>(name: Option<&'a str>, elements: &'a StateElements) -> (r: Result<(&'a str, &'a StateElements), Error>)
    ensures
        match name {
            Some(n) => r == Ok::<(&'a str, &'a StateElements), Error>((n, elements)),
            None => r matches Err(e) && e@ == ErrorView::Parse(ParseErrorView::UnnamedSubMachine),
        },
{
    match name {
        Some(n) => Ok((n, elements)),
        None => Err(Error::Parse(ParseError::UnnamedSubMachine)),
    }
}

impl<'a> SubMachineResolver<'a> {
    /// The named sub-FSMs, in the order they were given.
    pub closed spec fn subs(self) -> SubsView {
        entries_view(self.machines@)
    }

    /// The names of the sub-FSMs being expanded, outermost first.
    pub closed spec fn visiting(self) -> Seq<Seq<char>> {
        names_view(self.visiting@)
    }

    /// A resolver with no sub-FSMs: every description is a plain state description.
    pub fn none() -> (r: Self)
        ensures
            r.subs() == SubsView::empty(),
            r.visiting() == Seq::<Seq<char>>::empty(),
    {
        let r = SubMachineResolver { machines: Vec::new(), visiting: Vec::new() };
        assert(r.subs() =~= SubsView::empty());
        assert(r.visiting() =~= Seq::<Seq<char>>::empty());
        r
    }

    /// A resolver from `(name, elements)` entries, rejecting the first entry whose name an
    /// earlier one already has.
    pub fn from_entries(entries: Vec<(&'a str, &'a StateElements)>) -> (r: Result<Self, Error>)
        ensures
            match first_duplicate(sub_names(entries_view(entries@)), 0) {
                None => r matches Ok(res) && res.subs() == entries_view(entries@) && res.visiting() == Seq::<Seq<char>>::empty(),
                Some(k) => r matches Err(e) && e@ == ErrorView::Parse(ParseErrorView::DuplicateSubMachine(sub_names(entries_view(entries@))[k])),
            },
    {
        let ghost names = sub_names(entries_view(entries@));
        let mut k: usize = 0;
        while k < entries.len()
            invariant
                names == sub_names(entries_view(entries@)),
                names.len() == entries@.len(),
                k <= entries@.len(),
                first_duplicate(names, 0) == first_duplicate(names, k as int),
            decreases entries@.len() - k,
        {
            let (name, _) = entries[k];
            proof { assert(names[k as int] == name@); }
            let mut q: usize = 0;
            while q < k
                invariant
                    names == sub_names(entries_view(entries@)),
                    names.len() == entries@.len(),
                    q <= k,
                    k < entries@.len(),
                    names[k as int] == name@,
                    first_duplicate(names, 0) == first_duplicate(names, k as int),
                    forall|p: int| 0 <= p < q ==> names[p] != name@,
                decreases k - q,
            {
                let (other, _) = entries[q];
                proof { assert(names[q as int] == other@); }
                if same_text(other, name) {
                    proof {
                        assert(names.take(k as int)[q as int] == names[q as int]);
                        assert(names.take(k as int).contains(names[k as int]));
                        assert(first_duplicate(names, k as int) == Some(k as int));
                    }
                    return Err(Error::Parse(ParseError::DuplicateSubMachine(name.to_owned())));
                }
                q = q + 1;
            }
            proof {
                assert forall|p: int| 0 <= p < k implies names.take(k as int)[p] != names[k as int] by {
                    assert(names.take(k as int)[p] == names[p]);
                }
            }
            k = k + 1;
        }
        Ok(SubMachineResolver { machines: entries, visiting: Vec::new() })
    }

    /// A resolver from parsed sub-FSMs, keyed by their `@startuml` names; every sub-FSM needs a
    /// name, and names must differ.
    pub fn try_from_subs(diagrams: &'a [StateDiagram]) -> (r: Result<Self, Error>)
        ensures
            !all_named(diagram_views(diagrams@)) ==>
                (r matches Err(e) && e@ == ErrorView::Parse(ParseErrorView::UnnamedSubMachine)),
            all_named(diagram_views(diagrams@)) ==> {
                let subs = view_subs(diagram_views(diagrams@));
                match first_duplicate(sub_names(subs), 0) {
                    None => r matches Ok(res) && res.subs() == subs && res.visiting() == Seq::<Seq<char>>::empty(),
                    Some(k) => r matches Err(e) && e@ == ErrorView::Parse(ParseErrorView::DuplicateSubMachine(sub_names(subs)[k])),
                }
            },
    {
        let mut entries: Vec<(&'a str, &'a StateElements)> = Vec::new();
        let mut k: usize = 0;
        while k < diagrams.len()
            invariant
                k <= diagrams@.len(),
                entries@.len() == k,
                forall|j: int| 0 <= j < k ==> (#[trigger] diagrams@[j])@.name is Some,
                forall|j: int| 0 <= j < k ==> #[trigger] entries_view(entries@)[j] == (diagrams@[j]@.name->0, diagrams@[j]@.items),
            decreases diagrams@.len() - k,
        {
            let d = &diagrams[k];
            let nm = d.name();
            let el = d.elements();
            match named_entry(nm, el) {
                Err(e) => {
                    proof {
                        assert(diagram_views(diagrams@)[k as int] == diagrams@[k as int]@);
                        assert(diagrams@[k as int]@.name is None);
                    }
                    return Err(e);
                },
                Ok(entry) => {
                    let ghost before = entries@;
                    entries.push(entry);
                    proof {
                        assert(entry.0@ == diagrams@[k as int]@.name->0);
                        assert(entry.1@ == diagrams@[k as int]@.items);
                        assert(entries_view(entries@)[k as int] == (entry.0@, entry.1@));
                        assert forall|j: int| 0 <= j < k + 1 implies #[trigger] entries_view(entries@)[j] == (diagrams@[j]@.name->0, diagrams@[j]@.items) by {
                            if j < k {
                                assert(entries@[j] == before[j]);
                                assert(entries_view(entries@)[j] == entries_view(before)[j]);
                            }
                        }
                    }
                },
            }
            k = k + 1;
        }
        proof {
            assert(entries_view(entries@) =~= view_subs(diagram_views(diagrams@)));
            assert forall|j: int| 0 <= j < diagrams@.len() implies (#[trigger] diagram_views(diagrams@)[j]).name is Some by {
                assert(diagram_views(diagrams@)[j] == diagrams@[j]@);
            }
        }
        Self::from_entries(entries)
    }

    /// Whether `name` refers to a sub-FSM rather than a plain state description.
    pub fn is_ref(&self, name: &str) -> (r: bool)
        ensures
            r == (sub_index(self.subs(), name@, 0) is Some),
    {
        self.find(name).is_some()
    }

    /// The position of the sub-FSM called `name`.
    fn find(&self, name: &str) -> (r: Option<usize>)
        ensures
            match r {
                Some(k) => sub_index(self.subs(), name@, 0) == Some(k as int) && k < self.subs().len(),
                None => sub_index(self.subs(), name@, 0) is None,
            },
    {
        let ghost subs = self.subs();
        let mut k: usize = 0;
        while k < self.machines.len()
            invariant
                subs == self.subs(),
                subs.len() == self.machines@.len(),
                k <= self.machines@.len(),
                sub_index(subs, name@, 0) == sub_index(subs, name@, k as int),
            decreases self.machines@.len() - k,
        {
            let (n, _) = self.machines[k];
            proof { assert(subs[k as int].0 == n@); }
            if same_text(n, name) {
                return Some(k);
            }
            k = k + 1;
        }
        None
    }

    /// Whether `name` is being expanded.
    fn is_visiting(&self, name: &str) -> (r: bool)
        ensures
            r == self.visiting().contains(name@),
    {
        let ghost vis = self.visiting();
        let mut k: usize = 0;
        while k < self.visiting.len()
            invariant
                vis == self.visiting(),
                vis.len() == self.visiting@.len(),
                k <= self.visiting@.len(),
                forall|q: int| 0 <= q < k ==> vis[q] != name@,
            decreases self.visiting@.len() - k,
        {
            proof { assert(vis[k as int] == self.visiting@[k as int]@); }
            if same_text(self.visiting[k], name) {
                return true;
            }
            k = k + 1;
        }
        false
    }

    /// If `name` refers to a sub-FSM, hands back its elements with a resolver that marks it as
    /// being expanded; a reference to a sub-FSM already being expanded is a cycle. This
    /// resolver is left unchanged.
    pub fn enter(&self, name: &'a str) -> (r: Result<Option<SubMachineGuard<'a>>, Error>)
        ensures
            match sub_index(self.subs(), name@, 0) {
                None => r matches Ok(None),
                Some(k) => if self.visiting().contains(name@) {
                    r matches Err(e) && e@ == ErrorView::Parse(ParseErrorView::CyclicSubMachine(name@))
                } else {
                    r matches Ok(Some(g)) && g.elements_view() == self.subs()[k].1
                        && g.inner().subs() == self.subs()
                        && g.inner().visiting() == self.visiting().push(name@)
                },
            },
    {
        let k = match self.find(name) {
            None => { return Ok(None); },
            Some(k) => k,
        };
        if self.is_visiting(name) {
            return Err(Error::Parse(ParseError::CyclicSubMachine(name.to_owned())));
        }
        let (_, elements) = self.machines[k];
        let mut machines: Vec<(&'a str, &'a StateElements)> = Vec::new();
        let mut i: usize = 0;
        while i < self.machines.len()
            invariant
                i <= self.machines@.len(),
                machines@ == self.machines@.take(i as int),
            decreases self.machines@.len() - i,
        {
            machines.push(self.machines[i]);
            proof { assert(machines@ =~= self.machines@.take(i + 1)); }
            i = i + 1;
        }
        let mut visiting: Vec<&'a str> = Vec::new();
        let mut i: usize = 0;
        while i < self.visiting.len()
            invariant
                i <= self.visiting@.len(),
                visiting@ == self.visiting@.take(i as int),
            decreases self.visiting@.len() - i,
        {
            visiting.push(self.visiting[i]);
            proof { assert(visiting@ =~= self.visiting@.take(i + 1)); }
            i = i + 1;
        }
        proof {
            assert(machines@ =~= self.machines@);
            assert(visiting@ =~= self.visiting@);
        }
        let ghost before = visiting@;
        visiting.push(name);
        proof { assert(names_view(visiting@) =~= names_view(before).push(name@)); }
        Ok(Some(SubMachineGuard { elements, inner: SubMachineResolver { machines, visiting } }))
    }

    /// The number of sub-FSMs.
    pub fn sub_count(&self) -> (r: usize)
        ensures
            r == self.subs().len(),
    {
        self.machines.len()
    }

    /// The number of sub-FSMs being expanded.
    pub fn depth(&self) -> (r: usize)
        ensures
            r == self.visiting().len(),
    {
        self.visiting.len()
    }
}

} // verus!
