//! A contract's interface, put together from its entries in the order in
//! which they are given and looked up by name.

use vstd::prelude::*;
use crate::name_map::{in_order, NameMap};
use crate::name_order::lemma_finite_in_order;
use crate::operation::{Constructor, Event, Function, Operation};

verus! {

/// What a contract's interface holds.
pub struct ContractView {
    /// The constructor, if one was given.
    pub constructor: Option<Constructor>,
    /// The function kept under each name.
    pub functions: Map<Seq<char>, Function>,
    /// The events kept under each name, in the order in which they were
    /// given.
    pub events: Map<Seq<char>, Seq<Event>>,
    /// Whether a fallback was given.
    pub fallback: bool,
}

impl ContractView {
    /// The interface that holds nothing.
    pub open spec fn empty() -> ContractView {
        ContractView {
            constructor: None,
            functions: Map::empty(),
            events: Map::empty(),
            fallback: false,
        }
    }

    /// The events kept under `name`; none where the name is not known.
    pub open spec fn events_named(self, name: Seq<char>) -> Seq<Event> {
        if self.events.contains_key(name) {
            self.events[name]
        } else {
            Seq::empty()
        }
    }

    /// The interface after one more entry: a constructor or a function takes
    /// the place of an earlier one (of that name), an event goes behind the
    /// earlier ones of its name, a fallback is noted.
    pub open spec fn merge(self, op: Operation) -> ContractView {
        match op {
            Operation::Constructor(c) => ContractView { constructor: Some(c), ..self },
            Operation::Function(f) => ContractView {
                functions: self.functions.insert(f.name@, f),
                ..self
            },
            Operation::Event(e) => ContractView {
                events: self.events.insert(e.name@, self.events_named(e.name@).push(e)),
                ..self
            },
            Operation::Fallback => ContractView { fallback: true, ..self },
        }
    }

    /// Finitely many names are known, every function and event is kept under
    /// its own name, and every known event name has an event.
    pub open spec fn well_formed(self) -> bool {
        &&& self.functions.dom().finite()
        &&& self.events.dom().finite()
        &&& forall|n: Seq<char>| #[trigger]
            self.functions.contains_key(n) ==> self.functions[n].name@ == n
        &&& forall|n: Seq<char>| #[trigger]
            self.events.contains_key(n) ==> self.events[n].len() > 0
        &&& forall|n: Seq<char>, i: int|
            self.events.contains_key(n) && 0 <= i < self.events[n].len() ==> (
            #[trigger] self.events[n][i]).name@ == n
    }

    /// The functions in rising order of their names.
    pub open spec fn function_list(self) -> Seq<Function> {
        in_order(self.functions)
    }

    /// The events in rising order of their names, those of one name in the
    /// order in which they were given.
    pub open spec fn event_list(self) -> Seq<Event> {
        in_order(self.events).flatten()
    }
}

/// The interface that the entries `ops` describe, taken in their order.
pub open spec fn built(ops: Seq<Operation>) -> ContractView
    decreases ops.len(),
{
    if ops.len() == 0 {
        ContractView::empty()
    } else {
        built(ops.drop_last()).merge(ops.last())
    }
}

/// What a lookup answers for a name that is not known.
pub open spec fn invalid_name() -> Seq<char> {
    "Invalid name"@
}

/// Each group of `groups` as the sequence that it holds.
spec fn group_views(groups: Seq<Vec<Event>>) -> Seq<Seq<Event>> {
    groups.map_values(|g: Vec<Event>| g@)
}

/// A contract's interface: at most one constructor, one function under each
/// name, the events under each name in the order in which they were given,
/// and whether there is a fallback. Its view is always well formed.
#[derive(Debug, PartialEq)]
pub struct Contract {
    constructor: Option<Constructor>,
    functions: NameMap<Function>,
    events: NameMap<Vec<Event>>,
    fallback: bool,
}

impl View for Contract {
    type V = ContractView;

    closed spec fn view(&self) -> ContractView {
        ContractView {
            constructor: self.constructor,
            functions: self.functions@,
            events: self.events@.map_values(|g: Vec<Event>| g@),
            fallback: self.fallback,
        }
    }
}

impl Contract {
    #[verifier::type_invariant]
    closed spec fn inv(&self) -> bool {
        self@.well_formed()
    }

    /// The interface that holds nothing.
    pub fn new() -> (c: Contract)
        ensures
            c@ == ContractView::empty(),
            c@.well_formed(),
    {
        let functions: NameMap<Function> = NameMap::new();
        let events: NameMap<Vec<Event>> = NameMap::new();
        proof {
            let grouped = events@.map_values(|g: Vec<Event>| g@);
            assert(grouped =~= Map::empty());
        }
        Contract { constructor: None, functions, events, fallback: false }
    }

    /// Takes one more entry in.
    pub fn merge(&mut self, op: Operation)
        ensures
            final(self)@ == old(self)@.merge(op),
            final(self)@.well_formed(),
    {
        proof {
            use_type_invariant(&*self);
        }
        let mut taken = Contract::new();
        core::mem::swap(self, &mut taken);
        let Contract { mut constructor, mut functions, mut events, mut fallback } = taken;
        match op {
            Operation::Constructor(c) => {
                constructor = Some(c);
            },
            Operation::Function(f) => {
                let name = f.name.clone();
                functions.insert(name, f);
            },
            Operation::Event(e) => {
                let name = e.name.clone();
                events.append(name, e);
            },
            Operation::Fallback => {
                fallback = true;
            },
        }
        proof {
            let grouped = events@.map_values(|g: Vec<Event>| g@);
            assert(grouped =~= old(self)@.merge(op).events);
        }
        *self = Contract { constructor, functions, events, fallback };
        proof {
            use_type_invariant(&*self);
        }
    }

    /// Puts an interface together from its entries, taken in their order.
    pub fn from_operations(ops: Vec<Operation>) -> (c: Contract)
        ensures
            c@ == built(ops@),
            c@.well_formed(),
    {
        let mut c = Contract::new();
        let ghost all = ops@;
        for op in it: ops
            invariant
                it.seq() == all,
                c@.well_formed(),
                c@ == built(all.take(it.index() as int)),
        {
            proof {
                let seen = all.take(it.index() + 1);
                assert(seen.drop_last() =~= all.take(it.index() as int));
                assert(seen.last() == op);
            }
            c.merge(op);
        }
        proof {
            assert(all.take(all.len() as int) =~= all);
        }
        c
    }

    /// The constructor, if the interface has one.
    pub fn constructor(&self) -> (r: Option<&Constructor>)
        ensures
            match r {
                Some(c) => self@.constructor == Some(*c),
                None => self@.constructor is None,
            },
    {
        self.constructor.as_ref()
    }

    /// The function kept under `name`.
    pub fn function(&self, name: &str) -> (r: Result<&Function, &'static str>)
        ensures
            match r {
                Ok(f) => self@.functions.contains_key(name@) && *f == self@.functions[name@]
                    && f.name@ == name@,
                Err(e) => !self@.functions.contains_key(name@) && e@ == invalid_name(),
            },
    {
        proof {
            use_type_invariant(self);
        }
        match self.functions.get(name) {
            Some(f) => Ok(f),
            None => Err("Invalid name"),
        }
    }

    /// The first of the events kept under `name`.
    pub fn event(&self, name: &str) -> (r: Result<&Event, &'static str>)
        ensures
            match r {
                Ok(e) => self@.events.contains_key(name@) && *e == self@.events[name@][0]
                    && e.name@ == name@,
                Err(e) => !self@.events.contains_key(name@) && e@ == invalid_name(),
            },
    {
        proof {
            use_type_invariant(self);
        }
        match self.events.get(name) {
            Some(group) => {
                assert(self@.events.contains_key(name@));
                assert(self@.events[name@] == group@);
                Ok(&group[0])
            },
            None => Err("Invalid name"),
        }
    }

    /// All the events kept under `name`, in the order in which they were
    /// given.
    pub fn events_by_name(&self, name: &str) -> (r: Result<&Vec<Event>, &'static str>)
        ensures
            match r {
                Ok(group) => self@.events.contains_key(name@) && group@ == self@.events[name@]
                    && group@.len() > 0,
                Err(e) => !self@.events.contains_key(name@) && e@ == invalid_name(),
            },
    {
        proof {
            use_type_invariant(self);
        }
        match self.events.get(name) {
            Some(group) => {
                assert(self@.events.contains_key(name@));
                assert(self@.events[name@] == group@);
                Ok(group)
            },
            None => Err("Invalid name"),
        }
    }

    /// Whether the interface has a fallback.
    pub fn fallback(&self) -> (r: bool)
        ensures
            r == self@.fallback,
    {
        self.fallback
    }

    /// A walk over all the functions, in rising order of their names.
    pub fn functions(&self) -> (r: Functions<'_>)
        ensures
            r@ == self@.function_list(),
    {
        let items = self.functions.values();
        assert(items@.skip(0) =~= items@);
        Functions { items, at: 0 }
    }

    /// A walk over all the events, in rising order of their names and under
    /// one name in the order in which they were given.
    pub fn events(&self) -> (r: Events<'_>)
        ensures
            r@ == self@.event_list(),
    {
        let groups = self.events.values();
        proof {
            use_type_invariant(self);
            assert(self@.events.dom() =~= self.events@.dom());
            lemma_finite_in_order(self@.events.dom());
            assert(group_views(groups@) =~= in_order(self@.events));
            let gs = group_views(groups@);
            if gs.len() > 0 {
                assert(gs[0].skip(0) =~= gs[0]);
                assert(gs.skip(1) =~= gs.drop_first());
            }
        }
        Events { groups, group: 0, at: 0 }
    }
}

/// A walk over the functions of a contract. Its view is what is still to
/// come.
pub struct Functions<'a> {
    items: &'a Vec<Function>,
    at: usize,
}

impl<'a> View for Functions<'a> {
    type V = Seq<Function>;

    closed spec fn view(&self) -> Seq<Function> {
        self.items@.skip(self.at as int)
    }
}

impl<'a> Functions<'a> {
    #[verifier::type_invariant]
    closed spec fn inv(&self) -> bool {
        self.at <= self.items@.len()
    }

    /// The next function, if one is left.
    pub fn next(&mut self) -> (r: Option<&'a Function>)
        ensures
            old(self)@.len() > 0 ==> r == Some(&old(self)@[0]) && final(self)@ == old(
                self,
            )@.drop_first(),
            old(self)@.len() == 0 ==> r is None && final(self)@ == old(self)@,
    {
        proof {
            use_type_invariant(&*self);
        }
        if self.at < self.items.len() {
            let f = &self.items[self.at];
            self.at = self.at + 1;
            assert(self@ =~= old(self)@.drop_first());
            Some(f)
        } else {
            None
        }
    }
}

/// A walk over the events of a contract. Its view is what is still to come.
pub struct Events<'a> {
    groups: &'a Vec<Vec<Event>>,
    group: usize,
    at: usize,
}

impl<'a> View for Events<'a> {
    type V = Seq<Event>;

    closed spec fn view(&self) -> Seq<Event> {
        let gs = group_views(self.groups@);
        if self.group < gs.len() {
            gs[self.group as int].skip(self.at as int) + gs.skip(self.group + 1).flatten()
        } else {
            Seq::empty()
        }
    }
}

impl<'a> Events<'a> {
    #[verifier::type_invariant]
    closed spec fn inv(&self) -> bool {
        &&& self.group <= self.groups@.len()
        &&& self.group < self.groups@.len() ==> self.at <= self.groups@[self.group as int]@.len()
    }

    /// The next event, if one is left.
    pub fn next(&mut self) -> (r: Option<&'a Event>)
        ensures
            old(self)@.len() > 0 ==> r == Some(&old(self)@[0]) && final(self)@ == old(
                self,
            )@.drop_first(),
            old(self)@.len() == 0 ==> r is None && final(self)@ == old(self)@,
    {
        proof {
            use_type_invariant(&*self);
        }
        let ghost gs = group_views(self.groups@);
        while self.group < self.groups.len()
            invariant
                self.groups == old(self).groups,
                gs == group_views(self.groups@),
                self.group <= self.groups@.len(),
                self.group < self.groups@.len() ==> self.at <= self.groups@[self.group as int]@.len(),
                self@ == old(self)@,
            decreases self.groups@.len() - self.group,
        {
            let group = &self.groups[self.group];
            if self.at < group.len() {
                let e = &group[self.at];
                self.at = self.at + 1;
                assert(self@ =~= old(self)@.drop_first());
                return Some(e);
            }
            proof {
                let rest = gs.skip(self.group + 1);
                assert(gs[self.group as int].skip(self.at as int) =~= Seq::<Event>::empty());
                if self.group + 1 < gs.len() {
                    assert(rest.first() == gs[self.group + 1]);
                    assert(rest.drop_first() =~= gs.skip(self.group + 2));
                    assert(gs[self.group + 1].skip(0) =~= gs[self.group + 1]);
                }
            }
            self.at = 0;
            self.group = self.group + 1;
            assert(self@ =~= old(self)@);
        }
        None
    }
}

} // verus!
