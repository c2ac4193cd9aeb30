//! The entries that an interface description is made of.

use vstd::prelude::*;

verus! {

/// A parameter of a constructor or a function, or a value that a function
/// returns.
#[derive(Clone, Debug, PartialEq, Eq)]
pub struct Param {
    /// The parameter's name.
    pub name: String,
    /// The parameter's type, as the description spells it.
    pub kind: String,
}

/// A parameter of an event.
#[derive(Clone, Debug, PartialEq, Eq)]
pub struct EventParam {
    /// The parameter's name.
    pub name: String,
    /// The parameter's type, as the description spells it.
    pub kind: String,
    /// Whether the parameter is logged as a topic.
    pub indexed: bool,
}

/// The entry point that sets a contract up.
#[derive(Clone, Debug, PartialEq, Eq)]
pub struct Constructor {
    /// What the constructor takes.
    pub inputs: Vec<Param>,
}

/// An entry point that is called by name.
#[derive(Clone, Debug, PartialEq, Eq)]
pub struct Function {
    /// The name under which the function is called.
    pub name: String,
    /// What the function takes.
    pub inputs: Vec<Param>,
    /// What the function returns.
    pub outputs: Vec<Param>,
    /// Whether a call leaves the contract's state as it was.
    pub constant: bool,
}

/// A record that a contract logs.
#[derive(Clone, Debug, PartialEq, Eq)]
pub struct Event {
    /// The name under which the event is logged.
    pub name: String,
    /// What the event carries.
    pub inputs: Vec<EventParam>,
    /// Whether the event is logged without its signature.
    pub anonymous: bool,
}

/// One entry of an interface description.
#[derive(Clone, Debug, PartialEq, Eq)]
pub enum Operation {
    /// The contract's constructor.
    Constructor(Constructor),
    /// One of the contract's functions.
    Function(Function),
    /// One of the contract's events.
    Event(Event),
    /// The entry point that takes the calls no function matches.
    Fallback,
}

} // verus!
