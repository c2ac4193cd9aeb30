use ethabi::contract::{Contract, Events, Functions};
use ethabi::operation::{Constructor, Event, EventParam, Function, Operation, Param};

fn param(name: &str, kind: &str) -> Param {
    Param { name: name.to_string(), kind: kind.to_string() }
}

fn function(name: &str, inputs: Vec<Param>) -> Function {
    Function { name: name.to_string(), inputs, outputs: vec![param("", "bool")], constant: false }
}

fn event(name: &str, topic: &str) -> Event {
    Event {
        name: name.to_string(),
        inputs: vec![EventParam { name: topic.to_string(), kind: "address".to_string(), indexed: true }],
        anonymous: false,
    }
}

fn constructor(inputs: Vec<Param>) -> Constructor {
    Constructor { inputs }
}

fn drain_functions(mut walk: Functions<'_>) -> Vec<Function> {
    let mut out = Vec::new();
    while let Some(f) = walk.next() {
        out.push(f.clone());
    }
    assert!(walk.next().is_none());
    out
}

fn drain_events(mut walk: Events<'_>) -> Vec<Event> {
    let mut out = Vec::new();
    while let Some(e) = walk.next() {
        out.push(e.clone());
    }
    assert!(walk.next().is_none());
    out
}

#[test]
fn empty_input_gives_empty_contract() {
    let c = Contract::from_operations(Vec::new());
    assert_eq!(c.constructor(), None);
    assert!(!c.fallback());
    assert!(drain_functions(c.functions()).is_empty());
    assert!(drain_events(c.events()).is_empty());
    assert_eq!(c, Contract::new());
}

#[test]
fn new_contract_knows_no_name() {
    let c = Contract::new();
    assert_eq!(c.function("transfer"), Err("Invalid name"));
    assert_eq!(c.event("Transfer"), Err("Invalid name"));
    assert_eq!(c.events_by_name("Transfer"), Err("Invalid name"));
    assert_eq!(c.function(""), Err("Invalid name"));
}

#[test]
fn later_function_of_same_name_wins() {
    let first = function("transfer", vec![param("to", "address")]);
    let second = function("transfer", vec![param("to", "address"), param("value", "uint256")]);
    let c = Contract::from_operations(vec![
        Operation::Function(first.clone()),
        Operation::Function(function("approve", vec![])),
        Operation::Function(second.clone()),
    ]);
    assert_eq!(c.function("transfer"), Ok(&second));
    assert_ne!(c.function("transfer"), Ok(&first));
    let all = drain_functions(c.functions());
    assert_eq!(all.iter().filter(|f| f.name == "transfer").count(), 1);
    assert_eq!(all.len(), 2);
}

#[test]
fn events_of_same_name_keep_their_order() {
    let first = event("Transfer", "from");
    let second = event("Transfer", "to");
    let c = Contract::from_operations(vec![
        Operation::Event(first.clone()),
        Operation::Event(event("Approval", "owner")),
        Operation::Event(second.clone()),
    ]);
    assert_eq!(c.events_by_name("Transfer"), Ok(&vec![first.clone(), second.clone()]));
    assert_eq!(c.event("Transfer"), Ok(&first));
    assert_eq!(c.event("Approval"), Ok(&event("Approval", "owner")));
    assert_eq!(c.events_by_name("Approval").map(|g| g.len()), Ok(1));
}

#[test]
fn unknown_names_are_invalid() {
    let c = Contract::from_operations(vec![
        Operation::Function(function("foo", vec![])),
        Operation::Event(event("Bar", "a")),
    ]);
    assert_eq!(c.function("doesNotExist"), Err("Invalid name"));
    assert_eq!(c.event("doesNotExist"), Err("Invalid name"));
    assert_eq!(c.events_by_name("doesNotExist"), Err("Invalid name"));
}

#[test]
fn functions_and_events_do_not_share_names() {
    let c = Contract::from_operations(vec![
        Operation::Function(function("foo", vec![])),
        Operation::Event(event("Bar", "a")),
    ]);
    assert_eq!(c.function("Bar"), Err("Invalid name"));
    assert_eq!(c.event("foo"), Err("Invalid name"));
    assert_eq!(c.events_by_name("foo"), Err("Invalid name"));
    assert!(c.function("foo").is_ok());
    assert!(c.event("Bar").is_ok());
}

#[test]
fn names_are_matched_exactly() {
    let c = Contract::from_operations(vec![Operation::Function(function("transfer", vec![]))]);
    assert!(c.function("transfer").is_ok());
    assert_eq!(c.function("transfe"), Err("Invalid name"));
    assert_eq!(c.function("transferr"), Err("Invalid name"));
    assert_eq!(c.function("Transfer"), Err("Invalid name"));
    assert_eq!(c.function(""), Err("Invalid name"));
}

#[test]
fn fallback_is_noted_once() {
    let none = Contract::from_operations(vec![Operation::Function(function("foo", vec![]))]);
    assert!(!none.fallback());
    let one = Contract::from_operations(vec![
        Operation::Function(function("foo", vec![])),
        Operation::Fallback,
    ]);
    assert!(one.fallback());
    let two = Contract::from_operations(vec![
        Operation::Fallback,
        Operation::Function(function("foo", vec![])),
        Operation::Fallback,
    ]);
    assert!(two.fallback());
    assert_eq!(one, two);
}

#[test]
fn second_fallback_changes_nothing() {
    let mut c = Contract::new();
    c.merge(Operation::Fallback);
    let mut d = Contract::new();
    d.merge(Operation::Fallback);
    d.merge(Operation::Fallback);
    assert_eq!(c, d);
    assert!(d.fallback());
}

#[test]
fn counts_follow_names_and_entries() {
    let c = Contract::from_operations(vec![
        Operation::Function(function("a", vec![])),
        Operation::Event(event("E", "1")),
        Operation::Function(function("b", vec![])),
        Operation::Event(event("E", "2")),
        Operation::Function(function("a", vec![param("x", "uint8")])),
        Operation::Event(event("D", "3")),
        Operation::Event(event("E", "4")),
        Operation::Constructor(constructor(vec![])),
        Operation::Fallback,
    ]);
    assert_eq!(drain_functions(c.functions()).len(), 2);
    assert_eq!(drain_events(c.events()).len(), 4);
}

#[test]
fn scenario_of_six_entries() {
    let c1 = constructor(vec![param("owner", "address")]);
    let f1 = function("foo", vec![]);
    let f2 = function("foo", vec![param("x", "uint256")]);
    let e1 = event("Bar", "first");
    let e2 = event("Bar", "second");
    let c = Contract::from_operations(vec![
        Operation::Constructor(c1.clone()),
        Operation::Function(f1),
        Operation::Event(e1.clone()),
        Operation::Function(f2.clone()),
        Operation::Event(e2.clone()),
        Operation::Fallback,
    ]);
    assert_eq!(c.constructor(), Some(&c1));
    assert_eq!(c.function("foo"), Ok(&f2));
    assert_eq!(drain_functions(c.functions()), vec![f2]);
    assert_eq!(c.events_by_name("Bar"), Ok(&vec![e1.clone(), e2.clone()]));
    assert_eq!(c.event("Bar"), Ok(&e1));
    assert_eq!(drain_events(c.events()), vec![e1, e2]);
    assert!(c.fallback());
}

#[test]
fn last_constructor_wins() {
    let c1 = constructor(vec![param("a", "uint8")]);
    let c2 = constructor(vec![param("b", "bool"), param("c", "bytes")]);
    let c = Contract::from_operations(vec![
        Operation::Constructor(c1),
        Operation::Fallback,
        Operation::Constructor(c2.clone()),
    ]);
    assert_eq!(c.constructor(), Some(&c2));
    let none = Contract::from_operations(vec![Operation::Fallback]);
    assert_eq!(none.constructor(), None);
}

#[test]
fn functions_are_walked_by_name() {
    let c = Contract::from_operations(vec![
        Operation::Function(function("transfer", vec![])),
        Operation::Function(function("approve", vec![])),
        Operation::Function(function("balanceOf", vec![])),
        Operation::Function(function("Zero", vec![])),
        Operation::Function(function("allowance", vec![])),
    ]);
    let names: Vec<String> = drain_functions(c.functions()).into_iter().map(|f| f.name).collect();
    assert_eq!(names, vec!["Zero", "allowance", "approve", "balanceOf", "transfer"]);
}

#[test]
fn events_are_walked_by_name_then_by_arrival() {
    let c = Contract::from_operations(vec![
        Operation::Event(event("Transfer", "t1")),
        Operation::Event(event("Approval", "a1")),
        Operation::Event(event("Transfer", "t2")),
        Operation::Event(event("Burn", "b1")),
        Operation::Event(event("Approval", "a2")),
        Operation::Event(event("Transfer", "t3")),
    ]);
    let topics: Vec<String> =
        drain_events(c.events()).into_iter().map(|e| e.inputs[0].name.clone()).collect();
    assert_eq!(topics, vec!["a1", "a2", "b1", "t1", "t2", "t3"]);
}

#[test]
fn walks_start_over_with_each_call() {
    let c = Contract::from_operations(vec![
        Operation::Function(function("a", vec![])),
        Operation::Event(event("E", "1")),
    ]);
    let mut first = c.functions();
    assert_eq!(first.next().map(|f| f.name.as_str()), Some("a"));
    assert!(first.next().is_none());
    assert!(first.next().is_none());
    let mut again = c.functions();
    assert_eq!(again.next().map(|f| f.name.as_str()), Some("a"));
    let mut events = c.events();
    assert_eq!(events.next().map(|e| e.name.as_str()), Some("E"));
    assert!(events.next().is_none());
    assert!(events.next().is_none());
    assert_eq!(drain_events(c.events()).len(), 1);
}

#[test]
fn merging_one_by_one_is_building_at_once() {
    let ops = vec![
        Operation::Function(function("b", vec![])),
        Operation::Event(event("E", "1")),
        Operation::Constructor(constructor(vec![])),
        Operation::Function(function("a", vec![])),
        Operation::Event(event("E", "2")),
        Operation::Fallback,
        Operation::Function(function("b", vec![param("x", "uint8")])),
    ];
    let mut stepwise = Contract::new();
    for op in ops.clone() {
        stepwise.merge(op);
    }
    assert_eq!(stepwise, Contract::from_operations(ops));
}

#[test]
fn merge_changes_only_what_the_entry_names() {
    let mut c = Contract::from_operations(vec![
        Operation::Function(function("foo", vec![])),
        Operation::Event(event("Bar", "1")),
    ]);
    c.merge(Operation::Event(event("Baz", "2")));
    assert_eq!(c.function("foo"), Ok(&function("foo", vec![])));
    assert_eq!(c.events_by_name("Bar"), Ok(&vec![event("Bar", "1")]));
    assert_eq!(c.events_by_name("Baz"), Ok(&vec![event("Baz", "2")]));
    assert_eq!(c.constructor(), None);
    assert!(!c.fallback());
    c.merge(Operation::Function(function("foo", vec![param("x", "bool")])));
    assert_eq!(c.function("foo"), Ok(&function("foo", vec![param("x", "bool")])));
    assert_eq!(c.events_by_name("Bar"), Ok(&vec![event("Bar", "1")]));
}

#[test]
fn empty_name_is_a_name_like_any_other() {
    let c = Contract::from_operations(vec![
        Operation::Function(function("", vec![])),
        Operation::Function(function("a", vec![])),
        Operation::Event(event("", "anon")),
    ]);
    assert_eq!(c.function(""), Ok(&function("", vec![])));
    assert_eq!(c.event(""), Ok(&event("", "anon")));
    let names: Vec<String> = drain_functions(c.functions()).into_iter().map(|f| f.name).collect();
    assert_eq!(names, vec!["", "a"]);
}

#[test]
fn many_functions_are_all_found() {
    let mut ops = Vec::new();
    for i in 0..200u32 {
        let n = (i * 7919) % 200;
        ops.push(Operation::Function(function(&format!("f{}", n), vec![param("i", &format!("{}", i))])));
    }
    let c = Contract::from_operations(ops);
    for i in 0..200u32 {
        let n = (i * 7919) % 200;
        let found = c.function(&format!("f{}", n)).unwrap();
        assert_eq!(found.inputs[0].kind, format!("{}", i));
    }
    let names: Vec<String> = drain_functions(c.functions()).into_iter().map(|f| f.name).collect();
    assert_eq!(names.len(), 200);
    let mut sorted = names.clone();
    sorted.sort();
    assert_eq!(names, sorted);
}
