//! What holds of every interface that is put together from entries.

use vstd::prelude::*;
use crate::contract::{built, ContractView};
use crate::name_map::in_order;
use crate::name_order::{
    lemma_finite_in_order, lemma_rising_no_duplicates, names_in_order,
};
use crate::operation::{Event, Operation};

verus! {

/// `op` is a function called `name`.
pub open spec fn is_function_named(op: Operation, name: Seq<char>) -> bool {
    op matches Operation::Function(f) && f.name@ == name
}

/// `op` is an event called `name`.
pub open spec fn is_event_named(op: Operation, name: Seq<char>) -> bool {
    op matches Operation::Event(e) && e.name@ == name
}

/// The names under which `ops` give a function.
pub open spec fn function_names(ops: Seq<Operation>) -> Set<Seq<char>> {
    Set::new(
        |n: Seq<char>| exists|i: int| 0 <= i < ops.len() && is_function_named(#[trigger] ops[i], n),
    )
}

/// The events called `name` among `ops`, in the order of `ops`.
pub open spec fn events_named(ops: Seq<Operation>, name: Seq<char>) -> Seq<Event>
    decreases ops.len(),
{
    if ops.len() == 0 {
        Seq::empty()
    } else if is_event_named(ops.last(), name) {
        events_named(ops.drop_last(), name).push(ops.last()->Event_0)
    } else {
        events_named(ops.drop_last(), name)
    }
}

/// The number of events among `ops`.
pub open spec fn event_count(ops: Seq<Operation>) -> nat
    decreases ops.len(),
{
    if ops.len() == 0 {
        0
    } else if ops.last() is Event {
        event_count(ops.drop_last()) + 1
    } else {
        event_count(ops.drop_last())
    }
}

/// No entries give the interface that holds nothing: no constructor, no
/// function, no event, no fallback.
pub proof fn law_nothing_from_nothing()
    ensures
        built(Seq::empty()) == ContractView::empty(),
        built(Seq::empty()).constructor is None,
        built(Seq::empty()).functions.dom() == Set::<Seq<char>>::empty(),
        built(Seq::empty()).events.dom() == Set::<Seq<char>>::empty(),
        !built(Seq::empty()).fallback,
        built(Seq::empty()).function_list().len() == 0,
        built(Seq::empty()).event_list().len() == 0,
{
    let v = built(Seq::empty());
    assert(v.functions.dom() =~= Set::<Seq<char>>::empty());
    assert(v.events.dom() =~= Set::<Seq<char>>::empty());
    lemma_finite_in_order(Set::<Seq<char>>::empty());
    let none = names_in_order(Set::<Seq<char>>::empty());
    if none.len() > 0 {
        assert(none.contains(none[0]));
    }
    assert(in_order(v.events) =~= Seq::<Seq<Event>>::empty());
}

/// One more entry leaves a well-formed interface well formed.
pub proof fn law_merge_well_formed(v: ContractView, op: Operation)
    requires
        v.well_formed(),
    ensures
        v.merge(op).well_formed(),
{
    let w = v.merge(op);
    match op {
        Operation::Event(e) => {
            assert forall|n: Seq<char>, i: int|
                w.events.contains_key(n) && 0 <= i < w.events[n].len() implies (
            #[trigger] w.events[n][i]).name@ == n by {
                if n == e.name@ {
                    if i < v.events_named(n).len() {
                        assert(w.events[n][i] == v.events[n][i]);
                    }
                } else {
                    assert(w.events[n][i] == v.events[n][i]);
                }
            }
        },
        _ => {},
    }
}

/// Whatever the entries, the interface they give is well formed.
pub proof fn law_built_well_formed(ops: Seq<Operation>)
    ensures
        built(ops).well_formed(),
    decreases ops.len(),
{
    if ops.len() > 0 {
        law_built_well_formed(ops.drop_last());
        law_merge_well_formed(built(ops.drop_last()), ops.last());
    }
}

/// The constructor kept is the last one given; none is kept where none is
/// given.
pub proof fn law_last_constructor_wins(ops: Seq<Operation>)
    ensures
        built(ops).constructor is None <==> forall|i: int|
            0 <= i < ops.len() ==> !(#[trigger] ops[i] is Constructor),
        forall|j: int|
            0 <= j < ops.len() && #[trigger] ops[j] is Constructor && (forall|k: int|
                j < k < ops.len() ==> !(#[trigger] ops[k] is Constructor)) ==> built(
                ops,
            ).constructor == Some(ops[j]->Constructor_0),
    decreases ops.len(),
{
    if ops.len() > 0 {
        let front = ops.drop_last();
        law_last_constructor_wins(front);
        assert forall|i: int| 0 <= i < front.len() implies front[i] == ops[i] by {}
        if ops.last() is Constructor {
        } else {
            if built(ops).constructor is None {
                assert forall|i: int| 0 <= i < ops.len() implies !(#[trigger] ops[i]
                    is Constructor) by {
                    if i < front.len() {
                        assert(front[i] == ops[i]);
                    }
                }
            } else {
                let i = choose|i: int| 0 <= i < front.len() && #[trigger] front[i] is Constructor;
                assert(ops[i] is Constructor);
            }
            assert forall|j: int|
                0 <= j < ops.len() && #[trigger] ops[j] is Constructor && (forall|k: int|
                    j < k < ops.len() ==> !(#[trigger] ops[k] is Constructor)) implies built(
                ops,
            ).constructor == Some(ops[j]->Constructor_0) by {
                assert(front[j] == ops[j]);
                assert forall|k: int| j < k < front.len() implies !(#[trigger] front[k]
                    is Constructor) by {
                    assert(front[k] == ops[k]);
                }
            }
        }
    }
}

/// A function is kept under a name exactly if the entries give one under
/// it.
pub proof fn law_function_names(ops: Seq<Operation>)
    ensures
        built(ops).functions.dom() == function_names(ops),
    decreases ops.len(),
{
    let v = built(ops);
    if ops.len() == 0 {
        assert(v.functions.dom() =~= function_names(ops));
    } else {
        let front = ops.drop_last();
        law_function_names(front);
        assert forall|n: Seq<char>| v.functions.contains_key(n) <==> function_names(
            ops,
        ).contains(n) by {
            if function_names(front).contains(n) {
                let i = choose|i: int|
                    0 <= i < front.len() && is_function_named(#[trigger] front[i], n);
                assert(is_function_named(ops[i], n));
            }
            if function_names(ops).contains(n) {
                let i = choose|i: int| 0 <= i < ops.len() && is_function_named(#[trigger] ops[i], n);
                if i < front.len() {
                    assert(is_function_named(front[i], n));
                }
            }
            if is_function_named(ops.last(), n) {
                assert(is_function_named(ops[ops.len() - 1], n));
            }
        }
        assert(v.functions.dom() =~= function_names(ops));
    }
}

/// Of the functions given under one name the last is kept: the function at
/// `j` is found under its name unless a later entry gives another function
/// of that name.
pub proof fn law_last_function_wins(ops: Seq<Operation>, j: int)
    requires
        0 <= j < ops.len(),
        ops[j] is Function,
        forall|k: int|
            j < k < ops.len() ==> !is_function_named(#[trigger] ops[k], ops[j]->Function_0.name@),
    ensures
        built(ops).functions.contains_key(ops[j]->Function_0.name@),
        built(ops).functions[ops[j]->Function_0.name@] == ops[j]->Function_0,
    decreases ops.len(),
{
    if j < ops.len() - 1 {
        let front = ops.drop_last();
        assert(front[j] == ops[j]);
        assert forall|k: int| j < k < front.len() implies !is_function_named(
            #[trigger] front[k],
            front[j]->Function_0.name@,
        ) by {
            assert(front[k] == ops[k]);
        }
        law_last_function_wins(front, j);
        assert(!is_function_named(ops[ops.len() - 1], ops[j]->Function_0.name@));
    }
}

/// The walk over the functions meets each name that a function is kept
/// under once and no other name.
pub proof fn law_one_function_per_name(ops: Seq<Operation>)
    ensures
        forall|i: int, j: int|
            0 <= i < j < built(ops).function_list().len() ==> (#[trigger] built(
                ops,
            ).function_list()[i]).name@ != (#[trigger] built(ops).function_list()[j]).name@,
        forall|n: Seq<char>|
            function_names(ops).contains(n) <==> exists|i: int|
                0 <= i < built(ops).function_list().len() && (#[trigger] built(
                    ops,
                ).function_list()[i]).name@ == n,
        forall|i: int|
            0 <= i < built(ops).function_list().len() ==> built(ops).functions.contains_key(
                (#[trigger] built(ops).function_list()[i]).name@,
            ) && built(ops).functions[built(ops).function_list()[i].name@] == built(
                ops,
            ).function_list()[i],
{
    let v = built(ops);
    law_built_well_formed(ops);
    law_function_names(ops);
    lemma_finite_in_order(v.functions.dom());
    let names = names_in_order(v.functions.dom());
    let list = v.function_list();
    lemma_rising_no_duplicates(names);
    assert forall|i: int| 0 <= i < list.len() implies (#[trigger] list[i]).name@ == names[i]
        && v.functions.contains_key(names[i]) by {
        assert(names.contains(names[i]));
    }
    assert forall|n: Seq<char>| function_names(ops).contains(n) implies exists|i: int|
        0 <= i < list.len() && (#[trigger] list[i]).name@ == n by {
        assert(names.contains(n));
        let i = choose|i: int| 0 <= i < names.len() && names[i] == n;
        assert(list[i].name@ == n);
    }
}

/// As many functions are walked over as the entries give names to
/// functions.
pub proof fn law_function_count(ops: Seq<Operation>)
    ensures
        function_names(ops).finite(),
        built(ops).function_list().len() == function_names(ops).len(),
{
    let v = built(ops);
    law_built_well_formed(ops);
    law_function_names(ops);
    lemma_finite_in_order(v.functions.dom());
    let names = names_in_order(v.functions.dom());
    lemma_rising_no_duplicates(names);
    names.unique_seq_to_set();
    assert(names.to_set() =~= v.functions.dom());
}

/// Under each name are kept the events that the entries give under it, in
/// the order of the entries; a name is known exactly if there is such an
/// event.
pub proof fn law_events_in_order(ops: Seq<Operation>, name: Seq<char>)
    ensures
        built(ops).events_named(name) == events_named(ops, name),
        built(ops).events.contains_key(name) <==> events_named(ops, name).len() > 0,
        events_named(ops, name).len() > 0 <==> exists|i: int|
            0 <= i < ops.len() && is_event_named(#[trigger] ops[i], name),
    decreases ops.len(),
{
    if ops.len() > 0 {
        let front = ops.drop_last();
        law_events_in_order(front, name);
        if events_named(front, name).len() > 0 {
            let i = choose|i: int| 0 <= i < front.len() && is_event_named(#[trigger] front[i], name);
            assert(is_event_named(ops[i], name));
        }
        if is_event_named(ops.last(), name) {
            assert(is_event_named(ops[ops.len() - 1], name));
        }
        if exists|i: int| 0 <= i < ops.len() && is_event_named(#[trigger] ops[i], name) {
            let i = choose|i: int| 0 <= i < ops.len() && is_event_named(#[trigger] ops[i], name);
            if i < front.len() {
                assert(is_event_named(front[i], name));
            }
        }
    }
}

/// The events that a beginning of the entries gives under a name are the
/// beginning of those that all the entries give under it.
proof fn lemma_events_of_prefix(ops: Seq<Operation>, name: Seq<char>, i: int)
    requires
        0 <= i <= ops.len(),
    ensures
        events_named(ops.take(i), name).is_prefix_of(events_named(ops, name)),
    decreases ops.len(),
{
    if i == ops.len() {
        assert(ops.take(i) =~= ops);
    } else {
        let front = ops.drop_last();
        lemma_events_of_prefix(front, name, i);
        assert(front.take(i) =~= ops.take(i));
    }
}

/// An event is kept under its name behind the events that earlier entries
/// give under that name.
proof fn lemma_event_place(ops: Seq<Operation>, name: Seq<char>, i: int)
    requires
        0 <= i < ops.len(),
        is_event_named(ops[i], name),
    ensures
        events_named(ops.take(i), name).len() < events_named(ops, name).len(),
        events_named(ops, name)[events_named(ops.take(i), name).len() as int] == ops[i]->Event_0,
{
    let all = events_named(ops, name);
    let earlier = events_named(ops.take(i), name);
    let upto = events_named(ops.take(i + 1), name);
    assert(ops.take(i + 1).drop_last() =~= ops.take(i));
    assert(ops.take(i + 1).last() == ops[i]);
    assert(upto == earlier.push(ops[i]->Event_0));
    lemma_events_of_prefix(ops, name, i + 1);
    assert(all.subrange(0, upto.len() as int)[earlier.len() as int] == all[earlier.len() as int]);
}

/// Where the entries give two events under one name and no other, the two
/// are kept under it in the order in which they were given, and the lookup
/// of the first event finds the earlier one.
pub proof fn law_two_events(ops: Seq<Operation>, name: Seq<char>, i: int, j: int)
    requires
        0 <= i < j < ops.len(),
        is_event_named(ops[i], name),
        is_event_named(ops[j], name),
        forall|k: int|
            0 <= k < ops.len() && k != i && k != j ==> !is_event_named(#[trigger] ops[k], name),
    ensures
        built(ops).events.contains_key(name),
        built(ops).events[name] == seq![ops[i]->Event_0, ops[j]->Event_0],
        built(ops).events[name][0] == ops[i]->Event_0,
{
    law_events_in_order(ops, name);
    lemma_events_between(ops, name, 0, i);
    lemma_events_between(ops, name, i + 1, j);
    lemma_events_between(ops, name, j + 1, ops.len() as int);
    assert(ops.take(0) =~= Seq::<Operation>::empty());
    assert(ops.take(i + 1).drop_last() =~= ops.take(i));
    assert(ops.take(j + 1).drop_last() =~= ops.take(j));
    assert(ops.take(ops.len() as int) =~= ops);
    assert(events_named(ops, name) =~= seq![ops[i]->Event_0, ops[j]->Event_0]);
}

/// Entries that give no event under a name add nothing under it.
proof fn lemma_events_between(ops: Seq<Operation>, name: Seq<char>, from: int, to: int)
    requires
        0 <= from <= to <= ops.len(),
        forall|k: int| from <= k < to ==> !is_event_named(#[trigger] ops[k], name),
    ensures
        events_named(ops.take(to), name) == events_named(ops.take(from), name),
    decreases to - from,
{
    if from < to {
        lemma_events_between(ops, name, from, to - 1);
        assert(ops.take(to).drop_last() =~= ops.take(to - 1));
        assert(ops.take(to).last() == ops[to - 1]);
    }
}

/// The lookup of the first event under a name finds the earliest event that
/// the entries give under it.
pub proof fn law_first_event(ops: Seq<Operation>, name: Seq<char>, i: int)
    requires
        0 <= i < ops.len(),
        is_event_named(ops[i], name),
        forall|k: int| 0 <= k < i ==> !is_event_named(#[trigger] ops[k], name),
    ensures
        built(ops).events.contains_key(name),
        built(ops).events[name][0] == ops[i]->Event_0,
{
    law_events_in_order(ops, name);
    lemma_events_between(ops, name, 0, i);
    assert(ops.take(0) =~= Seq::<Operation>::empty());
    lemma_event_place(ops, name, i);
}

/// Two events given under one name are kept in the order in which they
/// were given.
pub proof fn law_events_keep_order(ops: Seq<Operation>, name: Seq<char>, i: int, j: int)
    requires
        0 <= i < j < ops.len(),
        is_event_named(ops[i], name),
        is_event_named(ops[j], name),
    ensures
        built(ops).events.contains_key(name),
        exists|p: int, q: int|
            0 <= p < q < built(ops).events[name].len() && built(ops).events[name][p]
                == ops[i]->Event_0 && built(ops).events[name][q] == ops[j]->Event_0,
{
    law_events_in_order(ops, name);
    let all = events_named(ops, name);
    let p = events_named(ops.take(i), name).len() as int;
    let q = events_named(ops.take(j), name).len() as int;
    lemma_event_place(ops, name, i);
    lemma_event_place(ops, name, j);
    assert(p < q) by {
        let upto = ops.take(j);
        assert(upto[i] == ops[i]);
        assert(upto.take(i) =~= ops.take(i));
        lemma_event_place(upto, name, i);
    }
    assert(0 <= p < q < all.len() && all[p] == ops[i]->Event_0 && all[q] == ops[j]->Event_0);
}

/// For each of `names`, the events that `ops` give under it.
pub open spec fn groups_named(ops: Seq<Operation>, names: Seq<Seq<char>>) -> Seq<Seq<Event>> {
    Seq::new(names.len(), |i: int| events_named(ops, names[i]))
}

/// How many events `ops` give under the names of `names`, name by name.
pub open spec fn named_total(ops: Seq<Operation>, names: Seq<Seq<char>>) -> nat
    decreases names.len(),
{
    if names.len() == 0 {
        0
    } else {
        events_named(ops, names.first()).len() + named_total(ops, names.drop_first())
    }
}

/// The groups of some names, laid end to end, are as long as the groups
/// together.
proof fn lemma_groups_total(ops: Seq<Operation>, names: Seq<Seq<char>>)
    ensures
        groups_named(ops, names).flatten().len() == named_total(ops, names),
    decreases names.len(),
{
    if names.len() > 0 {
        lemma_groups_total(ops, names.drop_first());
        assert(groups_named(ops, names).drop_first() =~= groups_named(ops, names.drop_first()));
    }
}

/// One more entry adds one to the total of names that are all different,
/// if it is an event called by one of them, and nothing otherwise.
proof fn lemma_total_step(ops: Seq<Operation>, names: Seq<Seq<char>>)
    requires
        ops.len() > 0,
        names.no_duplicates(),
    ensures
        named_total(ops, names) == named_total(ops.drop_last(), names) + (if ops.last() is Event
            && names.contains(ops.last()->Event_0.name@) {
            1nat
        } else {
            0nat
        }),
    decreases names.len(),
{
    if names.len() > 0 {
        let rest = names.drop_first();
        lemma_total_step(ops, rest);
        if ops.last() is Event {
            let n = ops.last()->Event_0.name@;
            if rest.contains(n) {
                let k = choose|k: int| 0 <= k < rest.len() && rest[k] == n;
                assert(names[k + 1] == n);
            }
            if names.contains(n) && names.first() != n {
                let k = choose|k: int| 0 <= k < names.len() && names[k] == n;
                assert(rest[k - 1] == n);
            }
            if names.first() == n {
                assert(names[0] == n);
            }
        }
    }
}

/// Names that are all different and among which every event of the entries
/// finds its own have the events of the entries for their total.
proof fn lemma_total_is_count(ops: Seq<Operation>, names: Seq<Seq<char>>)
    requires
        names.no_duplicates(),
        forall|i: int|
            0 <= i < ops.len() && #[trigger] ops[i] is Event ==> names.contains(
                ops[i]->Event_0.name@,
            ),
    ensures
        named_total(ops, names) == event_count(ops),
    decreases ops.len(),
{
    if ops.len() == 0 {
        assert(ops =~= Seq::<Operation>::empty());
        lemma_total_of_nothing(names);
    } else {
        let front = ops.drop_last();
        assert forall|i: int| 0 <= i < front.len() && #[trigger] front[i] is Event implies names.contains(
            front[i]->Event_0.name@,
        ) by {
            assert(front[i] == ops[i]);
        }
        lemma_total_is_count(front, names);
        lemma_total_step(ops, names);
        assert(ops.last() == ops[ops.len() - 1]);
    }
}

/// No entries give no events, under whatever names.
proof fn lemma_total_of_nothing(names: Seq<Seq<char>>)
    ensures
        named_total(Seq::empty(), names) == 0,
    decreases names.len(),
{
    if names.len() > 0 {
        lemma_total_of_nothing(names.drop_first());
    }
}

/// As many events are walked over as the entries give events, under
/// whatever names.
pub proof fn law_event_count(ops: Seq<Operation>)
    ensures
        built(ops).event_list().len() == event_count(ops),
{
    let v = built(ops);
    law_built_well_formed(ops);
    lemma_finite_in_order(v.events.dom());
    let names = names_in_order(v.events.dom());
    lemma_rising_no_duplicates(names);
    assert forall|i: int| 0 <= i < names.len() implies in_order(v.events)[i] == groups_named(
        ops,
        names,
    )[i] by {
        assert(names.contains(names[i]));
        law_events_in_order(ops, names[i]);
    }
    assert(in_order(v.events) =~= groups_named(ops, names));
    lemma_groups_total(ops, names);
    assert forall|i: int| 0 <= i < ops.len() && #[trigger] ops[i] is Event implies names.contains(
        ops[i]->Event_0.name@,
    ) by {
        let n = ops[i]->Event_0.name@;
        law_events_in_order(ops, n);
        assert(is_event_named(ops[i], n));
    }
    lemma_total_is_count(ops, names);
}

/// A name under which the entries give nothing is unknown, as a function
/// and as an event.
pub proof fn law_unknown_name(ops: Seq<Operation>, name: Seq<char>)
    requires
        forall|i: int| 0 <= i < ops.len() ==> !is_function_named(#[trigger] ops[i], name),
        forall|i: int| 0 <= i < ops.len() ==> !is_event_named(#[trigger] ops[i], name),
    ensures
        !built(ops).functions.contains_key(name),
        !built(ops).events.contains_key(name),
{
    law_function_names(ops);
    law_events_in_order(ops, name);
}

/// The interface has a fallback exactly if one of the entries is a
/// fallback, however many are.
pub proof fn law_fallback(ops: Seq<Operation>)
    ensures
        built(ops).fallback <==> exists|i: int| 0 <= i < ops.len() && #[trigger] ops[i] is Fallback,
    decreases ops.len(),
{
    if ops.len() > 0 {
        let front = ops.drop_last();
        law_fallback(front);
        if built(front).fallback {
            let i = choose|i: int| 0 <= i < front.len() && #[trigger] front[i] is Fallback;
            assert(ops[i] is Fallback);
        }
        if ops.last() is Fallback {
            assert(ops[ops.len() - 1] is Fallback);
        }
        if exists|i: int| 0 <= i < ops.len() && #[trigger] ops[i] is Fallback {
            let i = choose|i: int| 0 <= i < ops.len() && #[trigger] ops[i] is Fallback;
            if i < front.len() {
                assert(front[i] is Fallback);
            }
        }
    }
}

/// A second fallback changes nothing.
pub proof fn law_fallback_once(v: ContractView)
    ensures
        v.merge(Operation::Fallback).merge(Operation::Fallback) == v.merge(Operation::Fallback),
{
}

} // verus!
