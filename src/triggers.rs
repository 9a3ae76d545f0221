use crate::compiled::{
    leaves, lemma_subs_len, lemma_updates_concat, stepped, subs, subscribed, unsubscribed, wf, CompiledTriggerCondition,
    TriggerConditionUpdate,
};
use crate::conditions::{compilable, compiled_from, condition_leaves, condition_required, TriggerCondition};
use crate::index::{index_contents, index_insert, index_new, index_remove, index_values};
use btreemultimap_value_ord::BTreeMultiMap;
use std::cmp::Ordering;
use std::collections::VecDeque;
use vstd::multiset::Multiset;
use vstd::prelude::*;
use vstd::seq_lib::lemma_multiset_commutative;

verus! {

/// A trigger action.
pub trait TriggerAction: std::fmt::Debug {

}

/// A trigger event.
///
/// Events are dispatched by their identifier, a compact `u64` that ignores the data used to
/// compare events but keeps the data that decides whether two events can be compared at all:
/// `partial_cmp` between two events returns `Some` exactly when their identifiers are equal.
pub trait TriggerEvent: Sized + PartialOrd {
    /// The action type used by the trigger event.
    type Action: TriggerAction;

    /// The identifier of this event, as a function of the event.
    spec fn spec_identifier(&self) -> u64;

    /// The event that the given action becomes when it re-enters the system.
    spec fn spec_from_action(action: &Self::Action) -> Self;

    /// The ordering of this event against `other`, as a function of the two events; `None` when
    /// they cannot be compared.
    spec fn spec_partial_cmp(&self, other: &Self) -> Option<Ordering>;

    /// How close the ordering of this event and `other` is to `target_ordering`, as a function
    /// of the two events and the target.
    spec fn spec_cmp_progress(&self, other: &Self, target_ordering: Ordering) -> Option<u64>;

    /// Returns the identifier of this trigger event.
    fn identifier(&self) -> (r: u64)
        ensures
            r == self.spec_identifier(),
    ;

    /// Returns the ordering of this event against `other`, as `PartialOrd` does; the engine
    /// compares events through this method.
    fn partial_cmp_event(&self, other: &Self) -> (r: Option<Ordering>)
        ensures
            r == self.spec_partial_cmp(other),
    ;

    /// Returns how close the ordering of this event and `other` is to `target_ordering`, on
    /// the scale of [`crate::PROGRESS_UNIT`]: `0` is far, `PROGRESS_UNIT` means that the
    /// target ordering holds. If the events are not ordered, `None` is returned.
    fn partial_cmp_progress(&self, other: &Self, target_ordering: Ordering) -> (r: Option<u64>)
        ensures
            r == self.spec_cmp_progress(other, target_ordering),
    ;

    /// The event that re-enters the system when an action is emitted.
    fn from_action(action: &Self::Action) -> (r: Self)
        ensures
            r == Self::spec_from_action(action),
    ;
}

/// A raw collection of triggers.
#[derive(Debug, Clone)]
pub struct Triggers<Event, Action> {
    /// The triggers, in order.
    pub triggers: Vec<Trigger<Event, Action>>,
}

/// A raw trigger.
#[derive(Debug, Clone)]
pub struct Trigger<Event, Action> {
    /// A unique identifier of the trigger.
    pub id_str: String,
    /// The condition for the trigger to trigger.
    pub condition: TriggerCondition<Event>,
    /// The actions the trigger executes when triggered.
    pub actions: Vec<Action>,
}

/// A compiled trigger.
#[derive(Debug)]
pub struct CompiledTrigger<Event: TriggerEvent> {
    /// A unique identifier of the trigger.
    pub id_str: String,
    /// The running condition.
    pub condition: CompiledTriggerCondition<Event>,
    /// The actions, until the trigger fires and hands them out.
    pub actions: Option<Vec<Event::Action>>,
}

/// A handle of a trigger: its index among the compiled triggers.
///
/// This allows to identify a trigger without worrying about lifetimes.
#[derive(Debug, Clone, Copy, PartialEq, Eq, PartialOrd, Ord, Hash, Default)]
pub struct TriggerHandle(pub usize);

/// The triggers and the index from event identifiers to the triggers that subscribe to them.
#[derive(Debug)]
pub struct TriggerSystem<Event: TriggerEvent> {
    /// The triggers, in order; a trigger's index is its handle.
    pub triggers: Vec<CompiledTrigger<Event>>,
    /// For each identifier, the indices of the triggers subscribed to it, with multiplicity.
    pub subscriptions: BTreeMultiMap<u64, usize>,
}

/// A compiled collection of triggers.
///
/// This is the central type for using the event trigger action system. Execute events via
/// [`Self::execute_event`], [`Self::execute_events`] and [`Self::execute_owned_events`], and
/// collect actions via [`Self::consume_action`] and [`Self::consume_all_actions`].
#[derive(Debug)]
pub struct CompiledTriggers<Event: TriggerEvent> {
    /// The triggers and their subscriptions.
    pub trigger_system: TriggerSystem<Event>,
    /// The actions waiting to be consumed, oldest first.
    pub action_queue: VecDeque<Event::Action>,
}

/// The bound on the leaves of one trigger's condition under which its subscription counts
/// cannot overflow.
pub open spec fn leaves_fit(n: nat) -> bool {
    2 * n < usize::MAX
}

/// The actions a trigger still holds.
pub open spec fn held_actions<Event: TriggerEvent>(t: CompiledTrigger<Event>) -> Seq<Event::Action> {
    match t.actions {
        Some(a) => a@,
        None => Seq::empty(),
    }
}

/// The number of actions the given triggers still hold.
pub open spec fn pending<Event: TriggerEvent>(s: Seq<CompiledTrigger<Event>>) -> nat
    decreases s.len(),
{
    if s.len() == 0 {
        0
    } else {
        pending(s.drop_last()) + held_actions(s.last()).len()
    }
}

/// A well-formed trigger: its condition is well formed, it holds its actions exactly until
/// its condition is fulfilled, and its condition is small enough for the subscription counts.
pub open spec fn trigger_wf<Event: TriggerEvent>(t: CompiledTrigger<Event>) -> bool {
    &&& wf(t.condition)
    &&& (t.actions is Some <==> !t.condition.completed)
    &&& leaves_fit(leaves(t.condition))
}

/// How a trigger may change while the system runs: its requirement and leaves stay, its
/// progress does not decrease, and once fulfilled it changes no more, so its actions are
/// handed out at most once.
pub open spec fn progressed<Event: TriggerEvent>(a: CompiledTrigger<Event>, b: CompiledTrigger<Event>) -> bool {
    &&& b.id_str == a.id_str
    &&& b.condition.required_progress == a.condition.required_progress
    &&& a.condition.current_progress <= b.condition.current_progress
    &&& leaves(b.condition) == leaves(a.condition)
    &&& (a.condition.completed ==> b == a)
    &&& keeps_actions(a, b)
}

/// A trigger hands out its actions at most once and keeps them unchanged until it does.
pub open spec fn keeps_actions<Event: TriggerEvent>(a: CompiledTrigger<Event>, b: CompiledTrigger<Event>) -> bool {
    &&& (a.actions is None ==> b.actions is None)
    &&& (b.actions is Some ==> b.actions == a.actions)
}

/// The actions that a trigger hands out between two of its states.
pub open spec fn handed_out_by<Event: TriggerEvent>(a: CompiledTrigger<Event>, b: CompiledTrigger<Event>) -> Multiset<
    Event::Action,
> {
    if a.actions is Some && b.actions is None {
        held_actions(a).to_multiset()
    } else {
        Multiset::empty()
    }
}

/// The actions that the triggers hand out between two states of the system, with multiplicity.
pub open spec fn handed_out<Event: TriggerEvent>(
    before: Seq<CompiledTrigger<Event>>,
    after: Seq<CompiledTrigger<Event>>,
) -> Multiset<Event::Action>
    decreases before.len(),
{
    if before.len() == 0 || after.len() != before.len() {
        Multiset::empty()
    } else {
        handed_out(before.drop_last(), after.drop_last()).add(handed_out_by(before.last(), after.last()))
    }
}

/// Changing one trigger of the later state, which has handed out nothing yet, adds what it
/// hands out.
pub proof fn lemma_handed_out_update<Event: TriggerEvent>(
    before: Seq<CompiledTrigger<Event>>,
    after: Seq<CompiledTrigger<Event>>,
    t: int,
    x: CompiledTrigger<Event>,
)
    requires
        after.len() == before.len(),
        0 <= t < before.len(),
        after[t] == before[t],
    ensures
        handed_out(before, after.update(t, x)) =~= handed_out(before, after).add(handed_out_by(before[t], x)),
    decreases before.len(),
{
    broadcast use vstd::multiset::group_multiset_axioms;

    let u = after.update(t, x);
    if t < before.len() - 1 {
        lemma_handed_out_update(before.drop_last(), after.drop_last(), t, x);
        assert(u.drop_last() =~= after.drop_last().update(t, x));
    } else {
        assert(u.drop_last() =~= after.drop_last());
        assert(handed_out_by(before[t], after[t]) =~= Multiset::empty());
    }
}

/// What the triggers hand out from one state to a third is what they hand out to a second
/// state and from there to the third.
pub proof fn lemma_handed_out_trans<Event: TriggerEvent>(
    a: Seq<CompiledTrigger<Event>>,
    b: Seq<CompiledTrigger<Event>>,
    c: Seq<CompiledTrigger<Event>>,
)
    requires
        a.len() == b.len(),
        b.len() == c.len(),
        forall|t: int| 0 <= t < a.len() ==> keeps_actions(a[t], #[trigger] b[t]) && keeps_actions(b[t], c[t]),
    ensures
        handed_out(a, c) =~= handed_out(a, b).add(handed_out(b, c)),
    decreases a.len(),
{
    broadcast use vstd::multiset::group_multiset_axioms;

    if a.len() > 0 {
        let n = a.len() - 1;
        assert forall|t: int| 0 <= t < n implies keeps_actions(a.drop_last()[t], #[trigger] b.drop_last()[t])
            && keeps_actions(b.drop_last()[t], c.drop_last()[t]) by {
            assert(keeps_actions(a[t], b[t]) && keeps_actions(b[t], c[t]));
        }
        lemma_handed_out_trans(a.drop_last(), b.drop_last(), c.drop_last());
        assert(keeps_actions(a[n], b[n]) && keeps_actions(b[n], c[n]));
        if a[n].actions is Some && b[n].actions is Some {
            assert(held_actions(b[n]) == held_actions(a[n]));
        }
    }
}

/// A state hands out nothing to itself.
pub proof fn lemma_handed_out_none<Event: TriggerEvent>(a: Seq<CompiledTrigger<Event>>)
    ensures
        handed_out(a, a) =~= Multiset::empty(),
    decreases a.len(),
{
    broadcast use vstd::multiset::group_multiset_axioms;

    if a.len() > 0 {
        lemma_handed_out_none(a.drop_last());
    }
}

/// A node takes a step on an event carrying `identifier`, emitting some list of updates.
pub open spec fn steps_on<Event: TriggerEvent>(
    a: CompiledTriggerCondition<Event>,
    b: CompiledTriggerCondition<Event>,
    event: Event,
    identifier: u64,
) -> bool {
    exists|u: Seq<TriggerConditionUpdate<u64>>| #[trigger] stepped(a, b, event, identifier, u)
}

/// The actions a trigger hands out between two of its states, in order.
pub open spec fn handed_out_seq<Event: TriggerEvent>(a: CompiledTrigger<Event>, b: CompiledTrigger<Event>) -> Seq<
    Event::Action,
> {
    if a.actions is Some && b.actions is None {
        held_actions(a)
    } else {
        Seq::empty()
    }
}

/// The actions that the given triggers hand out between two states, trigger after trigger in
/// the given order.
pub open spec fn fired_in_order<Event: TriggerEvent>(
    before: Seq<CompiledTrigger<Event>>,
    after: Seq<CompiledTrigger<Event>>,
    order: Seq<usize>,
) -> Seq<Event::Action>
    decreases order.len(),
{
    if order.len() == 0 {
        Seq::empty()
    } else {
        fired_in_order(before, after, order.drop_last()) + handed_out_seq(
            before[order.last() as int],
            after[order.last() as int],
        )
    }
}

/// Putting one list of actions before others puts its actions first.
pub proof fn lemma_flatten_prepend<Action>(first: Seq<Action>, rest: Seq<Seq<Action>>)
    ensures
        flatten_actions(seq![first] + rest) == first + flatten_actions(rest),
    decreases rest.len(),
{
    if rest.len() == 0 {
        assert(seq![first] + rest =~= seq![first]);
        assert(seq![first].drop_last() =~= Seq::<Seq<Action>>::empty());
        assert(flatten_actions(Seq::<Seq<Action>>::empty()) == Seq::<Action>::empty());
        assert(Seq::<Action>::empty() + first =~= first);
        assert(first + Seq::<Action>::empty() =~= first);
        assert(flatten_actions(rest) == Seq::<Action>::empty());
    } else {
        lemma_flatten_prepend(first, rest.drop_last());
        assert((seq![first] + rest).drop_last() =~= seq![first] + rest.drop_last());
        assert((seq![first] + rest).last() == rest.last());
        assert(first + flatten_actions(rest.drop_last()) + rest.last() =~= first + (flatten_actions(
            rest.drop_last(),
        ) + rest.last()));
    }
}

/// The indices below `n`, in ascending order.
pub open spec fn ascending_indices(n: nat) -> Seq<usize> {
    Seq::new(n, |i: int| i as usize)
}

/// The given lists of actions, one after the other.
pub open spec fn flatten_actions<Action>(outs: Seq<Seq<Action>>) -> Seq<Action>
    decreases outs.len(),
{
    if outs.len() == 0 {
        Seq::empty()
    } else {
        flatten_actions(outs.drop_last()) + outs.last()
    }
}

/// `order` lists, in ascending order, exactly the triggers that subscribe to `identifier`.
pub open spec fn ascending_receivers<Event: TriggerEvent>(
    order: Seq<usize>,
    triggers: Seq<CompiledTrigger<Event>>,
    identifier: u64,
) -> bool {
    &&& forall|t: usize|
        order.contains(t) <==> t < triggers.len() && subs(triggers[t as int].condition).contains(identifier)
    &&& forall|i: int, j: int| 0 <= i < j < order.len() ==> order[i] < order[j]
}

/// One dispatch of an event carrying `identifier`: exactly the triggers that subscribe to the
/// identifier receive it, in the ascending order `order`, and take a step; the others stay as
/// they are; `out` is what the receivers hand out, in that order.
pub open spec fn dispatched<Event: TriggerEvent>(
    before: Seq<CompiledTrigger<Event>>,
    after: Seq<CompiledTrigger<Event>>,
    event: Event,
    identifier: u64,
    order: Seq<usize>,
    out: Seq<Event::Action>,
) -> bool {
    &&& ascending_receivers(order, before, identifier)
    &&& out == fired_in_order(before, after, order)
    &&& after.len() == before.len()
    &&& forall|t: int|
        0 <= t < before.len() ==> if subs(before[t].condition).contains(identifier) {
            &&& progressed(before[t], #[trigger] after[t])
            &&& steps_on(before[t].condition, after[t].condition, event, identifier)
        } else {
            after[t] == before[t]
        }
}

/// `states` runs from one state of the triggers to another by one dispatch per event in
/// `events`, each carrying the identifier at the same place in `ids`, received by the triggers
/// in `orders` and handing out the actions in `outs`.
pub open spec fn dispatch_chain<Event: TriggerEvent>(
    states: Seq<Seq<CompiledTrigger<Event>>>,
    events: Seq<Event>,
    ids: Seq<u64>,
    orders: Seq<Seq<usize>>,
    outs: Seq<Seq<Event::Action>>,
) -> bool {
    &&& states.len() == ids.len() + 1
    &&& events.len() == ids.len()
    &&& orders.len() == ids.len()
    &&& outs.len() == ids.len()
    &&& forall|i: int|
        0 <= i < ids.len() ==> dispatched(#[trigger] states[i], states[i + 1], events[i], ids[i], orders[i], outs[i])
}

/// Each action, in order, re-enters the system as the event it becomes, dispatched under that
/// event's identifier.
pub open spec fn reinjected<Event: TriggerEvent>(events: Seq<Event>, ids: Seq<u64>, actions: Seq<Event::Action>) -> bool {
    &&& events.len() == actions.len()
    &&& ids.len() == actions.len()
    &&& forall|j: int|
        0 <= j < actions.len() ==> #[trigger] events[j] == Event::spec_from_action(&actions[j]) && ids[j]
            == events[j].spec_identifier()
}

/// The actions that a trigger hands out in a state where another trigger changes stay the same.
pub proof fn lemma_fired_in_order_frame<Event: TriggerEvent>(
    before: Seq<CompiledTrigger<Event>>,
    a1: Seq<CompiledTrigger<Event>>,
    a2: Seq<CompiledTrigger<Event>>,
    order: Seq<usize>,
)
    requires
        forall|j: int| 0 <= j < order.len() ==> a1[order[j] as int] == a2[order[j] as int],
    ensures
        fired_in_order(before, a1, order) == fired_in_order(before, a2, order),
    decreases order.len(),
{
    if order.len() > 0 {
        assert forall|j: int| 0 <= j < order.len() - 1 implies a1[order.drop_last()[j] as int]
            == a2[order.drop_last()[j] as int] by {
            assert(order.drop_last()[j] == order[j]);
        }
        lemma_fired_in_order_frame(before, a1, a2, order.drop_last());
    }
}

/// The triggers as construction leaves them before any action runs: each trigger whose
/// condition is fulfilled from the start has handed out its actions.
pub open spec fn drained<Event: TriggerEvent>(s: Seq<CompiledTrigger<Event>>) -> Seq<CompiledTrigger<Event>> {
    s.map_values(
        |t: CompiledTrigger<Event>|
            if t.condition.completed {
                CompiledTrigger { id_str: t.id_str, condition: t.condition, actions: None }
            } else {
                t
            },
    )
}

/// What building the system from the given compiled triggers yields: a well-formed system
/// with the same triggers, where the triggers fulfilled from the start have handed out their
/// actions, one dispatch has run for each queued action, and the queue holds exactly the
/// actions handed out.
pub open spec fn constructed_from<Event: TriggerEvent>(r: CompiledTriggers<Event>, input: Seq<CompiledTrigger<Event>>) -> bool {
    &&& r.wf()
    &&& r.triggers().len() == input.len()
    &&& forall|t: int|
        0 <= t < input.len() ==> {
            &&& (#[trigger] r.triggers()[t]).id_str == input[t].id_str
            &&& r.triggers()[t].condition.required_progress == input[t].condition.required_progress
            &&& input[t].condition.current_progress <= r.triggers()[t].condition.current_progress
            &&& (input[t].condition.completed ==> r.triggers()[t].condition == input[t].condition
                && r.triggers()[t].actions is None)
        }
    &&& pending(r.triggers()) + r.action_queue@.len() == pending(input)
    &&& r.action_queue@.to_multiset() =~= handed_out(input, r.triggers())
    &&& exists|
        states: Seq<Seq<CompiledTrigger<Event>>>,
        events: Seq<Event>,
        ids: Seq<u64>,
        orders: Seq<Seq<usize>>,
        outs: Seq<Seq<Event::Action>>,
    |
        {
            &&& #[trigger] dispatch_chain(states, events, ids, orders, outs)
            &&& ids.len() == r.action_queue@.len()
            &&& states[0] == drained(input)
            &&& states.last() == r.triggers()
            &&& r.action_queue@ == fired_in_order(input, drained(input), ascending_indices(input.len()))
                + flatten_actions(outs)
            &&& reinjected(events, ids, r.action_queue@)
        }
}

/// What compiling a raw trigger yields: the same id, the compiled condition, and the compiled
/// actions, in order, all still held.
pub open spec fn trigger_compiled_from<
    Event,
    Action,
    CompiledEvent: TriggerEvent,
    EventCompiler: Fn(Event) -> CompiledEvent,
    ActionCompiler: Fn(Action) -> CompiledEvent::Action,
>(
    c: CompiledTrigger<CompiledEvent>,
    t: Trigger<Event, Action>,
    event_compiler: EventCompiler,
    action_compiler: ActionCompiler,
) -> bool {
    &&& c.id_str == t.id_str
    &&& compiled_from(c.condition, t.condition, event_compiler)
    &&& c.actions matches Some(actions) && actions.len() == t.actions.len() && forall|i: int|
        0 <= i < actions.len() ==> action_compiler.ensures((t.actions@[i],), #[trigger] actions@[i])
}

/// Replacing one trigger of a list replaces its held actions in the count.
pub proof fn lemma_pending_update<Event: TriggerEvent>(
    s: Seq<CompiledTrigger<Event>>,
    i: int,
    x: CompiledTrigger<Event>,
)
    requires
        0 <= i < s.len(),
    ensures
        pending(s.update(i, x)) + held_actions(s[i]).len() == pending(s) + held_actions(x).len(),
    decreases s.len(),
{
    if i < s.len() - 1 {
        lemma_pending_update(s.drop_last(), i, x);
        assert(s.update(i, x).drop_last() =~= s.drop_last().update(i, x));
    } else {
        assert(s.update(i, x).drop_last() =~= s.drop_last());
    }
}

impl<Event: TriggerEvent> CompiledTrigger<Event> {
    /// Creates a compiled trigger that holds the given actions.
    pub fn new(id_str: String, condition: CompiledTriggerCondition<Event>, actions: Vec<Event::Action>) -> (r:
        Self)
        ensures
            r.id_str == id_str,
            r.condition == condition,
            r.actions == Some(actions),
    {
        CompiledTrigger { id_str, condition, actions: Some(actions) }
    }

    /// The identifiers this trigger currently needs to receive, one entry per active leaf.
    pub fn subscriptions(&self) -> (r: Vec<u64>)
        requires
            wf(self.condition),
        ensures
            r@.to_multiset() == subs(self.condition),
    {
        self.condition.subscriptions()
    }

    /// Executes the given event on this trigger's condition.
    ///
    /// Returns the actions, if the condition became fulfilled, and the subscription updates.
    pub fn execute_event(&mut self, event: &Event) -> (r: (Vec<Event::Action>, Vec<TriggerConditionUpdate<u64>>))
        requires
            trigger_wf(*old(self)),
            !old(self).condition.completed,
        ensures
            trigger_wf(*final(self)),
            progressed(*old(self), *final(self)),
            final(self).id_str == old(self).id_str,
            subs(old(self).condition).add(subscribed(r.1@)) =~= subs(final(self).condition).add(
                unsubscribed(r.1@),
            ),
            subscribed(r.1@).len() <= leaves(old(self).condition),
            exists|identifier: u64| stepped(old(self).condition, final(self).condition, *event, identifier, r.1@),
            r.0@ == if final(self).condition.completed {
                held_actions(*old(self))
            } else {
                Seq::empty()
            },
            held_actions(*final(self)).len() + r.0.len() == held_actions(*old(self)).len(),
    {
        let identifier = event.identifier();
        self.execute_identified_event(event, identifier)
    }

    /// Executes an event that carries `identifier` on this trigger's condition.
    ///
    /// [`Self::execute_event`] calls this with the event's own identifier.
    pub fn execute_identified_event(&mut self, event: &Event, identifier: u64) -> (r: (
        Vec<Event::Action>,
        Vec<TriggerConditionUpdate<u64>>,
    ))
        requires
            trigger_wf(*old(self)),
            !old(self).condition.completed,
        ensures
            trigger_wf(*final(self)),
            progressed(*old(self), *final(self)),
            final(self).id_str == old(self).id_str,
            subs(old(self).condition).add(subscribed(r.1@)) =~= subs(final(self).condition).add(
                unsubscribed(r.1@),
            ),
            subscribed(r.1@).len() <= leaves(old(self).condition),
            stepped(old(self).condition, final(self).condition, *event, identifier, r.1@),
            r.0@ == if final(self).condition.completed {
                held_actions(*old(self))
            } else {
                Seq::empty()
            },
            held_actions(*final(self)).len() + r.0.len() == held_actions(*old(self)).len(),
    {
        let (updates, result, _) = self.condition.execute_event(event, identifier);
        if result {
            let actions = match self.actions.take() {
                Some(actions) => actions,
                None => Vec::new(),
            };
            (actions, updates)
        } else {
            (Vec::new(), updates)
        }
    }

    /// Returns the progress of this trigger as `(current_progress, required_progress)`.
    pub fn progress(&self) -> (r: (u64, u64))
        ensures
            r == (self.condition.current_progress, self.condition.required_progress),
    {
        (self.condition.current_progress(), self.condition.required_progress())
    }

    /// Returns the trigger condition of this trigger.
    pub fn condition(&self) -> (r: &CompiledTriggerCondition<Event>)
        ensures
            *r == self.condition,
    {
        &self.condition
    }

    /// Returns the actions of this trigger; none once it has fired.
    pub fn actions(&self) -> (r: &[Event::Action])
        ensures
            r@ == held_actions(*self),
    {
        match &self.actions {
            Some(actions) => actions.as_slice(),
            None => &[],
        }
    }

    /// Returns true if the condition of this trigger is fulfilled.
    pub fn completed(&self) -> (r: bool)
        ensures
            r == self.condition.completed,
    {
        self.condition.completed()
    }

    /// Hands out the actions of this trigger; it holds none afterwards.
    fn consume_actions(&mut self) -> (r: Vec<Event::Action>)
        ensures
            r@ == held_actions(*old(self)),
            final(self).actions is None,
            final(self).id_str == old(self).id_str,
            final(self).condition == old(self).condition,
    {
        match self.actions.take() {
            Some(actions) => actions,
            None => Vec::new(),
        }
    }
}

/// One trigger's share of the subscription index after its updates: what it had, plus what
/// it subscribed to, less what it unsubscribed from (never below zero).
pub open spec fn updated_count(before: nat, subscribed: nat, unsubscribed: nat) -> nat {
    if before + subscribed >= unsubscribed {
        (before + subscribed - unsubscribed) as nat
    } else {
        0
    }
}

/// Applies the subscription updates of one trigger to the index: all subscriptions first, then
/// all unsubscriptions, so that an unsubscription never misses the subscription it undoes.
fn apply_updates(index: &mut BTreeMultiMap<u64, usize>, trigger: usize, updates: &Vec<TriggerConditionUpdate<u64>>)
    requires
        forall|id: u64|
            #[trigger] index_contents(*old(index)).count((id, trigger)) + subscribed(updates@).count(id)
                < usize::MAX,
    ensures
        forall|id: u64, t: usize|
            #[trigger] index_contents(*final(index)).count((id, t)) == if t == trigger {
                updated_count(
                    index_contents(*old(index)).count((id, t)),
                    subscribed(updates@).count(id),
                    unsubscribed(updates@).count(id),
                )
            } else {
                index_contents(*old(index)).count((id, t))
            },
{
    broadcast use vstd::multiset::group_multiset_axioms;

    let ghost start = index_contents(*index);
    let mut i: usize = 0;
    assert(updates@.take(0) =~= Seq::<TriggerConditionUpdate<u64>>::empty());
    while i < updates.len()
        invariant
            i <= updates.len(),
            forall|id: u64| #[trigger] start.count((id, trigger)) + subscribed(updates@).count(id) < usize::MAX,
            forall|id: u64, t: usize|
                #[trigger] index_contents(*index).count((id, t)) == if t == trigger {
                    start.count((id, t)) + subscribed(updates@.take(i as int)).count(id)
                } else {
                    start.count((id, t))
                },
        decreases updates.len() - i,
    {
        proof {
            assert(updates@.take(i as int + 1).drop_last() =~= updates@.take(i as int));
            lemma_updates_concat(updates@.take(i as int + 1), updates@.skip(i as int + 1));
            assert(updates@.take(i as int + 1) + updates@.skip(i as int + 1) =~= updates@);
        }
        match &updates[i] {
            TriggerConditionUpdate::Subscribe(id) => {
                index_insert(index, *id, trigger);
            },
            TriggerConditionUpdate::Unsubscribe(_) => {},
        }
        i = i + 1;
    }
    assert(updates@.take(updates.len() as int) =~= updates@);
    let ghost mid = index_contents(*index);
    i = 0;
    while i < updates.len()
        invariant
            i <= updates.len(),
            forall|id: u64, t: usize|
                #[trigger] index_contents(*index).count((id, t)) == if t == trigger {
                    updated_count(
                        mid.count((id, t)),
                        0,
                        unsubscribed(updates@.take(i as int)).count(id),
                    )
                } else {
                    mid.count((id, t))
                },
        decreases updates.len() - i,
    {
        assert(updates@.take(i as int + 1).drop_last() =~= updates@.take(i as int));
        match &updates[i] {
            TriggerConditionUpdate::Unsubscribe(id) => {
                index_remove(index, *id, trigger);
            },
            TriggerConditionUpdate::Subscribe(_) => {},
        }
        i = i + 1;
    }
    assert(updates@.take(updates.len() as int) =~= updates@);
}

impl<Event: TriggerEvent> TriggerSystem<Event> {
    /// The index holds each trigger's subscriptions, with multiplicity, and nothing else.
    pub open spec fn index_consistent(self) -> bool {
        forall|id: u64, t: usize|
            #[trigger] index_contents(self.subscriptions).count((id, t)) == if t < self.triggers.len() {
                subs(self.triggers@[t as int].condition).count(id)
            } else {
                0
            }
    }

    /// The triggers are well formed and the index is consistent with them.
    pub open spec fn wf(self) -> bool {
        &&& forall|t: int| 0 <= t < self.triggers.len() ==> trigger_wf(#[trigger] self.triggers@[t])
        &&& self.index_consistent()
    }

    /// Dispatches one event, carrying `identifier`, to exactly the triggers that subscribe to
    /// that identifier, in ascending order of index, and applies each trigger's subscription
    /// updates before the next one runs. Returns the actions of the triggers that fired, and
    /// the indices of the triggers that received the event.
    fn dispatch(&mut self, event: &Event, identifier: u64) -> (r: (Vec<Event::Action>, Ghost<Seq<usize>>))
        requires
            old(self).wf(),
        ensures
            final(self).wf(),
            forall|t: usize|
                r.1@.contains(t) <==> t < old(self).triggers.len() && subs(
                    old(self).triggers@[t as int].condition,
                ).contains(identifier),
            forall|i: int, j: int| 0 <= i < j < r.1@.len() ==> r.1@[i] < r.1@[j],
            forall|t: int|
                0 <= t < old(self).triggers.len() && r.1@.contains(t as usize) ==> steps_on(
                    old(self).triggers@[t].condition,
                    #[trigger] final(self).triggers@[t].condition,
                    *event,
                    identifier,
                ),
            final(self).triggers.len() == old(self).triggers.len(),
            forall|t: int|
                0 <= t < old(self).triggers.len() ==> progressed(
                    old(self).triggers@[t],
                    #[trigger] final(self).triggers@[t],
                ),
            forall|t: int|
                0 <= t < old(self).triggers.len() && !subs(old(self).triggers@[t].condition).contains(
                    identifier,
                ) ==> #[trigger] final(self).triggers@[t] == old(self).triggers@[t],
            pending(final(self).triggers@) + r.0.len() == pending(old(self).triggers@),
            dispatched(old(self).triggers@, final(self).triggers@, *event, identifier, r.1@, r.0@),
            r.1@.len() == 0 ==> r.0.len() == 0 && *final(self) == *old(self),
            r.0@.to_multiset() =~= handed_out(old(self).triggers@, final(self).triggers@),
    {
        broadcast use vstd::multiset::group_multiset_axioms;

        let trigger_indices = index_values(&self.subscriptions, identifier);
        let ghost start = self.triggers@;
        let ghost start_system = *self;
        let ghost start_index = index_contents(self.subscriptions);
        let mut all_actions: Vec<Event::Action> = Vec::new();
        let mut k: usize = 0;
        proof {
            lemma_handed_out_none(start);
            vstd::seq_lib::to_multiset_len(all_actions@);
        }
        while k < trigger_indices.len()
            invariant
                k <= trigger_indices.len(),
                forall|v: usize| trigger_indices@.contains(v) <==> start_index.count((identifier, v)) > 0,
                forall|i: int, j: int|
                    0 <= i < j < trigger_indices.len() ==> trigger_indices@[i] < trigger_indices@[j],
                forall|id: u64, t: usize|
                    #[trigger] start_index.count((id, t)) == if t < start.len() {
                        subs(start[t as int].condition).count(id)
                    } else {
                        0
                    },
                self.wf(),
                self.triggers.len() == start.len(),
                forall|t: int| 0 <= t < start.len() ==> progressed(start[t], #[trigger] self.triggers@[t]),
                forall|t: int|
                    0 <= t < start.len() && k < trigger_indices.len() && t >= trigger_indices@[k as int]
                        ==> #[trigger] self.triggers@[t] == start[t],
                forall|t: int|
                    0 <= t < start.len() && !subs(start[t].condition).contains(identifier)
                        ==> #[trigger] self.triggers@[t] == start[t],
                pending(self.triggers@) + all_actions.len() == pending(start),
                all_actions@.to_multiset() =~= handed_out(start, self.triggers@),
                trigger_indices.len() == 0 ==> *self == start_system && all_actions.len() == 0,
                all_actions@ == fired_in_order(start, self.triggers@, trigger_indices@.take(k as int)),
                forall|j: int|
                    0 <= j < k ==> steps_on(
                        start[trigger_indices@[j] as int].condition,
                        #[trigger] self.triggers@[trigger_indices@[j] as int].condition,
                        *event,
                        identifier,
                    ),
            decreases trigger_indices.len() - k,
        {
            let t = trigger_indices[k];
            proof {
                assert(trigger_indices@.contains(t));
                assert(start_index.count((identifier, t)) > 0);
                assert(t < start.len());
                assert(self.triggers@[t as int] == start[t as int]);
                assert(trigger_wf(self.triggers@[t as int]));
            }
            let ghost before = self.triggers@;
            let ghost before_index = index_contents(self.subscriptions);
            let (mut actions, updates) = self.triggers[t].execute_identified_event(event, identifier);
            proof {
                let old_t = before[t as int];
                let new_t = self.triggers@[t as int];
                assert(self.triggers@ =~= before.update(t as int, new_t));
                lemma_pending_update(before, t as int, new_t);
                lemma_subs_len(old_t.condition);
                assert forall|id: u64|
                    #[trigger] before_index.count((id, t)) + subscribed(updates@).count(id) < usize::MAX by {
                    assert(before_index.count((id, t)) == subs(old_t.condition).count(id));
                }
            }
            apply_updates(&mut self.subscriptions, t, &updates);
            proof {
                let old_t = before[t as int];
                let new_t = self.triggers@[t as int];
                assert forall|id: u64, u: usize|
                    #[trigger] index_contents(self.subscriptions).count((id, u)) == if u < self.triggers.len() {
                        subs(self.triggers@[u as int].condition).count(id)
                    } else {
                        0
                    } by {
                    if u == t {
                        assert(subs(old_t.condition).add(subscribed(updates@)).count(id) == subs(
                            new_t.condition,
                        ).add(unsubscribed(updates@)).count(id));
                    }
                }
                assert forall|u: int|
                    0 <= u < start.len() && k + 1 < trigger_indices.len() && u >= trigger_indices@[k + 1]
                        implies #[trigger] self.triggers@[u] == start[u] by {
                    assert(trigger_indices@[k as int] < trigger_indices@[k + 1]);
                    assert(u != t);
                    assert(self.triggers@[u] == before[u]);
                    assert(before[u] == start[u]);
                }
                assert forall|j: int|
                    0 <= j < k + 1 implies steps_on(
                        start[trigger_indices@[j] as int].condition,
                        #[trigger] self.triggers@[trigger_indices@[j] as int].condition,
                        *event,
                        identifier,
                    ) by {
                    if j < k {
                        assert(trigger_indices@[j] < trigger_indices@[k as int]);
                    }
                }
                assert forall|u: int|
                    0 <= u < start.len() && !subs(start[u].condition).contains(identifier)
                        implies #[trigger] self.triggers@[u] == start[u] by {
                    if u == t {
                        assert(start_index.count((identifier, t)) > 0);
                    }
                }
            }
            proof {
                let new_t = self.triggers@[t as int];
                let done = trigger_indices@.take(k as int);
                assert forall|j: int| 0 <= j < done.len() implies before[done[j] as int] == self.triggers@[
                    done[j] as int] by {
                    assert(done[j] == trigger_indices@[j]);
                    assert(trigger_indices@[j] < trigger_indices@[k as int]);
                }
                lemma_fired_in_order_frame(start, before, self.triggers@, done);
                assert(trigger_indices@.take(k + 1).drop_last() =~= done);
                assert(trigger_indices@.take(k + 1).last() == t);
                assert(trigger_wf(new_t));
                assert(actions@ == handed_out_seq(start[t as int], new_t));
                lemma_handed_out_update(start, before, t as int, new_t);
                lemma_multiset_commutative(all_actions@, actions@);
                assert(trigger_wf(new_t));
                if !new_t.condition.completed {
                    vstd::seq_lib::to_multiset_len(actions@);
                }
            }
            all_actions.append(&mut actions);
            k = k + 1;
        }
        proof {
            assert forall|t: usize|
                trigger_indices@.contains(t) <==> t < start.len() && subs(start[t as int].condition).contains(
                    identifier,
                ) by {
                assert(start_index.count((identifier, t)) > 0 <==> trigger_indices@.contains(t));
            }
            assert forall|t: int|
                0 <= t < start.len() && trigger_indices@.contains(t as usize) implies steps_on(
                    start[t].condition,
                    #[trigger] self.triggers@[t].condition,
                    *event,
                    identifier,
                ) by {
                let j = choose|j: int| 0 <= j < trigger_indices.len() && trigger_indices@[j] == t as usize;
                assert(steps_on(
                    start[trigger_indices@[j] as int].condition,
                    self.triggers@[trigger_indices@[j] as int].condition,
                    *event,
                    identifier,
                ));
            }
            assert forall|t: int| 0 <= t < start.len() implies if subs(start[t].condition).contains(identifier) {
                &&& progressed(start[t], #[trigger] self.triggers@[t])
                &&& steps_on(start[t].condition, self.triggers@[t].condition, *event, identifier)
            } else {
                self.triggers@[t] == start[t]
            } by {
                if subs(start[t].condition).contains(identifier) {
                    assert(start_index.count((identifier, t as usize)) > 0);
                    assert(trigger_indices@.contains(t as usize));
                }
            }
        }
        assert(trigger_indices@.take(trigger_indices.len() as int) =~= trigger_indices@);
        (all_actions, Ghost(trigger_indices@))
    }

    /// Re-injects each of the given actions, and each action that results, as an event, in
    /// order, until none is left. Returns all of them, and the states the triggers went
    /// through with the identifiers dispatched: one dispatch for each returned action.
    fn cascade(&mut self, actions: Vec<Event::Action>) -> (r: (
        Vec<Event::Action>,
        Ghost<Seq<Seq<CompiledTrigger<Event>>>>,
        Ghost<Seq<Event>>,
        Ghost<Seq<u64>>,
        Ghost<Seq<Seq<usize>>>,
        Ghost<Seq<Seq<Event::Action>>>,
    ))
        requires
            old(self).wf(),
        ensures
            final(self).wf(),
            final(self).triggers.len() == old(self).triggers.len(),
            forall|t: int|
                0 <= t < old(self).triggers.len() ==> progressed(
                    old(self).triggers@[t],
                    #[trigger] final(self).triggers@[t],
                ),
            r.0@.take(actions.len() as int) == actions@,
            pending(final(self).triggers@) + r.0.len() == pending(old(self).triggers@) + actions.len(),
            r.0@.to_multiset() =~= actions@.to_multiset().add(handed_out(old(self).triggers@, final(self).triggers@)),
            dispatch_chain(r.1@, r.2@, r.3@, r.4@, r.5@),
            r.0@ == actions@ + flatten_actions(r.5@),
            reinjected(r.2@, r.3@, r.0@),
            r.3@.len() == r.0.len(),
            r.1@[0] == old(self).triggers@,
            r.1@.last() == final(self).triggers@,
            actions.len() == 0 ==> r.0.len() == 0 && *final(self) == *old(self),
    {
        let ghost start = self.triggers@;
        let ghost start_system = *self;
        let ghost mut states: Seq<Seq<CompiledTrigger<Event>>> = seq![start];
        let ghost mut events: Seq<Event> = Seq::empty();
        let ghost mut ids: Seq<u64> = Seq::empty();
        let ghost mut orders: Seq<Seq<usize>> = Seq::empty();
        let ghost mut outs: Seq<Seq<Event::Action>> = Seq::empty();
        let mut all_actions = actions;
        let mut i: usize = 0;
        assert(all_actions@ =~= actions@ + flatten_actions(outs));
        proof {
            lemma_handed_out_none(start);
        }
        while i < all_actions.len()
            invariant
                self.wf(),
                all_actions@.to_multiset() =~= actions@.to_multiset().add(handed_out(start, self.triggers@)),
                self.triggers.len() == start.len(),
                forall|t: int| 0 <= t < start.len() ==> progressed(start[t], #[trigger] self.triggers@[t]),
                i <= all_actions.len(),
                all_actions@.take(actions.len() as int) == actions@,
                actions.len() <= all_actions.len(),
                pending(self.triggers@) + all_actions.len() == pending(start) + actions.len(),
                dispatch_chain(states, events, ids, orders, outs),
                all_actions@ == actions@ + flatten_actions(outs),
                forall|j: int|
                    0 <= j < i ==> #[trigger] events[j] == Event::spec_from_action(&all_actions@[j]) && ids[j]
                        == events[j].spec_identifier(),
                ids.len() == i,
                states[0] == start,
                states.last() == self.triggers@,
                actions.len() == 0 ==> i == 0 && all_actions.len() == 0 && *self == start_system,
            decreases pending(self.triggers@) + all_actions.len() - i,
        {
            let event = Event::from_action(&all_actions[i]);
            let identifier = event.identifier();
            let ghost before = self.triggers@;
            let (mut more, Ghost(order)) = self.dispatch(&event, identifier);
            proof {
                assert forall|t: int| 0 <= t < start.len() implies progressed(
                    start[t],
                    #[trigger] self.triggers@[t],
                ) by {
                    assert(progressed(start[t], before[t]));
                    assert(progressed(before[t], self.triggers@[t]));
                }
                let prev_states = states;
                let prev_events = events;
                let prev_ids = ids;
                let prev_orders = orders;
                let prev_outs = outs;
                states = states.push(self.triggers@);
                events = events.push(event);
                ids = ids.push(identifier);
                orders = orders.push(order);
                outs = outs.push(more@);
                assert forall|j: int| 0 <= j < ids.len() implies dispatched(
                    #[trigger] states[j],
                    states[j + 1],
                    events[j],
                    ids[j],
                    orders[j],
                    outs[j],
                ) by {
                    if j < prev_ids.len() {
                        assert(states[j] == prev_states[j]);
                        assert(states[j + 1] == prev_states[j + 1]);
                        assert(events[j] == prev_events[j]);
                        assert(orders[j] == prev_orders[j]);
                        assert(outs[j] == prev_outs[j]);
                    }
                }
                assert(outs.drop_last() =~= prev_outs);
            }
            proof {
                lemma_handed_out_trans(start, before, self.triggers@);
                lemma_multiset_commutative(all_actions@, more@);
            }
            let ghost prior = all_actions@;
            all_actions.append(&mut more);
            assert(all_actions@.take(actions.len() as int) =~= prior.take(actions.len() as int));
            assert forall|j: int| 0 <= j < i + 1 implies #[trigger] events[j] == Event::spec_from_action(
                &all_actions@[j],
            ) && ids[j] == events[j].spec_identifier() by {
                assert(all_actions@[j] == prior[j]);
            }
            assert(all_actions@ =~= actions@ + flatten_actions(outs));
            i = i + 1;
        }
        assert(all_actions@ =~= actions@ + flatten_actions(outs)) by {
            assert(actions@ + flatten_actions(outs) == all_actions@);
        }
        assert(reinjected(events, ids, all_actions@));
        (all_actions, Ghost(states), Ghost(events), Ghost(ids), Ghost(orders), Ghost(outs))
    }

    /// Executes an event carrying `identifier` and everything it sets off: the event is
    /// dispatched, then each resulting action is re-injected as an event, one dispatch per
    /// action, until no action is left. Returns the actions, in order.
    fn execute_event(&mut self, event: &Event, identifier: u64) -> (r: Vec<Event::Action>)
        requires
            old(self).wf(),
        ensures
            final(self).wf(),
            final(self).triggers.len() == old(self).triggers.len(),
            forall|t: int|
                0 <= t < old(self).triggers.len() ==> progressed(
                    old(self).triggers@[t],
                    #[trigger] final(self).triggers@[t],
                ),
            pending(final(self).triggers@) + r.len() == pending(old(self).triggers@),
            r@.to_multiset() =~= handed_out(old(self).triggers@, final(self).triggers@),
            exists|
                states: Seq<Seq<CompiledTrigger<Event>>>,
                events: Seq<Event>,
                ids: Seq<u64>,
                orders: Seq<Seq<usize>>,
                outs: Seq<Seq<Event::Action>>,
            |
                {
                    &&& #[trigger] dispatch_chain(states, events, ids, orders, outs)
                    &&& ids.len() == r.len() + 1
                    &&& events[0] == *event
                    &&& ids[0] == identifier
                    &&& states[0] == old(self).triggers@
                    &&& states.last() == final(self).triggers@
                    &&& r@ == flatten_actions(outs)
                    &&& reinjected(events.skip(1), ids.skip(1), r@)
                },
            (forall|t: int|
                0 <= t < old(self).triggers.len() ==> !subs(#[trigger] old(self).triggers@[t].condition).contains(
                    identifier,
                )) ==> r.len() == 0 && *final(self) == *old(self),
    {
        let ghost start = self.triggers@;
        let (actions, Ghost(received)) = self.dispatch(event, identifier);
        let ghost mid = self.triggers@;
        proof {
            if forall|t: int|
                0 <= t < start.len() ==> !subs(#[trigger] start[t].condition).contains(identifier) {
                if received.len() > 0 {
                    assert(received.contains(received[0]));
                }
            }
        }
        let ghost first_out = actions@;
        let (r, Ghost(states), Ghost(events), Ghost(ids), Ghost(orders), Ghost(outs)) = self.cascade(actions);
        proof {
            assert forall|t: int| 0 <= t < start.len() implies progressed(
                start[t],
                #[trigger] self.triggers@[t],
            ) by {
                assert(progressed(start[t], mid[t]));
                assert(progressed(mid[t], self.triggers@[t]));
            }
            lemma_handed_out_trans(start, mid, self.triggers@);
            let all_states = seq![start] + states;
            let all_events = seq![*event] + events;
            let all_ids = seq![identifier] + ids;
            let all_orders = seq![received] + orders;
            let all_outs = seq![first_out] + outs;
            assert forall|j: int| 0 <= j < all_ids.len() implies dispatched(
                #[trigger] all_states[j],
                all_states[j + 1],
                all_events[j],
                all_ids[j],
                all_orders[j],
                all_outs[j],
            ) by {
                if j > 0 {
                    assert(all_states[j] == states[j - 1]);
                    assert(all_states[j + 1] == states[j]);
                    assert(all_events[j] == events[j - 1]);
                    assert(all_ids[j] == ids[j - 1]);
                    assert(all_orders[j] == orders[j - 1]);
                    assert(all_outs[j] == outs[j - 1]);
                }
            }
            assert(dispatch_chain(all_states, all_events, all_ids, all_orders, all_outs));
            assert(all_states.last() == states.last());
            lemma_flatten_prepend(first_out, outs);
            assert(all_events.skip(1) =~= events);
            assert(all_ids.skip(1) =~= ids);
        }
        r
    }
}

/// Appends the given actions, in order, to the queue.
fn append_to_queue<Action>(queue: &mut VecDeque<Action>, actions: Vec<Action>)
    ensures
        final(queue)@ == old(queue)@ + actions@,
{
    let ghost all = actions@;
    let ghost start = queue@;
    let mut rest = actions;
    let mut reversed: Vec<Action> = Vec::new();
    while rest.len() > 0
        invariant
            rest.len() + reversed.len() == all.len(),
            rest@ == all.take(rest.len() as int),
            forall|i: int| 0 <= i < reversed.len() ==> #[trigger] reversed@[i] == all[all.len() - 1 - i],
        decreases rest.len(),
    {
        match rest.pop() {
            Some(a) => {
                reversed.push(a);
            },
            None => {},
        }
    }
    while reversed.len() > 0
        invariant
            queue@.len() + reversed.len() == start.len() + all.len(),
            forall|i: int| 0 <= i < reversed.len() ==> #[trigger] reversed@[i] == all[all.len() - 1 - i],
            queue@ == start + all.take(all.len() - reversed.len()),
        decreases reversed.len(),
    {
        match reversed.pop() {
            Some(a) => {
                let ghost k = all.len() - reversed.len() - 1;
                queue.push_back(a);
                assert(all.take(k + 1) =~= all.take(k).push(all[k]));
                assert(queue@ =~= start + all.take(all.len() - reversed.len()));
            },
            None => {},
        }
    }
    assert(all.take(all.len() as int) =~= all);
}

/// Moves the given actions, in order, into a queue.
fn into_queue<Action>(actions: Vec<Action>) -> (r: VecDeque<Action>)
    ensures
        r@ == actions@,
{
    let ghost all = actions@;
    let mut rest = actions;
    let mut queue: VecDeque<Action> = VecDeque::new();
    while rest.len() > 0
        invariant
            rest@ + queue@ == all,
        decreases rest.len(),
    {
        match rest.pop() {
            Some(a) => {
                queue.push_front(a);
                assert(rest@ + queue@ =~= all);
            },
            None => {},
        }
    }
    assert(queue@ =~= all);
    queue
}

/// Applies `f` to each of the given values, in order.
fn map_in_order<A, B, F: Fn(A) -> B>(values: Vec<A>, f: &F) -> (r: Vec<B>)
    requires
        forall|a: A| f.requires((a,)),
    ensures
        r.len() == values.len(),
        forall|i: int| 0 <= i < r.len() ==> f.ensures((values@[i],), #[trigger] r@[i]),
{
    let ghost all = values@;
    let mut rest = values;
    let mut reversed: Vec<A> = Vec::new();
    while rest.len() > 0
        invariant
            rest.len() + reversed.len() == all.len(),
            rest@ == all.take(rest.len() as int),
            forall|i: int| 0 <= i < reversed.len() ==> #[trigger] reversed@[i] == all[all.len() - 1 - i],
        decreases rest.len(),
    {
        match rest.pop() {
            Some(a) => {
                reversed.push(a);
            },
            None => {},
        }
    }
    let mut out: Vec<B> = Vec::new();
    while reversed.len() > 0
        invariant
            out.len() + reversed.len() == all.len(),
            forall|i: int| 0 <= i < reversed.len() ==> #[trigger] reversed@[i] == all[all.len() - 1 - i],
            forall|i: int| 0 <= i < out.len() ==> f.ensures((all[i],), #[trigger] out@[i]),
            forall|a: A| f.requires((a,)),
        decreases reversed.len(),
    {
        match reversed.pop() {
            Some(a) => {
                out.push(f(a));
            },
            None => {},
        }
    }
    out
}

/// What executing one event does to the system: the triggers step as dispatching the event
/// and re-injecting every resulting action does, one dispatch each, and exactly those actions,
/// in order, are appended to the queue.
#[verifier::opaque]
pub open spec fn executed<Event: TriggerEvent>(
    before: CompiledTriggers<Event>,
    after: CompiledTriggers<Event>,
    event: Event,
) -> bool {
    &&& after.triggers().len() == before.triggers().len()
    &&& forall|t: int|
        0 <= t < before.triggers().len() ==> progressed(
            before.triggers()[t],
            #[trigger] after.triggers()[t],
        )
    &&& before.action_queue@.len() <= after.action_queue@.len()
    &&& after.action_queue@.take(before.action_queue@.len() as int) == before.action_queue@
    &&& pending(after.triggers()) + after.action_queue@.len() == pending(before.triggers())
        + before.action_queue@.len()
    &&& after.action_queue@.skip(before.action_queue@.len() as int).to_multiset() =~= handed_out(
        before.triggers(),
        after.triggers(),
    )
    &&& exists|
        states: Seq<Seq<CompiledTrigger<Event>>>,
        events: Seq<Event>,
        ids: Seq<u64>,
        orders: Seq<Seq<usize>>,
        outs: Seq<Seq<Event::Action>>,
    |
        {
            &&& #[trigger] dispatch_chain(states, events, ids, orders, outs)
            &&& after.action_queue@.skip(before.action_queue@.len() as int) == flatten_actions(outs)
            &&& reinjected(
                events.skip(1),
                ids.skip(1),
                after.action_queue@.skip(before.action_queue@.len() as int),
            )
            &&& ids.len() == after.action_queue@.len() - before.action_queue@.len() + 1
            &&& events[0] == event
            &&& ids[0] == event.spec_identifier()
            &&& states[0] == before.triggers()
            &&& states.last() == after.triggers()
        }
    &&& (forall|t: int|
        0 <= t < before.triggers().len() ==> !subs(#[trigger] before.triggers()[t].condition).contains(
            event.spec_identifier(),
        )) ==> after.trigger_system == before.trigger_system && after.action_queue@
        == before.action_queue@
}

impl<Event: TriggerEvent> CompiledTriggers<Event> {
    /// The system is well formed.
    pub open spec fn wf(self) -> bool {
        self.trigger_system.wf()
    }

    /// The compiled triggers, in order.
    pub open spec fn triggers(self) -> Seq<CompiledTrigger<Event>> {
        self.trigger_system.triggers@
    }

    /// Builds the system from compiled triggers that still hold their actions.
    ///
    /// Triggers whose conditions are fulfilled from the start fire right away, and the actions
    /// they set off run through the system before it is returned; all of these actions wait
    /// in the action queue.
    pub fn new(triggers: Vec<CompiledTrigger<Event>>) -> (r: Self)
        requires
            forall|t: int|
                0 <= t < triggers.len() ==> {
                    &&& wf((#[trigger] triggers@[t]).condition)
                    &&& triggers@[t].actions is Some
                    &&& leaves_fit(leaves(triggers@[t].condition))
                },
        ensures
            constructed_from(r, triggers@),
    {
        broadcast use vstd::multiset::group_multiset_axioms;
        broadcast use vstd::seq_lib::group_to_multiset_ensures;

        let ghost input = triggers@;
        let mut triggers = triggers;
        let mut subscriptions = index_new();
        let mut initial_actions: Vec<Event::Action> = Vec::new();
        let mut t: usize = 0;
        proof {
            lemma_handed_out_none(input);
            vstd::seq_lib::to_multiset_len(initial_actions@);
            assert(ascending_indices(0) =~= Seq::<usize>::empty());
        }
        while t < triggers.len()
            invariant
                triggers.len() == input.len(),
                t <= input.len(),
                forall|j: int|
                    0 <= j < input.len() ==> {
                        &&& wf((#[trigger] input[j]).condition)
                        &&& input[j].actions is Some
                        &&& leaves_fit(leaves(input[j].condition))
                    },
                forall|j: int|
                    0 <= j < t ==> {
                        &&& trigger_wf(#[trigger] triggers@[j])
                        &&& triggers@[j].condition == input[j].condition
                        &&& triggers@[j].id_str == input[j].id_str
                        &&& (!input[j].condition.completed ==> triggers@[j] == input[j])
                        &&& triggers@[j] == drained(input)[j]
                    },
                forall|j: int| t <= j < input.len() ==> #[trigger] triggers@[j] == input[j],
                forall|id: u64, u: usize|
                    #[trigger] index_contents(subscriptions).count((id, u)) == if u < t {
                        subs(triggers@[u as int].condition).count(id)
                    } else {
                        0
                    },
                pending(triggers@) + initial_actions.len() == pending(input),
                initial_actions@.to_multiset() =~= handed_out(input, triggers@),
                initial_actions@ == fired_in_order(input, triggers@, ascending_indices(t as nat)),
            decreases input.len() - t,
        {
            assert(triggers@[t as int] == input[t as int]);
            let ids = triggers[t].condition.subscriptions();
            proof {
                lemma_subs_len(input[t as int].condition);
                vstd::seq_lib::to_multiset_len(ids@);
            }
            let mut k: usize = 0;
            assert(ids@.take(0) =~= Seq::<u64>::empty());
            proof {
                vstd::seq_lib::to_multiset_len(ids@.take(0));
            }
            assert(ids@.take(0).to_multiset() =~= Multiset::<u64>::empty());
            while k < ids.len()
                invariant
                    k <= ids.len(),
                    2 * ids.len() < usize::MAX,
                    forall|id: u64, u: usize|
                        #[trigger] index_contents(subscriptions).count((id, u)) == if u < t {
                            subs(triggers@[u as int].condition).count(id)
                        } else if u == t {
                            ids@.take(k as int).to_multiset().count(id)
                        } else {
                            0
                        },
                decreases ids.len() - k,
            {
                proof {
                    assert(ids@.take(k as int + 1) =~= ids@.take(k as int).push(ids@[k as int]));
                    vstd::seq_lib::to_multiset_len(ids@.take(k as int));
                    vstd::seq_lib::to_multiset_build(ids@.take(k as int), ids@[k as int]);
                }
                index_insert(&mut subscriptions, ids[k], t);
                k = k + 1;
            }
            assert(ids@.take(ids.len() as int) =~= ids@);
            let ghost prev = triggers@;
            if triggers[t].condition.completed() {
                let ghost before = triggers@;
                let mut actions = triggers[t].consume_actions();
                proof {
                    lemma_pending_update(before, t as int, triggers@[t as int]);
                    assert(triggers@ =~= before.update(t as int, triggers@[t as int]));
                    lemma_handed_out_update(input, before, t as int, triggers@[t as int]);
                    lemma_multiset_commutative(initial_actions@, actions@);
                }
                initial_actions.append(&mut actions);
            }
            proof {
                let done = ascending_indices(t as nat);
                assert forall|j: int| 0 <= j < done.len() implies prev[done[j] as int] == triggers@[
                    done[j] as int] by {}
                lemma_fired_in_order_frame(input, prev, triggers@, done);
                assert(ascending_indices(t as nat + 1).drop_last() =~= done);
                assert(ascending_indices(t as nat + 1).last() == t);
                assert(prev[t as int] == input[t as int]);
                if !input[t as int].condition.completed {
                    assert(triggers@[t as int] == input[t as int]);
                    assert(handed_out_seq(input[t as int], triggers@[t as int]) =~= Seq::<Event::Action>::empty());
                    assert(initial_actions@ =~= initial_actions@ + Seq::<Event::Action>::empty());
                }
            }
            t = t + 1;
        }
        assert(triggers@ =~= drained(input));
        let mut trigger_system = TriggerSystem { triggers, subscriptions };
        let ghost initial = initial_actions@;
        let (all_actions, Ghost(states), Ghost(events), Ghost(ids), Ghost(orders), Ghost(outs)) =
            trigger_system.cascade(initial_actions);
        proof {
            assert forall|j: int| 0 <= j < input.len() implies keeps_actions(
                input[j],
                #[trigger] drained(input)[j],
            ) && keeps_actions(drained(input)[j], trigger_system.triggers@[j]) by {
                assert(progressed(drained(input)[j], trigger_system.triggers@[j]));
            }
            lemma_handed_out_trans(input, drained(input), trigger_system.triggers@);
        }
        let r = CompiledTriggers { trigger_system, action_queue: into_queue(all_actions) };
        assert(dispatch_chain(states, events, ids, orders, outs));
        r
    }

    /// Execute the given event.
    ///
    /// The event is executed right away, and all resulting actions are appended to the action
    /// queue, waiting to be retrieved via [`Self::consume_action`] or [`Self::consume_all_actions`].
    pub fn execute_event(&mut self, event: &Event)
        requires
            old(self).wf(),
        ensures
            final(self).wf(),
            executed(*old(self), *final(self), *event),
            final(self).triggers().len() == old(self).triggers().len(),
            forall|t: int|
                0 <= t < old(self).triggers().len() ==> progressed(
                    old(self).triggers()[t],
                    #[trigger] final(self).triggers()[t],
                ),
            old(self).action_queue@.len() <= final(self).action_queue@.len(),
            final(self).action_queue@.take(old(self).action_queue@.len() as int) == old(self).action_queue@,
            pending(final(self).triggers()) + final(self).action_queue@.len() == pending(old(self).triggers())
                + old(self).action_queue@.len(),
            final(self).action_queue@.skip(old(self).action_queue@.len() as int).to_multiset() =~= handed_out(
                old(self).triggers(),
                final(self).triggers(),
            ),
            exists|
                states: Seq<Seq<CompiledTrigger<Event>>>,
                events: Seq<Event>,
                ids: Seq<u64>,
                orders: Seq<Seq<usize>>,
                outs: Seq<Seq<Event::Action>>,
            |
                {
                    &&& #[trigger] dispatch_chain(states, events, ids, orders, outs)
                    &&& final(self).action_queue@.skip(old(self).action_queue@.len() as int) == flatten_actions(outs)
                    &&& reinjected(
                        events.skip(1),
                        ids.skip(1),
                        final(self).action_queue@.skip(old(self).action_queue@.len() as int),
                    )
                    &&& ids.len() == final(self).action_queue@.len() - old(self).action_queue@.len() + 1
                    &&& events[0] == *event
                    &&& ids[0] == event.spec_identifier()
                    &&& states[0] == old(self).triggers()
                    &&& states.last() == final(self).triggers()
                },
            (forall|t: int|
                0 <= t < old(self).triggers().len() ==> !subs(#[trigger] old(self).triggers()[t].condition).contains(
                    event.spec_identifier(),
                )) ==> final(self).trigger_system == old(self).trigger_system && final(self).action_queue@
                == old(self).action_queue@,
    {
        let identifier = event.identifier();
        self.execute_identified_event(event, identifier);
        proof {
            reveal(executed);
        }
    }

    /// Execute the given event, which carries `identifier`.
    ///
    /// The event is dispatched to the triggers subscribed to `identifier`, and every action that
    /// results is re-injected as an event, one dispatch per action, until none is left. All
    /// these actions are appended to the action queue. [`Self::execute_event`] calls this with
    /// the event's own identifier.
    pub fn execute_identified_event(&mut self, event: &Event, identifier: u64)
        requires
            old(self).wf(),
        ensures
            final(self).wf(),
            final(self).triggers().len() == old(self).triggers().len(),
            forall|t: int|
                0 <= t < old(self).triggers().len() ==> progressed(
                    old(self).triggers()[t],
                    #[trigger] final(self).triggers()[t],
                ),
            old(self).action_queue@.len() <= final(self).action_queue@.len(),
            final(self).action_queue@.take(old(self).action_queue@.len() as int) == old(self).action_queue@,
            pending(final(self).triggers()) + final(self).action_queue@.len() == pending(old(self).triggers())
                + old(self).action_queue@.len(),
            final(self).action_queue@.skip(old(self).action_queue@.len() as int).to_multiset() =~= handed_out(
                old(self).triggers(),
                final(self).triggers(),
            ),
            exists|
                states: Seq<Seq<CompiledTrigger<Event>>>,
                events: Seq<Event>,
                ids: Seq<u64>,
                orders: Seq<Seq<usize>>,
                outs: Seq<Seq<Event::Action>>,
            |
                {
                    &&& #[trigger] dispatch_chain(states, events, ids, orders, outs)
                    &&& final(self).action_queue@.skip(old(self).action_queue@.len() as int) == flatten_actions(outs)
                    &&& reinjected(
                        events.skip(1),
                        ids.skip(1),
                        final(self).action_queue@.skip(old(self).action_queue@.len() as int),
                    )
                    &&& ids.len() == final(self).action_queue@.len() - old(self).action_queue@.len() + 1
                    &&& events[0] == *event
                    &&& ids[0] == identifier
                    &&& states[0] == old(self).triggers()
                    &&& states.last() == final(self).triggers()
                },
            (forall|t: int|
                0 <= t < old(self).triggers().len() ==> !subs(#[trigger] old(self).triggers()[t].condition).contains(
                    identifier,
                )) ==> final(self).trigger_system == old(self).trigger_system && final(self).action_queue@
                == old(self).action_queue@,
    {
        let actions = self.trigger_system.execute_event(event, identifier);
        let ghost before = self.action_queue@;
        append_to_queue(&mut self.action_queue, actions);
        assert(self.action_queue@.take(before.len() as int) =~= before);
        assert(self.action_queue@.skip(before.len() as int) =~= actions@);
        proof {
            let (states, events, ids, orders, outs) = choose|
                states: Seq<Seq<CompiledTrigger<Event>>>,
                events: Seq<Event>,
                ids: Seq<u64>,
                orders: Seq<Seq<usize>>,
                outs: Seq<Seq<Event::Action>>,
            |
                {
                    &&& #[trigger] dispatch_chain(states, events, ids, orders, outs)
                    &&& actions@ == flatten_actions(outs)
                    &&& reinjected(events.skip(1), ids.skip(1), actions@)
                    &&& ids.len() == actions.len() + 1
                    &&& events[0] == *event
                    &&& ids[0] == identifier
                    &&& states[0] == old(self).trigger_system.triggers@
                    &&& states.last() == self.trigger_system.triggers@
                };
            assert(dispatch_chain(states, events, ids, orders, outs));
        }
    }

    /// Execute the given events, in order.
    pub fn execute_events(&mut self, events: &Vec<Event>)
        requires
            old(self).wf(),
        ensures
            final(self).wf(),
            final(self).triggers().len() == old(self).triggers().len(),
            forall|t: int|
                0 <= t < old(self).triggers().len() ==> progressed(
                    old(self).triggers()[t],
                    #[trigger] final(self).triggers()[t],
                ),
            final(self).action_queue@.take(old(self).action_queue@.len() as int) == old(self).action_queue@,
            old(self).action_queue@.len() <= final(self).action_queue@.len(),
            pending(final(self).triggers()) + final(self).action_queue@.len() == pending(old(self).triggers())
                + old(self).action_queue@.len(),
            final(self).action_queue@.skip(old(self).action_queue@.len() as int).to_multiset() =~= handed_out(
                old(self).triggers(),
                final(self).triggers(),
            ),
            exists|snapshots: Seq<CompiledTriggers<Event>>|
                {
                    &&& snapshots.len() == events.len() + 1
                    &&& snapshots[0] == *old(self)
                    &&& snapshots.last() == *final(self)
                    &&& forall|i: int|
                        0 <= i < events.len() ==> executed(#[trigger] snapshots[i], snapshots[i + 1], events@[i])
                },
    {
        let ghost start = *self;
        let ghost mut snapshots: Seq<CompiledTriggers<Event>> = seq![start];
        let mut i: usize = 0;
        proof {
            lemma_handed_out_none(start.triggers());
            assert(start.action_queue@.skip(start.action_queue@.len() as int) =~= Seq::<Event::Action>::empty());
            vstd::seq_lib::to_multiset_len(Seq::<Event::Action>::empty());
        }
        while i < events.len()
            invariant
                i <= events.len(),
                self.wf(),
                self.triggers().len() == start.triggers().len(),
                forall|t: int|
                    0 <= t < start.triggers().len() ==> progressed(
                        start.triggers()[t],
                        #[trigger] self.triggers()[t],
                    ),
                self.action_queue@.take(start.action_queue@.len() as int) == start.action_queue@,
                start.action_queue@.len() <= self.action_queue@.len(),
                pending(self.triggers()) + self.action_queue@.len() == pending(start.triggers())
                    + start.action_queue@.len(),
                self.action_queue@.skip(start.action_queue@.len() as int).to_multiset() =~= handed_out(
                    start.triggers(),
                    self.triggers(),
                ),
                snapshots.len() == i + 1,
                snapshots[0] == start,
                snapshots.last() == *self,
                forall|j: int| 0 <= j < i ==> executed(#[trigger] snapshots[j], snapshots[j + 1], events@[j]),
            decreases events.len() - i,
        {
            let ghost before = *self;
            self.execute_event(&events[i]);
            proof {
                let prev = snapshots;
                snapshots = snapshots.push(*self);
                assert forall|j: int| 0 <= j < i + 1 implies executed(
                    #[trigger] snapshots[j],
                    snapshots[j + 1],
                    events@[j],
                ) by {
                    if j < i {
                        assert(snapshots[j] == prev[j] && snapshots[j + 1] == prev[j + 1]);
                    }
                }
            }
            proof {
                assert forall|t: int| 0 <= t < start.triggers().len() implies progressed(
                    start.triggers()[t],
                    #[trigger] self.triggers()[t],
                ) by {
                    assert(progressed(start.triggers()[t], before.triggers()[t]));
                    assert(progressed(before.triggers()[t], self.triggers()[t]));
                }
                assert(self.action_queue@.take(start.action_queue@.len() as int) =~= self.action_queue@.take(
                    before.action_queue@.len() as int,
                ).take(start.action_queue@.len() as int));
                let s0 = start.action_queue@.len() as int;
                let b0 = before.action_queue@.len() as int;
                assert(self.action_queue@.skip(s0) =~= before.action_queue@.skip(s0) + self.action_queue@.skip(b0));
                lemma_multiset_commutative(before.action_queue@.skip(s0), self.action_queue@.skip(b0));
                assert forall|t: int| 0 <= t < start.triggers().len() implies keeps_actions(
                    start.triggers()[t],
                    #[trigger] before.triggers()[t],
                ) && keeps_actions(before.triggers()[t], self.triggers()[t]) by {
                    assert(progressed(start.triggers()[t], before.triggers()[t]));
                    assert(progressed(before.triggers()[t], self.triggers()[t]));
                }
                lemma_handed_out_trans(start.triggers(), before.triggers(), self.triggers());
            }
            i = i + 1;
        }
    }

    /// Execute the given owned events, in order; they are dropped afterwards.
    pub fn execute_owned_events(&mut self, events: Vec<Event>)
        requires
            old(self).wf(),
        ensures
            final(self).wf(),
            final(self).triggers().len() == old(self).triggers().len(),
            forall|t: int|
                0 <= t < old(self).triggers().len() ==> progressed(
                    old(self).triggers()[t],
                    #[trigger] final(self).triggers()[t],
                ),
            final(self).action_queue@.take(old(self).action_queue@.len() as int) == old(self).action_queue@,
            old(self).action_queue@.len() <= final(self).action_queue@.len(),
            pending(final(self).triggers()) + final(self).action_queue@.len() == pending(old(self).triggers())
                + old(self).action_queue@.len(),
            final(self).action_queue@.skip(old(self).action_queue@.len() as int).to_multiset() =~= handed_out(
                old(self).triggers(),
                final(self).triggers(),
            ),
            exists|snapshots: Seq<CompiledTriggers<Event>>|
                {
                    &&& snapshots.len() == events.len() + 1
                    &&& snapshots[0] == *old(self)
                    &&& snapshots.last() == *final(self)
                    &&& forall|i: int|
                        0 <= i < events.len() ==> executed(#[trigger] snapshots[i], snapshots[i + 1], events@[i])
                },
    {
        self.execute_events(&events);
    }

    /// Consume an action from the action queue, if there is one.
    pub fn consume_action(&mut self) -> (r: Option<Event::Action>)
        ensures
            r == if old(self).action_queue@.len() > 0 {
                Some(old(self).action_queue@[0])
            } else {
                None
            },
            final(self).action_queue@ == if old(self).action_queue@.len() > 0 {
                old(self).action_queue@.drop_first()
            } else {
                old(self).action_queue@
            },
            final(self).trigger_system == old(self).trigger_system,
    {
        self.action_queue.pop_front()
    }

    /// Consume all actions from the action queue, in order.
    pub fn consume_all_actions(&mut self) -> (r: Vec<Event::Action>)
        ensures
            r@ == old(self).action_queue@,
            final(self).action_queue@.len() == 0,
            final(self).trigger_system == old(self).trigger_system,
    {
        let ghost all = self.action_queue@;
        let mut out: Vec<Event::Action> = Vec::new();
        while self.action_queue.len() > 0
            invariant
                out@ + self.action_queue@ == all,
                self.trigger_system == old(self).trigger_system,
            decreases self.action_queue@.len(),
        {
            match self.action_queue.pop_front() {
                Some(a) => {
                    out.push(a);
                },
                None => {},
            }
            assert(out@ + self.action_queue@ =~= all);
        }
        assert(out@ =~= all);
        out
    }

    /// Returns the progress of the given trigger as `(current_progress, required_progress)`,
    /// or `None` if there is no trigger with that handle.
    ///
    /// When `current_progress` reaches `required_progress`, the trigger triggers.
    pub fn progress(&self, handle: TriggerHandle) -> (r: Option<(u64, u64)>)
        ensures
            r == if handle.0 < self.triggers().len() {
                Some(
                    (
                        self.triggers()[handle.0 as int].condition.current_progress,
                        self.triggers()[handle.0 as int].condition.required_progress,
                    ),
                )
            } else {
                None
            },
    {
        if handle.0 < self.trigger_system.triggers.len() {
            Some(self.trigger_system.triggers[handle.0].progress())
        } else {
            None
        }
    }
}

impl<Event, Action> Trigger<Event, Action> {
    /// Creates a new raw trigger.
    pub fn new(id_str: String, condition: TriggerCondition<Event>, actions: Vec<Action>) -> (r: Self)
        ensures
            r.id_str == id_str,
            r.condition == condition,
            r.actions == actions,
    {
        Trigger { id_str, condition, actions }
    }

    /// Compiles this trigger.
    ///
    /// Events are compiled by the event compiler, and actions are compiled by the action compiler.
    pub fn compile<
        CompiledEvent: TriggerEvent,
        EventCompiler: Fn(Event) -> CompiledEvent,
        ActionCompiler: Fn(Action) -> CompiledEvent::Action,
    >(self, event_compiler: &EventCompiler, action_compiler: &ActionCompiler) -> (r: CompiledTrigger<CompiledEvent>)
        requires
            compilable(self.condition),
            forall|e: Event| event_compiler.requires((e,)),
            forall|a: Action| action_compiler.requires((a,)),
        ensures
            trigger_compiled_from(r, self, *event_compiler, *action_compiler),
    {
        let condition = self.condition.compile(event_compiler);
        let actions = map_in_order(self.actions, action_compiler);
        CompiledTrigger::new(self.id_str, condition, actions)
    }
}

impl<Event, Action> Triggers<Event, Action> {
    /// Create a new raw triggers instance.
    pub fn new(triggers: Vec<Trigger<Event, Action>>) -> (r: Self)
        ensures
            r.triggers == triggers,
    {
        Triggers { triggers }
    }

    /// Compile the raw triggers.
    ///
    /// Events are compiled by the event compiler, and actions are compiled by the action
    /// compiler. Triggers whose conditions are fulfilled from the start fire right away.
    pub fn compile<
        CompiledEvent: TriggerEvent,
        EventCompiler: Fn(Event) -> CompiledEvent,
        ActionCompiler: Fn(Action) -> CompiledEvent::Action,
    >(self, event_compiler: &EventCompiler, action_compiler: &ActionCompiler) -> (r: CompiledTriggers<CompiledEvent>)
        requires
            forall|t: int|
                0 <= t < self.triggers.len() ==> compilable((#[trigger] self.triggers@[t]).condition) && leaves_fit(
                    condition_leaves(self.triggers@[t].condition),
                ),
            forall|e: Event| event_compiler.requires((e,)),
            forall|a: Action| action_compiler.requires((a,)),
        ensures
            r.wf(),
            r.triggers().len() == self.triggers.len(),
            forall|t: int|
                0 <= t < self.triggers.len() ==> (#[trigger] r.triggers()[t]).id_str == self.triggers@[t].id_str
                    && r.triggers()[t].condition.required_progress == condition_required(
                    self.triggers@[t].condition,
                ),
            exists|compiled: Seq<CompiledTrigger<CompiledEvent>>|
                {
                    &&& compiled.len() == self.triggers.len()
                    &&& forall|t: int|
                        0 <= t < compiled.len() ==> trigger_compiled_from(
                            #[trigger] compiled[t],
                            self.triggers@[t],
                            *event_compiler,
                            *action_compiler,
                        )
                    &&& constructed_from(r, compiled)
                },
    {
        let ghost all = self.triggers@;
        let mut rest = self.triggers;
        let mut reversed: Vec<Trigger<Event, Action>> = Vec::new();
        while rest.len() > 0
            invariant
                rest.len() + reversed.len() == all.len(),
                rest@ == all.take(rest.len() as int),
                forall|i: int| 0 <= i < reversed.len() ==> #[trigger] reversed@[i] == all[all.len() - 1 - i],
            decreases rest.len(),
        {
            match rest.pop() {
                Some(t) => {
                    reversed.push(t);
                },
                None => {},
            }
        }
        let mut compiled: Vec<CompiledTrigger<CompiledEvent>> = Vec::new();
        while reversed.len() > 0
            invariant
                compiled.len() + reversed.len() == all.len(),
                forall|i: int| 0 <= i < reversed.len() ==> #[trigger] reversed@[i] == all[all.len() - 1 - i],
                forall|t: int|
                    0 <= t < all.len() ==> compilable((#[trigger] all[t]).condition) && leaves_fit(
                        condition_leaves(all[t].condition),
                    ),
                forall|i: int|
                    0 <= i < compiled.len() ==> {
                        &&& wf((#[trigger] compiled@[i]).condition)
                        &&& compiled@[i].actions is Some
                        &&& leaves_fit(leaves(compiled@[i].condition))
                        &&& compiled@[i].id_str == all[i].id_str
                        &&& compiled@[i].condition.required_progress == condition_required(
                            all[i].condition,
                        )
                        &&& trigger_compiled_from(compiled@[i], all[i], *event_compiler, *action_compiler)
                    },
                forall|e: Event| event_compiler.requires((e,)),
                forall|a: Action| action_compiler.requires((a,)),
            decreases reversed.len(),
        {
            match reversed.pop() {
                Some(t) => {
                    compiled.push(t.compile(event_compiler, action_compiler));
                },
                None => {},
            }
        }
        let ghost compiled_view = compiled@;
        let r = CompiledTriggers::new(compiled);
        assert(constructed_from(r, compiled_view));
        r
    }
}

impl From<usize> for TriggerHandle {
    fn from(value: usize) -> (r: Self) {
        TriggerHandle(value)
    }
}

impl vstd::std_specs::convert::FromSpecImpl<usize> for TriggerHandle {
    open spec fn obeys_from_spec() -> bool {
        true
    }

    open spec fn from_spec(v: usize) -> Self {
        TriggerHandle(v)
    }
}


/// Progress stays within the requirement: in a well-formed system every trigger's current
/// progress is at most its required progress. (That it never decreases is stated by
/// [`CompiledTriggers::execute_event`] and [`CompiledTriggers::execute_events`].)
pub proof fn lemma_progress_within_requirement<Event: TriggerEvent>(s: CompiledTriggers<Event>, t: int)
    requires
        s.wf(),
        0 <= t < s.triggers().len(),
    ensures
        s.triggers()[t].condition.current_progress <= s.triggers()[t].condition.required_progress,
{
    assert(trigger_wf(s.triggers()[t]));
}

/// A trigger fires at most once: it holds its actions exactly while its condition is
/// unfulfilled, and (by [`progressed`]) a fulfilled trigger never changes again, so its
/// actions cannot be handed out a second time.
pub proof fn lemma_single_fire<Event: TriggerEvent>(s: CompiledTriggers<Event>, t: int)
    requires
        s.wf(),
        0 <= t < s.triggers().len(),
    ensures
        s.triggers()[t].actions is Some <==> !s.triggers()[t].condition.completed,
{
    assert(trigger_wf(s.triggers()[t]));
}

/// The subscription index is exact: the number of entries for an identifier and a trigger is
/// the number of the trigger's unfulfilled reachable leaves that name the identifier, and a
/// fulfilled trigger has no entries at all.
pub proof fn lemma_subscription_bookkeeping<Event: TriggerEvent>(s: CompiledTriggers<Event>, id: u64, t: usize)
    requires
        s.wf(),
        t < s.triggers().len(),
    ensures
        index_contents(s.trigger_system.subscriptions).count((id, t)) == subs(s.triggers()[t as int].condition).count(
            id,
        ),
        s.triggers()[t as int].condition.completed ==> index_contents(s.trigger_system.subscriptions).count((id, t))
            == 0,
{
    broadcast use vstd::multiset::group_multiset_axioms;

    assert(index_contents(s.trigger_system.subscriptions).count((id, t)) == subs(
        s.trigger_system.triggers@[t as int].condition,
    ).count(id));
}

} // verus!
