//! The running form of conditions: a tree of nodes with their state, how an event steps it,
//! and the subscriptions it needs.
use crate::progress::{
    ascending, lemma_scaled_le, lemma_sum_pointwise_le, lemma_sum_prefix_le, sort_ascending, sum_largest, sum_of,
    sum_range, sum_range_wide, sum_smallest,
};
use crate::triggers::TriggerEvent;
use std::cmp::Ordering;
use vstd::multiset::Multiset;
use vstd::prelude::*;
use vstd::seq_lib::lemma_multiset_commutative;

verus! {

/// A change to the subscriptions of a trigger, emitted while its condition executes an event.
#[derive(Debug, Clone, Copy, Eq, PartialEq)]
pub enum TriggerConditionUpdate<Identifier> {
    /// The trigger now also needs events with this identifier.
    Subscribe(Identifier),
    /// The trigger needs one subscription to this identifier less.
    Unsubscribe(Identifier),
}

/// The identifiers subscribed to by the given updates, with multiplicity.
pub open spec fn subscribed(u: Seq<TriggerConditionUpdate<u64>>) -> Multiset<u64>
    decreases u.len(),
{
    if u.len() == 0 {
        Multiset::empty()
    } else {
        match u.last() {
            TriggerConditionUpdate::Subscribe(id) => subscribed(u.drop_last()).insert(id),
            TriggerConditionUpdate::Unsubscribe(_) => subscribed(u.drop_last()),
        }
    }
}

/// The identifiers unsubscribed from by the given updates, with multiplicity.
pub open spec fn unsubscribed(u: Seq<TriggerConditionUpdate<u64>>) -> Multiset<u64>
    decreases u.len(),
{
    if u.len() == 0 {
        Multiset::empty()
    } else {
        match u.last() {
            TriggerConditionUpdate::Unsubscribe(id) => unsubscribed(u.drop_last()).insert(id),
            TriggerConditionUpdate::Subscribe(_) => unsubscribed(u.drop_last()),
        }
    }
}

/// One unit of progress in the fixed-point progress scale: a progress of `1.0` is
/// `PROGRESS_UNIT`, so the scale resolves steps of one millionth.
pub const PROGRESS_UNIT: u64 = 1_000_000;

/// The ordering that a comparison condition asks of an incoming event against its reference event.
#[derive(Debug, Clone, Copy, PartialEq, Eq, Structural)]
pub enum Comparison {
    /// The incoming event is greater than the reference event.
    Greater,
    /// The incoming event is greater than or equal to the reference event.
    GreaterOrEqual,
    /// The incoming event is equal to the reference event.
    Equal,
    /// The incoming event is less than or equal to the reference event.
    LessOrEqual,
    /// The incoming event is less than the reference event.
    Less,
}

/// The state of a compiled condition node, by kind.
///
/// A composite node keeps its children in the order they were given; a child whose
/// `completed` flag is set is one of the node's fulfilled children, the others are active.
#[derive(Debug)]
pub enum CompiledTriggerConditionKind<Event> {
    /// Always fulfilled.
    Always,
    /// Never fulfilled.
    Never,
    /// Counts the events that carry `identifier`.
    EventCount { identifier: u64, count: usize, required: usize },
    /// Compares incoming events that carry `reference_identifier` against `reference_event`.
    Compare {
        comparison: Comparison,
        reference_event: Event,
        reference_identifier: u64,
        fulfilled: bool,
    },
    /// The conditions before `current_index` are fulfilled; the one at it is active.
    Sequence { current_index: usize, conditions: Vec<CompiledTriggerCondition<Event>> },
    /// Fulfilled when all children are.
    And { conditions: Vec<CompiledTriggerCondition<Event>> },
    /// Fulfilled when a child is.
    Or { conditions: Vec<CompiledTriggerCondition<Event>> },
    /// Fulfilled when `n` children are.
    AnyN { conditions: Vec<CompiledTriggerCondition<Event>>, n: usize },
}

/// A compiled trigger condition: a node of the running condition tree with its state.
///
/// Progress is measured in the fixed-point scale of [`PROGRESS_UNIT`].
#[derive(Debug)]
pub struct CompiledTriggerCondition<Event> {
    /// The kind of the node, with its local state and children.
    pub kind: CompiledTriggerConditionKind<Event>,
    /// Whether the node is fulfilled.
    pub completed: bool,
    /// The progress at which the node is fulfilled.
    pub required_progress: u64,
    /// The progress reached so far; it never decreases.
    pub current_progress: u64,
}

/// The identifiers that a node currently needs to receive, with multiplicity.
pub open spec fn subs<Event>(c: CompiledTriggerCondition<Event>) -> Multiset<u64>
    decreases c,
{
    if c.completed {
        Multiset::empty()
    } else {
        kind_subs(c.kind)
    }
}

/// The identifiers that an unfulfilled node of the given kind needs to receive, with multiplicity.
pub open spec fn kind_subs<Event>(k: CompiledTriggerConditionKind<Event>) -> Multiset<u64>
    decreases k,
{
    match k {
        CompiledTriggerConditionKind::EventCount { identifier, .. } => Multiset::singleton(identifier),
        CompiledTriggerConditionKind::Compare { reference_identifier, .. } => Multiset::singleton(
            reference_identifier,
        ),
        CompiledTriggerConditionKind::Sequence { current_index, conditions } => {
            if current_index < conditions.len() {
                subs(conditions@[current_index as int])
            } else {
                Multiset::empty()
            }
        },
        CompiledTriggerConditionKind::And { conditions } => subs_of(conditions@),
        CompiledTriggerConditionKind::Or { conditions } => subs_of(conditions@),
        CompiledTriggerConditionKind::AnyN { conditions, .. } => subs_of(conditions@),
        _ => Multiset::empty(),
    }
}

/// The union, with multiplicity, of the subscriptions of the given nodes.
pub open spec fn subs_of<Event>(s: Seq<CompiledTriggerCondition<Event>>) -> Multiset<u64>
    decreases s,
{
    if s.len() == 0 {
        Multiset::empty()
    } else {
        subs_of(s.drop_last()).add(subs(s.last()))
    }
}

/// The identifiers that a node currently needs to receive, in order: for a composite node, the
/// lists of its children one after the other.
pub open spec fn subs_list<Event>(c: CompiledTriggerCondition<Event>) -> Seq<u64>
    decreases c,
{
    if c.completed {
        Seq::empty()
    } else {
        kind_subs_list(c.kind)
    }
}

/// The identifiers that an unfulfilled node of the given kind needs to receive, in order.
pub open spec fn kind_subs_list<Event>(k: CompiledTriggerConditionKind<Event>) -> Seq<u64>
    decreases k,
{
    match k {
        CompiledTriggerConditionKind::EventCount { identifier, .. } => seq![identifier],
        CompiledTriggerConditionKind::Compare { reference_identifier, .. } => seq![reference_identifier],
        CompiledTriggerConditionKind::Sequence { current_index, conditions } => {
            if current_index < conditions.len() {
                subs_list(conditions@[current_index as int])
            } else {
                Seq::empty()
            }
        },
        CompiledTriggerConditionKind::And { conditions } => subs_list_of(conditions@),
        CompiledTriggerConditionKind::Or { conditions } => subs_list_of(conditions@),
        CompiledTriggerConditionKind::AnyN { conditions, .. } => subs_list_of(conditions@),
        _ => Seq::empty(),
    }
}

/// The identifiers that the given nodes need to receive, node after node.
pub open spec fn subs_list_of<Event>(s: Seq<CompiledTriggerCondition<Event>>) -> Seq<u64>
    decreases s,
{
    if s.len() == 0 {
        Seq::empty()
    } else {
        subs_list_of(s.drop_last()) + subs_list(s.last())
    }
}

/// One subscription update per identifier, in order.
pub open spec fn subscribe_list(ids: Seq<u64>) -> Seq<TriggerConditionUpdate<u64>> {
    ids.map_values(|id: u64| TriggerConditionUpdate::Subscribe(id))
}

/// One unsubscription update per identifier, in order.
pub open spec fn unsubscribe_list(ids: Seq<u64>) -> Seq<TriggerConditionUpdate<u64>> {
    ids.map_values(|id: u64| TriggerConditionUpdate::Unsubscribe(id))
}

/// The number of leaves (event counters and comparisons) in a condition tree.
pub open spec fn leaves<Event>(c: CompiledTriggerCondition<Event>) -> nat
    decreases c,
{
    match c.kind {
        CompiledTriggerConditionKind::EventCount { .. } => 1,
        CompiledTriggerConditionKind::Compare { .. } => 1,
        CompiledTriggerConditionKind::Sequence { conditions, .. } => leaves_of(conditions@),
        CompiledTriggerConditionKind::And { conditions } => leaves_of(conditions@),
        CompiledTriggerConditionKind::Or { conditions } => leaves_of(conditions@),
        CompiledTriggerConditionKind::AnyN { conditions, .. } => leaves_of(conditions@),
        _ => 0,
    }
}

/// The number of leaves in the given condition trees.
pub open spec fn leaves_of<Event>(s: Seq<CompiledTriggerCondition<Event>>) -> nat
    decreases s,
{
    if s.len() == 0 {
        0
    } else {
        leaves_of(s.drop_last()) + leaves(s.last())
    }
}

/// The required progress of each of the given nodes.
pub open spec fn required_values<Event>(s: Seq<CompiledTriggerCondition<Event>>) -> Seq<u64> {
    s.map_values(|c: CompiledTriggerCondition<Event>| c.required_progress)
}

/// The current progress of each of the given nodes.
pub open spec fn current_values<Event>(s: Seq<CompiledTriggerCondition<Event>>) -> Seq<u64> {
    s.map_values(|c: CompiledTriggerCondition<Event>| c.current_progress)
}

/// The number of fulfilled nodes among the given ones.
pub open spec fn count_completed<Event>(s: Seq<CompiledTriggerCondition<Event>>) -> nat
    decreases s.len(),
{
    if s.len() == 0 {
        0
    } else {
        count_completed(s.drop_last()) + if s.last().completed { 1nat } else { 0nat }
    }
}

/// The required progress of a node, from its kind and the stored required progress of its children.
pub open spec fn local_required<Event>(k: CompiledTriggerConditionKind<Event>) -> int {
    match k {
        CompiledTriggerConditionKind::Always => 0,
        CompiledTriggerConditionKind::Never => PROGRESS_UNIT as int,
        CompiledTriggerConditionKind::EventCount { required, .. } => required * PROGRESS_UNIT,
        CompiledTriggerConditionKind::Compare { .. } => PROGRESS_UNIT as int,
        CompiledTriggerConditionKind::Sequence { conditions, .. } => sum_of(required_values(conditions@)),
        CompiledTriggerConditionKind::And { conditions } => sum_of(required_values(conditions@)),
        CompiledTriggerConditionKind::Or { conditions } => sum_smallest(required_values(conditions@), 1),
        CompiledTriggerConditionKind::AnyN { conditions, n } => sum_smallest(
            required_values(conditions@),
            n as int,
        ),
    }
}

/// Whether a node is fulfilled, from its kind and local state.
pub open spec fn local_completed<Event>(k: CompiledTriggerConditionKind<Event>) -> bool {
    match k {
        CompiledTriggerConditionKind::Always => true,
        CompiledTriggerConditionKind::Never => false,
        CompiledTriggerConditionKind::EventCount { count, required, .. } => count >= required,
        CompiledTriggerConditionKind::Compare { fulfilled, .. } => fulfilled,
        CompiledTriggerConditionKind::Sequence { current_index, conditions } => current_index >= conditions.len(),
        CompiledTriggerConditionKind::And { conditions } => count_completed(conditions@) == conditions.len(),
        CompiledTriggerConditionKind::Or { conditions } => count_completed(conditions@) >= 1,
        CompiledTriggerConditionKind::AnyN { conditions, n } => count_completed(conditions@) >= n,
    }
}

/// Whether a freshly built node of the given kind is fulfilled: as after a step, except that
/// an `Or` is fulfilled only once none of its children is active (and it has children).
pub open spec fn initially_completed<Event>(k: CompiledTriggerConditionKind<Event>) -> bool {
    match k {
        CompiledTriggerConditionKind::Or { conditions } => conditions.len() > 0 && count_completed(conditions@)
            == conditions.len(),
        _ => local_completed(k),
    }
}

/// The given nodes are well formed.
pub open spec fn all_wf<Event>(s: Seq<CompiledTriggerCondition<Event>>) -> bool
    decreases s,
{
    forall|i: int| 0 <= i < s.len() ==> wf(#[trigger] s[i])
}

/// A well-formed node: its stored required progress and completion agree with its state,
/// its progress does not exceed what it requires and reaches it once the node is fulfilled,
/// and its children are well formed.
pub open spec fn wf<Event>(c: CompiledTriggerCondition<Event>) -> bool
    decreases c,
{
    &&& c.required_progress == local_required(c.kind)
    &&& c.current_progress <= c.required_progress
    &&& if c.kind is Or {
        &&& (c.completed ==> local_completed(c.kind))
        &&& (initially_completed(c.kind) ==> c.completed)
    } else {
        c.completed == local_completed(c.kind)
    }
    &&& c.completed ==> c.current_progress == c.required_progress
    &&& match c.kind {
        CompiledTriggerConditionKind::EventCount { count, required, .. } => count <= required,
        CompiledTriggerConditionKind::Sequence { current_index, conditions } => {
            &&& current_index <= conditions.len()
            &&& forall|i: int|
                0 <= i < conditions.len() ==> wf(#[trigger] conditions@[i]) && (conditions@[i].completed
                    <==> i < current_index)
        },
        CompiledTriggerConditionKind::And { conditions } => all_wf(conditions@),
        CompiledTriggerConditionKind::Or { conditions } => all_wf(conditions@),
        CompiledTriggerConditionKind::AnyN { conditions, .. } => all_wf(conditions@),
        _ => true,
    }
    &&& match c.kind {
        CompiledTriggerConditionKind::Compare { .. } => true,
        CompiledTriggerConditionKind::AnyN { .. } => true,
        _ => c.current_progress == computed_progress(c),
    }
}


/// The updates of the given lists, one list after the other.
pub open spec fn flatten_updates(us: Seq<Seq<TriggerConditionUpdate<u64>>>) -> Seq<TriggerConditionUpdate<u64>>
    decreases us.len(),
{
    if us.len() == 0 {
        Seq::empty()
    } else {
        flatten_updates(us.drop_last()) + us.last()
    }
}

/// Every update of the list subscribes.
pub open spec fn all_subscribe(u: Seq<TriggerConditionUpdate<u64>>) -> bool {
    forall|i: int| 0 <= i < u.len() ==> (#[trigger] u[i]) is Subscribe
}

/// Every update of the list unsubscribes.
pub open spec fn all_unsubscribe(u: Seq<TriggerConditionUpdate<u64>>) -> bool {
    forall|i: int| 0 <= i < u.len() ==> (#[trigger] u[i]) is Unsubscribe
}

/// How one event carrying `identifier` changes a node, and the subscription updates `u` that
/// the change emits. Requirement kept, progress not lower. An event counter counts exactly the
/// events that carry its identifier, and emits one unsubscription of it when it completes. A
/// comparison ignores other identifiers; otherwise it is fulfilled exactly when the host's
/// ordering of the event satisfies it, and then has full progress and emits one
/// unsubscription of its identifier, and if not, takes the closeness that the host reports
/// (never losing progress). A sequence steps
/// the child at its cursor alone, emitting that child's updates, and moves the cursor on
/// exactly when that child is then fulfilled, subscribing to what the next child needs.
/// `And`, `Or` and `AnyN` step each of their active children in order, emitting their updates
/// one after the other, and leave their fulfilled children as they are; a fulfilled `Or` or
/// `AnyN` then unsubscribes, one update each, from everything its remaining children still
/// needed.
pub open spec fn stepped<Event: TriggerEvent>(
    a: CompiledTriggerCondition<Event>,
    b: CompiledTriggerCondition<Event>,
    event: Event,
    identifier: u64,
    u: Seq<TriggerConditionUpdate<u64>>,
) -> bool
    decreases a,
{
    &&& b.required_progress == a.required_progress
    &&& a.current_progress <= b.current_progress
    &&& match a.kind {
        CompiledTriggerConditionKind::EventCount { identifier: counted, count, required } => {
            &&& b.kind == (CompiledTriggerConditionKind::<Event>::EventCount {
                identifier: counted,
                count: (if counted == identifier { count + 1 } else { count as int }) as usize,
                required,
            })
            &&& u == if b.completed {
                seq![TriggerConditionUpdate::Unsubscribe(counted)]
            } else {
                Seq::empty()
            }
        },
        CompiledTriggerConditionKind::Compare {
            comparison,
            reference_event,
            reference_identifier,
            ..
        } => if reference_identifier == identifier {
            &&& b.kind matches CompiledTriggerConditionKind::Compare {
                comparison: c2,
                reference_event: e2,
                reference_identifier: r2,
                fulfilled: f2,
            }
            &&& c2 == comparison
            &&& e2 == reference_event
            &&& r2 == reference_identifier
            &&& f2 == (event.spec_partial_cmp(&reference_event) matches Some(o) && comparison.holds(o))
            &&& (f2 ==> b.current_progress == PROGRESS_UNIT)
            &&& (!f2 ==> b.current_progress == comparison_progress(
                a.current_progress,
                event.spec_cmp_progress(&reference_event, comparison.closest()),
            ))
            &&& u == if f2 {
                seq![TriggerConditionUpdate::Unsubscribe(reference_identifier)]
            } else {
                Seq::empty()
            }
        } else {
            b == a && u.len() == 0
        },
        CompiledTriggerConditionKind::Sequence { current_index, conditions } => {
            &&& b.kind matches CompiledTriggerConditionKind::Sequence { current_index: i2, conditions: c2 }
            &&& c2.len() == conditions.len()
            &&& current_index < conditions.len()
            &&& i2 == if c2@[current_index as int].completed { current_index + 1 } else { current_index as int }
            &&& forall|j: int| 0 <= j < conditions.len() && j != current_index ==> #[trigger] c2@[j] == conditions@[j]
            &&& exists|k: int|
                {
                    &&& 0 <= k <= u.len()
                    &&& stepped(
                        conditions@[current_index as int],
                        c2@[current_index as int],
                        event,
                        identifier,
                        #[trigger] u.take(k),
                    )
                    &&& all_subscribe(u.skip(k))
                    &&& if i2 != current_index && i2 < c2.len() {
                        &&& subscribed(u.skip(k)) == subs(c2@[i2 as int])
                        &&& u.skip(k) == subscribe_list(subs_list(c2@[i2 as int]))
                    } else {
                        u.skip(k).len() == 0
                    }
                }
        },
        CompiledTriggerConditionKind::And { conditions } => {
            &&& b.kind matches CompiledTriggerConditionKind::And { conditions: c2 }
            &&& exists|us: Seq<Seq<TriggerConditionUpdate<u64>>>|
                children_stepped(conditions@, c2@, event, identifier, us) && u == #[trigger] flatten_updates(us)
        },
        CompiledTriggerConditionKind::Or { conditions } => {
            &&& b.kind matches CompiledTriggerConditionKind::Or { conditions: c2 }
            &&& exists|us: Seq<Seq<TriggerConditionUpdate<u64>>>, k: int|
                {
                    &&& children_stepped(conditions@, c2@, event, identifier, us)
                    &&& 0 <= k <= u.len()
                    &&& #[trigger] u.take(k) == #[trigger] flatten_updates(us)
                    &&& all_unsubscribe(u.skip(k))
                    &&& if b.completed {
                        &&& unsubscribed(u.skip(k)) == subs_of(c2@)
                        &&& u.skip(k) == unsubscribe_list(subs_list_of(c2@))
                    } else {
                        u.skip(k).len() == 0
                    }
                }
        },
        CompiledTriggerConditionKind::AnyN { conditions, n } => {
            &&& b.kind matches CompiledTriggerConditionKind::AnyN { conditions: c2, n: n2 }
            &&& n2 == n
            &&& exists|us: Seq<Seq<TriggerConditionUpdate<u64>>>, k: int|
                {
                    &&& children_stepped(conditions@, c2@, event, identifier, us)
                    &&& 0 <= k <= u.len()
                    &&& #[trigger] u.take(k) == #[trigger] flatten_updates(us)
                    &&& all_unsubscribe(u.skip(k))
                    &&& if b.completed {
                        &&& unsubscribed(u.skip(k)) == subs_of(c2@)
                        &&& u.skip(k) == unsubscribe_list(subs_list_of(c2@))
                    } else {
                        u.skip(k).len() == 0
                    }
                }
        },
        _ => b.kind == a.kind && u.len() == 0,
    }
}

/// Each active node of `a` is stepped into the node of `b` at its place, emitting the updates
/// at its place in `us`; fulfilled nodes stay and emit nothing.
pub open spec fn children_stepped<Event: TriggerEvent>(
    a: Seq<CompiledTriggerCondition<Event>>,
    b: Seq<CompiledTriggerCondition<Event>>,
    event: Event,
    identifier: u64,
    us: Seq<Seq<TriggerConditionUpdate<u64>>>,
) -> bool
    decreases a,
{
    &&& a.len() == b.len()
    &&& us.len() == a.len()
    &&& forall|j: int|
        0 <= j < a.len() ==> if a[j].completed {
            #[trigger] b[j] == a[j] && us[j].len() == 0
        } else {
            stepped(a[j], b[j], event, identifier, us[j])
        }
}

/// The node that a step leaves: the given kind, fulfilled as that kind says, with the same
/// requirement, and the larger of its previous progress and the given one.
pub open spec fn stepped_node<Event>(
    kind: CompiledTriggerConditionKind<Event>,
    required: u64,
    old_progress: u64,
    progress: u64,
) -> CompiledTriggerCondition<Event> {
    CompiledTriggerCondition {
        kind,
        completed: local_completed(kind),
        required_progress: required,
        current_progress: if progress > old_progress { progress } else { old_progress },
    }
}

/// Counts the fulfilled nodes among the given ones.
fn completed_count<Event>(s: &Vec<CompiledTriggerCondition<Event>>) -> (r: usize)
    ensures
        r == count_completed(s@),
{
    let mut r: usize = 0;
    let mut i: usize = 0;
    while i < s.len()
        invariant
            i <= s.len(),
            r == count_completed(s@.take(i as int)),
            r <= i,
        decreases s.len() - i,
    {
        assert(s@.take(i as int + 1).drop_last() =~= s@.take(i as int));
        if s[i].completed {
            r = r + 1;
        }
        i = i + 1;
    }
    assert(s@.take(s.len() as int) =~= s@);
    r
}

/// Whether a node of the given kind is fulfilled.
fn kind_completed<Event>(kind: &CompiledTriggerConditionKind<Event>) -> (r: bool)
    ensures
        r == local_completed(*kind),
{
    match kind {
        CompiledTriggerConditionKind::Always => true,
        CompiledTriggerConditionKind::Never => false,
        CompiledTriggerConditionKind::EventCount { count, required, .. } => *count >= *required,
        CompiledTriggerConditionKind::Compare { fulfilled, .. } => *fulfilled,
        CompiledTriggerConditionKind::Sequence { current_index, conditions } => *current_index >= conditions.len(),
        CompiledTriggerConditionKind::And { conditions } => completed_count(conditions) == conditions.len(),
        CompiledTriggerConditionKind::Or { conditions } => completed_count(conditions) >= 1,
        CompiledTriggerConditionKind::AnyN { conditions, n } => completed_count(conditions) >= *n,
    }
}

/// The subscriptions of the given nodes, in order.
fn subscriptions_of<Event>(s: &Vec<CompiledTriggerCondition<Event>>) -> (r: Vec<u64>)
    requires
        all_wf(s@),
    ensures
        r@.to_multiset() == subs_of(s@),
        r@ == subs_list_of(s@),
    decreases s@,
{
    broadcast use vstd::seq_lib::group_to_multiset_ensures;

    let mut r: Vec<u64> = Vec::new();
    assert(s@.take(0) =~= Seq::<CompiledTriggerCondition<Event>>::empty());
    let mut i: usize = 0;
    while i < s.len()
        invariant
            i <= s.len(),
            all_wf(s@),
            r@.to_multiset() == subs_of(s@.take(i as int)),
            r@ == subs_list_of(s@.take(i as int)),
        decreases s.len() - i,
    {
        assert(s@.take(i as int + 1).drop_last() =~= s@.take(i as int));
        assert(wf(s@[i as int]));
        let mut sub = s[i].subscriptions();
        proof {
            lemma_multiset_commutative(r@, sub@);
        }
        r.append(&mut sub);
        i = i + 1;
    }
    assert(s@.take(s.len() as int) =~= s@);
    r
}

impl<Event> CompiledTriggerCondition<Event> {
    /// Returns the required progress of the compiled trigger condition.
    pub fn required_progress(&self) -> (r: u64)
        ensures
            r == self.required_progress,
    {
        self.required_progress
    }

    /// Returns the current progress of the compiled trigger condition.
    pub fn current_progress(&self) -> (r: u64)
        ensures
            r == self.current_progress,
    {
        self.current_progress
    }

    /// Returns true if the compiled trigger condition is completed.
    pub fn completed(&self) -> (r: bool)
        ensures
            r == self.completed,
    {
        self.completed
    }

    /// The identifiers this condition currently needs to receive, one entry per active leaf.
    pub fn subscriptions(&self) -> (r: Vec<u64>)
        requires
            wf(*self),
        ensures
            r@.to_multiset() == subs(*self),
            r@ == subs_list(*self),
        decreases *self,
    {
        broadcast use vstd::seq_lib::group_to_multiset_ensures;

        if self.completed {
            return Vec::new();
        }
        match &self.kind {
            CompiledTriggerConditionKind::EventCount { identifier, .. } => {
                let r = vec![*identifier];
                assert(r@ =~= seq![*identifier]);
                proof {
                    vstd::seq_lib::to_multiset_build(Seq::<u64>::empty(), *identifier);
                }
                assert(seq![*identifier] =~= Seq::<u64>::empty().push(*identifier));
                r
            },
            CompiledTriggerConditionKind::Compare { reference_identifier, .. } => {
                let r = vec![*reference_identifier];
                assert(r@ =~= seq![*reference_identifier]);
                proof {
                    vstd::seq_lib::to_multiset_build(Seq::<u64>::empty(), *reference_identifier);
                }
                assert(seq![*reference_identifier] =~= Seq::<u64>::empty().push(*reference_identifier));
                r
            },
            CompiledTriggerConditionKind::Sequence { current_index, conditions } => {
                if *current_index < conditions.len() {
                    assert(wf(conditions@[*current_index as int]));
                    conditions[*current_index].subscriptions()
                } else {
                    Vec::new()
                }
            },
            CompiledTriggerConditionKind::And { conditions } => subscriptions_of(conditions),
            CompiledTriggerConditionKind::Or { conditions } => subscriptions_of(conditions),
            CompiledTriggerConditionKind::AnyN { conditions, .. } => subscriptions_of(conditions),
            _ => Vec::new(),
        }
    }
}


/// Replacing one node of a list replaces its subscriptions in the union.
pub proof fn lemma_subs_of_update<Event>(
    s: Seq<CompiledTriggerCondition<Event>>,
    i: int,
    x: CompiledTriggerCondition<Event>,
)
    requires
        0 <= i < s.len(),
    ensures
        subs_of(s.update(i, x)).add(subs(s[i])) =~= subs_of(s).add(subs(x)),
    decreases s.len(),
{
    broadcast use vstd::multiset::group_multiset_axioms;

    let u = s.update(i, x);
    assert(subs_of(u) == subs_of(u.drop_last()).add(subs(u.last())));
    assert(subs_of(s) == subs_of(s.drop_last()).add(subs(s.last())));
    if i < s.len() - 1 {
        lemma_subs_of_update(s.drop_last(), i, x);
        assert(u.drop_last() =~= s.drop_last().update(i, x));
        assert(s.drop_last()[i] == s[i]);
        assert(u.last() == s.last());
        let a = subs_of(s.drop_last().update(i, x));
        let b = subs_of(s.drop_last());
        assert forall|v: u64| #[trigger] a.count(v) + subs(s[i]).count(v) == b.count(v) + subs(x).count(v) by {
            assert(a.add(subs(s[i])).count(v) == b.add(subs(x)).count(v));
        }
    } else {
        assert(u.drop_last() =~= s.drop_last());
    }
}

/// Replacing one node of a list replaces its leaves in the count.
pub proof fn lemma_leaves_of_update<Event>(
    s: Seq<CompiledTriggerCondition<Event>>,
    i: int,
    x: CompiledTriggerCondition<Event>,
)
    requires
        0 <= i < s.len(),
    ensures
        leaves_of(s.update(i, x)) + leaves(s[i]) == leaves_of(s) + leaves(x),
    decreases s.len(),
{
    if i < s.len() - 1 {
        lemma_leaves_of_update(s.drop_last(), i, x);
        assert(s.update(i, x).drop_last() =~= s.drop_last().update(i, x));
    } else {
        assert(s.update(i, x).drop_last() =~= s.drop_last());
    }
}

/// The leaves of a prefix of a list are among the leaves of the list, and a prefix grows by
/// the leaves of the next node.
pub proof fn lemma_leaves_of_prefix<Event>(s: Seq<CompiledTriggerCondition<Event>>, k: int)
    requires
        0 <= k <= s.len(),
    ensures
        leaves_of(s.take(k)) <= leaves_of(s),
        k < s.len() ==> leaves_of(s.take(k + 1)) == leaves_of(s.take(k)) + leaves(s[k]),
    decreases s.len() - k,
{
    if k < s.len() {
        assert(s.take(k + 1).drop_last() =~= s.take(k));
        lemma_leaves_of_prefix(s, k + 1);
    } else {
        assert(s.take(k) =~= s);
    }
}

/// A node subscribes to at most one identifier per leaf.
pub proof fn lemma_subs_len<Event>(c: CompiledTriggerCondition<Event>)
    ensures
        subs(c).len() <= leaves(c),
    decreases c,
{
    broadcast use vstd::multiset::group_multiset_axioms;

    if !c.completed {
        match c.kind {
            CompiledTriggerConditionKind::Sequence { current_index, conditions } => {
                if current_index < conditions.len() {
                    lemma_subs_len(conditions@[current_index as int]);
                    lemma_leaves_of_prefix(conditions@, current_index as int);
                    lemma_leaves_of_prefix(conditions@, current_index + 1);
                }
            },
            CompiledTriggerConditionKind::And { conditions } => lemma_subs_of_len(conditions@),
            CompiledTriggerConditionKind::Or { conditions } => lemma_subs_of_len(conditions@),
            CompiledTriggerConditionKind::AnyN { conditions, .. } => lemma_subs_of_len(conditions@),
            _ => {},
        }
    }
}

/// A list of nodes subscribes to at most one identifier per leaf.
pub proof fn lemma_subs_of_len<Event>(s: Seq<CompiledTriggerCondition<Event>>)
    ensures
        subs_of(s).len() <= leaves_of(s),
    decreases s,
{
    broadcast use vstd::multiset::group_multiset_axioms;

    if s.len() > 0 {
        lemma_subs_of_len(s.drop_last());
        lemma_subs_len(s.last());
    }
}

/// The subscriptions and unsubscriptions of two lists of updates, one after the other.
pub proof fn lemma_updates_concat(a: Seq<TriggerConditionUpdate<u64>>, b: Seq<TriggerConditionUpdate<u64>>)
    ensures
        subscribed(a + b) =~= subscribed(a).add(subscribed(b)),
        unsubscribed(a + b) =~= unsubscribed(a).add(unsubscribed(b)),
    decreases b.len(),
{
    broadcast use vstd::multiset::group_multiset_axioms;

    if b.len() == 0 {
        assert(a + b =~= a);
    } else {
        lemma_updates_concat(a, b.drop_last());
        assert((a + b).drop_last() =~= a + b.drop_last());
    }
}

/// Appends one update per identifier: a subscription if `subscribe`, else an unsubscription.
fn push_updates(updates: &mut Vec<TriggerConditionUpdate<u64>>, ids: &Vec<u64>, subscribe: bool)
    ensures
        final(updates)@ == old(updates)@ + if subscribe {
            subscribe_list(ids@)
        } else {
            unsubscribe_list(ids@)
        },
        final(updates)@.take(old(updates)@.len() as int) == old(updates)@,
        old(updates)@.len() <= final(updates)@.len(),
        if subscribe {
            all_subscribe(final(updates)@.skip(old(updates)@.len() as int))
        } else {
            all_unsubscribe(final(updates)@.skip(old(updates)@.len() as int))
        },
        subscribed(final(updates)@) =~= if subscribe {
            subscribed(old(updates)@).add(ids@.to_multiset())
        } else {
            subscribed(old(updates)@)
        },
        unsubscribed(final(updates)@) =~= if subscribe {
            unsubscribed(old(updates)@)
        } else {
            unsubscribed(old(updates)@).add(ids@.to_multiset())
        },
{
    broadcast use vstd::multiset::group_multiset_axioms;
    broadcast use vstd::seq_lib::group_to_multiset_ensures;

    let ghost start = updates@;
    let mut i: usize = 0;
    assert(ids@.take(0) =~= Seq::<u64>::empty());
    while i < ids.len()
        invariant
            i <= ids.len(),
            subscribed(updates@) =~= if subscribe {
                subscribed(start).add(ids@.take(i as int).to_multiset())
            } else {
                subscribed(start)
            },
            unsubscribed(updates@) =~= if subscribe {
                unsubscribed(start)
            } else {
                unsubscribed(start).add(ids@.take(i as int).to_multiset())
            },
            updates@.take(start.len() as int) == start,
            start.len() <= updates@.len(),
            forall|m: int|
                start.len() <= m < updates@.len() ==> if subscribe {
                    (#[trigger] updates@[m]) is Subscribe
                } else {
                    updates@[m] is Unsubscribe
                },
            updates@ == start + if subscribe {
                subscribe_list(ids@.take(i as int))
            } else {
                unsubscribe_list(ids@.take(i as int))
            },
        decreases ids.len() - i,
    {
        let ghost before = updates@;
        assert(ids@.take(i as int + 1) =~= ids@.take(i as int).push(ids@[i as int]));
        if subscribe {
            updates.push(TriggerConditionUpdate::Subscribe(ids[i]));
        } else {
            updates.push(TriggerConditionUpdate::Unsubscribe(ids[i]));
        }
        assert(updates@.drop_last() =~= before);
        assert(updates@.take(start.len() as int) =~= start);
        assert(updates@ =~= start + if subscribe {
            subscribe_list(ids@.take(i as int + 1))
        } else {
            unsubscribe_list(ids@.take(i as int + 1))
        });
        proof {
            vstd::seq_lib::to_multiset_build(ids@.take(i as int), ids@[i as int]);
            if subscribe {
                assert(subscribed(updates@) == subscribed(before).insert(ids@[i as int]));
                assert(unsubscribed(updates@) == unsubscribed(before));
            } else {
                assert(unsubscribed(updates@) == unsubscribed(before).insert(ids@[i as int]));
                assert(subscribed(updates@) == subscribed(before));
            }
        }
        i = i + 1;
    }
    assert(ids@.take(ids.len() as int) =~= ids@);
    assert forall|m: int| 0 <= m < updates@.skip(start.len() as int).len() implies if subscribe {
        (#[trigger] updates@.skip(start.len() as int)[m]) is Subscribe
    } else {
        updates@.skip(start.len() as int)[m] is Unsubscribe
    } by {
        assert(updates@.skip(start.len() as int)[m] == updates@[start.len() + m]);
    }
}


impl Comparison {
    /// Whether an incoming event in the given ordering against the reference event fulfils this comparison.
    pub open spec fn holds(self, o: Ordering) -> bool {
        match self {
            Comparison::Greater => o == Ordering::Greater,
            Comparison::GreaterOrEqual => o != Ordering::Less,
            Comparison::Equal => o == Ordering::Equal,
            Comparison::LessOrEqual => o != Ordering::Greater,
            Comparison::Less => o == Ordering::Less,
        }
    }

    /// Whether the ordering reported for an incoming event fulfils this comparison; events that
    /// cannot be ordered never do.
    pub fn is_fulfilled_by(&self, ordering: Option<Ordering>) -> (r: bool)
        ensures
            r == (ordering matches Some(o) && self.holds(o)),
    {
        match ordering {
            Some(Ordering::Greater) => matches!(self, Comparison::Greater | Comparison::GreaterOrEqual),
            Some(Ordering::Equal) => matches!(
                self,
                Comparison::GreaterOrEqual | Comparison::Equal | Comparison::LessOrEqual
            ),
            Some(Ordering::Less) => matches!(self, Comparison::LessOrEqual | Comparison::Less),
            None => false,
        }
    }

    /// The ordering that progress towards this comparison is measured against: the strict side
    /// for `>` and `<`, equality otherwise.
    pub open spec fn closest(self) -> Ordering {
        match self {
            Comparison::Greater => Ordering::Greater,
            Comparison::Less => Ordering::Less,
            _ => Ordering::Equal,
        }
    }

    /// The ordering that progress towards this comparison is measured against.
    pub fn closest_ordering(&self) -> (r: Ordering)
        ensures
            r == self.closest(),
    {
        match self {
            Comparison::Greater => Ordering::Greater,
            Comparison::Less => Ordering::Less,
            _ => Ordering::Equal,
        }
    }
}

/// `current` as a share of `required`, carried over to the scale `total`; zero if nothing is required.
pub open spec fn scaled(current: u64, required: u64, total: u64) -> int {
    if required == 0 {
        0
    } else {
        (current * total) / (required as int)
    }
}

/// The largest share of its requirement that any of the nodes has reached, on the scale `total`.
pub open spec fn max_scaled<Event>(s: Seq<CompiledTriggerCondition<Event>>, total: u64) -> int
    decreases s.len(),
{
    if s.len() == 0 {
        0
    } else {
        let m = max_scaled(s.drop_last(), total);
        let x = scaled(s.last().current_progress, s.last().required_progress, total);
        if x > m { x } else { m }
    }
}

/// A node's progress relative to its requirement, on the scale of [`PROGRESS_UNIT`]; a
/// fulfilled node counts as complete.
pub open spec fn relative<Event>(c: CompiledTriggerCondition<Event>) -> u64 {
    if c.completed {
        PROGRESS_UNIT
    } else {
        scaled(c.current_progress, c.required_progress, PROGRESS_UNIT) as u64
    }
}

/// The relative progress of each of the given nodes.
pub open spec fn relatives<Event>(s: Seq<CompiledTriggerCondition<Event>>) -> Seq<u64> {
    s.map_values(|c: CompiledTriggerCondition<Event>| relative(c))
}

/// The progress of an unfulfilled `AnyN` node: the mean of the `n` largest relative progresses
/// of its children, carried over to the node's requirement `total`.
pub open spec fn any_n_progress<Event>(s: Seq<CompiledTriggerCondition<Event>>, n: int, total: u64) -> int {
    ((sum_largest(relatives(s), n) / n) * total) / (PROGRESS_UNIT as int)
}

/// The progress of a sequence: the requirements of the fulfilled children before the cursor
/// plus the progress of the child at the cursor.
pub open spec fn sequence_progress<Event>(s: Seq<CompiledTriggerCondition<Event>>, cursor: int) -> int {
    sum_of(required_values(s).take(cursor)) + if cursor < s.len() {
        s[cursor].current_progress as int
    } else {
        0
    }
}

/// The progress that a node of the given kind, completion and requirement shows by its state:
/// a counter's count in units; for a sequence, the requirements of the children before the
/// cursor plus the progress of the child at it; for `And`, the sum of the children's progress;
/// for an unfulfilled `Or`, the largest share of its requirement that a child has reached,
/// carried over to the node's requirement; for an unfulfilled `AnyN`, the mean of the `n`
/// largest relative progresses of its children, likewise; a fulfilled node its requirement.
/// Comparisons take their progress from the events they receive instead.
pub open spec fn kind_computed<Event>(k: CompiledTriggerConditionKind<Event>, completed: bool, required: u64) -> int {
    match k {
        CompiledTriggerConditionKind::EventCount { count, .. } => count * PROGRESS_UNIT,
        CompiledTriggerConditionKind::Sequence { current_index, conditions } => sequence_progress(
            conditions@,
            current_index as int,
        ),
        CompiledTriggerConditionKind::And { conditions } => sum_of(current_values(conditions@)),
        CompiledTriggerConditionKind::Or { conditions } => if completed {
            required as int
        } else {
            max_scaled(conditions@, required)
        },
        CompiledTriggerConditionKind::AnyN { conditions, n } => if completed {
            required as int
        } else {
            any_n_progress(conditions@, n as int, required)
        },
        _ => 0,
    }
}

/// The progress that a node's state shows, for every kind but comparisons, whose progress
/// comes from the events they received.
pub open spec fn computed_progress<Event>(c: CompiledTriggerCondition<Event>) -> int {
    if c.kind is Compare {
        c.current_progress as int
    } else {
        kind_computed(c.kind, c.completed, c.required_progress)
    }
}

/// The parts of a node of the given kind are in order: a counter has not counted past its
/// requirement, a sequence's cursor is within its children, and all children are well formed.
pub open spec fn kind_parts_wf<Event>(k: CompiledTriggerConditionKind<Event>) -> bool {
    match k {
        CompiledTriggerConditionKind::EventCount { count, required, .. } => count <= required,
        CompiledTriggerConditionKind::Sequence { current_index, conditions } => current_index <= conditions.len()
            && all_wf(conditions@),
        CompiledTriggerConditionKind::And { conditions } => all_wf(conditions@),
        CompiledTriggerConditionKind::Or { conditions } => all_wf(conditions@),
        CompiledTriggerConditionKind::AnyN { conditions, .. } => all_wf(conditions@),
        _ => true,
    }
}

/// A node's share of its requirement does not decrease when its progress does not.
pub proof fn lemma_max_scaled_monotone<Event>(
    a: Seq<CompiledTriggerCondition<Event>>,
    b: Seq<CompiledTriggerCondition<Event>>,
    total: u64,
)
    requires
        a.len() == b.len(),
        forall|i: int|
            0 <= i < a.len() ==> (#[trigger] b[i]).required_progress == a[i].required_progress
                && a[i].current_progress <= b[i].current_progress,
    ensures
        max_scaled(a, total) <= max_scaled(b, total),
    decreases a.len(),
{
    if a.len() > 0 {
        let n = a.len() - 1;
        assert forall|i: int| 0 <= i < n implies (#[trigger] b.drop_last()[i]).required_progress
            == a.drop_last()[i].required_progress && a.drop_last()[i].current_progress
            <= b.drop_last()[i].current_progress by {
            assert(b.drop_last()[i] == b[i] && a.drop_last()[i] == a[i]);
        }
        lemma_max_scaled_monotone(a.drop_last(), b.drop_last(), total);
        let q = a[n].required_progress as int;
        let ca = a[n].current_progress as int;
        let cb = b[n].current_progress as int;
        assert(b[n].required_progress == a[n].required_progress && ca <= cb);
        if q > 0 {
            assert(ca * total <= cb * total) by (nonlinear_arith)
                requires
                    ca <= cb,
                    0 <= total,
            ;
            vstd::arithmetic::div_mod::lemma_div_is_ordered(ca * total, cb * total, q);
        }
    }
}

/// The progress of each of the given nodes is at most its requirement.
pub open spec fn progress_bounded<Event>(s: Seq<CompiledTriggerCondition<Event>>) -> bool {
    forall|i: int| 0 <= i < s.len() ==> #[trigger] s[i].current_progress <= s[i].required_progress
}

/// Collects the required progress of the given nodes.
fn required_vec<Event>(s: &Vec<CompiledTriggerCondition<Event>>) -> (r: Vec<u64>)
    ensures
        r@ == required_values(s@),
{
    let mut r: Vec<u64> = Vec::new();
    let mut i: usize = 0;
    while i < s.len()
        invariant
            i <= s.len(),
            r.len() == i,
            forall|j: int| 0 <= j < i ==> r@[j] == s@[j].required_progress,
        decreases s.len() - i,
    {
        r.push(s[i].required_progress);
        i = i + 1;
    }
    assert(r@ =~= required_values(s@));
    r
}

/// Collects the current progress of the given nodes.
fn current_vec<Event>(s: &Vec<CompiledTriggerCondition<Event>>) -> (r: Vec<u64>)
    ensures
        r@ == current_values(s@),
{
    let mut r: Vec<u64> = Vec::new();
    let mut i: usize = 0;
    while i < s.len()
        invariant
            i <= s.len(),
            r.len() == i,
            forall|j: int| 0 <= j < i ==> r@[j] == s@[j].current_progress,
        decreases s.len() - i,
    {
        r.push(s[i].current_progress);
        i = i + 1;
    }
    assert(r@ =~= current_values(s@));
    r
}

/// The progress of an unfulfilled comparison node after the host reports how close an event
/// came: that closeness, capped at one unit, unless the node had more already or the host
/// reported none.
pub open spec fn comparison_progress(old_progress: u64, closeness: Option<u64>) -> u64 {
    match closeness {
        Some(p) => {
            let capped = if p < PROGRESS_UNIT { p } else { PROGRESS_UNIT };
            if capped > old_progress { capped } else { old_progress }
        },
        None => old_progress,
    }
}

/// How a comparison node that receives an event of its own identifier responds to the host's
/// answers: `ordering` is the host's ordering of the event against the reference event, and
/// `closeness` how close that ordering is to the comparison's target. The node is fulfilled
/// exactly when the ordering satisfies the comparison, and then has full progress; otherwise
/// its progress becomes the host's closeness, capped at one unit, unless it had more already
/// or the host gave none.
pub fn comparison_step(
    comparison: Comparison,
    ordering: Option<Ordering>,
    closeness: Option<u64>,
    old_progress: u64,
) -> (r: (bool, u64))
    ensures
        r.0 == (ordering matches Some(o) && comparison.holds(o)),
        r.1 == if r.0 {
            PROGRESS_UNIT
        } else {
            comparison_progress(old_progress, closeness)
        },
{
    if comparison.is_fulfilled_by(ordering) {
        (true, PROGRESS_UNIT)
    } else {
        match closeness {
            Some(p) => {
                let capped = if p < PROGRESS_UNIT { p } else { PROGRESS_UNIT };
                (false, if capped > old_progress { capped } else { old_progress })
            },
            None => (false, old_progress),
        }
    }
}

/// `current * total / required`, or zero if nothing is required.
fn scale(current: u64, required: u64, total: u64) -> (r: u64)
    requires
        current <= required,
    ensures
        r == scaled(current, required, total),
        r <= total,
{
    if required == 0 {
        0
    } else {
        proof {
            lemma_scaled_le(current as int, required as int, total as int);
            assert(current * total <= u64::MAX * u64::MAX) by (nonlinear_arith)
                requires
                    current <= u64::MAX,
                    total <= u64::MAX,
            ;
        }
        ((current as u128 * total as u128) / required as u128) as u64
    }
}

/// The largest share of its requirement that any of the nodes has reached, on the scale `total`.
fn max_scaled_of<Event>(s: &Vec<CompiledTriggerCondition<Event>>, total: u64) -> (r: u64)
    requires
        progress_bounded(s@),
    ensures
        r == max_scaled(s@, total),
        r <= total,
{
    let mut m: u64 = 0;
    let mut i: usize = 0;
    assert(s@.take(0) =~= Seq::<CompiledTriggerCondition<Event>>::empty());
    while i < s.len()
        invariant
            i <= s.len(),
            progress_bounded(s@),
            m == max_scaled(s@.take(i as int), total),
            m <= total,
        decreases s.len() - i,
    {
        assert(s@.take(i as int + 1).drop_last() =~= s@.take(i as int));
        assert(s@[i as int].current_progress <= s@[i as int].required_progress);
        let x = scale(s[i].current_progress, s[i].required_progress, total);
        if x > m {
            m = x;
        }
        i = i + 1;
    }
    assert(s@.take(s.len() as int) =~= s@);
    m
}

/// Collects the relative progress of the given nodes.
fn relatives_vec<Event>(s: &Vec<CompiledTriggerCondition<Event>>) -> (r: Vec<u64>)
    requires
        progress_bounded(s@),
    ensures
        r@ == relatives(s@),
        forall|j: int| 0 <= j < r.len() ==> r@[j] <= PROGRESS_UNIT,
{
    let mut r: Vec<u64> = Vec::new();
    let mut i: usize = 0;
    while i < s.len()
        invariant
            i <= s.len(),
            progress_bounded(s@),
            r.len() == i,
            forall|j: int| 0 <= j < i ==> r@[j] == relative(s@[j]) && r@[j] <= PROGRESS_UNIT,
        decreases s.len() - i,
    {
        assert(s@[i as int].current_progress <= s@[i as int].required_progress);
        let x = if s[i].completed {
            PROGRESS_UNIT
        } else {
            scale(s[i].current_progress, s[i].required_progress, PROGRESS_UNIT)
        };
        r.push(x);
        i = i + 1;
    }
    assert(r@ =~= relatives(s@));
    r
}

/// The progress of an unfulfilled `AnyN` node with the given children.
fn any_n_progress_of<Event>(s: &Vec<CompiledTriggerCondition<Event>>, n: usize, total: u64) -> (r: u64)
    requires
        n > 0,
        progress_bounded(s@),
    ensures
        r == any_n_progress(s@, n as int, total),
        r <= total,
{
    let rel = relatives_vec(s);
    let sorted = sort_ascending(&rel);
    let len = sorted.len();
    proof {
        crate::progress::lemma_ascending_total();
        rel@.lemma_sort_by_ensures(ascending());
        vstd::seq_lib::to_multiset_len(rel@);
        vstd::seq_lib::to_multiset_len(sorted@);
        assert forall|j: int| 0 <= j < len implies sorted@[j] <= PROGRESS_UNIT by {
            assert(sorted@.contains(sorted@[j]));
            assert(rel@.contains(sorted@[j]));
        }
    }
    let k: usize = if n < len { n } else { len };
    let top = sum_range_wide(&sorted, len - k, len, PROGRESS_UNIT);
    assert(sorted@.skip(if n < rel@.len() { rel@.len() - n } else { 0 }) =~= sorted@.subrange(
        len - k,
        len as int,
    ));
    proof {
        assert(k * PROGRESS_UNIT <= n * PROGRESS_UNIT) by (nonlinear_arith)
            requires
                k <= n,
        ;
        vstd::arithmetic::div_mod::lemma_div_is_ordered(top as int, n * PROGRESS_UNIT, n as int);
        vstd::arithmetic::div_mod::lemma_div_multiples_vanish(PROGRESS_UNIT as int, n as int);
        vstd::arithmetic::div_mod::lemma_div_pos_is_pos(top as int, n as int);
    }
    let mean = top / (n as u128);
    proof {
        lemma_scaled_le(mean as int, PROGRESS_UNIT as int, total as int);
        assert(mean * total <= PROGRESS_UNIT * u64::MAX) by (nonlinear_arith)
            requires
                mean <= PROGRESS_UNIT,
                total <= u64::MAX,
        ;
    }
    ((mean * total as u128) / PROGRESS_UNIT as u128) as u64
}

/// The sum of the required progress of the first `k` of the given nodes.
fn required_prefix<Event>(s: &Vec<CompiledTriggerCondition<Event>>, k: usize) -> (r: u64)
    requires
        k <= s.len(),
        sum_of(required_values(s@)) <= u64::MAX,
    ensures
        r == sum_of(required_values(s@).take(k as int)),
{
    let v = required_vec(s);
    proof {
        lemma_sum_prefix_le(v@, k as int);
    }
    assert(v@.subrange(0, k as int) =~= v@.take(k as int));
    sum_range(&v, 0, k)
}


/// Executes the event on each active node, in order, and collects the subscription updates.
fn execute_children<Event: TriggerEvent>(
    conditions: &mut Vec<CompiledTriggerCondition<Event>>,
    event: &Event,
    identifier: u64,
) -> (r: Vec<TriggerConditionUpdate<u64>>)
    requires
        all_wf(old(conditions)@),
    ensures
        final(conditions).len() == old(conditions).len(),
        all_wf(final(conditions)@),
        forall|j: int|
            0 <= j < old(conditions).len() ==> {
                &&& (#[trigger] final(conditions)@[j]).required_progress == old(conditions)@[j].required_progress
                &&& (old(conditions)@[j].completed ==> final(conditions)@[j] == old(conditions)@[j])
            },
        exists|us: Seq<Seq<TriggerConditionUpdate<u64>>>|
            #[trigger] children_stepped(old(conditions)@, final(conditions)@, *event, identifier, us) && r@
                == flatten_updates(us),
        forall|j: int|
            0 <= j < old(conditions).len() ==> old(conditions)@[j].current_progress <= (
            #[trigger] final(conditions)@[j]).current_progress,
        subs_of(old(conditions)@).add(subscribed(r@)) =~= subs_of(final(conditions)@).add(unsubscribed(r@)),
        leaves_of(final(conditions)@) == leaves_of(old(conditions)@),
        subscribed(r@).len() <= leaves_of(old(conditions)@),
    decreases old(conditions)@,
{
    broadcast use vstd::multiset::group_multiset_axioms;
    broadcast use vstd::seq::group_seq_axioms;

    let ghost orig = conditions@;
    let ghost mut us: Seq<Seq<TriggerConditionUpdate<u64>>> = Seq::empty();
    let mut updates: Vec<TriggerConditionUpdate<u64>> = Vec::new();
    let mut i: usize = 0;
    assert(orig.take(0) =~= Seq::<CompiledTriggerCondition<Event>>::empty());
    assert(updates@ =~= flatten_updates(us));
    while i < conditions.len()
        invariant
            orig == old(conditions)@,
            us.len() == i,
            updates@ == flatten_updates(us),
            forall|j: int|
                0 <= j < i ==> if orig[j].completed {
                    (#[trigger] us[j]).len() == 0
                } else {
                    stepped(orig[j], conditions@[j], *event, identifier, us[j])
                },
            conditions.len() == orig.len(),
            i <= orig.len(),
            all_wf(conditions@),
            forall|j: int| i <= j < orig.len() ==> conditions@[j] == orig[j],
            forall|j: int|
                0 <= j < orig.len() ==> {
                    &&& (#[trigger] conditions@[j]).required_progress == orig[j].required_progress
                    &&& (orig[j].completed ==> conditions@[j] == orig[j])
                },
            subs_of(orig).add(subscribed(updates@)) =~= subs_of(conditions@).add(unsubscribed(updates@)),
            leaves_of(conditions@) == leaves_of(orig),
            subscribed(updates@).len() <= leaves_of(orig.take(i as int)),
        decreases orig.len() - i,
    {
        proof {
            lemma_leaves_of_prefix(orig, i as int);
        }
        if !conditions[i].completed {
            let ghost before = conditions@;
            assert(wf(before[i as int]));
            assert(before[i as int] == orig[i as int]);
            assert(decreases_to!(orig => orig[i as int]));
            let (mut u, _, _) = conditions[i].execute_event(event, identifier);
            proof {
                let after = conditions@;
                assert(after =~= before.update(i as int, after[i as int]));
                lemma_subs_of_update(before, i as int, after[i as int]);
                lemma_leaves_of_update(before, i as int, after[i as int]);
                lemma_updates_concat(updates@, u@);
                let a = subs(before[i as int]);
                let a2 = subs(after[i as int]);
                assert forall|v: u64|
                    #[trigger] subs_of(orig).add(subscribed(updates@ + u@)).count(v) == subs_of(after).add(
                        unsubscribed(updates@ + u@),
                    ).count(v) by {
                    assert(subs_of(orig).add(subscribed(updates@)).count(v) == subs_of(before).add(
                        unsubscribed(updates@),
                    ).count(v));
                    assert(subs_of(after).add(a).count(v) == subs_of(before).add(a2).count(v));
                    assert(a.add(subscribed(u@)).count(v) == a2.add(unsubscribed(u@)).count(v));
                }
                assert forall|j: int| 0 <= j < after.len() implies wf(#[trigger] after[j]) by {
                    if j != i {
                        assert(wf(before[j]));
                    }
                }
            }
            proof {
                let prev_us = us;
                us = us.push(u@);
                assert(us.drop_last() =~= prev_us);
                assert forall|j: int| 0 <= j < i + 1 implies if orig[j].completed {
                    (#[trigger] us[j]).len() == 0
                } else {
                    stepped(orig[j], conditions@[j], *event, identifier, us[j])
                } by {
                    if j < i {
                        assert(us[j] == prev_us[j]);
                    }
                }
            }
            updates.append(&mut u);
        } else {
            proof {
                let prev_us = us;
                us = us.push(Seq::empty());
                assert(us.drop_last() =~= prev_us);
                assert(updates@ =~= flatten_updates(prev_us) + Seq::<TriggerConditionUpdate<u64>>::empty());
                assert forall|j: int| 0 <= j < i + 1 implies if orig[j].completed {
                    (#[trigger] us[j]).len() == 0
                } else {
                    stepped(orig[j], conditions@[j], *event, identifier, us[j])
                } by {
                    if j < i {
                        assert(us[j] == prev_us[j]);
                    }
                }
            }
        }
        i = i + 1;
    }
    assert(orig.take(orig.len() as int) =~= orig);
    assert forall|j: int| 0 <= j < orig.len() implies orig[j].current_progress <= (
    #[trigger] conditions@[j]).current_progress by {
        if !orig[j].completed {
            assert(stepped(orig[j], conditions@[j], *event, identifier, us[j]));
        }
    }
    assert(children_stepped(orig, conditions@, *event, identifier, us));
    updates
}

/// Executes the event on the active child of a sequence, and moves the cursor on if that child
/// is fulfilled. Returns the subscription updates, the new cursor and the sequence's progress.
fn execute_sequence<Event: TriggerEvent>(
    conditions: &mut Vec<CompiledTriggerCondition<Event>>,
    current_index: usize,
    event: &Event,
    identifier: u64,
) -> (r: (Vec<TriggerConditionUpdate<u64>>, usize, u64, Ghost<int>))
    requires
        current_index < old(conditions).len(),
        forall|i: int|
            0 <= i < old(conditions).len() ==> wf(#[trigger] old(conditions)@[i]) && (
            old(conditions)@[i].completed <==> i < current_index),
        sum_of(required_values(old(conditions)@)) <= u64::MAX,
    ensures
        final(conditions).len() == old(conditions).len(),
        r.1 == if final(conditions)@[current_index as int].completed {
            current_index + 1
        } else {
            current_index as int
        },
        0 <= r.3@ <= r.0@.len(),
        stepped(
            old(conditions)@[current_index as int],
            final(conditions)@[current_index as int],
            *event,
            identifier,
            r.0@.take(r.3@),
        ),
        all_subscribe(r.0@.skip(r.3@)),
        if r.1 != current_index && r.1 < final(conditions).len() {
            &&& subscribed(r.0@.skip(r.3@)) == subs(final(conditions)@[r.1 as int])
            &&& r.0@.skip(r.3@) == subscribe_list(subs_list(final(conditions)@[r.1 as int]))
        } else {
            r.0@.skip(r.3@).len() == 0
        },
        forall|j: int|
            0 <= j < old(conditions).len() && j != current_index ==> #[trigger] final(conditions)@[j] == old(
                conditions,
            )@[j],
        forall|i: int|
            0 <= i < final(conditions).len() ==> wf(#[trigger] final(conditions)@[i]) && (
            final(conditions)@[i].completed <==> i < r.1),
        required_values(final(conditions)@) == required_values(old(conditions)@),
        r.2 == sequence_progress(final(conditions)@, r.1 as int),
        r.2 >= sequence_progress(old(conditions)@, current_index as int),
        r.2 <= sum_of(required_values(old(conditions)@)),
        subs(old(conditions)@[current_index as int]).add(subscribed(r.0@)) =~= (if r.1 < final(conditions).len() {
            subs(final(conditions)@[r.1 as int])
        } else {
            Multiset::empty()
        }).add(unsubscribed(r.0@)),
        leaves_of(final(conditions)@) == leaves_of(old(conditions)@),
        subscribed(r.0@).len() <= leaves_of(old(conditions)@),
    decreases old(conditions)@,
{
    broadcast use vstd::multiset::group_multiset_axioms;

    let ghost orig = conditions@;
    let ghost reqs = required_values(orig);
    let base = required_prefix(conditions, current_index);
    assert(wf(orig[current_index as int]));
    let (mut updates, done, child_progress) = conditions[current_index].execute_event(event, identifier);
    let ghost after = conditions@;
    let ghost child_updates = updates@;
    let ghost k = child_updates.len() as int;
    proof {
        assert(child_updates.take(k) =~= child_updates);
        assert(child_updates.skip(k) =~= Seq::<TriggerConditionUpdate<u64>>::empty());
        assert(after =~= orig.update(current_index as int, after[current_index as int]));
        assert(required_values(after) =~= reqs);
        lemma_leaves_of_update(orig, current_index as int, after[current_index as int]);
        lemma_leaves_of_prefix(orig, current_index as int);
        lemma_subs_len(orig[current_index as int]);
        crate::progress::lemma_sum_extend(reqs, 0, current_index as int);
        assert(reqs.take(current_index as int) =~= reqs.subrange(0, current_index as int));
        assert(reqs.take(current_index + 1) =~= reqs.subrange(0, current_index + 1));
        lemma_sum_prefix_le(reqs, current_index + 1);
        assert forall|i: int| 0 <= i < after.len() && i != current_index implies wf(#[trigger] after[i])
            && (after[i].completed <==> i < current_index) by {
            assert(after[i] == orig[i]);
        }
    }
    if done {
        let next = current_index + 1;
        let reached = base + conditions[current_index].required_progress;
        if next < conditions.len() {
            let ids = conditions[next].subscriptions();
            let ghost mid = updates@;
            push_updates(&mut updates, &ids, true);
            proof {
                lemma_leaves_of_prefix(orig, next as int);
                lemma_subs_len(orig[next as int]);
                crate::progress::lemma_sum_extend(reqs, 0, next as int);
                assert(reqs.take(next + 1) =~= reqs.subrange(0, next + 1));
                lemma_sum_prefix_le(reqs, next + 1);
                assert(after[next as int] == orig[next as int]);
                assert(wf(orig[next as int]));
                vstd::seq_lib::to_multiset_len(ids@);
            }
            let progress = reached + conditions[next].current_progress;
            proof {
                let c = current_index as int;
                assert(subs(after[c]) =~= Multiset::empty());
                assert forall|v: u64|
                    #[trigger] subs(orig[c]).add(subscribed(updates@)).count(v) == subs(after[next as int]).add(
                        unsubscribed(updates@),
                    ).count(v) by {
                    assert(subs(orig[c]).add(subscribed(mid)).count(v) == subs(after[c]).add(
                        unsubscribed(mid),
                    ).count(v));
                }
                assert(subs(orig[c]).add(subscribed(updates@)) =~= subs(after[next as int]).add(
                    unsubscribed(updates@),
                ));
                assert(subscribed(updates@).len() == subscribed(mid).len() + ids@.len());
                lemma_leaves_of_prefix(orig, next + 1);
                assert(leaves(orig[c]) + leaves(orig[next as int]) <= leaves_of(orig));
                let u = updates@;
                assert(u.take(k) =~= child_updates);
                assert(u.take(k) + u.skip(k) =~= u);
                lemma_updates_concat(u.take(k), u.skip(k));
                assert(mid == child_updates);
                assert forall|v: u64| #[trigger] subscribed(u.skip(k)).count(v) == ids@.to_multiset().count(v) by {
                    assert(subscribed(u).count(v) == subscribed(u.take(k)).count(v) + subscribed(u.skip(k)).count(v));
                    assert(subscribed(u).count(v) == subscribed(mid).count(v) + ids@.to_multiset().count(v));
                }
                assert(subscribed(u.skip(k)) =~= ids@.to_multiset());
                assert(all_subscribe(u.skip(k)));
                assert(u.skip(k) =~= subscribe_list(ids@));
                assert(conditions@ == after);
                assert(ids@.to_multiset() == subs(after[next as int]));
                assert({
                    &&& 0 <= k <= updates@.len()
                    &&& stepped(orig[c], conditions@[c], *event, identifier, updates@.take(k))
                    &&& all_subscribe(updates@.skip(k))
                    &&& if next != current_index && next < conditions.len() {
                        &&& subscribed(updates@.skip(k)) == subs(conditions@[next as int])
                        &&& updates@.skip(k) == subscribe_list(subs_list(conditions@[next as int]))
                    } else {
                        updates@.skip(k).len() == 0
                    }
                });

                assert(stepped(orig[c], after[c], *event, identifier, u.take(k)));
            }
            (updates, next, progress, Ghost(k))
        } else {
            assert(reqs.take(next as int) =~= reqs);
            proof {
                let c = current_index as int;
                assert(subs(after[c]) =~= Multiset::empty());
                lemma_leaves_of_prefix(orig, c + 1);
                assert(leaves(orig[c]) <= leaves_of(orig));
                assert(stepped(orig[c], after[c], *event, identifier, updates@.take(k)));
                assert({
                    &&& 0 <= k <= updates@.len()
                    &&& stepped(orig[c], conditions@[c], *event, identifier, updates@.take(k))
                    &&& all_subscribe(updates@.skip(k))
                    &&& if next != current_index && next < conditions.len() {
                        &&& subscribed(updates@.skip(k)) == subs(conditions@[next as int])
                        &&& updates@.skip(k) == subscribe_list(subs_list(conditions@[next as int]))
                    } else {
                        updates@.skip(k).len() == 0
                    }
                });
            }
            (updates, next, reached, Ghost(k))
        }
    } else {
        proof {
            let c = current_index as int;
            lemma_leaves_of_prefix(orig, c + 1);
            assert(leaves(orig[c]) <= leaves_of(orig));
            assert(stepped(orig[c], after[c], *event, identifier, updates@.take(k)));
            assert({
                &&& 0 <= k <= updates@.len()
                &&& stepped(orig[c], conditions@[c], *event, identifier, updates@.take(k))
                &&& all_subscribe(updates@.skip(k))
                &&& if current_index != current_index && current_index < conditions.len() {
                    subscribed(updates@.skip(k)) == subs(conditions@[current_index as int])
                } else {
                    updates@.skip(k).len() == 0
                }
            });
        }
        (updates, current_index, base + child_progress, Ghost(k))
    }
}

impl<Event: TriggerEvent> CompiledTriggerCondition<Event> {
    /// Executes an event that carries `identifier` on this condition.
    ///
    /// Returns the subscription updates, whether the condition is now fulfilled, and its new
    /// progress. Progress never decreases: the node keeps the larger of its previous progress
    /// and the one its new state shows.
    #[verifier::rlimit(60)]
    pub fn execute_event(&mut self, event: &Event, identifier: u64) -> (r: (
        Vec<TriggerConditionUpdate<u64>>,
        bool,
        u64,
    ))
        requires
            wf(*old(self)),
            !old(self).completed,
        ensures
            wf(*final(self)),
            final(self).required_progress == old(self).required_progress,
            old(self).current_progress <= final(self).current_progress,
            r.1 == final(self).completed,
            r.2 == final(self).current_progress,
            subs(*old(self)).add(subscribed(r.0@)) =~= subs(*final(self)).add(unsubscribed(r.0@)),
            leaves(*final(self)) == leaves(*old(self)),
            subscribed(r.0@).len() <= leaves(*old(self)),
            !(old(self).kind is Compare) ==> final(self).current_progress == (if computed_progress(
                *final(self),
            ) > old(self).current_progress {
                computed_progress(*final(self))
            } else {
                old(self).current_progress as int
            }),
            stepped(*old(self), *final(self), *event, identifier, r.0@),
        decreases *old(self),
    {
        broadcast use vstd::multiset::group_multiset_axioms;

        let ghost old_self = *self;
        let ghost mut expected = old_self;
        let mut kind = CompiledTriggerConditionKind::Never;
        std::mem::swap(&mut self.kind, &mut kind);
        let ghost old_kind = kind;
        let required_progress = self.required_progress;
        let old_progress = self.current_progress;
        let (kind, updates, progress) = match kind {
            CompiledTriggerConditionKind::EventCount { identifier: counted, count, required } => {
                let ghost count_before = count;
                let count = if counted == identifier { count + 1 } else { count };
                proof {
                    assert(count_before * PROGRESS_UNIT <= count * PROGRESS_UNIT) by (nonlinear_arith)
                        requires
                            count_before <= count,
                    ;
                }
                let mut updates = Vec::new();
                if count == required {
                    updates.push(TriggerConditionUpdate::Unsubscribe(counted));
                }
                proof {
                    assert(count * PROGRESS_UNIT <= required * PROGRESS_UNIT) by (nonlinear_arith)
                        requires
                            count <= required,
                    ;
                    assert(updates@.len() == 0 || updates@.drop_last() =~= Seq::<TriggerConditionUpdate<u64>>::empty());
                }
                let k = CompiledTriggerConditionKind::EventCount { identifier: counted, count, required };
                proof {
                    let e = Seq::<TriggerConditionUpdate<u64>>::empty();
                    assert(subscribed(e) == Multiset::<u64>::empty());
                    assert(unsubscribed(e) == Multiset::<u64>::empty());
                    if count == required {
                        assert(updates@.drop_last() =~= e);
                        assert(subscribed(updates@) == subscribed(e));
                        assert(unsubscribed(updates@) == unsubscribed(e).insert(counted));
                        assert(updates@ =~= seq![TriggerConditionUpdate::Unsubscribe(counted)]);
                    } else {
                        assert(updates@ =~= e);
                    }
                    assert(kind_subs(old_kind).add(subscribed(updates@)) =~= (if local_completed(k) {
                        Multiset::empty()
                    } else {
                        kind_subs(k)
                    }).add(unsubscribed(updates@)));
                    assert(subscribed(updates@).len() == 0);
                }
                proof {
                    expected = stepped_node(k, required_progress, old_progress, (count as u64 * PROGRESS_UNIT) as u64);
                    assert(stepped(old_self, expected, *event, identifier, updates@));
                }
                (k, updates, count as u64 * PROGRESS_UNIT)
            },
            CompiledTriggerConditionKind::Compare {
                comparison,
                reference_event,
                reference_identifier,
                fulfilled,
            } => {
                let mut updates = Vec::new();
                let mut fulfilled = fulfilled;
                let mut progress = old_progress;
                if identifier == reference_identifier {
                    let ordering = event.partial_cmp_event(&reference_event);
                    let closeness = if comparison.is_fulfilled_by(ordering) {
                        None
                    } else {
                        event.partial_cmp_progress(&reference_event, comparison.closest_ordering())
                    };
                    let (now_fulfilled, now_progress) = comparison_step(
                        comparison,
                        ordering,
                        closeness,
                        old_progress,
                    );
                    fulfilled = now_fulfilled;
                    progress = now_progress;
                    if fulfilled {
                        updates.push(TriggerConditionUpdate::Unsubscribe(reference_identifier));
                        assert(updates@.drop_last() =~= Seq::<TriggerConditionUpdate<u64>>::empty());
                    }
                }
                let k = CompiledTriggerConditionKind::Compare {
                    comparison,
                    reference_event,
                    reference_identifier,
                    fulfilled,
                };
                proof {
                    let e = Seq::<TriggerConditionUpdate<u64>>::empty();
                    assert(subscribed(e) == Multiset::<u64>::empty());
                    assert(unsubscribed(e) == Multiset::<u64>::empty());
                    if fulfilled {
                        assert(updates@.drop_last() =~= e);
                        assert(subscribed(updates@) == subscribed(e));
                        assert(unsubscribed(updates@) == unsubscribed(e).insert(reference_identifier));
                        assert(updates@ =~= seq![TriggerConditionUpdate::Unsubscribe(reference_identifier)]);
                    } else {
                        assert(updates@ =~= e);
                    }
                    assert(kind_subs(old_kind).add(subscribed(updates@)) =~= (if local_completed(k) {
                        Multiset::empty()
                    } else {
                        kind_subs(k)
                    }).add(unsubscribed(updates@)));
                    assert(subscribed(updates@).len() == 0);
                }
                proof {
                    expected = stepped_node(k, required_progress, old_progress, progress);
                    assert(stepped(old_self, expected, *event, identifier, updates@));
                }
                (k, updates, progress)
            },
            CompiledTriggerConditionKind::Sequence { current_index, mut conditions } => {
                let ghost seq_before = conditions@;
                let (updates, next, progress, Ghost(split)) = execute_sequence(
                    &mut conditions,
                    current_index,
                    event,
                    identifier,
                );
                assert(required_values(conditions@).take(conditions.len() as int) =~= required_values(
                    conditions@,
                ));
                let k = CompiledTriggerConditionKind::Sequence { current_index: next, conditions };
                proof {
                    assert(kind_subs(old_kind).add(subscribed(updates@)) =~= (if local_completed(k) {
                        Multiset::empty()
                    } else {
                        kind_subs(k)
                    }).add(unsubscribed(updates@)));
                }
                proof {
                    let c2 = seq_before.update(current_index as int, conditions@[current_index as int]);
                    assert(exists|kk: int|
                        {
                            &&& 0 <= kk <= updates@.len()
                            &&& #[trigger] stepped(
                                seq_before[current_index as int],
                                conditions@[current_index as int],
                                *event,
                                identifier,
                                updates@.take(kk),
                            )
                            &&& all_subscribe(updates@.skip(kk))
                            &&& if next != current_index && next < conditions.len() {
                                subscribed(updates@.skip(kk)) == subs(conditions@[next as int])
                            } else {
                                updates@.skip(kk).len() == 0
                            }
                        }) by {
                        assert(0 <= split <= updates@.len());
                    }
                }
                proof {
                    assert(old_kind matches CompiledTriggerConditionKind::Sequence { current_index: ci0, conditions: c0 }
                        && c0@ == seq_before && ci0 == current_index);
                    expected = stepped_node(k, required_progress, old_progress, progress);
                    assert(stepped(
                        old_self.kind->Sequence_conditions@[current_index as int],
                        expected.kind->Sequence_conditions@[current_index as int],
                        *event,
                        identifier,
                        updates@.take(split),
                    ));
                    assert(stepped(old_self, expected, *event, identifier, updates@));
                }
                (k, updates, progress)
            },
            CompiledTriggerConditionKind::And { mut conditions } => {
                let ghost orig = conditions@;
                let updates = execute_children(&mut conditions, event, identifier);
                let currents = current_vec(&conditions);
                proof {
                    assert forall|j: int| 0 <= j < orig.len() implies current_values(orig)[j] <= currents@[j] by {}
                    lemma_sum_pointwise_le(current_values(orig), currents@);
                    assert(required_values(conditions@) =~= required_values(orig));
                    assert forall|j: int| 0 <= j < currents.len() implies currents@[j] <= required_values(
                        conditions@,
                    )[j] by {
                        assert(wf(conditions@[j]));
                    }
                    lemma_sum_pointwise_le(currents@, required_values(conditions@));
                    assert(currents@.subrange(0, currents.len() as int) =~= currents@);
                }
                let progress = sum_range(&currents, 0, currents.len());
                proof {
                    lemma_all_completed(conditions@);
                    if count_completed(conditions@) == conditions.len() {
                        assert forall|j: int| 0 <= j < currents.len() implies currents@[j] == required_values(
                            conditions@,
                        )[j] by {
                            assert(wf(conditions@[j]));
                        }
                        assert(currents@ =~= required_values(conditions@));
                    }
                }
                let k = CompiledTriggerConditionKind::And { conditions };
                proof {
                    assert(kind_subs(old_kind).add(subscribed(updates@)) =~= (if local_completed(k) {
                        Multiset::empty()
                    } else {
                        kind_subs(k)
                    }).add(unsubscribed(updates@)));
                }
                proof {
                    assert(old_kind matches CompiledTriggerConditionKind::And { conditions: c0, .. } && c0@ == orig);
                    expected = stepped_node(k, required_progress, old_progress, progress);
                    let us = choose|us: Seq<Seq<TriggerConditionUpdate<u64>>>|
                        #[trigger] children_stepped(orig, conditions@, *event, identifier, us) && updates@
                            == flatten_updates(us);
                    assert(children_stepped(
                        old_self.kind->And_conditions@,
                        expected.kind->And_conditions@,
                        *event,
                        identifier,
                        us,
                    ));
                    assert(stepped(old_self, expected, *event, identifier, updates@));
                }
                (k, updates, progress)
            },
            CompiledTriggerConditionKind::Or { mut conditions } => {
                let ghost orig = conditions@;
                let mut updates = execute_children(&mut conditions, event, identifier);
                proof {
                    assert(required_values(conditions@) =~= required_values(orig));
                    assert forall|j: int| 0 <= j < conditions.len() implies #[trigger] conditions@[j].current_progress
                        <= conditions@[j].required_progress by {
                        assert(wf(conditions@[j]));
                    }
                }
                let ghost mid = updates@;
                let ghost us = choose|us: Seq<Seq<TriggerConditionUpdate<u64>>>|
                    #[trigger] children_stepped(orig, conditions@, *event, identifier, us) && mid
                        == flatten_updates(us);
                let progress = if completed_count(&conditions) >= 1 {
                    let ids = subscriptions_of(&conditions);
                    push_updates(&mut updates, &ids, false);
                    proof {
                        assert(updates@.skip(mid.len() as int) =~= unsubscribe_list(subs_list_of(conditions@)));
                        assert forall|v: u64|
                            #[trigger] subs_of(orig).add(subscribed(updates@)).count(v) == Multiset::<u64>::empty().add(
                                unsubscribed(updates@),
                            ).count(v) by {
                            assert(subs_of(orig).add(subscribed(mid)).count(v) == subs_of(conditions@).add(
                                unsubscribed(mid),
                            ).count(v));
                        }
                    }
                    required_progress
                } else {
                    proof {
                        lemma_max_scaled_monotone(orig, conditions@, required_progress);
                    }
                    max_scaled_of(&conditions, required_progress)
                };
                let k = CompiledTriggerConditionKind::Or { conditions };
                proof {
                    assert(kind_subs(old_kind).add(subscribed(updates@)) =~= (if local_completed(k) {
                        Multiset::empty()
                    } else {
                        kind_subs(k)
                    }).add(unsubscribed(updates@)));
                }
                proof {
                    let kk = mid.len() as int;
                    if !local_completed(k) {
                        assert(updates@ == mid);
                        assert(updates@.skip(kk) =~= Seq::<TriggerConditionUpdate<u64>>::empty());
                    } else {
                        assert(forall|v: u64|
                            #[trigger] unsubscribed(updates@).count(v) == unsubscribed(mid).count(v) + subs_of(
                                conditions@,
                            ).count(v));
                        lemma_updates_concat(updates@.take(kk), updates@.skip(kk));
                        assert(updates@.take(kk) + updates@.skip(kk) =~= updates@);
                        assert forall|v: u64|
                            #[trigger] unsubscribed(updates@.skip(kk)).count(v) == subs_of(conditions@).count(v) by {
                            assert(unsubscribed(updates@).count(v) == unsubscribed(updates@.take(kk)).count(v)
                                + unsubscribed(updates@.skip(kk)).count(v));
                        }
                        assert(unsubscribed(updates@.skip(kk)) =~= subs_of(conditions@));
                    }
                    assert(updates@.take(kk) =~= mid);
                    assert(exists|us2: Seq<Seq<TriggerConditionUpdate<u64>>>, k2: int|
                        {
                            &&& #[trigger] children_stepped(orig, conditions@, *event, identifier, us2)
                            &&& 0 <= k2 <= updates@.len()
                            &&& #[trigger] updates@.take(k2) == flatten_updates(us2)
                            &&& all_unsubscribe(updates@.skip(k2))
                            &&& if local_completed(k) {
                                &&& unsubscribed(updates@.skip(k2)) == subs_of(conditions@)
                                &&& updates@.skip(k2) == unsubscribe_list(subs_list_of(conditions@))
                            } else {
                                updates@.skip(k2).len() == 0
                            }
                        }) by {
                        assert(children_stepped(orig, conditions@, *event, identifier, us));
                        assert(updates@.take(kk) == flatten_updates(us));
                    }
                }
                proof {
                    assert(old_kind matches CompiledTriggerConditionKind::Or { conditions: c0, .. } && c0@ == orig);
                    expected = stepped_node(k, required_progress, old_progress, progress);
                    assert(children_stepped(
                        old_self.kind->Or_conditions@,
                        expected.kind->Or_conditions@,
                        *event,
                        identifier,
                        us,
                    ));
                    assert(updates@.take(mid.len() as int) == flatten_updates(us));
                    assert(stepped(old_self, expected, *event, identifier, updates@));
                }
                (k, updates, progress)
            },
            CompiledTriggerConditionKind::AnyN { mut conditions, n } => {
                let ghost orig = conditions@;
                let mut updates = execute_children(&mut conditions, event, identifier);
                proof {
                    assert(required_values(conditions@) =~= required_values(orig));
                    assert forall|j: int| 0 <= j < conditions.len() implies #[trigger] conditions@[j].current_progress
                        <= conditions@[j].required_progress by {
                        assert(wf(conditions@[j]));
                    }
                }
                let ghost mid = updates@;
                let ghost us = choose|us: Seq<Seq<TriggerConditionUpdate<u64>>>|
                    #[trigger] children_stepped(orig, conditions@, *event, identifier, us) && mid
                        == flatten_updates(us);
                let progress = if completed_count(&conditions) >= n {
                    let ids = subscriptions_of(&conditions);
                    push_updates(&mut updates, &ids, false);
                    proof {
                        assert(updates@.skip(mid.len() as int) =~= unsubscribe_list(subs_list_of(conditions@)));
                        assert forall|v: u64|
                            #[trigger] subs_of(orig).add(subscribed(updates@)).count(v) == Multiset::<u64>::empty().add(
                                unsubscribed(updates@),
                            ).count(v) by {
                            assert(subs_of(orig).add(subscribed(mid)).count(v) == subs_of(conditions@).add(
                                unsubscribed(mid),
                            ).count(v));
                        }
                    }
                    required_progress
                } else {
                    any_n_progress_of(&conditions, n, required_progress)
                };
                let k = CompiledTriggerConditionKind::AnyN { conditions, n };
                proof {
                    assert(kind_subs(old_kind).add(subscribed(updates@)) =~= (if local_completed(k) {
                        Multiset::empty()
                    } else {
                        kind_subs(k)
                    }).add(unsubscribed(updates@)));
                }
                proof {
                    let kk = mid.len() as int;
                    if !local_completed(k) {
                        assert(updates@ == mid);
                        assert(updates@.skip(kk) =~= Seq::<TriggerConditionUpdate<u64>>::empty());
                    } else {
                        assert(forall|v: u64|
                            #[trigger] unsubscribed(updates@).count(v) == unsubscribed(mid).count(v) + subs_of(
                                conditions@,
                            ).count(v));
                        lemma_updates_concat(updates@.take(kk), updates@.skip(kk));
                        assert(updates@.take(kk) + updates@.skip(kk) =~= updates@);
                        assert forall|v: u64|
                            #[trigger] unsubscribed(updates@.skip(kk)).count(v) == subs_of(conditions@).count(v) by {
                            assert(unsubscribed(updates@).count(v) == unsubscribed(updates@.take(kk)).count(v)
                                + unsubscribed(updates@.skip(kk)).count(v));
                        }
                        assert(unsubscribed(updates@.skip(kk)) =~= subs_of(conditions@));
                    }
                    assert(updates@.take(kk) =~= mid);
                    assert(exists|us2: Seq<Seq<TriggerConditionUpdate<u64>>>, k2: int|
                        {
                            &&& #[trigger] children_stepped(orig, conditions@, *event, identifier, us2)
                            &&& 0 <= k2 <= updates@.len()
                            &&& #[trigger] updates@.take(k2) == flatten_updates(us2)
                            &&& all_unsubscribe(updates@.skip(k2))
                            &&& if local_completed(k) {
                                &&& unsubscribed(updates@.skip(k2)) == subs_of(conditions@)
                                &&& updates@.skip(k2) == unsubscribe_list(subs_list_of(conditions@))
                            } else {
                                updates@.skip(k2).len() == 0
                            }
                        }) by {
                        assert(children_stepped(orig, conditions@, *event, identifier, us));
                        assert(updates@.take(kk) == flatten_updates(us));
                    }
                }
                proof {
                    assert(old_kind matches CompiledTriggerConditionKind::AnyN { conditions: c0, .. } && c0@ == orig);
                    expected = stepped_node(k, required_progress, old_progress, progress);
                    assert(children_stepped(
                        old_self.kind->AnyN_conditions@,
                        expected.kind->AnyN_conditions@,
                        *event,
                        identifier,
                        us,
                    ));
                    assert(updates@.take(mid.len() as int) == flatten_updates(us));
                    assert(stepped(old_self, expected, *event, identifier, updates@));
                }
                (k, updates, progress)
            },
            CompiledTriggerConditionKind::Always => (CompiledTriggerConditionKind::Always, Vec::new(), 0),
            CompiledTriggerConditionKind::Never => {
                let updates = Vec::new();
                proof {
                    expected = stepped_node(CompiledTriggerConditionKind::Never, required_progress, old_progress, 0);
                    assert(updates@ =~= Seq::<TriggerConditionUpdate<u64>>::empty());
                }
                (CompiledTriggerConditionKind::Never, updates, 0)
            },
        };
        let completed = kind_completed(&kind);
        proof {
            assert(subs(*old(self)) == kind_subs(old_kind));
            assert(leaves(*old(self)) == match old_kind {
                CompiledTriggerConditionKind::EventCount { .. } => 1,
                CompiledTriggerConditionKind::Compare { .. } => 1,
                CompiledTriggerConditionKind::Sequence { conditions, .. } => leaves_of(conditions@),
                CompiledTriggerConditionKind::And { conditions } => leaves_of(conditions@),
                CompiledTriggerConditionKind::Or { conditions } => leaves_of(conditions@),
                CompiledTriggerConditionKind::AnyN { conditions, .. } => leaves_of(conditions@),
                _ => 0nat,
            });
            assert(required_progress == local_required(kind));
            assert(progress <= required_progress);
            assert(completed ==> progress == required_progress);
        }
        self.kind = kind;
        self.completed = completed;
        if progress > self.current_progress {
            self.current_progress = progress;
        }
        assert(*self == expected);
        (updates, self.completed, self.current_progress)
    }
}


/// When all of the nodes are fulfilled, each of them is, and together they subscribe to nothing.
pub proof fn lemma_all_completed<Event>(s: Seq<CompiledTriggerCondition<Event>>)
    ensures
        count_completed(s) <= s.len(),
        count_completed(s) == s.len() ==> forall|i: int| 0 <= i < s.len() ==> (#[trigger] s[i]).completed,
        count_completed(s) == s.len() ==> subs_of(s) =~= Multiset::empty(),
    decreases s.len(),
{
    broadcast use vstd::multiset::group_multiset_axioms;

    if s.len() > 0 {
        lemma_all_completed(s.drop_last());
        if count_completed(s) == s.len() {
            assert forall|i: int| 0 <= i < s.len() implies (#[trigger] s[i]).completed by {
                if i < s.len() - 1 {
                    assert(s.drop_last()[i] == s[i]);
                }
            }
            assert(subs(s.last()) =~= Multiset::empty());
            assert(subs_of(s) == subs_of(s.drop_last()).add(subs(s.last())));
        }
    }
}


/// The sum of the `n` smallest of the given values.
fn smallest_sum(values: &Vec<u64>, n: usize) -> (r: u64)
    requires
        sum_smallest(values@, n as int) <= u64::MAX,
    ensures
        r == sum_smallest(values@, n as int),
{
    let sorted = sort_ascending(values);
    proof {
        crate::progress::lemma_ascending_total();
        values@.lemma_sort_by_ensures(ascending());
        vstd::seq_lib::to_multiset_len(values@);
        vstd::seq_lib::to_multiset_len(sorted@);
    }
    let k: usize = if n < sorted.len() { n } else { sorted.len() };
    assert(sorted@.subrange(0, k as int) =~= sorted@.take(k as int));
    sum_range(&sorted, 0, k)
}

/// The required progress of a node of the given kind.
fn kind_required<Event>(kind: &CompiledTriggerConditionKind<Event>) -> (r: u64)
    requires
        0 <= local_required(*kind) <= u64::MAX,
    ensures
        r == local_required(*kind),
{
    match kind {
        CompiledTriggerConditionKind::Always => 0,
        CompiledTriggerConditionKind::Never => PROGRESS_UNIT,
        CompiledTriggerConditionKind::EventCount { required, .. } => *required as u64 * PROGRESS_UNIT,
        CompiledTriggerConditionKind::Compare { .. } => PROGRESS_UNIT,
        CompiledTriggerConditionKind::Sequence { conditions, .. } => {
            let v = required_vec(conditions);
            assert(v@.subrange(0, v.len() as int) =~= v@);
            sum_range(&v, 0, v.len())
        },
        CompiledTriggerConditionKind::And { conditions } => {
            let v = required_vec(conditions);
            assert(v@.subrange(0, v.len() as int) =~= v@);
            sum_range(&v, 0, v.len())
        },
        CompiledTriggerConditionKind::Or { conditions } => smallest_sum(&required_vec(conditions), 1),
        CompiledTriggerConditionKind::AnyN { conditions, n } => smallest_sum(&required_vec(conditions), *n),
    }
}

/// The progress that a node of the given kind shows by its state, for every kind but comparisons.
fn kind_progress<Event>(kind: &CompiledTriggerConditionKind<Event>, completed: bool, required: u64) -> (r: u64)
    requires
        !(*kind is Compare),
        !(*kind is Or) ==> completed == local_completed(*kind),
        required == local_required(*kind),
        kind_parts_wf(*kind),
    ensures
        r == kind_computed(*kind, completed, required),
        r <= required,
        completed ==> r == required,
{
    match kind {
        CompiledTriggerConditionKind::EventCount { count, required: q, .. } => {
            proof {
                assert(*count * PROGRESS_UNIT <= *q * PROGRESS_UNIT) by (nonlinear_arith)
                    requires
                        *count <= *q,
                ;
            }
            *count as u64 * PROGRESS_UNIT
        },
        CompiledTriggerConditionKind::Sequence { current_index, conditions } => {
            let ghost reqs = required_values(conditions@);
            let base = required_prefix(conditions, *current_index);
            if *current_index < conditions.len() {
                proof {
                    crate::progress::lemma_sum_extend(reqs, 0, *current_index as int);
                    assert(reqs.take(*current_index as int) =~= reqs.subrange(0, *current_index as int));
                    assert(reqs.take(*current_index + 1) =~= reqs.subrange(0, *current_index + 1));
                    lemma_sum_prefix_le(reqs, *current_index + 1);
                    assert(wf(conditions@[*current_index as int]));
                }
                base + conditions[*current_index].current_progress
            } else {
                assert(reqs.take(*current_index as int) =~= reqs);
                base
            }
        },
        CompiledTriggerConditionKind::And { conditions } => {
            let currents = current_vec(conditions);
            proof {
                assert forall|j: int| 0 <= j < currents.len() implies currents@[j] <= required_values(
                    conditions@,
                )[j] by {
                    assert(wf(conditions@[j]));
                }
                lemma_sum_pointwise_le(currents@, required_values(conditions@));
                assert(currents@.subrange(0, currents.len() as int) =~= currents@);
                lemma_all_completed(conditions@);
                if completed {
                    assert forall|j: int| 0 <= j < currents.len() implies currents@[j] == required_values(
                        conditions@,
                    )[j] by {
                        assert(wf(conditions@[j]));
                    }
                    assert(currents@ =~= required_values(conditions@));
                }
            }
            sum_range(&currents, 0, currents.len())
        },
        CompiledTriggerConditionKind::Or { conditions } => {
            if completed {
                required
            } else {
                proof {
                    assert forall|j: int| 0 <= j < conditions.len() implies #[trigger] conditions@[j].current_progress
                        <= conditions@[j].required_progress by {
                        assert(wf(conditions@[j]));
                    }
                }
                max_scaled_of(conditions, required)
            }
        },
        CompiledTriggerConditionKind::AnyN { conditions, n } => {
            if completed {
                required
            } else {
                proof {
                    assert forall|j: int| 0 <= j < conditions.len() implies #[trigger] conditions@[j].current_progress
                        <= conditions@[j].required_progress by {
                        assert(wf(conditions@[j]));
                    }
                }
                any_n_progress_of(conditions, *n, required)
            }
        },
        _ => 0,
    }
}

impl<Event> CompiledTriggerCondition<Event> {
    /// A fresh node of the given kind: no progress unless fulfilled (then all of it), except
    /// that a node whose progress follows from its children takes theirs.
    pub fn new(kind: CompiledTriggerConditionKind<Event>) -> (r: Self)
        requires
            0 <= local_required(kind) <= u64::MAX,
            kind_parts_wf(kind),
        ensures
            r.kind == kind,
            r.required_progress == local_required(kind),
            r.completed == initially_completed(kind),
            r.current_progress == if kind is Compare || kind is AnyN {
                if r.completed { r.required_progress as int } else { 0 }
            } else {
                kind_computed(kind, r.completed, r.required_progress)
            },
            r.current_progress <= r.required_progress,
            r.completed ==> r.current_progress == r.required_progress,
    {
        let required_progress = kind_required(&kind);
        let completed = match &kind {
            CompiledTriggerConditionKind::Or { conditions } => conditions.len() > 0 && completed_count(conditions)
                == conditions.len(),
            _ => kind_completed(&kind),
        };
        let current_progress = match &kind {
            CompiledTriggerConditionKind::Compare { .. } => if completed { required_progress } else { 0 },
            CompiledTriggerConditionKind::AnyN { .. } => if completed { required_progress } else { 0 },
            _ => kind_progress(&kind, completed, required_progress),
        };
        CompiledTriggerCondition { kind, completed, required_progress, current_progress }
    }
}

/// The unfulfilled nodes among the given ones, in order.
pub open spec fn active_only<Event>(s: Seq<CompiledTriggerCondition<Event>>) -> Seq<CompiledTriggerCondition<Event>>
    decreases s.len(),
{
    if s.len() == 0 {
        s
    } else if s.last().completed {
        active_only(s.drop_last())
    } else {
        active_only(s.drop_last()).push(s.last())
    }
}

/// Children that are fulfilled, such as those fulfilled from the start, change nothing
/// observable in their parent: they subscribe to nothing, so the parent's subscriptions are
/// those of its active children alone.
pub proof fn lemma_fulfilled_children_silent<Event>(s: Seq<CompiledTriggerCondition<Event>>)
    ensures
        subs_of(s) =~= subs_of(active_only(s)),
    decreases s.len(),
{
    broadcast use vstd::multiset::group_multiset_axioms;

    if s.len() > 0 {
        lemma_fulfilled_children_silent(s.drop_last());
        let rest = active_only(s.drop_last());
        if s.last().completed {
            assert(subs(s.last()) =~= Multiset::empty());
        } else {
            assert(rest.push(s.last()).drop_last() =~= rest);
        }
    }
}

} // verus!

verus! {

/// Clones each of the given nodes, in order.
fn clone_nodes<Event: Clone>(conditions: &Vec<CompiledTriggerCondition<Event>>) -> (r: Vec<
    CompiledTriggerCondition<Event>,
>)
    ensures
        r.len() == conditions.len(),
    decreases conditions@,
{
    broadcast use vstd::seq::group_seq_axioms;

    let mut out: Vec<CompiledTriggerCondition<Event>> = Vec::new();
    let mut i: usize = 0;
    while i < conditions.len()
        invariant
            i <= conditions.len(),
            out.len() == i,
        decreases conditions.len() - i,
    {
        assert(decreases_to!(conditions@ => conditions@[i as int]));
        out.push(conditions[i].clone());
        i = i + 1;
    }
    out
}

impl<Event: Clone> Clone for CompiledTriggerCondition<Event> {
    fn clone(&self) -> (r: Self)
        decreases self,
    {
        let kind = match &self.kind {
            CompiledTriggerConditionKind::Always => CompiledTriggerConditionKind::Always,
            CompiledTriggerConditionKind::Never => CompiledTriggerConditionKind::Never,
            CompiledTriggerConditionKind::EventCount { identifier, count, required } => {
                CompiledTriggerConditionKind::EventCount {
                    identifier: *identifier,
                    count: *count,
                    required: *required,
                }
            },
            CompiledTriggerConditionKind::Compare {
                comparison,
                reference_event,
                reference_identifier,
                fulfilled,
            } => CompiledTriggerConditionKind::Compare {
                comparison: *comparison,
                reference_event: reference_event.clone(),
                reference_identifier: *reference_identifier,
                fulfilled: *fulfilled,
            },
            CompiledTriggerConditionKind::Sequence { current_index, conditions } => {
                CompiledTriggerConditionKind::Sequence {
                    current_index: *current_index,
                    conditions: clone_nodes(conditions),
                }
            },
            CompiledTriggerConditionKind::And { conditions } => CompiledTriggerConditionKind::And {
                conditions: clone_nodes(conditions),
            },
            CompiledTriggerConditionKind::Or { conditions } => CompiledTriggerConditionKind::Or {
                conditions: clone_nodes(conditions),
            },
            CompiledTriggerConditionKind::AnyN { conditions, n } => CompiledTriggerConditionKind::AnyN {
                conditions: clone_nodes(conditions),
                n: *n,
            },
        };
        CompiledTriggerCondition {
            kind,
            completed: self.completed,
            required_progress: self.required_progress,
            current_progress: self.current_progress,
        }
    }
}

} // verus!
