//! The user-facing form of conditions, and how it is compiled into the running form.
use crate::compiled::{
    computed_progress, all_wf, count_completed, leaves, leaves_of, required_values, wf, Comparison, CompiledTriggerCondition,
    CompiledTriggerConditionKind, PROGRESS_UNIT,
};
use crate::progress::{sum_of, sum_smallest};
use crate::triggers::TriggerEvent;
use vstd::prelude::*;

verus! {

/// The (uncompiled) trigger conditions for events.
///
/// Each condition triggers at most once.
#[derive(Debug, Eq, PartialEq)]
pub enum TriggerCondition<Event> {
    /// No trigger condition, this condition is always fulfilled.
    Always,
    /// The unfulfillable trigger condition. This condition is never fulfilled.
    Never,
    /// Trigger after a certain number of events have been received.
    EventCount {
        /// The event to count.
        event: Event,
        /// The amount of times this event needs to be received for the condition to trigger.
        required: usize,
    },
    /// Trigger when an event is received that is greater than the reference event.
    Greater {
        /// The reference event to compare against.
        reference_event: Event,
    },
    /// Trigger when an event is received that is greater than or equal to the reference event.
    GreaterOrEqual {
        /// The reference event to compare against.
        reference_event: Event,
    },
    /// Trigger when an event is received that is equal to the reference event.
    Equal {
        /// The reference event to compare against.
        reference_event: Event,
    },
    /// Trigger when an event is received that is less than or equal to the reference event.
    LessOrEqual {
        /// The reference event to compare against.
        reference_event: Event,
    },
    /// Trigger when an event is received that is less than the reference event.
    Less {
        /// The reference event to compare against.
        reference_event: Event,
    },
    /// Trigger when the given conditions have been fulfilled in sequence.
    ///
    /// A cursor points at the active condition; whenever it is fulfilled the cursor moves
    /// right, and once it has passed all conditions this condition triggers.
    Sequence {
        /// The sequence of conditions.
        conditions: Vec<TriggerCondition<Event>>,
    },
    /// Triggers after all given conditions have been fulfilled in any order.
    And {
        /// The conditions to fulfil.
        conditions: Vec<TriggerCondition<Event>>,
    },
    /// Triggers after one of the given conditions has been fulfilled.
    Or {
        /// The conditions to fulfil.
        conditions: Vec<TriggerCondition<Event>>,
    },
    /// Triggers after a given number of the given conditions have been fulfilled.
    AnyN {
        /// The conditions to fulfil.
        conditions: Vec<TriggerCondition<Event>>,
        /// The amount of conditions that need to be fulfilled.
        n: usize,
    },
}

/// The number of leaves (event counters and comparisons) of a user-facing condition tree.
pub open spec fn condition_leaves<Event>(t: TriggerCondition<Event>) -> nat
    decreases t,
{
    match t {
        TriggerCondition::Always => 0,
        TriggerCondition::Never => 0,
        TriggerCondition::Sequence { conditions } => conditions_leaves(conditions@),
        TriggerCondition::And { conditions } => conditions_leaves(conditions@),
        TriggerCondition::Or { conditions } => conditions_leaves(conditions@),
        TriggerCondition::AnyN { conditions, .. } => conditions_leaves(conditions@),
        _ => 1,
    }
}

/// The number of leaves of the given user-facing condition trees.
pub open spec fn conditions_leaves<Event>(s: Seq<TriggerCondition<Event>>) -> nat
    decreases s,
{
    if s.len() == 0 {
        0
    } else {
        conditions_leaves(s.drop_last()) + condition_leaves(s.last())
    }
}

/// Whether a user-facing condition is fulfilled before any event arrives.
pub open spec fn trivially_completed<Event>(t: TriggerCondition<Event>) -> bool
    decreases t,
{
    match t {
        TriggerCondition::Always => true,
        TriggerCondition::Never => false,
        TriggerCondition::EventCount { required, .. } => required == 0,
        TriggerCondition::Sequence { conditions } => conditions.len() == 0,
        TriggerCondition::And { conditions } => count_trivially_completed(conditions@) == conditions.len(),
        TriggerCondition::Or { conditions } => conditions.len() > 0 && count_trivially_completed(conditions@)
            == conditions.len(),
        TriggerCondition::AnyN { conditions, n } => count_trivially_completed(conditions@) >= n,
        _ => false,
    }
}

/// How many of the given user-facing conditions are fulfilled before any event arrives.
pub open spec fn count_trivially_completed<Event>(s: Seq<TriggerCondition<Event>>) -> nat
    decreases s,
{
    if s.len() == 0 {
        0
    } else {
        count_trivially_completed(s.drop_last()) + if trivially_completed(s.last()) {
            1nat
        } else {
            0nat
        }
    }
}

/// The progress that a user-facing condition requires, on the scale of [`PROGRESS_UNIT`]:
/// nothing for `Always`, one unit for `Never` and comparisons, one unit per counted event, the
/// sum over the children of a sequence or conjunction, the smallest requirement of a
/// disjunction's children, and the sum of the `n` smallest requirements for `AnyN`.
pub open spec fn condition_required<Event>(t: TriggerCondition<Event>) -> int
    decreases t,
{
    match t {
        TriggerCondition::Always => 0,
        TriggerCondition::Never => PROGRESS_UNIT as int,
        TriggerCondition::EventCount { required, .. } => required * PROGRESS_UNIT,
        TriggerCondition::Sequence { conditions } => sum_of(conditions_required(conditions@)),
        TriggerCondition::And { conditions } => sum_of(conditions_required(conditions@)),
        TriggerCondition::Or { conditions } => sum_smallest(conditions_required(conditions@), 1),
        TriggerCondition::AnyN { conditions, n } => sum_smallest(conditions_required(conditions@), n as int),
        _ => PROGRESS_UNIT as int,
    }
}

/// The required progress of each of the given user-facing conditions.
pub open spec fn conditions_required<Event>(s: Seq<TriggerCondition<Event>>) -> Seq<u64>
    decreases s,
{
    if s.len() == 0 {
        Seq::empty()
    } else {
        conditions_required(s.drop_last()).push(condition_required(s.last()) as u64)
    }
}

/// A user-facing condition can be compiled: no sequence in it holds a child that is fulfilled
/// before any event arrives (such a child would complete the sequence without ever receiving
/// an event), and the required progress of every part of it fits the progress scale.
pub open spec fn compilable<Event>(t: TriggerCondition<Event>) -> bool
    decreases t,
{
    &&& 0 <= condition_required(t) <= u64::MAX
    &&& match t {
        TriggerCondition::Sequence { conditions } => forall|i: int|
            0 <= i < conditions.len() ==> compilable(#[trigger] conditions@[i]) && !trivially_completed(
                conditions@[i],
            ),
        TriggerCondition::And { conditions } => all_compilable(conditions@),
        TriggerCondition::Or { conditions } => all_compilable(conditions@),
        TriggerCondition::AnyN { conditions, .. } => all_compilable(conditions@),
        _ => true,
    }
}

/// The given user-facing conditions can be compiled.
pub open spec fn all_compilable<Event>(s: Seq<TriggerCondition<Event>>) -> bool
    decreases s,
{
    forall|i: int| 0 <= i < s.len() ==> compilable(#[trigger] s[i])
}

/// A compiled node mirrors a user-facing condition: the same kind, an event counter with the
/// same requirement and nothing counted, a comparison with the same ordering, not fulfilled and
/// holding what the event compiler made of the reference event, a sequence at its first
/// child, the same `n`, and children that mirror the user-facing children, in order; every
/// node starts with the progress its state shows, a comparison with none.
pub open spec fn same_shape<Event, CompiledEvent: TriggerEvent, EventCompiler: Fn(Event) -> CompiledEvent>(
    c: CompiledTriggerCondition<CompiledEvent>,
    t: TriggerCondition<Event>,
    event_compiler: EventCompiler,
) -> bool
    decreases t,
{
    &&& (c.kind is Compare ==> c.current_progress == 0)
    &&& (c.kind is AnyN ==> c.current_progress == if c.completed { c.required_progress } else { 0 })
    &&& match t {
        TriggerCondition::Always => c.kind is Always,
        TriggerCondition::Never => c.kind is Never,
        TriggerCondition::EventCount { event, required } => {
            &&& c.kind matches CompiledTriggerConditionKind::EventCount { identifier, count, required: r2 }
            &&& count == 0
            &&& r2 == required
            &&& exists|compiled: CompiledEvent|
                #[trigger] event_compiler.ensures((event,), compiled) && identifier == compiled.spec_identifier()
        },
        TriggerCondition::Greater { reference_event } => is_fresh_comparison(
            c.kind,
            Comparison::Greater,
            reference_event,
            event_compiler,
        ),
        TriggerCondition::GreaterOrEqual { reference_event } => is_fresh_comparison(
            c.kind,
            Comparison::GreaterOrEqual,
            reference_event,
            event_compiler,
        ),
        TriggerCondition::Equal { reference_event } => is_fresh_comparison(
            c.kind,
            Comparison::Equal,
            reference_event,
            event_compiler,
        ),
        TriggerCondition::LessOrEqual { reference_event } => is_fresh_comparison(
            c.kind,
            Comparison::LessOrEqual,
            reference_event,
            event_compiler,
        ),
        TriggerCondition::Less { reference_event } => is_fresh_comparison(
            c.kind,
            Comparison::Less,
            reference_event,
            event_compiler,
        ),
        TriggerCondition::Sequence { conditions } => {
            &&& c.kind matches CompiledTriggerConditionKind::Sequence { current_index, conditions: c2 }
            &&& current_index == 0
            &&& c2.len() == conditions.len()
            &&& forall|i: int| 0 <= i < conditions.len() ==> same_shape(c2@[i], #[trigger] conditions@[i], event_compiler)
        },
        TriggerCondition::And { conditions } => {
            &&& c.kind matches CompiledTriggerConditionKind::And { conditions: c2 }
            &&& c2.len() == conditions.len()
            &&& forall|i: int| 0 <= i < conditions.len() ==> same_shape(c2@[i], #[trigger] conditions@[i], event_compiler)
        },
        TriggerCondition::Or { conditions } => {
            &&& c.kind matches CompiledTriggerConditionKind::Or { conditions: c2 }
            &&& c2.len() == conditions.len()
            &&& forall|i: int| 0 <= i < conditions.len() ==> same_shape(c2@[i], #[trigger] conditions@[i], event_compiler)
        },
        TriggerCondition::AnyN { conditions, n } => {
            &&& c.kind matches CompiledTriggerConditionKind::AnyN { conditions: c2, n: n2 }
            &&& n2 == n
            &&& c2.len() == conditions.len()
            &&& forall|i: int| 0 <= i < conditions.len() ==> same_shape(c2@[i], #[trigger] conditions@[i], event_compiler)
        },
    }
}

/// A comparison node with the given ordering that is not fulfilled yet and holds what the event
/// compiler made of the given user-facing reference event.
pub open spec fn is_fresh_comparison<Event, CompiledEvent: TriggerEvent, EventCompiler: Fn(Event) -> CompiledEvent>(
    k: CompiledTriggerConditionKind<CompiledEvent>,
    comparison: Comparison,
    reference_event: Event,
    event_compiler: EventCompiler,
) -> bool {
    &&& k matches CompiledTriggerConditionKind::Compare {
        comparison: c,
        reference_event: e,
        reference_identifier: i,
        fulfilled,
    }
    &&& c == comparison
    &&& !fulfilled
    &&& i == e.spec_identifier()
    &&& event_compiler.ensures((reference_event,), e)
}

/// What compiling a user-facing condition yields: a well-formed node without progress yet
/// (unless it is already fulfilled), with the same completion, requirement and leaves.
pub open spec fn compiled_from<Event, CompiledEvent: TriggerEvent, EventCompiler: Fn(Event) -> CompiledEvent>(
    c: CompiledTriggerCondition<CompiledEvent>,
    t: TriggerCondition<Event>,
    event_compiler: EventCompiler,
) -> bool {
    &&& wf(c)
    &&& c.completed == trivially_completed(t)
    &&& c.required_progress == condition_required(t)
    &&& leaves(c) == condition_leaves(t)
    &&& same_shape(c, t, event_compiler)
}

/// Compiles each of the given conditions, in order.
fn compile_all<Event, CompiledEvent: TriggerEvent, EventCompiler: Fn(Event) -> CompiledEvent>(
    conditions: Vec<TriggerCondition<Event>>,
    event_compiler: &EventCompiler,
) -> (r: Vec<CompiledTriggerCondition<CompiledEvent>>)
    requires
        all_compilable(conditions@),
        forall|e: Event| event_compiler.requires((e,)),
    ensures
        r.len() == conditions.len(),
        forall|i: int| 0 <= i < r.len() ==> compiled_from(#[trigger] r@[i], conditions@[i], *event_compiler),
    decreases conditions@,
{
    broadcast use vstd::seq::group_seq_axioms;

    let ghost orig = conditions@;
    let mut rest = conditions;
    let mut out: Vec<CompiledTriggerCondition<CompiledEvent>> = Vec::new();
    while rest.len() > 0
        invariant
            orig == conditions@,
            all_compilable(orig),
            forall|e: Event| event_compiler.requires((e,)),
            out.len() + rest.len() == orig.len(),
            rest@ == orig.skip(out.len() as int),
            forall|i: int| 0 <= i < out.len() ==> compiled_from(#[trigger] out@[i], orig[i], *event_compiler),
        decreases rest.len(),
    {
        let ghost k = out.len() as int;
        let c = rest.remove(0);
        assert(c == orig[k]);
        assert(decreases_to!(orig => orig[k]));
        assert(rest@ =~= orig.skip(k + 1));
        let compiled = c.compile(event_compiler);
        out.push(compiled);
    }
    out
}

/// The required progress of compiled nodes is that of the conditions they were compiled from.
proof fn lemma_compiled_required<Event, CompiledEvent: TriggerEvent, EventCompiler: Fn(Event) -> CompiledEvent>(
    r: Seq<CompiledTriggerCondition<CompiledEvent>>,
    s: Seq<TriggerCondition<Event>>,
    event_compiler: EventCompiler,
)
    requires
        r.len() == s.len(),
        forall|i: int| 0 <= i < r.len() ==> compiled_from(#[trigger] r[i], s[i], event_compiler),
    ensures
        required_values(r) == conditions_required(s),
        leaves_of(r) == conditions_leaves(s),
        count_completed(r) == count_trivially_completed(s),
        all_wf(r),
    decreases s.len(),
{
    if s.len() > 0 {
        let n = s.len() - 1;
        assert forall|i: int| 0 <= i < n implies compiled_from(#[trigger] r.drop_last()[i], s.drop_last()[i], event_compiler) by {
            assert(r.drop_last()[i] == r[i]);
        }
        lemma_compiled_required(r.drop_last(), s.drop_last(), event_compiler);
        assert(compiled_from(r[n], s[n], event_compiler));
        assert(required_values(r) =~= required_values(r.drop_last()).push(r[n].required_progress));
    } else {
        assert(required_values(r) =~= Seq::<u64>::empty());
    }
    assert forall|i: int| 0 <= i < r.len() implies wf(#[trigger] r[i]) by {
        assert(compiled_from(r[i], s[i], event_compiler));
    }
}

impl<Event> TriggerCondition<Event> {
    /// Compile this trigger condition.
    ///
    /// Raw event information is transformed into a more compact identifier for a matching
    /// compiled event. The children of conjunctions, disjunctions and `AnyN` conditions that
    /// are fulfilled from the start count as fulfilled children and subscribe to nothing.
    pub fn compile<CompiledEvent: TriggerEvent, EventCompiler: Fn(Event) -> CompiledEvent>(
        self,
        event_compiler: &EventCompiler,
    ) -> (r: CompiledTriggerCondition<CompiledEvent>)
        requires
            compilable(self),
            forall|e: Event| event_compiler.requires((e,)),
        ensures
            compiled_from(r, self, *event_compiler),
        decreases self,
    {
        let kind = match self {
            TriggerCondition::Always => CompiledTriggerConditionKind::Always,
            TriggerCondition::Never => CompiledTriggerConditionKind::Never,
            TriggerCondition::EventCount { event, required } => {
                let compiled = event_compiler(event);
                let identifier = compiled.identifier();
                CompiledTriggerConditionKind::EventCount { identifier, count: 0, required }
            },
            TriggerCondition::Greater { reference_event } => compare(Comparison::Greater, event_compiler(reference_event)),
            TriggerCondition::GreaterOrEqual { reference_event } => compare(
                Comparison::GreaterOrEqual,
                event_compiler(reference_event),
            ),
            TriggerCondition::Equal { reference_event } => compare(Comparison::Equal, event_compiler(reference_event)),
            TriggerCondition::LessOrEqual { reference_event } => compare(
                Comparison::LessOrEqual,
                event_compiler(reference_event),
            ),
            TriggerCondition::Less { reference_event } => compare(Comparison::Less, event_compiler(reference_event)),
            TriggerCondition::Sequence { conditions } => {
                let ghost s = conditions@;
                let compiled = compile_all(conditions, event_compiler);
                proof {
                    lemma_compiled_required(compiled@, s, *event_compiler);
                }
                CompiledTriggerConditionKind::Sequence { current_index: 0, conditions: compiled }
            },
            TriggerCondition::And { conditions } => {
                let ghost s = conditions@;
                let compiled = compile_all(conditions, event_compiler);
                proof {
                    lemma_compiled_required(compiled@, s, *event_compiler);
                }
                CompiledTriggerConditionKind::And { conditions: compiled }
            },
            TriggerCondition::Or { conditions } => {
                let ghost s = conditions@;
                let compiled = compile_all(conditions, event_compiler);
                proof {
                    lemma_compiled_required(compiled@, s, *event_compiler);
                }
                CompiledTriggerConditionKind::Or { conditions: compiled }
            },
            TriggerCondition::AnyN { conditions, n } => {
                let ghost s = conditions@;
                let compiled = compile_all(conditions, event_compiler);
                proof {
                    lemma_compiled_required(compiled@, s, *event_compiler);
                }
                CompiledTriggerConditionKind::AnyN { conditions: compiled, n }
            },
        };
        CompiledTriggerCondition::new(kind)
    }
}

/// A fresh comparison node against the given compiled reference event.
fn compare<CompiledEvent: TriggerEvent>(comparison: Comparison, reference_event: CompiledEvent) -> (r:
    CompiledTriggerConditionKind<CompiledEvent>)
    ensures
        r matches CompiledTriggerConditionKind::Compare {
            comparison: c,
            reference_event: e,
            reference_identifier: i,
            fulfilled,
        } && c == comparison && e == reference_event && !fulfilled && i == reference_event.spec_identifier(),
{
    let reference_identifier = reference_event.identifier();
    CompiledTriggerConditionKind::Compare { comparison, reference_event, reference_identifier, fulfilled: false }
}

} // verus!

verus! {

/// Clones each of the given conditions, in order.
fn clone_all<Event: Clone>(conditions: &Vec<TriggerCondition<Event>>) -> (r: Vec<TriggerCondition<Event>>)
    ensures
        r.len() == conditions.len(),
    decreases conditions@,
{
    broadcast use vstd::seq::group_seq_axioms;

    let mut out: Vec<TriggerCondition<Event>> = Vec::new();
    let mut i: usize = 0;
    while i < conditions.len()
        invariant
            i <= conditions.len(),
            out.len() == i,
        decreases conditions.len() - i,
    {
        assert(decreases_to!(conditions@ => conditions@[i as int]));
        out.push(conditions[i].clone());
        i = i + 1;
    }
    out
}

impl<Event: Clone> Clone for TriggerCondition<Event> {
    fn clone(&self) -> (r: Self)
        decreases self,
    {
        match self {
            TriggerCondition::Always => TriggerCondition::Always,
            TriggerCondition::Never => TriggerCondition::Never,
            TriggerCondition::EventCount { event, required } => TriggerCondition::EventCount {
                event: event.clone(),
                required: *required,
            },
            TriggerCondition::Greater { reference_event } => TriggerCondition::Greater {
                reference_event: reference_event.clone(),
            },
            TriggerCondition::GreaterOrEqual { reference_event } => TriggerCondition::GreaterOrEqual {
                reference_event: reference_event.clone(),
            },
            TriggerCondition::Equal { reference_event } => TriggerCondition::Equal {
                reference_event: reference_event.clone(),
            },
            TriggerCondition::LessOrEqual { reference_event } => TriggerCondition::LessOrEqual {
                reference_event: reference_event.clone(),
            },
            TriggerCondition::Less { reference_event } => TriggerCondition::Less {
                reference_event: reference_event.clone(),
            },
            TriggerCondition::Sequence { conditions } => TriggerCondition::Sequence {
                conditions: clone_all(conditions),
            },
            TriggerCondition::And { conditions } => TriggerCondition::And { conditions: clone_all(conditions) },
            TriggerCondition::Or { conditions } => TriggerCondition::Or { conditions: clone_all(conditions) },
            TriggerCondition::AnyN { conditions, n } => TriggerCondition::AnyN {
                conditions: clone_all(conditions),
                n: *n,
            },
        }
    }
}

} // verus!
