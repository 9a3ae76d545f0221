use crate::conditions::{
    all_compilable, compilable, condition_leaves, condition_required, conditions_leaves, conditions_required, count_trivially_completed,
    trivially_completed, TriggerCondition,
};
use crate::progress::sum_of;
use vstd::prelude::*;

verus! {

/// Constructs a trigger condition that triggers immediately.
pub fn none<Event>() -> (r: TriggerCondition<Event>)
    ensures
        r == TriggerCondition::<Event>::Always,
{
    TriggerCondition::Always
}

/// Constructs a trigger condition that never triggers.
pub fn never<Event>() -> (r: TriggerCondition<Event>)
    ensures
        r == TriggerCondition::<Event>::Never,
{
    TriggerCondition::Never
}

/// Constructs a trigger condition that triggers after the given event has been received the given amount of times.
pub fn event_count<Event>(event: Event, required: usize) -> (r: TriggerCondition<Event>)
    ensures
        r == (TriggerCondition::EventCount { event, required }),
{
    TriggerCondition::EventCount { event, required }
}

/// Constructs a trigger condition that triggers after an event has been received that is greater than the reference event.
pub fn gt<Event>(reference_event: Event) -> (r: TriggerCondition<Event>)
    ensures
        r == (TriggerCondition::Greater { reference_event }),
{
    TriggerCondition::Greater { reference_event }
}

/// Constructs a trigger condition that triggers after an event has been received that is greater than or equal to the reference event.
pub fn geq<Event>(reference_event: Event) -> (r: TriggerCondition<Event>)
    ensures
        r == (TriggerCondition::GreaterOrEqual { reference_event }),
{
    TriggerCondition::GreaterOrEqual { reference_event }
}

/// Constructs a trigger condition that triggers after an event has been received that is equal to the reference event.
pub fn eq<Event>(reference_event: Event) -> (r: TriggerCondition<Event>)
    ensures
        r == (TriggerCondition::Equal { reference_event }),
{
    TriggerCondition::Equal { reference_event }
}

/// Constructs a trigger condition that triggers after an event has been received that is less than or equal to the reference event.
pub fn leq<Event>(reference_event: Event) -> (r: TriggerCondition<Event>)
    ensures
        r == (TriggerCondition::LessOrEqual { reference_event }),
{
    TriggerCondition::LessOrEqual { reference_event }
}

/// Constructs a trigger condition that triggers after an event has been received that is less than the reference event.
pub fn lt<Event>(reference_event: Event) -> (r: TriggerCondition<Event>)
    ensures
        r == (TriggerCondition::Less { reference_event }),
{
    TriggerCondition::Less { reference_event }
}

/// Constructs a trigger condition that triggers after all given conditions have triggered.
pub fn and<Event>(conditions: Vec<TriggerCondition<Event>>) -> (r: TriggerCondition<Event>)
    ensures
        r == (TriggerCondition::And { conditions }),
{
    TriggerCondition::And { conditions }
}

/// Constructs a trigger condition that triggers after any of the given conditions have triggered.
pub fn or<Event>(conditions: Vec<TriggerCondition<Event>>) -> (r: TriggerCondition<Event>)
    ensures
        r == (TriggerCondition::Or { conditions }),
{
    TriggerCondition::Or { conditions }
}

/// Constructs a trigger condition that triggers after all given conditions have triggered in sequence.
///
/// A cursor points at the active condition; whenever it is fulfilled the cursor moves right,
/// and once it has passed all conditions this condition triggers.
pub fn sequence<Event>(conditions: Vec<TriggerCondition<Event>>) -> (r: TriggerCondition<Event>)
    ensures
        r == (TriggerCondition::Sequence { conditions }),
{
    TriggerCondition::Sequence { conditions }
}

/// Constructs a trigger condition that triggers after the given amount of given trigger conditions have triggered.
pub fn any_n<Event>(conditions: Vec<TriggerCondition<Event>>, n: usize) -> (r: TriggerCondition<Event>)
    ensures
        r == (TriggerCondition::AnyN { conditions, n }),
{
    TriggerCondition::AnyN { conditions, n }
}

/// The children that a condition contributes to a conjunction: its own children if it is
/// a conjunction itself, else the condition alone.
pub open spec fn and_operands<Event>(c: TriggerCondition<Event>) -> Seq<TriggerCondition<Event>> {
    match c {
        TriggerCondition::And { conditions } => conditions@,
        _ => seq![c],
    }
}

/// The children that a condition contributes to a disjunction: its own children if it is
/// a disjunction itself, else the condition alone.
pub open spec fn or_operands<Event>(c: TriggerCondition<Event>) -> Seq<TriggerCondition<Event>> {
    match c {
        TriggerCondition::Or { conditions } => conditions@,
        _ => seq![c],
    }
}

/// The children of `lhs & rhs`: the operands of both sides, in order, except that a
/// conjunction on the right only takes a non-conjunction on the left as its last child.
pub open spec fn conjunction_operands<Event>(lhs: TriggerCondition<Event>, rhs: TriggerCondition<Event>) -> Seq<
    TriggerCondition<Event>,
> {
    if !(lhs is And) && (rhs is And) {
        and_operands(rhs) + and_operands(lhs)
    } else {
        and_operands(lhs) + and_operands(rhs)
    }
}

/// The children of `lhs | rhs`: the operands of both sides, in order, except that a
/// disjunction on the right only takes a non-disjunction on the left as its last child.
pub open spec fn disjunction_operands<Event>(lhs: TriggerCondition<Event>, rhs: TriggerCondition<Event>) -> Seq<
    TriggerCondition<Event>,
> {
    if !(lhs is Or) && (rhs is Or) {
        or_operands(rhs) + or_operands(lhs)
    } else {
        or_operands(lhs) + or_operands(rhs)
    }
}

/// Conjunction collapses: when `ab` is what `a & b` gives for two conditions that are not
/// conjunctions, `ab & c` is the flat conjunction of `a`, `b` and `c` for any `c` that is not one.
pub proof fn lemma_and_collapse<Event>(
    a: TriggerCondition<Event>,
    b: TriggerCondition<Event>,
    c: TriggerCondition<Event>,
    ab: TriggerCondition<Event>,
)
    requires
        !(a is And),
        !(b is And),
        !(c is And),
        ab matches TriggerCondition::And { conditions } && conditions@ == conjunction_operands(a, b),
    ensures
        conjunction_operands(ab, c) == seq![a, b, c],
{
    assert(conjunction_operands(ab, c) =~= seq![a, b, c]);
}

/// Disjunction collapses: when `ab` is what `a | b` gives for two conditions that are not
/// disjunctions, `ab | c` is the flat disjunction of `a`, `b` and `c` for any `c` that is not one.
pub proof fn lemma_or_collapse<Event>(
    a: TriggerCondition<Event>,
    b: TriggerCondition<Event>,
    c: TriggerCondition<Event>,
    ab: TriggerCondition<Event>,
)
    requires
        !(a is Or),
        !(b is Or),
        !(c is Or),
        ab matches TriggerCondition::Or { conditions } && conditions@ == disjunction_operands(a, b),
    ensures
        disjunction_operands(ab, c) == seq![a, b, c],
{
    assert(disjunction_operands(ab, c) =~= seq![a, b, c]);
}

/// A nested conjunction `and([and([a, b]), c])` behaves as the flat `and([a, b, c])`: both
/// are fulfilled from the start in the same cases, have the same leaves, and, where the flat
/// one can be compiled, require the same progress.
pub proof fn lemma_nested_and_equivalent<Event>(
    a: TriggerCondition<Event>,
    b: TriggerCondition<Event>,
    c: TriggerCondition<Event>,
    ab: TriggerCondition<Event>,
    nested: TriggerCondition<Event>,
    flat: TriggerCondition<Event>,
)
    requires
        ab matches TriggerCondition::And { conditions } && conditions@ == seq![a, b],
        nested matches TriggerCondition::And { conditions } && conditions@ == seq![ab, c],
        flat matches TriggerCondition::And { conditions } && conditions@ == seq![a, b, c],
    ensures
        trivially_completed(nested) == trivially_completed(flat),
        condition_leaves(nested) == condition_leaves(flat),
        compilable(flat) ==> condition_required(nested) == condition_required(flat),
{
    let s2 = seq![a, b];
    let sn = seq![ab, c];
    let sf = seq![a, b, c];
    assert(s2.drop_last() =~= seq![a]);
    assert(seq![a].drop_last() =~= Seq::<TriggerCondition<Event>>::empty());
    assert(sn.drop_last() =~= seq![ab]);
    assert(seq![ab].drop_last() =~= Seq::<TriggerCondition<Event>>::empty());
    assert(sf.drop_last() =~= s2);
    assert(seq![a].last() == a);
    assert(seq![ab].last() == ab);
    assert(count_trivially_completed(Seq::<TriggerCondition<Event>>::empty()) == 0);
    assert(conditions_leaves(Seq::<TriggerCondition<Event>>::empty()) == 0);
    assert(count_trivially_completed(seq![a]) == if trivially_completed(a) { 1nat } else { 0nat });
    assert(count_trivially_completed(seq![ab]) == if trivially_completed(ab) { 1nat } else { 0nat });
    assert(conditions_leaves(seq![a]) == condition_leaves(a));
    assert(conditions_leaves(seq![ab]) == condition_leaves(ab));
    if compilable(flat) {
        let ra = condition_required(a);
        let rb = condition_required(b);
        let rc = condition_required(c);
        if let TriggerCondition::And { conditions } = flat {
            assert(conditions@ == sf);
            assert(all_compilable(conditions@));
            assert(compilable(sf[0]) && compilable(sf[1]) && compilable(sf[2]));
        }
        let e = Seq::<TriggerCondition<Event>>::empty();
        assert(conditions_required(e) =~= Seq::<u64>::empty());
        assert(sum_of(Seq::<u64>::empty()) == 0);
        assert(conditions_required(seq![a]) =~= seq![ra as u64]);
        assert(conditions_required(s2) =~= seq![ra as u64, rb as u64]);
        assert(conditions_required(sf) =~= seq![ra as u64, rb as u64, rc as u64]);
        assert(seq![ra as u64, rb as u64].drop_last() =~= seq![ra as u64]);
        assert(seq![ra as u64].drop_last() =~= Seq::<u64>::empty());
        assert(seq![ra as u64, rb as u64, rc as u64].drop_last() =~= seq![ra as u64, rb as u64]);
        assert(sum_of(seq![ra as u64]) == ra);
        assert(sum_of(seq![ra as u64, rb as u64]) == ra + rb);
        assert(sum_of(seq![ra as u64, rb as u64, rc as u64]) == ra + rb + rc);
        assert(condition_required(ab) == ra + rb);
        assert(conditions_required(seq![ab]) =~= seq![(ra + rb) as u64]);
        assert(conditions_required(sn) =~= seq![(ra + rb) as u64, rc as u64]);
        assert(seq![(ra + rb) as u64, rc as u64].drop_last() =~= seq![(ra + rb) as u64]);
        assert(seq![(ra + rb) as u64].drop_last() =~= Seq::<u64>::empty());
        assert(sum_of(seq![(ra + rb) as u64]) == ra + rb);
    }
}

/// A nested disjunction `or([or([a, b]), c])` behaves as the flat `or([a, b, c])`: both are
/// fulfilled from the start in the same cases and have the same leaves.
pub proof fn lemma_nested_or_equivalent<Event>(
    a: TriggerCondition<Event>,
    b: TriggerCondition<Event>,
    c: TriggerCondition<Event>,
    ab: TriggerCondition<Event>,
    nested: TriggerCondition<Event>,
    flat: TriggerCondition<Event>,
)
    requires
        ab matches TriggerCondition::Or { conditions } && conditions@ == seq![a, b],
        nested matches TriggerCondition::Or { conditions } && conditions@ == seq![ab, c],
        flat matches TriggerCondition::Or { conditions } && conditions@ == seq![a, b, c],
    ensures
        trivially_completed(nested) == trivially_completed(flat),
        condition_leaves(nested) == condition_leaves(flat),
{
    let s2 = seq![a, b];
    let sn = seq![ab, c];
    let sf = seq![a, b, c];
    assert(s2.drop_last() =~= seq![a]);
    assert(seq![a].drop_last() =~= Seq::<TriggerCondition<Event>>::empty());
    assert(sn.drop_last() =~= seq![ab]);
    assert(seq![ab].drop_last() =~= Seq::<TriggerCondition<Event>>::empty());
    assert(sf.drop_last() =~= s2);
    assert(seq![a].last() == a);
    assert(seq![ab].last() == ab);
    assert(count_trivially_completed(Seq::<TriggerCondition<Event>>::empty()) == 0);
    assert(conditions_leaves(Seq::<TriggerCondition<Event>>::empty()) == 0);
    assert(count_trivially_completed(seq![a]) == if trivially_completed(a) { 1nat } else { 0nat });
    assert(count_trivially_completed(seq![ab]) == if trivially_completed(ab) { 1nat } else { 0nat });
    assert(conditions_leaves(seq![a]) == condition_leaves(a));
    assert(conditions_leaves(seq![ab]) == condition_leaves(ab));
}

impl<Event> std::ops::BitAnd for TriggerCondition<Event> {
    type Output = TriggerCondition<Event>;

    /// Conjunction that flattens nested conjunctions.
    ///
    /// The operands of an `And` operand are taken over in place of the `And` itself. When
    /// only the right operand is an `And`, the left operand is appended after its children.
    fn bitand(self, rhs: Self) -> (r: Self::Output)
        ensures
            r matches TriggerCondition::And { conditions } && conditions@ == conjunction_operands(self, rhs),
    {
        match (self, rhs) {
            (TriggerCondition::And { conditions: mut lhs }, TriggerCondition::And { conditions: mut rhs }) => {
                lhs.append(&mut rhs);
                TriggerCondition::And { conditions: lhs }
            },
            (TriggerCondition::And { conditions: mut lhs }, rhs) => {
                lhs.push(rhs);
                TriggerCondition::And { conditions: lhs }
            },
            (lhs, TriggerCondition::And { conditions: mut rhs }) => {
                rhs.push(lhs);
                TriggerCondition::And { conditions: rhs }
            },
            (lhs, rhs) => TriggerCondition::And { conditions: vec![lhs, rhs] },
        }
    }
}

impl<Event> vstd::std_specs::ops::BitAndSpecImpl for TriggerCondition<Event> {
    open spec fn obeys_bitand_spec() -> bool {
        false
    }

    open spec fn bitand_req(self, rhs: Self) -> bool {
        true
    }

    open spec fn bitand_spec(self, rhs: Self) -> Self {
        TriggerCondition::Never
    }
}

impl<Event> std::ops::BitOr for TriggerCondition<Event> {
    type Output = TriggerCondition<Event>;

    /// Disjunction that flattens nested disjunctions.
    ///
    /// The operands of an `Or` operand are taken over in place of the `Or` itself. When
    /// only the right operand is an `Or`, the left operand is appended after its children.
    fn bitor(self, rhs: Self) -> (r: Self::Output)
        ensures
            r matches TriggerCondition::Or { conditions } && conditions@ == disjunction_operands(self, rhs),
    {
        match (self, rhs) {
            (TriggerCondition::Or { conditions: mut lhs }, TriggerCondition::Or { conditions: mut rhs }) => {
                lhs.append(&mut rhs);
                TriggerCondition::Or { conditions: lhs }
            },
            (TriggerCondition::Or { conditions: mut lhs }, rhs) => {
                lhs.push(rhs);
                TriggerCondition::Or { conditions: lhs }
            },
            (lhs, TriggerCondition::Or { conditions: mut rhs }) => {
                rhs.push(lhs);
                TriggerCondition::Or { conditions: rhs }
            },
            (lhs, rhs) => TriggerCondition::Or { conditions: vec![lhs, rhs] },
        }
    }
}

impl<Event> vstd::std_specs::ops::BitOrSpecImpl for TriggerCondition<Event> {
    open spec fn obeys_bitor_spec() -> bool {
        false
    }

    open spec fn bitor_req(self, rhs: Self) -> bool {
        true
    }

    open spec fn bitor_spec(self, rhs: Self) -> Self {
        TriggerCondition::Never
    }
}


impl<Event> std::ops::BitAndAssign for TriggerCondition<Event> {
    /// Replaces this condition by its conjunction with `rhs`, as `&` builds it.
    fn bitand_assign(&mut self, rhs: Self)
        ensures
            *final(self) matches TriggerCondition::And { conditions } && conditions@ == conjunction_operands(
                *old(self),
                rhs,
            ),
    {
        let mut lhs = TriggerCondition::Never;
        std::mem::swap(self, &mut lhs);
        *self = lhs & rhs;
    }
}

impl<Event> std::ops::BitOrAssign for TriggerCondition<Event> {
    /// Replaces this condition by its disjunction with `rhs`, as `|` builds it.
    fn bitor_assign(&mut self, rhs: Self)
        ensures
            *final(self) matches TriggerCondition::Or { conditions } && conditions@ == disjunction_operands(
                *old(self),
                rhs,
            ),
    {
        let mut lhs = TriggerCondition::Never;
        std::mem::swap(self, &mut lhs);
        *self = lhs | rhs;
    }
}

} // verus!
