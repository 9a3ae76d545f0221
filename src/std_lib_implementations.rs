//! The unit type as a trivial event and action type.
use crate::compiled::PROGRESS_UNIT;
use crate::triggers::{TriggerAction, TriggerEvent};
use std::cmp::Ordering;
use vstd::prelude::*;

verus! {

impl TriggerAction for () {

}

impl TriggerEvent for () {
    type Action = ();

    open spec fn spec_identifier(&self) -> u64 {
        0
    }

    open spec fn spec_from_action(action: &()) -> () {
        ()
    }

    open spec fn spec_partial_cmp(&self, other: &Self) -> Option<Ordering> {
        Some(Ordering::Equal)
    }

    /// Unit events are all equal.
    fn partial_cmp_event(&self, other: &Self) -> (r: Option<Ordering>) {
        Some(Ordering::Equal)
    }

    open spec fn spec_cmp_progress(&self, other: &Self, target_ordering: Ordering) -> Option<u64> {
        Some(if target_ordering == Ordering::Equal { PROGRESS_UNIT } else { 0 })
    }

    /// All unit events share one identifier.
    fn identifier(&self) -> (r: u64) {
        0
    }

    /// Unit events are equal, so the target ordering holds exactly when it is equality.
    fn partial_cmp_progress(&self, other: &Self, target_ordering: Ordering) -> (r: Option<u64>) {
        Some(
            match target_ordering {
                Ordering::Equal => PROGRESS_UNIT,
                _ => 0,
            },
        )
    }

    fn from_action(action: &()) -> (r: ()) {
    }
}

} // verus!
