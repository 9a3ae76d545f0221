//! # Event trigger action system
//!
//! Triggers pair a condition over a stream of events with a one-shot list of actions.
//! The central type is [`CompiledTriggers`], which executes events and queues the actions
//! of the triggers whose conditions became fulfilled; those actions re-enter the system as
//! events, so that triggers can set each other off.

pub mod compiled;
pub mod conditions;
pub mod constructors;
mod index;
pub mod progress;
mod std_lib_implementations;
pub mod triggers;

pub use crate::compiled::{
    Comparison, CompiledTriggerCondition, CompiledTriggerConditionKind, TriggerConditionUpdate, PROGRESS_UNIT,
};
pub use crate::conditions::TriggerCondition;
pub use crate::constructors::{and, any_n, eq, event_count, geq, gt, leq, lt, never, none, or, sequence};
pub use crate::triggers::{
    CompiledTrigger, CompiledTriggers, Trigger, TriggerAction, TriggerEvent, TriggerHandle, TriggerSystem, Triggers,
};
