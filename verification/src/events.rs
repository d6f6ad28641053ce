use crate::bindings::Bind;
use vstd::prelude::*;

verus! {

/// A normalized axis value as an exact fraction: `numerator / denominator`,
/// with a positive denominator. An absolute axis lies between 0 and 1, any
/// other between -1 and 1.
#[derive(Debug, Clone, Copy, PartialEq, Eq, Structural)]
pub struct AxisValue {
    pub numerator: i32,
    pub denominator: i32,
}

/// What happened to a logical input between two reports.
#[derive(Debug, Clone, Copy, PartialEq, Eq, Structural)]
pub enum BindingEvent {
    /// A button went down.
    Pressed,
    /// A button came up.
    Released,
    /// An axis moved; this is its new value.
    Value(AxisValue),
}

/// A change of one logical input.
#[derive(Debug, Clone, Copy, PartialEq, Eq, Structural)]
pub struct NativeEvent {
    pub bind: Bind,
    pub state: BindingEvent,
}

} // verus!
