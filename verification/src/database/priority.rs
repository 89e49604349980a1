//! Codec between the ordered priority levels and their stored integers.
//!
//! A priority is persisted as a small integer in `0..=4`. Encoding is total;
//! decoding any other integer is a corrupt-data error and is reported, never
//! coerced.

use vstd::prelude::*;

use crate::todo_storage::PriorityLevel;

verus! {

/// A todo item's priority, ordered from most to least urgent.
#[derive(Clone, Copy, Debug, PartialEq, Eq, Structural)]
pub enum Priority {
    VeryHigh,
    High,
    Medium,
    Low,
    VeryLow,
}

/// The stored integer was outside `0..=4`; the offending value is kept.
#[derive(Clone, Copy, Debug, PartialEq, Eq, Structural)]
pub struct BadPriorityError(pub u8);

/// The stored representation of each priority level.
pub open spec fn prio_code(p: Priority) -> u8 {
    match p {
        Priority::VeryHigh => 0,
        Priority::High => 1,
        Priority::Medium => 2,
        Priority::Low => 3,
        Priority::VeryLow => 4,
    }
}

/// The priority stored as `v`; meaningful only when `v <= 4`.
pub open spec fn code_prio(v: u8) -> Priority {
    if v == 0 {
        Priority::VeryHigh
    } else if v == 1 {
        Priority::High
    } else if v == 2 {
        Priority::Medium
    } else if v == 3 {
        Priority::Low
    } else {
        Priority::VeryLow
    }
}

impl Priority {
    /// Total encoding into the stored integer; always in `0..=4`.
    pub fn encode(self) -> (v: u8)
        ensures
            v == prio_code(self),
            v <= 4,
    {
        match self {
            Priority::VeryHigh => 0,
            Priority::High => 1,
            Priority::Medium => 2,
            Priority::Low => 3,
            Priority::VeryLow => 4,
        }
    }

    /// Decoding fails exactly on integers outside `0..=4`, reporting the value.
    pub fn decode(v: u8) -> (r: Result<Priority, BadPriorityError>)
        ensures
            v <= 4 ==> r == Ok::<Priority, BadPriorityError>(code_prio(v)),
            v > 4 ==> r == Err::<Priority, BadPriorityError>(BadPriorityError(v)),
    {
        match v {
            0 => Ok(Priority::VeryHigh),
            1 => Ok(Priority::High),
            2 => Ok(Priority::Medium),
            3 => Ok(Priority::Low),
            4 => Ok(Priority::VeryLow),
            u => Err(BadPriorityError(u)),
        }
    }
}

/// The stored priority a caller-facing level corresponds to.
pub open spec fn level_to_priority(l: PriorityLevel) -> Priority {
    match l {
        PriorityLevel::VeryHigh => Priority::VeryHigh,
        PriorityLevel::High => Priority::High,
        PriorityLevel::Medium => Priority::Medium,
        PriorityLevel::Low => Priority::Low,
        PriorityLevel::VeryLow => Priority::VeryLow,
    }
}

/// The caller-facing level a stored priority corresponds to.
pub open spec fn priority_to_level(p: Priority) -> PriorityLevel {
    match p {
        Priority::VeryHigh => PriorityLevel::VeryHigh,
        Priority::High => PriorityLevel::High,
        Priority::Medium => PriorityLevel::Medium,
        Priority::Low => PriorityLevel::Low,
        Priority::VeryLow => PriorityLevel::VeryLow,
    }
}

impl Priority {
    /// The stored priority for a caller-facing level.
    pub fn from_level(l: PriorityLevel) -> (p: Priority)
        ensures
            p == level_to_priority(l),
    {
        match l {
            PriorityLevel::VeryHigh => Priority::VeryHigh,
            PriorityLevel::High => Priority::High,
            PriorityLevel::Medium => Priority::Medium,
            PriorityLevel::Low => Priority::Low,
            PriorityLevel::VeryLow => Priority::VeryLow,
        }
    }

    /// The caller-facing level for a stored priority.
    pub fn to_level(self) -> (l: PriorityLevel)
        ensures
            l == priority_to_level(self),
    {
        match self {
            Priority::VeryHigh => PriorityLevel::VeryHigh,
            Priority::High => PriorityLevel::High,
            Priority::Medium => PriorityLevel::Medium,
            Priority::Low => PriorityLevel::Low,
            Priority::VeryLow => PriorityLevel::VeryLow,
        }
    }
}

/// Decoding inverts encoding on every priority, and encoding inverts
/// decoding on every integer in `0..=4`.
pub proof fn lemma_priority_round_trip(p: Priority, v: u8)
    requires
        v <= 4,
    ensures
        code_prio(prio_code(p)) == p,
        prio_code(code_prio(v)) == v,
{
}

} // verus!
