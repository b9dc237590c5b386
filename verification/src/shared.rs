//! The error type shared by the ruleset and the solver.

use crate::vec2i::Vec2i;
use vstd::prelude::*;

verus! {

/// A collapsed cell next to a position: the step that leads to it and the
/// field it holds.
#[derive(Debug, Copy, Clone, PartialEq, Eq, Structural)]
pub struct ResolvedNeighbor {
    pub direction: Vec2i,
    pub field: i8,
}

/// What went wrong.
#[derive(Debug, PartialEq, Eq)]
pub enum ErrorKind {
    /// A failure described only by its message.
    Other,
    /// The ruleset declares no rule for `field`.
    NoRule { field: i8 },
    /// `direction` is not one of the four unit directions.
    InvalidDirection { direction: Vec2i },
    /// No field is compatible with the collapsed cells around `position`;
    /// `neighbors` lists them in the order up, right, down, left.
    Contradiction { position: Vec2i, neighbors: Vec<ResolvedNeighbor> },
    /// A weighted draw was asked of an empty candidate list.
    NoCandidates,
    /// The rule at position `rule` names the reserved value of an uncollapsed
    /// cell as its field.
    ReservedField { rule: usize },
    /// The rule at position `rule` holds a weight that is zero or above the
    /// largest supported weight.
    InvalidWeight { rule: usize },
}

/// An error of the solver or of a ruleset lookup.
#[derive(Debug, PartialEq, Eq)]
pub struct WfcError {
    pub kind: ErrorKind,
    pub message: String,
}

impl WfcError {
    /// An error that carries only a message.
    pub fn new(message: String) -> (e: Self)
        ensures
            e.kind is Other,
            e.message == message,
    {
        Self { kind: ErrorKind::Other, message }
    }

    /// The error of a lookup for a field that has no rule.
    pub fn no_rule(field: i8) -> (e: Self)
        ensures
            e.kind == (ErrorKind::NoRule { field }),
            e.message@ == "get_allowed_fields -> No rule found for field"@,
    {
        Self {
            kind: ErrorKind::NoRule { field },
            message: "get_allowed_fields -> No rule found for field".to_string(),
        }
    }

    /// The error of a lookup in something that is not a unit direction.
    pub fn invalid_direction(direction: Vec2i) -> (e: Self)
        ensures
            e.kind == (ErrorKind::InvalidDirection { direction }),
            e.message@ == "get_allowed_fields -> Invalid direction"@,
    {
        Self {
            kind: ErrorKind::InvalidDirection { direction },
            message: "get_allowed_fields -> Invalid direction".to_string(),
        }
    }

    /// The error of a cell for which no field is left.
    pub fn contradiction(position: Vec2i, neighbors: Vec<ResolvedNeighbor>) -> (e: Self)
        ensures
            e.kind == (ErrorKind::Contradiction { position, neighbors }),
            e.message@ == "No possible states for position - check ruleset"@,
    {
        Self {
            kind: ErrorKind::Contradiction { position, neighbors },
            message: "No possible states for position - check ruleset".to_string(),
        }
    }

    /// The error of a weighted draw without candidates.
    pub fn no_candidates() -> (e: Self)
        ensures
            e.kind is NoCandidates,
            e.message@ == "choose_weighted -> No field selected"@,
    {
        Self {
            kind: ErrorKind::NoCandidates,
            message: "choose_weighted -> No field selected".to_string(),
        }
    }

    /// The error of a rule for the reserved value of an uncollapsed cell.
    pub fn reserved_field(rule: usize) -> (e: Self)
        ensures
            e.kind == (ErrorKind::ReservedField { rule }),
            e.message@ == "a rule is declared for the value of an uncollapsed cell"@,
    {
        Self {
            kind: ErrorKind::ReservedField { rule },
            message: "a rule is declared for the value of an uncollapsed cell".to_string(),
        }
    }

    /// The error of a rule with a weight outside the supported range.
    pub fn invalid_weight(rule: usize) -> (e: Self)
        ensures
            e.kind == (ErrorKind::InvalidWeight { rule }),
            e.message@ == "a rule holds a weight outside the supported range"@,
    {
        Self {
            kind: ErrorKind::InvalidWeight { rule },
            message: "a rule holds a weight outside the supported range".to_string(),
        }
    }
}

} // verus!
