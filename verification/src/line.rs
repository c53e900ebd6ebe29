//! The tri-state signal value and its logic algebra.
//!
//! A `Line` carries one of three states: `High`, `Low` or `Disconnected`
//! ("no driver"). `Disconnected` is a first-class signal state, never an
//! error: every operation below is total over all three states. An
//! undriven line reads as logically low, so the equality of `Line` values
//! (`==` in executable code) treats `Low` and `Disconnected` as
//! indistinguishable, while the three states remain distinct for storage.

use vstd::prelude::*;

verus! {

/// One tri-state signal value.
#[derive(Clone, Copy, Debug)]
pub enum Line {
    High,
    Low,
    Disconnected,
}

/// Boolean coercion: only `High` reads as true; `Low` and `Disconnected`
/// both read as false.
pub open spec fn spec_is_high(l: Line) -> bool {
    l == Line::High
}

/// `not`: `High` goes to `Low`; `Low` and `Disconnected` go to `High`.
pub open spec fn spec_not(l: Line) -> Line {
    match l {
        Line::High => Line::Low,
        _ => Line::High,
    }
}

/// `and`: `High` only if both operands are `High`, else `Low`.
pub open spec fn spec_and(a: Line, b: Line) -> Line {
    if a == Line::High && b == Line::High {
        Line::High
    } else {
        Line::Low
    }
}

/// `or`: `High` if either operand is `High`, else `Low`.
pub open spec fn spec_or(a: Line, b: Line) -> Line {
    if a == Line::High || b == Line::High {
        Line::High
    } else {
        Line::Low
    }
}

/// `xor`: if the first operand is `High` the result is `not` of the
/// second; otherwise the second operand passes through unchanged, so a
/// `Disconnected` second operand propagates when the first is not `High`.
pub open spec fn spec_xor(a: Line, b: Line) -> Line {
    if a == Line::High {
        spec_not(b)
    } else {
        b
    }
}

/// `nand`: complement of `and` under the same rule.
pub open spec fn spec_nand(a: Line, b: Line) -> Line {
    spec_not(spec_and(a, b))
}

/// `nor`: complement of `or` under the same rule.
pub open spec fn spec_nor(a: Line, b: Line) -> Line {
    spec_not(spec_or(a, b))
}

/// `xnor`: complement of `xor` using the same pass-through rule: if the
/// first operand is `High` the second passes through, else it is inverted.
pub open spec fn spec_xnor(a: Line, b: Line) -> Line {
    if a == Line::High {
        b
    } else {
        spec_not(b)
    }
}

/// Loose equality of signal values: `Low` and `Disconnected` are
/// indistinguishable when compared, `High` equals only `High`.
pub open spec fn spec_line_eq(a: Line, b: Line) -> bool {
    (a == Line::High) == (b == Line::High)
}

pub fn not(l0: Line) -> (r: Line)
    ensures
        r == spec_not(l0),
{
    match l0 {
        Line::High => Line::Low,
        _ => Line::High,
    }
}

pub fn and(l0: Line, l1: Line) -> (r: Line)
    ensures
        r == spec_and(l0, l1),
{
    match (l0, l1) {
        (Line::High, Line::High) => Line::High,
        _ => Line::Low,
    }
}

pub fn or(l0: Line, l1: Line) -> (r: Line)
    ensures
        r == spec_or(l0, l1),
{
    match (l0, l1) {
        (Line::High, _) | (_, Line::High) => Line::High,
        _ => Line::Low,
    }
}

pub fn xor(l0: Line, l1: Line) -> (r: Line)
    ensures
        r == spec_xor(l0, l1),
{
    match l0 {
        Line::High => not(l1),
        _ => l1,
    }
}

pub fn nand(l0: Line, l1: Line) -> (r: Line)
    ensures
        r == spec_nand(l0, l1),
{
    match (l0, l1) {
        (Line::High, Line::High) => Line::Low,
        _ => Line::High,
    }
}

pub fn nor(l0: Line, l1: Line) -> (r: Line)
    ensures
        r == spec_nor(l0, l1),
{
    match (l0, l1) {
        (Line::High, _) | (_, Line::High) => Line::Low,
        _ => Line::High,
    }
}

pub fn xnor(l0: Line, l1: Line) -> (r: Line)
    ensures
        r == spec_xnor(l0, l1),
{
    match l0 {
        Line::High => l1,
        _ => not(l1),
    }
}

impl Line {
    pub fn is_high(&self) -> (r: bool)
        ensures
            r == (*self == Line::High),
    {
        match self {
            Line::High => true,
            _ => false,
        }
    }

    pub fn is_low(&self) -> (r: bool)
        ensures
            r == (*self == Line::Low),
    {
        match self {
            Line::Low => true,
            _ => false,
        }
    }

    pub fn is_disconnected(&self) -> (r: bool)
        ensures
            r == (*self == Line::Disconnected),
    {
        match self {
            Line::Disconnected => true,
            _ => false,
        }
    }

    /// Boolean coercion: `High` is true; `Low` and `Disconnected` are false.
    pub fn to_bool(&self) -> (r: bool)
        ensures
            r == spec_is_high(*self),
    {
        match self {
            Line::High => true,
            _ => false,
        }
    }

    /// The line driven by a boolean: true is `High`, false is `Low`.
    pub fn from_bool(b: bool) -> (r: Line)
        ensures
            r == (if b {
                Line::High
            } else {
                Line::Low
            }),
    {
        if b {
            Line::High
        } else {
            Line::Low
        }
    }
}

impl PartialEq for Line {
    /// Comparison reads an undriven line as logically low: `Low` and
    /// `Disconnected` compare equal, `High` only equals `High`.
    fn eq(&self, other: &Line) -> (r: bool) {
        match (self, other) {
            (Line::High, Line::High) => true,
            (Line::Low, Line::Low)
            | (Line::Low, Line::Disconnected)
            | (Line::Disconnected, Line::Low)
            | (Line::Disconnected, Line::Disconnected) => true,
            _ => false,
        }
    }
}

impl vstd::std_specs::cmp::PartialEqSpecImpl for Line {
    open spec fn obeys_eq_spec() -> bool {
        true
    }

    open spec fn eq_spec(&self, other: &Line) -> bool {
        spec_line_eq(*self, *other)
    }
}

/// Both binary operations agree with boolean coercion on every operand
/// pair: `and` is `High` exactly when both operands are `High`, and `or`
/// is `High` exactly when at least one operand is `High`.
pub proof fn lemma_and_or_high(a: Line, b: Line)
    ensures
        (spec_and(a, b) == Line::High) <==> (a == Line::High && b == Line::High),
        (spec_or(a, b) == Line::High) <==> (a == Line::High || b == Line::High),
{
}

/// `not` is not an involution across `Disconnected`: a double negation
/// lands on the driven value with the same boolean reading, so
/// `not(not(Disconnected))` is `Low`, not `Disconnected`.
pub proof fn lemma_double_not(a: Line)
    ensures
        spec_not(spec_not(a)) == (if a == Line::High {
            Line::High
        } else {
            Line::Low
        }),
{
}

} // verus!
