//! The kind of value that a text cell holds.
use crate::literal::{chars_are, signed_parts, signed_span, strip_marks, strip_marks_exec};
use crate::text::{chars_of, lower, trim, trim_lower};
use vstd::prelude::*;

verus! {

/// The kind of value a text cell holds.
#[derive(PartialEq, Eq, Debug, Clone, Copy, Hash, Structural)]
pub enum FieldState {
    Null,
    Bool,
    Int,
    Float,
    Str,
}

/// The kind of a text cell: trimmed and compared without regard to ASCII
/// case, blank or a null word is `None`, a truth word `Bool`, and, once
/// spaces and `$` are removed, an integer form `Int` and a decimal form
/// `Float`; anything else is `Str`.
pub open spec fn field_class(data: Seq<char>) -> FieldState {
    let c = lower(trim(data));
    if c.len() == 0 || c == "null"@ || c == "none"@ || c == "nan"@ {
        FieldState::Null
    } else if c == "true"@ || c == "false"@ || c == "yes"@ || c == "no"@ {
        FieldState::Bool
    } else if signed_parts(strip_marks(c), false) is Some {
        FieldState::Int
    } else if signed_parts(strip_marks(c), true) is Some {
        FieldState::Float
    } else {
        FieldState::Str
    }
}

/// Whether a cell has integer form once spaces and `$` are removed.
pub fn check_integer(data: &str) -> (r: bool)
    ensures
        r == signed_parts(strip_marks(data@), false) is Some,
{
    let d = strip_marks_exec(&chars_of(data));
    signed_span(&d, false).is_some()
}

/// Whether a cell has decimal form once spaces and `$` are removed.
pub fn check_float(data: &str) -> (r: bool)
    ensures
        r == signed_parts(strip_marks(data@), true) is Some,
{
    let d = strip_marks_exec(&chars_of(data));
    signed_span(&d, true).is_some()
}

impl FieldState {
    /// The name of the kind.
    pub fn to_str(&self) -> (r: &'static str)
        ensures
            r@ == match self {
                FieldState::Null => "None"@,
                FieldState::Bool => "Bool"@,
                FieldState::Int => "Int"@,
                FieldState::Float => "Float"@,
                FieldState::Str => "Str"@,
            },
    {
        match self {
            FieldState::Null => "None",
            FieldState::Bool => "Bool",
            FieldState::Int => "Int",
            FieldState::Float => "Float",
            FieldState::Str => "Str",
        }
    }

    /// The kind of a text cell.
    pub fn from_str(data: &str) -> (r: Self)
        ensures
            r == field_class(data@),
    {
        let cleaned = trim_lower(&chars_of(data));
        if cleaned.len() == 0 || chars_are(&cleaned, "null") || chars_are(&cleaned, "none")
            || chars_are(&cleaned, "nan") {
            return FieldState::Null;
        }
        if chars_are(&cleaned, "true") || chars_are(&cleaned, "false") || chars_are(&cleaned, "yes")
            || chars_are(&cleaned, "no") {
            return FieldState::Bool;
        }
        let d = strip_marks_exec(&cleaned);
        if signed_span(&d, false).is_some() {
            return FieldState::Int;
        }
        if signed_span(&d, true).is_some() {
            return FieldState::Float;
        }
        FieldState::Str
    }
}

} // verus!
