use vstd::prelude::*;

verus! {

/// The two data errors that can abort a key construction.
///
/// Construction is deterministic and pure, so both kinds stem from
/// malformed input data, never from transient conditions.
#[derive(Clone, Copy, Debug, PartialEq, Eq, Structural)]
pub enum KeyError {
    /// A trait evaluation received a raw value matching neither of the
    /// trait's two configured labels.
    UnrecognizedValue,
    /// Within one node's possibility set, some items carry a value for
    /// the assigned trait and others do not.  Discrimination requires
    /// all-or-nothing knowledge at a node.
    PartialCoverage,
}

impl KeyError {
    /// A human-readable description of the error.
    pub fn message(&self) -> (r: String)
        ensures
            *self is UnrecognizedValue ==> r@ == "value matches neither label of the characteristic"@,
            *self is PartialCoverage ==> r@ == "some items in a possibility set carry the characteristic and others do not"@,
    {
        match self {
            KeyError::UnrecognizedValue => String::from_str(
                "value matches neither label of the characteristic",
            ),
            KeyError::PartialCoverage => String::from_str(
                "some items in a possibility set carry the characteristic and others do not",
            ),
        }
    }
}

} // verus!
