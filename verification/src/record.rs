//! The record shape and the decode error taxonomy.

use vstd::prelude::*;

verus! {

/// The in-memory value the codec converts: two free-form text fields.
/// `name` passes through the codec unchanged; `date` carries the literal
/// prefix `"Date: "` while at rest.
#[derive(Debug)]
pub struct Record {
    pub name: String,
    pub date: String,
}

impl PartialEq for Record {
    /// Two records are equal when both fields hold the same text.
    fn eq(&self, other: &Record) -> (r: bool) {
        self.name == other.name && self.date == other.date
    }
}

impl vstd::std_specs::cmp::PartialEqSpecImpl for Record {
    open spec fn obeys_eq_spec() -> bool {
        true
    }

    open spec fn eq_spec(&self, other: &Record) -> bool {
        self.name@ == other.name@ && self.date@ == other.date@
    }
}

impl Eq for Record {

}

/// The field a decode error speaks of.
#[derive(Debug, Clone, Copy, PartialEq, Eq, Structural)]
pub enum Field {
    Name,
    Date,
}

/// Why a document could not be decoded into a [`Record`].
///
/// Encoding never fails; decoding fails closed on anything that is not a
/// well-formed at-rest document.
#[derive(Debug, Clone, Copy, PartialEq, Eq, Structural)]
pub enum DecodeError {
    /// The input is not a JSON object of the accepted shape.
    Malformed,
    /// A required key does not occur in the object.
    MissingField(Field),
    /// A required key is bound to a value that is not text.
    NotText(Field),
    /// A required key occurs more than once.
    DuplicateField(Field),
    /// The `date` value does not begin with the at-rest prefix `"Date: "`.
    MissingPrefix,
}

} // verus!
