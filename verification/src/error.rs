use vstd::prelude::*;

verus! {

/// Why decoding a wire message failed.
///
/// Every decode entry point returns one of these as a typed failure value;
/// nothing in this layer panics, logs or retries.
#[derive(Clone, Copy, Debug, PartialEq, Eq, Structural)]
pub enum DecodeError {
    /// The text is not well-formed JSON of the expected shape.
    Syntax,
    /// A required field is absent from the object.
    MissingField,
    /// A recognized field occurs more than once.
    DuplicateField,
    /// The object holds a field the schema does not know.
    UnknownField,
    /// A field holds a JSON value of the wrong type.
    TypeMismatch,
    /// A numeric string does not parse as a decimal number.
    NumberFormat,
    /// A value that must be a string or a boolean is neither.
    StringOrBool,
}

} // verus!
