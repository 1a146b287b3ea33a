use vstd::prelude::*;

verus! {

/// What kind of decoding failed for a field, determined by the column's type.
#[derive(Clone, Copy, Debug, PartialEq, Eq, Structural)]
pub enum ParseFailKind {
    Numeric,
    Boolean,
    Encoding,
}

/// Errors a read can end with.
///
/// `ParseError.row` is the index of the failing record within the data
/// region (after header and skipped rows), counting from zero; `column` is
/// the schema index of the failing field.
#[derive(Clone, Copy, Debug, PartialEq, Eq, Structural)]
pub enum CsvError {
    /// The preamble skip ran out of bytes before `skip_rows` was satisfied.
    InputExhausted,
    /// A field failed to decode under its column's type.
    ParseError { row: usize, column: usize, kind: ParseFailKind },
    /// The configured projection names a column absent from the schema.
    SchemaMismatch,
    /// No byte source was supplied.
    ConfigurationError,
    /// A row predicate returned a mask of the wrong length.
    PredicateError,
    /// An aggregation returned a non-conforming column.
    AggregationError,
}

} // verus!
