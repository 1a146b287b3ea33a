use vstd::prelude::*;
use crate::err::CsvError;
use crate::frame::DataFrame;
use crate::reader::{
    lemma_ascending_props, parse_outcome_ok, proj_invalid, spec_all_rows, spec_proj,
    SequentialReader,
};
use crate::parser::strictly_sorted;

verus! {

/// The options that decide what a read returns. Parallelism, sampling
/// and allocation hints are absent on purpose: they may not change the
/// result.
pub open spec fn same_read_options(a: SequentialReader, b: SequentialReader) -> bool {
    &&& a.schema.fields@ == b.schema.fields@
    &&& a.projection == b.projection
    &&& a.has_header == b.has_header
    &&& a.skip_rows == b.skip_rows
    &&& a.n_rows == b.n_rows
    &&& a.encoding == b.encoding
    &&& a.ignore_parser_errors == b.ignore_parser_errors
    &&& a.delimiter == b.delimiter
}

/// Parsing with any worker count gives identical columns: two readers
/// that agree on the read options, whatever their `n_threads`,
/// `sample_size`, `chunk_size` or `batch_size`, return equal frames on
/// the same bytes, or the same error.
pub proof fn lemma_thread_count_irrelevant(
    rd1: SequentialReader,
    rd2: SequentialReader,
    s: Seq<u8>,
    r1: Result<DataFrame, CsvError>,
    r2: Result<DataFrame, CsvError>,
)
    requires
        same_read_options(rd1, rd2),
        parse_outcome_ok(rd1, s, r1, true),
        parse_outcome_ok(rd2, s, r2, true),
    ensures
        match (r1, r2) {
            (Ok(a), Ok(b)) => {
                &&& a.fields@ == b.fields@
                &&& a.cols@.len() == b.cols@.len()
                &&& forall|j: int| 0 <= j < a.cols@.len() ==> #[trigger] a.cols@[j]@ == b.cols@[j]@
            },
            (Err(e1), Err(e2)) => e1 == e2,
            _ => false,
        },
{
}

/// Reading twice from the same bytes and options yields equal frames.
pub proof fn lemma_idempotent(
    rd: SequentialReader,
    s: Seq<u8>,
    r1: Result<DataFrame, CsvError>,
    r2: Result<DataFrame, CsvError>,
)
    requires
        parse_outcome_ok(rd, s, r1, true),
        parse_outcome_ok(rd, s, r2, true),
    ensures
        match (r1, r2) {
            (Ok(a), Ok(b)) => {
                &&& a.fields@ == b.fields@
                &&& a.cols@.len() == b.cols@.len()
                &&& forall|j: int| 0 <= j < a.cols@.len() ==> #[trigger] a.cols@[j]@ == b.cols@[j]@
            },
            (Err(e1), Err(e2)) => e1 == e2,
            _ => false,
        },
{
    lemma_thread_count_irrelevant(rd, rd, s, r1, r2);
}

/// The result never exceeds `n_rows`, and equals the height of the
/// sequential parse truncated to `n_rows`.
pub proof fn lemma_height_bound(rd: SequentialReader, s: Seq<u8>, df: DataFrame)
    requires
        parse_outcome_ok(rd, s, Ok(df), true),
        spec_proj(rd.projection, rd.schema.fields@.len()).len() > 0,
    ensures
        match rd.n_rows {
            Some(n) => {
                &&& df.spec_height() <= n
                &&& df.spec_height() == (if n <= spec_all_rows(
                    s,
                    rd.has_header,
                    rd.skip_rows as nat,
                    rd.delimiter,
                ).len() {
                    n as nat
                } else {
                    spec_all_rows(s, rd.has_header, rd.skip_rows as nat, rd.delimiter).len()
                })
            },
            None => df.spec_height() == spec_all_rows(
                s,
                rd.has_header,
                rd.skip_rows as nat,
                rd.delimiter,
            ).len(),
        },
{
}

/// Column order in the result is the ascending sort of the requested
/// projection: the resolved projection is strictly increasing, and holds
/// exactly the requested column indices.
pub proof fn lemma_projection_order(rd: SequentialReader, s: Seq<u8>, df: DataFrame)
    requires
        parse_outcome_ok(rd, s, Ok(df), true),
        rd.schema.fields@.len() <= usize::MAX,
    ensures
        ({
            let ncols = rd.schema.fields@.len();
            let sp = spec_proj(rd.projection, ncols);
            &&& strictly_sorted(sp)
            &&& df.fields@.len() == sp.len()
            &&& forall|j: int|
                0 <= j < sp.len() ==> #[trigger] df.fields@[j] == rd.schema.fields@[sp[j] as int]
            &&& (match rd.projection {
                Some(p) => forall|x: usize| sp.contains(x) <==> p@.contains(x) && x < ncols,
                None => true,
            })
        }),
{
    let ncols = rd.schema.fields@.len();
    let sp = spec_proj(rd.projection, ncols);
    match rd.projection {
        Some(p) => {
            lemma_ascending_props(p@, ncols);
            assert(!proj_invalid(rd.projection, ncols));
            assert forall|x: usize| sp.contains(x) implies p@.contains(x) && x < ncols by {
                let i = choose|i: int| 0 <= i < sp.len() && sp[i] == x;
            }
        },
        None => {},
    }
}

} // verus!
