use vstd::prelude::*;
use crate::column::{
    col_dtype, col_len, empty_col, lemma_col_extend_concat, lemma_col_extend_len, ColView, Column,
    col_extend,
};
use crate::chunks::get_file_chunks;
use crate::err::CsvError;
use crate::frame::DataFrame;
use crate::parser::{
    first_bad_col, first_bad_row, kind_of, lemma_first_bad_col_props, lemma_first_bad_row_props,
    lemma_first_bad_col_is, lemma_first_bad_row_is, lemma_reach_rows_diff, lemma_reach_rows_le,
    parse_lines, row_bad,
    strictly_sorted, views_of,
};
use crate::scan::{
    after_rows, preamble_start, reach, rows_from, skip_bom, skip_line_ending, skip_whitespace,
    advance_records, LF, CR, QUOTE,
};
use crate::schema::{storage_of, CsvEncoding, DataType, Field, Schema};
use crate::stats::{estimate_rows, get_line_stats};

verus! {

/// A caller-supplied row predicate: from a partial frame to a keep-mask
/// of the same height.
pub trait PhysicalIoExpr {
    fn evaluate(&self, df: &DataFrame) -> Result<Vec<bool>, CsvError>;
}

/// A caller-supplied post-aggregation: from the full frame to one
/// replacement column.
pub trait ScanAggregation {
    fn finish(&self, df: &DataFrame) -> Result<(Field, Column), CsvError>;
}

/// Relies on `num_cpus::get` for the host's logical CPU count; its
/// documentation promises at least one.
#[verifier::external_body]
fn host_cpu_count() -> (r: usize)
    ensures
        r >= 1,
{
    num_cpus::get()
}

/// The ascending enumeration of the values below `bound` that `p` holds:
/// the canonical sorted, duplicate-free form of a projection.
pub open spec fn ascending(p: Seq<usize>, bound: nat) -> Seq<usize>
    decreases bound,
{
    if bound == 0 {
        Seq::empty()
    } else {
        ascending(p, (bound - 1) as nat) + if p.contains((bound - 1) as usize) {
            seq![(bound - 1) as usize]
        } else {
            Seq::empty()
        }
    }
}

pub proof fn lemma_ascending_props(p: Seq<usize>, bound: nat)
    requires
        bound <= usize::MAX as nat + 1,
    ensures
        strictly_sorted(ascending(p, bound)),
        forall|j: int|
            0 <= j < ascending(p, bound).len() ==> (#[trigger] ascending(p, bound)[j]) < bound
                && p.contains(ascending(p, bound)[j]),
        forall|x: usize| x < bound && p.contains(x) ==> ascending(p, bound).contains(x),
    decreases bound,
{
    if bound > 0 {
        lemma_ascending_props(p, (bound - 1) as nat);
        let prev = ascending(p, (bound - 1) as nat);
        let cur = ascending(p, bound);
        if p.contains((bound - 1) as usize) {
            assert(cur =~= prev.push((bound - 1) as usize));
            assert forall|i: int, j: int| 0 <= i < j < cur.len() implies cur[i] < cur[j] by {
                assert(cur.len() == prev.len() + 1);
                if j < prev.len() {
                    assert(cur[i] == prev[i]);
                    assert(cur[j] == prev[j]);
                    assert(prev[i] < prev[j]);
                } else {
                    assert(j == prev.len());
                    assert(cur[j] == (bound - 1) as usize);
                    assert(cur[i] == prev[i]);
                    assert(ascending(p, (bound - 1) as nat)[i] < (bound - 1) as nat);
                }
            }
        } else {
            assert(cur =~= prev);
        }
        assert forall|x: usize| x < bound && p.contains(x) implies cur.contains(x) by {
            if x < bound - 1 {
                let i = choose|i: int| 0 <= i < prev.len() && prev[i] == x;
                assert(cur[i] == x);
            } else {
                assert(cur[cur.len() - 1] == x);
            }
        }
    }
}

/// Does `p` hold `x`?
pub fn contains_val(p: &Vec<usize>, x: usize) -> (r: bool)
    ensures
        r == p@.contains(x),
{
    let mut i: usize = 0;
    while i < p.len()
        invariant
            0 <= i <= p@.len(),
            forall|j: int| 0 <= j < i ==> p@[j] != x,
        decreases p@.len() - i,
    {
        if p[i] == x {
            return true;
        }
        i += 1;
    }
    false
}

/// The canonical sorted, duplicate-free projection over `bound` columns.
pub fn sort_projection(p: &Vec<usize>, bound: usize) -> (r: Vec<usize>)
    ensures
        r@ == ascending(p@, bound as nat),
{
    let mut out: Vec<usize> = Vec::new();
    let mut k: usize = 0;
    while k < bound
        invariant
            0 <= k <= bound,
            out@ == ascending(p@, k as nat),
        decreases bound - k,
    {
        if contains_val(p, k) {
            out.push(k);
            proof {
                assert(ascending(p@, (k + 1) as nat) =~= ascending(p@, k as nat).push(k));
            }
        } else {
            proof {
                assert(ascending(p@, (k + 1) as nat) =~= ascending(p@, k as nat));
            }
        }
        k += 1;
    }
    out
}

/// The fields that a sorted projection selects.
pub open spec fn projected_fields(fields: Seq<Field>, sp: Seq<usize>) -> Seq<Field> {
    Seq::new(sp.len(), |j: int| fields[sp[j] as int])
}

/// One empty column buffer per projected field.
pub open spec fn proj_bufs(fields: Seq<Field>, sp: Seq<usize>) -> Seq<ColView> {
    Seq::new(sp.len(), |j: int| empty_col(storage_of(fields[sp[j] as int].dtype)))
}

/// The input bytes with a final record terminator guaranteed.
pub open spec fn terminated(b: Seq<u8>) -> Seq<u8> {
    if b.len() > 0 && (b[b.len() - 1] == LF || b[b.len() - 1] == CR) {
        b
    } else {
        b.push(LF)
    }
}

/// Records to skip before data: the header if present, then `skip_rows`.
pub open spec fn needed_skips(has_header: bool, skip_rows: nat) -> nat {
    (if has_header {
        1nat
    } else {
        0nat
    }) + skip_rows
}

/// Where data parsing starts in the terminated input.
pub open spec fn spec_data_start(s: Seq<u8>, has_header: bool, skip_rows: nat) -> int {
    after_rows(s, preamble_start(s), needed_skips(has_header, skip_rows))
}

/// The preamble skip runs out of records.
pub open spec fn spec_exhausted(s: Seq<u8>, has_header: bool, skip_rows: nat, d: u8) -> bool {
    skip_rows > 0 && rows_from(s, preamble_start(s), d).len() < needed_skips(has_header, skip_rows)
}

/// All data records of the terminated input.
pub open spec fn spec_all_rows(s: Seq<u8>, has_header: bool, skip_rows: nat, d: u8) -> Seq<
    Seq<Seq<u8>>,
> {
    rows_from(s, spec_data_start(s, has_header, skip_rows), d)
}

/// The data records after the row limit.
pub open spec fn limit_rows(rows: Seq<Seq<Seq<u8>>>, n_rows: Option<usize>) -> Seq<Seq<Seq<u8>>> {
    match n_rows {
        Some(n) => if n <= rows.len() {
            rows.take(n as int)
        } else {
            rows
        },
        None => rows,
    }
}

/// CSV file reader: schema, projection and options fixed per read, with
/// the byte region supplied up front.
#[derive(Debug)]
pub struct SequentialReader {
    /// Explicit schema for the CSV file.
    pub schema: Schema,
    /// Optional projection: which columns to load, by schema index.
    pub projection: Option<Vec<usize>>,
    /// The pre-read byte region, if one was supplied.
    pub bytes: Option<Vec<u8>>,
    /// Batch size hint kept for callers that tune it; parsing is chunked
    /// by region, not by batch.
    pub batch_size: usize,
    /// Current line number, used in error reporting.
    pub line_number: usize,
    pub ignore_parser_errors: bool,
    pub skip_rows: usize,
    pub n_rows: Option<usize>,
    pub encoding: CsvEncoding,
    pub n_threads: Option<usize>,
    pub has_header: bool,
    pub delimiter: u8,
    pub sample_size: usize,
    pub chunk_size: usize,
}

impl SequentialReader {
    /// Returns the schema of the reader: the supplied schema filtered by
    /// the projection, in the projection's order.
    pub fn schema(&self) -> (r: Schema)
        requires
            match self.projection {
                Some(p) => forall|j: int| 0 <= j < p@.len() ==> #[trigger] p@[j] < self.schema.fields@.len(),
                None => true,
            },
        ensures
            match self.projection {
                Some(p) => r.fields@ == projected_fields(self.schema.fields@, p@),
                None => r.fields@ == self.schema.fields@,
            },
    {
        match &self.projection {
            Some(p) => {
                let mut fields: Vec<Field> = Vec::new();
                let mut j: usize = 0;
                while j < p.len()
                    invariant
                        0 <= j <= p@.len(),
                        forall|i: int| 0 <= i < p@.len() ==> #[trigger] p@[i] < self.schema.fields@.len(),
                        fields@ == projected_fields(self.schema.fields@, p@).take(j as int),
                    decreases p@.len() - j,
                {
                    fields.push(self.schema.fields[p[j]].clone_field());
                    proof {
                        assert(projected_fields(self.schema.fields@, p@).take(j + 1)
                            =~= projected_fields(self.schema.fields@, p@).take(j as int).push(
                            self.schema.fields@[p@[j as int] as int],
                        ));
                    }
                    j += 1;
                }
                proof {
                    assert(projected_fields(self.schema.fields@, p@).take(p@.len() as int)
                        =~= projected_fields(self.schema.fields@, p@));
                }
                Schema::new(fields)
            },
            None => self.schema.clone_schema(),
        }
    }

    /// Create a reader over a pre-read byte buffer.
    #[allow(clippy::too_many_arguments)]
    pub fn from_reader(
        bytes: Vec<u8>,
        schema: Schema,
        has_header: bool,
        delimiter: u8,
        batch_size: usize,
        projection: Option<Vec<usize>>,
        ignore_parser_errors: bool,
        n_rows: Option<usize>,
        skip_rows: usize,
        encoding: CsvEncoding,
        n_threads: Option<usize>,
        sample_size: usize,
        chunk_size: usize,
    ) -> (r: SequentialReader)
        ensures
            r.bytes == Some(bytes),
            r.schema == schema,
            r.has_header == has_header,
            r.delimiter == delimiter,
            r.batch_size == batch_size,
            r.projection == projection,
            r.ignore_parser_errors == ignore_parser_errors,
            r.n_rows == n_rows,
            r.skip_rows == skip_rows,
            r.encoding == encoding,
            r.n_threads == n_threads,
            r.sample_size == sample_size,
            r.chunk_size == chunk_size,
            r.line_number == if has_header {
                1int
            } else {
                0int
            },
    {
        SequentialReader {
            schema,
            projection,
            bytes: Some(bytes),
            batch_size,
            line_number: if has_header {
                1
            } else {
                0
            },
            ignore_parser_errors,
            skip_rows,
            n_rows,
            encoding,
            n_threads,
            has_header,
            delimiter,
            sample_size,
            chunk_size,
        }
    }

    /// Skip the preamble: BOM, leading whitespace, at most one line
    /// ending, the header if one is configured, then `skip_rows` data
    /// records. Fails when records run out before the skips are served.
    pub fn find_starting_point(&self, bytes: &[u8]) -> (r: Result<usize, CsvError>)
        ensures
            match r {
                Ok(p) => {
                    &&& p == spec_data_start(bytes@, self.has_header, self.skip_rows as nat)
                    &&& p <= bytes@.len()
                    &&& reach(bytes@, preamble_start(bytes@), p as int)
                    &&& !spec_exhausted(bytes@, self.has_header, self.skip_rows as nat, self.delimiter)
                    &&& rows_from(bytes@, p as int, self.delimiter) == rows_from(
                        bytes@,
                        preamble_start(bytes@),
                        self.delimiter,
                    ).skip(
                        if needed_skips(self.has_header, self.skip_rows as nat) <= rows_from(
                            bytes@,
                            preamble_start(bytes@),
                            self.delimiter,
                        ).len() {
                            needed_skips(self.has_header, self.skip_rows as nat) as int
                        } else {
                            rows_from(bytes@, preamble_start(bytes@), self.delimiter).len() as int
                        },
                    )
                },
                Err(e) => {
                    &&& e == CsvError::InputExhausted
                    &&& spec_exhausted(bytes@, self.has_header, self.skip_rows as nat, self.delimiter)
                },
            },
    {
        let a = skip_bom(bytes);
        let b = skip_whitespace(bytes, a);
        let c = skip_line_ending(bytes, b);
        let needed = if self.has_header {
            // the header line is consumed like one more skipped record
            if self.skip_rows < usize::MAX {
                self.skip_rows + 1
            } else {
                usize::MAX
            }
        } else {
            self.skip_rows
        };
        proof {
            assert(c as int == preamble_start(bytes@));
            assert(needed as nat == needed_skips(self.has_header, self.skip_rows as nat) || (
            self.skip_rows == usize::MAX && self.has_header));
        }
        if self.skip_rows == usize::MAX && self.has_header {
            // more skips than any buffer can hold records
            let blen = bytes.len();
            proof {
                crate::scan::lemma_rows_len_le(bytes@, c as int, self.delimiter);
                assert(rows_from(bytes@, c as int, self.delimiter).len() <= blen);
            }
            return Err(CsvError::InputExhausted);
        }
        let (pos, skipped) = advance_records(bytes, c, needed);
        if skipped < needed && self.skip_rows > 0 {
            proof {
                assert(rows_from(bytes@, c as int, self.delimiter).len() == skipped);
                assert(needed as nat == needed_skips(self.has_header, self.skip_rows as nat));
            }
            return Err(CsvError::InputExhausted);
        }
        Ok(pos)
    }
}


/// The identity projection over `n` columns.
pub open spec fn identity_proj(n: nat) -> Seq<usize> {
    Seq::new(n, |i: int| i as usize)
}

/// The sorted projection a configuration resolves to.
pub open spec fn spec_proj(projection: Option<Vec<usize>>, ncols: nat) -> Seq<usize> {
    match projection {
        Some(p) => ascending(p@, ncols),
        None => identity_proj(ncols),
    }
}

/// Some projection entry names a column outside the schema.
pub open spec fn proj_invalid(projection: Option<Vec<usize>>, ncols: nat) -> bool {
    match projection {
        Some(p) => exists|i: int| 0 <= i < p@.len() && #[trigger] p@[i] >= ncols,
        None => false,
    }
}

/// Clone a field vector.
fn clone_fields(fields: &Vec<Field>) -> (r: Vec<Field>)
    ensures
        r@ == fields@,
{
    let mut out: Vec<Field> = Vec::new();
    let mut i: usize = 0;
    while i < fields.len()
        invariant
            0 <= i <= fields@.len(),
            out@ == fields@.take(i as int),
        decreases fields@.len() - i,
    {
        out.push(fields[i].clone_field());
        proof {
            assert(fields@.take(i + 1) =~= fields@.take(i as int).push(fields@[i as int]));
        }
        i += 1;
    }
    proof {
        assert(fields@.take(i as int) =~= fields@);
    }
    out
}

/// Raise each string-capacity entry to the bytes its column used: the
/// shared table only ever grows, and is read only as an allocation hint.
pub(crate) fn update_str_capacities(caps: &mut Vec<usize>, df: &DataFrame)
    ensures
        final(caps)@.len() == old(caps)@.len(),
        forall|j: int| 0 <= j < final(caps)@.len() ==> #[trigger] final(caps)@[j] >= old(caps)@[j],
{
    let mut j: usize = 0;
    while j < caps.len()
        invariant
            0 <= j <= caps@.len(),
            caps@.len() == old(caps)@.len(),
            forall|i: int| 0 <= i < caps@.len() ==> #[trigger] caps@[i] >= old(caps)@[i],
        decreases caps@.len() - j,
    {
        if j < df.cols.len() {
            let used = df.cols[j].str_bytes();
            if used > caps[j] {
                let mut c = caps.remove(j);
                c = used;
                caps.insert(j, c);
            }
        }
        j += 1;
    }
}

impl SequentialReader {
    /// Estimated row count of the data region, from the line statistics,
    /// with the constant fallback when statistics are insufficient. Used
    /// only to size allocations.
    fn row_estimate(&self, bytes: &[u8], ds: usize) -> (r: usize)
        requires
            ds <= bytes@.len(),
        ensures
            r >= 1,
    {
        match get_line_stats(bytes, ds, self.sample_size) {
            Some((m, sd)) => estimate_rows(bytes.len() - ds, m, sd),
            None => 128,
        }
    }

    /// Parse one record-aligned chunk into a fresh partial frame.
    #[verifier::loop_isolation(false)]
    #[verifier::rlimit(100)]
    fn chunk_frame(
        &self,
        bytes: &[u8],
        cs: usize,
        ce: usize,
        cut: usize,
        sp: &Vec<usize>,
        proj_f: &Vec<Field>,
        local_capacity: usize,
        str_capacities: &Vec<usize>,
        rows_done: usize,
        Ghost(ds): Ghost<int>,
        Ghost(tot): Ghost<int>,
    ) -> (r: Result<(DataFrame, usize), CsvError>)
        requires
            bytes@.len() < usize::MAX,
            self.delimiter != QUOTE,
            0 <= ds <= bytes@.len(),
            strictly_sorted(sp@),
            forall|j: int| 0 <= j < sp@.len() ==> #[trigger] sp@[j] < self.schema.fields@.len(),
            proj_f@ == projected_fields(self.schema.fields@, sp@),
            str_capacities@.len() == sp@.len(),
            reach(bytes@, cs as int, ce as int),
            ce <= bytes@.len(),
            reach(bytes@, ce as int, cut as int),
            rows_from(bytes@, cs as int, self.delimiter) == rows_from(
                bytes@,
                ds,
                self.delimiter,
            ).skip(rows_done as int),
            rows_done <= tot <= rows_from(bytes@, ds, self.delimiter).len(),
            rows_from(bytes@, cut as int, self.delimiter).len() == rows_from(
                bytes@,
                ds,
                self.delimiter,
            ).len() - tot,
            rows_done <= cs - ds,
            !self.ignore_parser_errors ==> forall|i: int|
                0 <= i < rows_done ==> !row_bad(
                    proj_bufs(self.schema.fields@, sp@),
                    sp@,
                    #[trigger] rows_from(bytes@, ds, self.delimiter)[i],
                    self.encoding == CsvEncoding::LossyUtf8,
                ),
        ensures
            ({
                let s = bytes@;
                let d = self.delimiter;
                let lossy = self.encoding == CsvEncoding::LossyUtf8;
                let ar = rows_from(s, ds, d);
                let lim = ar.take(tot);
                let bufs = proj_bufs(self.schema.fields@, sp@);
                match r {
                    Ok((df, nc)) => {
                        &&& df.wf()
                        &&& df.fields@ == projected_fields(self.schema.fields@, sp@)
                        &&& df.cols@.len() == sp@.len()
                        &&& rows_done + nc <= tot
                        &&& nc <= ce - cs
                        &&& rows_from(s, ce as int, d) == ar.skip(rows_done + nc)
                        &&& (forall|j: int|
                            0 <= j < sp@.len() ==> #[trigger] df.cols@[j]@ == col_extend(
                                bufs[j],
                                ar.skip(rows_done as int).take(nc as int),
                                sp@[j] as int,
                                lossy,
                            ))
                        &&& sp@.len() > 0 ==> df.spec_height() == nc
                        &&& !self.ignore_parser_errors ==> forall|i: int|
                            rows_done <= i < rows_done + nc ==> !row_bad(
                                bufs,
                                sp@,
                                #[trigger] ar[i],
                                lossy,
                            )
                    },
                    Err(e) => {
                        let fb = first_bad_row(bufs, sp@, lim, lossy, 0);
                        let bj = first_bad_col(bufs, sp@, lim[fb], lossy, 0);
                        &&& !self.ignore_parser_errors
                        &&& fb < lim.len()
                        &&& e == (CsvError::ParseError {
                            row: fb as usize,
                            column: sp@[bj],
                            kind: kind_of(col_dtype(bufs[bj])),
                        })
                    },
                }
            }),
    {
        let ghost s = bytes@;
        let ghost d = self.delimiter;
        let ghost lossy = self.encoding == CsvEncoding::LossyUtf8;
        let ghost all_rows = rows_from(s, ds, d);
        let ghost lim = all_rows.take(tot);
        let ghost bufs0 = proj_bufs(self.schema.fields@, sp@);
        let mut buffers: Vec<Column> = Vec::new();
        let mut j: usize = 0;
        while j < sp.len()
            invariant
                j <= sp@.len(),
                buffers@.len() == j,
                forall|i: int| 0 <= i < j ==> #[trigger] buffers@[i]@ == bufs0[i],
            decreases sp@.len() - j,
        {
            let hint = str_capacities[j];
            buffers.push(Column::new_buffer(self.schema.fields[sp[j]].dtype, local_capacity, hint));
            j += 1;
        }
        proof {
            assert(views_of(buffers@) =~= bufs0);
            lemma_reach_rows_le(s, ce as int, cut as int, d);
            lemma_reach_rows_diff(s, cs as int, ce as int, d);
            crate::scan::lemma_reach_bounds(s, cs as int, ce as int);
        }
        let res = parse_lines(
            bytes,
            cs,
            ce,
            self.delimiter,
            sp,
            &mut buffers,
            self.ignore_parser_errors,
            self.encoding,
            rows_done,
        );
        match res {
            Ok(nc) => {
                proof {
                    assert(rows_from(s, ce as int, d) == all_rows.skip(rows_done as int).skip(
                        nc as int,
                    ));
                    assert(all_rows.skip(rows_done as int).skip(nc as int) =~= all_rows.skip(
                        rows_done + nc,
                    ));
                    assert(rows_done + nc <= tot) by {
                        assert(rows_from(s, ce as int, d).len() >= all_rows.len() - tot);
                        assert(all_rows.skip(rows_done + nc).len() == all_rows.len() - rows_done
                            - nc);
                    }
                }
                let partial = DataFrame { fields: clone_fields(proj_f), cols: buffers };
                proof {
                    lemma_wf_extended(
                        partial,
                        self.schema.fields@,
                        sp@,
                        bufs0,
                        all_rows.skip(rows_done as int).take(nc as int),
                        lossy,
                    );
                    if !self.ignore_parser_errors {
                        assert forall|i: int| rows_done <= i < rows_done + nc implies !row_bad(
                            bufs0,
                            sp@,
                            #[trigger] all_rows[i],
                            lossy,
                        ) by {
                            assert(all_rows.skip(rows_done as int)[i - rows_done] == all_rows[i]);
                            assert(!row_bad(
                                bufs0,
                                sp@,
                                rows_from(s, cs as int, d)[i - rows_done],
                                lossy,
                            ));
                        }
                    }
                }
                Ok((partial, nc))
            },
            Err(e) => {
                proof {
                    lemma_error_global(
                        s,
                        ds,
                        cs as int,
                        ce as int,
                        cut as int,
                        d,
                        bufs0,
                        sp@,
                        lossy,
                        all_rows,
                        lim,
                        rows_done as int,
                        tot,
                        e,
                    );
                }
                Err(e)
            },
        }
    }

    /// Resolve the configured projection: validate its indices and put it
    /// in canonical ascending, duplicate-free form; no projection selects
    /// every column.
    #[verifier::loop_isolation(false)]
    fn resolve_projection(&self) -> (r: Result<Vec<usize>, CsvError>)
        ensures
            match r {
                Ok(sp) => {
                    &&& !proj_invalid(self.projection, self.schema.fields@.len())
                    &&& sp@ == spec_proj(self.projection, self.schema.fields@.len())
                    &&& strictly_sorted(sp@)
                    &&& forall|j: int|
                        0 <= j < sp@.len() ==> #[trigger] sp@[j] < self.schema.fields@.len()
                },
                Err(e) => {
                    &&& proj_invalid(self.projection, self.schema.fields@.len())
                    &&& e == CsvError::SchemaMismatch
                },
            },
    {
        let ncols = self.schema.len();
        let sp: Vec<usize> = match &self.projection {
            Some(p) => {
                let mut i: usize = 0;
                while i < p.len()
                    invariant
                        0 <= i <= p@.len(),
                        forall|k: int| 0 <= k < i ==> #[trigger] p@[k] < ncols,
                    decreases p@.len() - i,
                {
                    if p[i] >= ncols {
                        proof {
                            assert(self.projection == Some(*p));
                            assert(0 <= i < p@.len() && p@[i as int] >= ncols);
                            assert(proj_invalid(self.projection, self.schema.fields@.len()));
                        }
                        return Err(CsvError::SchemaMismatch);
                    }
                    i += 1;
                }
                sort_projection(p, ncols)
            },
            None => {
                let mut out: Vec<usize> = Vec::new();
                let mut k: usize = 0;
                while k < ncols
                    invariant
                        0 <= k <= ncols,
                        out@ == identity_proj(k as nat),
                    decreases ncols - k,
                {
                    out.push(k);
                    proof {
                        assert(identity_proj((k + 1) as nat) =~= identity_proj(k as nat).push(k));
                    }
                    k += 1;
                }
                out
            },
        };
        proof {
            match &self.projection {
                Some(p) => {
                    lemma_ascending_props(p@, ncols as nat);
                },
                None => {},
            }
        }
        Ok(sp)
    }

    /// The fields the sorted projection selects, cloned for a frame.
    #[verifier::loop_isolation(false)]
    fn projected_fields_vec(&self, sp: &Vec<usize>) -> (r: Vec<Field>)
        requires
            forall|j: int| 0 <= j < sp@.len() ==> #[trigger] sp@[j] < self.schema.fields@.len(),
        ensures
            r@ == projected_fields(self.schema.fields@, sp@),
    {
        let mut out: Vec<Field> = Vec::new();
        let mut j: usize = 0;
        while j < sp.len()
            invariant
                0 <= j <= sp@.len(),
                forall|i: int| 0 <= i < sp@.len() ==> #[trigger] sp@[i] < self.schema.fields@.len(),
                out@ == projected_fields(self.schema.fields@, sp@).take(j as int),
            decreases sp@.len() - j,
        {
            out.push(self.schema.fields[sp[j]].clone_field());
            proof {
                assert(projected_fields(self.schema.fields@, sp@).take(j + 1) =~= projected_fields(
                    self.schema.fields@,
                    sp@,
                ).take(j as int).push(self.schema.fields@[sp@[j as int] as int]));
            }
            j += 1;
        }
        proof {
            assert(projected_fields(self.schema.fields@, sp@).take(sp@.len() as int)
                =~= projected_fields(self.schema.fields@, sp@));
        }
        out
    }

    /// An empty frame over the projected fields, ready to accumulate.
    #[verifier::loop_isolation(false)]
    fn empty_acc(&self, sp: &Vec<usize>) -> (r: DataFrame)
        requires
            forall|j: int| 0 <= j < sp@.len() ==> #[trigger] sp@[j] < self.schema.fields@.len(),
        ensures
            r.wf(),
            r.fields@ == projected_fields(self.schema.fields@, sp@),
            r.cols@.len() == sp@.len(),
            forall|j: int|
                0 <= j < sp@.len() ==> #[trigger] r.cols@[j]@ == proj_bufs(
                    self.schema.fields@,
                    sp@,
                )[j],
            r.spec_height() == 0,
    {
        let proj_f = self.projected_fields_vec(sp);
        let mut acc = DataFrame { fields: proj_f, cols: Vec::new() };
        let ghost bufs0 = proj_bufs(self.schema.fields@, sp@);
        let mut j0: usize = 0;
        while j0 < sp.len()
            invariant
                j0 <= sp@.len(),
                forall|i: int| 0 <= i < sp@.len() ==> #[trigger] sp@[i] < self.schema.fields@.len(),
                acc.fields@ == projected_fields(self.schema.fields@, sp@),
                acc.cols@.len() == j0,
                bufs0 == proj_bufs(self.schema.fields@, sp@),
                forall|j: int| 0 <= j < j0 ==> #[trigger] acc.cols@[j]@ == bufs0[j],
            decreases sp@.len() - j0,
        {
            acc.cols.push(Column::new_buffer(self.schema.fields[sp[j0]].dtype, 0, 0));
            j0 += 1;
        }
        proof {
            lemma_wf_bufs(acc, self.schema.fields@, sp@, bufs0);
        }
        acc
    }

    /// Parse the terminated byte region into the result frame.
    ///
    /// The region is split into up to `n_threads` record-aligned chunks;
    /// each chunk parses into its own buffers, the optional predicate
    /// filters each partial frame, and the partial frames are
    /// concatenated in order. Without a predicate the result equals the
    /// sequential parse of the data region, truncated to `n_rows`.
    #[verifier::loop_isolation(false)]
    #[verifier::rlimit(100)]
    fn parse_csv<P: PhysicalIoExpr>(
        &self,
        n_threads: usize,
        bytes: &[u8],
        predicate: Option<&P>,
    ) -> (r: Result<DataFrame, CsvError>)
        requires
            n_threads >= 1,
            bytes@.len() < usize::MAX,
            self.delimiter != QUOTE,
        ensures
            parse_outcome_ok(
                *self,
                bytes@,
                r,
                predicate is None,
            ),
    {
        let ghost s = bytes@;
        let ghost d = self.delimiter;
        let ghost lossy = self.encoding == CsvEncoding::LossyUtf8;
        // resolve and validate the projection
        let sp: Vec<usize> = match self.resolve_projection() {
            Ok(sp) => sp,
            Err(e) => {
                return Err(e);
            },
        };
        // trim the preamble
        let ds = match self.find_starting_point(bytes) {
            Ok(p) => p,
            Err(e) => {
                return Err(e);
            },
        };
        let ghost all_rows = rows_from(s, ds as int, d);
        proof {
            assert(all_rows == spec_all_rows(s, self.has_header, self.skip_rows as nat, d));
        }
        // line statistics guide allocation only
        let total_est: usize = self.row_estimate(bytes, ds);
        // bound the region at the record after the row limit
        let want: usize = match self.n_rows {
            Some(n) => n,
            None => usize::MAX,
        };
        proof {
            crate::scan::lemma_rows_len_le(s, ds as int, d);
        }
        let (cut, tot) = advance_records(bytes, ds, want);
        let ghost lim = limit_rows(all_rows, self.n_rows);
        proof {
            assert(all_rows.len() < usize::MAX);
            assert(tot == lim.len()) by {
                if self.n_rows is Some && want <= all_rows.len() {
                    assert(lim == all_rows.take(want as int));
                } else {
                    assert(tot == all_rows.len());
                    assert(lim =~= all_rows);
                }
            }
            assert(lim =~= all_rows.take(tot as int));
        }
        let ghost bufs0 = proj_bufs(self.schema.fields@, sp@);
        // capacity hints
        let local_capacity = if total_est >= n_threads {
            total_est / n_threads
        } else {
            1
        };
        let init_str_bytes: usize = if self.chunk_size > usize::MAX / 100 {
            usize::MAX
        } else {
            self.chunk_size * 100
        };
        let mut str_capacities: Vec<usize> = Vec::new();
        let mut ci: usize = 0;
        while ci < sp.len()
            invariant
                str_capacities@.len() == ci,
                ci <= sp@.len(),
            decreases sp@.len() - ci,
        {
            str_capacities.push(init_str_bytes);
            ci += 1;
        }
        // split into record-aligned chunks, one per thread
        let chunks = get_file_chunks(bytes, ds, cut, n_threads);
        let mut acc = self.empty_acc(&sp);
        let mut rows_done: usize = 0;
        let mut c: usize = 0;
        while c < chunks.len()
            invariant
                c <= chunks@.len(),
                rows_done <= tot,
                acc.wf(),
                acc.fields@ == projected_fields(self.schema.fields@, sp@),
                acc.cols@.len() == sp@.len(),
                c < chunks@.len() ==> rows_from(s, chunks@[c as int].0 as int, d) == all_rows.skip(
                    rows_done as int,
                ),
                c < chunks@.len() ==> rows_done <= chunks@[c as int].0 - ds,
                c == chunks@.len() ==> rows_done == tot,
                predicate is None ==> forall|j: int|
                    0 <= j < sp@.len() ==> #[trigger] acc.cols@[j]@ == col_extend(
                        bufs0[j],
                        all_rows.take(rows_done as int),
                        sp@[j] as int,
                        lossy,
                    ),
                (predicate is None && sp@.len() > 0) ==> acc.spec_height() == rows_done,
                sp@.len() > 0 ==> acc.spec_height() <= rows_done,
                str_capacities@.len() == sp@.len(),
                !self.ignore_parser_errors ==> forall|i: int|
                    0 <= i < rows_done ==> !row_bad(bufs0, sp@, #[trigger] all_rows[i], lossy),
            decreases chunks@.len() - c,
        {
            let (cs, ce) = (chunks[c].0, chunks[c].1);
            let res = self.chunk_frame(
                bytes,
                cs,
                ce,
                cut,
                &sp,
                &acc.fields,
                local_capacity,
                &str_capacities,
                rows_done,
                Ghost(ds as int),
                Ghost(tot as int),
            );
            match res {
                Ok((mut partial, nc)) => {
                    match predicate {
                        Some(pred) => {
                            let mask = match pred.evaluate(&partial) {
                                Ok(m) => m,
                                Err(e) => {
                                    return Err(e);
                                },
                            };
                            if mask.len() != partial.height() {
                                return Err(CsvError::PredicateError);
                            }
                            partial = partial.filter(&mask);
                            proof {
                                crate::frame::lemma_count_trues_le(mask@);
                            }
                        },
                        None => {},
                    }
                    update_str_capacities(&mut str_capacities, &partial);
                    proof {
                        assert forall|j: int| 0 <= j < sp@.len() implies col_dtype(
                            #[trigger] partial.cols@[j]@,
                        ) == col_dtype(acc.cols@[j]@) by {
                            lemma_col_extend_len(
                                bufs0[j],
                                all_rows.skip(rows_done as int).take(nc as int),
                                sp@[j] as int,
                                lossy,
                            );
                        }
                        assert forall|j: int| 0 <= j < sp@.len() implies #[trigger] bufs0[j]
                            == empty_col(col_dtype(bufs0[j])) by {
                            assert(bufs0[j] == empty_col(
                                storage_of(self.schema.fields@[sp@[j] as int].dtype),
                            ));
                        }
                    }
                    append_partial(
                        &mut acc,
                        partial,
                        Ghost(bufs0),
                        Ghost(all_rows),
                        Ghost(sp@),
                        Ghost(rows_done as int),
                        Ghost(nc as int),
                        Ghost(lossy),
                        Ghost(predicate is None),
                    );
                    rows_done = rows_done + nc;
                    proof {
                        if c + 1 < chunks@.len() {
                            assert(chunks@[c as int].1 == chunks@[c + 1].0);
                            assert(rows_done <= chunks@[c + 1].0 - ds);
                        } else {
                            assert(ce == cut);
                            assert(rows_from(s, cut as int, d) == all_rows.skip(tot as int));
                            assert(rows_done == tot) by {
                                assert(all_rows.skip(rows_done as int).len() == all_rows.skip(
                                    tot as int,
                                ).len());
                            }
                        }
                    }
                },
                Err(e) => {
                    return Err(e);
                },
            }
            c += 1;
        }
        proof {
            if !self.ignore_parser_errors {
                lemma_first_bad_row_props(bufs0, sp@, lim, lossy, 0);
                assert(first_bad_row(bufs0, sp@, lim, lossy, 0) == lim.len()) by {
                    if first_bad_row(bufs0, sp@, lim, lossy, 0) < lim.len() {
                        let fb = first_bad_row(bufs0, sp@, lim, lossy, 0);
                        assert(lim[fb] == all_rows[fb]);
                        assert(!row_bad(bufs0, sp@, all_rows[fb], lossy));
                    }
                }
            }
            if predicate is None {
                assert forall|j: int| 0 <= j < sp@.len() implies #[trigger] acc.cols@[j]@
                    == col_extend(bufs0[j], lim, sp@[j] as int, lossy) by {
                    assert(all_rows.take(tot as int) == lim);
                }
            }
        }
        Ok(acc)
    }
}

/// What a finished parse guarantees, given whether a predicate filtered
/// the partial frames.
pub open spec fn parse_outcome_ok(
    rd: SequentialReader,
    s: Seq<u8>,
    r: Result<DataFrame, CsvError>,
    no_pred: bool,
) -> bool {
    let d = rd.delimiter;
    let ncols = rd.schema.fields@.len();
    let sp = spec_proj(rd.projection, ncols);
    let lossy = rd.encoding == CsvEncoding::LossyUtf8;
    let all_rows = spec_all_rows(s, rd.has_header, rd.skip_rows as nat, d);
    let lim = limit_rows(all_rows, rd.n_rows);
    let bufs = proj_bufs(rd.schema.fields@, sp);
    let fb = first_bad_row(bufs, sp, lim, lossy, 0);
    let bj = first_bad_col(bufs, sp, lim[fb], lossy, 0);
    if proj_invalid(rd.projection, ncols) {
        r == Result::<DataFrame, CsvError>::Err(CsvError::SchemaMismatch)
    } else if spec_exhausted(s, rd.has_header, rd.skip_rows as nat, d) {
        r == Result::<DataFrame, CsvError>::Err(CsvError::InputExhausted)
    } else if no_pred && !rd.ignore_parser_errors && fb < lim.len() {
        r == Result::<DataFrame, CsvError>::Err(
            CsvError::ParseError {
                row: fb as usize,
                column: sp[bj],
                kind: kind_of(col_dtype(bufs[bj])),
            },
        )
    } else {
        match r {
            Ok(df) => {
                &&& df.wf()
                &&& df.fields@ == projected_fields(rd.schema.fields@, sp)
                &&& df.cols@.len() == sp.len()
                &&& no_pred ==> (forall|j: int|
                    0 <= j < sp.len() ==> #[trigger] df.cols@[j]@ == col_extend(
                        bufs[j],
                        lim,
                        sp[j] as int,
                        lossy,
                    ))
                &&& (no_pred && sp.len() > 0) ==> df.spec_height() == lim.len()
                &&& sp.len() > 0 ==> df.spec_height() <= lim.len()
            },
            Err(e) => !no_pred,
        }
    }
}

/// Append a partial frame below the accumulator, carrying the
/// chunk-extension bookkeeping when no predicate intervened.
#[verifier::rlimit(100)]
fn append_partial(
    acc: &mut DataFrame,
    partial: DataFrame,
    Ghost(bufs0): Ghost<Seq<ColView>>,
    Ghost(all_rows): Ghost<Seq<Seq<Seq<u8>>>>,
    Ghost(spv): Ghost<Seq<usize>>,
    Ghost(rows_done): Ghost<int>,
    Ghost(nc): Ghost<int>,
    Ghost(lossy): Ghost<bool>,
    Ghost(exact): Ghost<bool>,
)
    requires
        old(acc).wf(),
        partial.wf(),
        old(acc).cols@.len() == spv.len(),
        partial.cols@.len() == spv.len(),
        partial.fields@ == old(acc).fields@,
        forall|j: int|
            0 <= j < spv.len() ==> col_dtype(#[trigger] partial.cols@[j]@) == col_dtype(
                old(acc).cols@[j]@,
            ),
        0 <= rows_done,
        0 <= nc,
        rows_done + nc <= all_rows.len(),
        exact ==> forall|j: int|
            0 <= j < spv.len() ==> #[trigger] old(acc).cols@[j]@ == col_extend(
                bufs0[j],
                all_rows.take(rows_done),
                spv[j] as int,
                lossy,
            ),
        exact ==> forall|j: int|
            0 <= j < spv.len() ==> #[trigger] partial.cols@[j]@ == col_extend(
                bufs0[j],
                all_rows.skip(rows_done).take(nc),
                spv[j] as int,
                lossy,
            ),
        forall|j: int| 0 <= j < spv.len() ==> #[trigger] bufs0[j] == empty_col(col_dtype(bufs0[j])),
    ensures
        final(acc).wf(),
        final(acc).fields@ == old(acc).fields@,
        final(acc).cols@.len() == old(acc).cols@.len(),
        exact ==> forall|j: int|
            0 <= j < spv.len() ==> #[trigger] final(acc).cols@[j]@ == col_extend(
                bufs0[j],
                all_rows.take(rows_done + nc),
                spv[j] as int,
                lossy,
            ),
        final(acc).spec_height() == old(acc).spec_height() + partial.spec_height(),
{
    let ghost acc_pre_cols = Seq::new(old(acc).cols@.len(), |j: int| old(acc).cols@[j]@);
    acc.vstack(partial);
    proof {
        if exact {
            assert forall|j: int| 0 <= j < spv.len() implies #[trigger] acc.cols@[j]@ == col_extend(
                bufs0[j],
                all_rows.take(rows_done + nc),
                spv[j] as int,
                lossy,
            ) by {
                lemma_col_extend_concat(
                    bufs0[j],
                    all_rows.take(rows_done),
                    all_rows.skip(rows_done).take(nc),
                    spv[j] as int,
                    lossy,
                );
                assert(all_rows.take(rows_done) + all_rows.skip(rows_done).take(nc)
                    =~= all_rows.take(rows_done + nc));
                lemma_col_extend_len(bufs0[j], all_rows.take(rows_done), spv[j] as int, lossy);
                crate::column::lemma_concat_extend(
                    acc_pre_cols[j],
                    all_rows.skip(rows_done).take(nc),
                    spv[j] as int,
                    lossy,
                );
                assert(empty_col(col_dtype(acc_pre_cols[j])) == bufs0[j]);
            }
        }
    }
}

/// An empty-buffer frame is well formed.
proof fn lemma_wf_bufs(df: DataFrame, fields: Seq<Field>, sp: Seq<usize>, bufs: Seq<ColView>)
    requires
        df.fields@ == projected_fields(fields, sp),
        df.cols@.len() == sp.len(),
        bufs == proj_bufs(fields, sp),
        forall|j: int| 0 <= j < sp.len() ==> #[trigger] df.cols@[j]@ == bufs[j],
        forall|j: int| 0 <= j < sp.len() ==> #[trigger] sp[j] < fields.len(),
    ensures
        df.wf(),
        df.spec_height() == 0,
{
    assert forall|j: int| 0 <= j < df.cols@.len() implies col_dtype(#[trigger] df.cols@[j]@)
        == storage_of(df.fields@[j].dtype) && col_len(df.cols@[j]@) == 0 by {
        assert(df.cols@[j]@ == empty_col(storage_of(fields[sp[j] as int].dtype)));
    }
}

/// A frame of buffers extended from empty by one row set is well formed.
proof fn lemma_wf_extended(
    df: DataFrame,
    fields: Seq<Field>,
    sp: Seq<usize>,
    bufs: Seq<ColView>,
    rows: Seq<Seq<Seq<u8>>>,
    lossy: bool,
)
    requires
        df.fields@ == projected_fields(fields, sp),
        df.cols@.len() == sp.len(),
        bufs == proj_bufs(fields, sp),
        forall|j: int|
            0 <= j < sp.len() ==> #[trigger] df.cols@[j]@ == col_extend(
                bufs[j],
                rows,
                sp[j] as int,
                lossy,
            ),
        forall|j: int| 0 <= j < sp.len() ==> #[trigger] sp[j] < fields.len(),
    ensures
        df.wf(),
        sp.len() > 0 ==> df.spec_height() == rows.len(),
{
    assert forall|j: int| 0 <= j < df.cols@.len() implies col_dtype(#[trigger] df.cols@[j]@)
        == storage_of(df.fields@[j].dtype) && col_len(df.cols@[j]@) == rows.len() by {
        lemma_col_extend_len(bufs[j], rows, sp[j] as int, lossy);
        assert(bufs[j] == empty_col(storage_of(fields[sp[j] as int].dtype)));
    }
}

/// A chunk-local parse error is the region's first error.
proof fn lemma_error_global(
    s: Seq<u8>,
    ds: int,
    cs: int,
    ce: int,
    cut: int,
    d: u8,
    bufs: Seq<ColView>,
    sp: Seq<usize>,
    lossy: bool,
    all_rows: Seq<Seq<Seq<u8>>>,
    lim: Seq<Seq<Seq<u8>>>,
    rows_done: int,
    tot: int,
    e: CsvError,
)
    requires
        all_rows == rows_from(s, ds, d),
        rows_from(s, cs, d) == all_rows.skip(rows_done),
        0 <= rows_done <= tot <= all_rows.len(),
        lim == all_rows.take(tot),
        reach(s, ce, cut),
        rows_from(s, cut, d).len() == all_rows.len() - tot,
        forall|i: int| 0 <= i < rows_done ==> !row_bad(bufs, sp, #[trigger] all_rows[i], lossy),
        ({
            let rows = rows_from(s, cs, d);
            let fbl = first_bad_row(bufs, sp, rows, lossy, 0);
            let bjl = first_bad_col(bufs, sp, rows[fbl], lossy, 0);
            &&& 0 <= fbl < crate::parser::chunk_count(s, cs, ce, d)
            &&& fbl < rows.len()
            &&& 0 <= bjl < sp.len()
            &&& e == (CsvError::ParseError {
                row: (rows_done + fbl) as usize,
                column: sp[bjl],
                kind: kind_of(col_dtype(bufs[bjl])),
            })
        }),
    ensures
        ({
            let fb = first_bad_row(bufs, sp, lim, lossy, 0);
            let bj = first_bad_col(bufs, sp, lim[fb], lossy, 0);
            &&& fb < lim.len()
            &&& e == (CsvError::ParseError {
                row: fb as usize,
                column: sp[bj],
                kind: kind_of(col_dtype(bufs[bj])),
            })
        }),
{
    let rows = rows_from(s, cs, d);
    let fbl = first_bad_row(bufs, sp, rows, lossy, 0);
    lemma_first_bad_row_props(bufs, sp, rows, lossy, 0);
    lemma_reach_rows_le(s, ce, cut, d);
    assert(crate::parser::chunk_count(s, cs, ce, d) <= tot - rows_done);
    let gfb = rows_done + fbl;
    assert(gfb < tot);
    assert(rows[fbl] == all_rows[gfb]);
    assert forall|i: int| 0 <= i < gfb implies !row_bad(bufs, sp, #[trigger] lim[i], lossy) by {
        assert(lim[i] == all_rows[i]);
        if i >= rows_done {
            assert(all_rows[i] == rows[i - rows_done]);
        }
    }
    assert(row_bad(bufs, sp, lim[gfb], lossy));
    lemma_first_bad_row_is(bufs, sp, lim, lossy, gfb, 0);
    let bjl = first_bad_col(bufs, sp, rows[fbl], lossy, 0);
    lemma_first_bad_col_props(bufs, sp, rows[fbl], lossy, 0);
    lemma_first_bad_col_is(bufs, sp, lim[gfb], lossy, bjl, 0);
}


/// There is a field with this name.
pub open spec fn has_field(fields: Seq<Field>, name: Seq<char>) -> bool {
    exists|j: int| 0 <= j < fields.len() && (#[trigger] fields[j]).name@ == name
}

impl DataType {
    /// The storage type this logical type materializes as.
    pub fn storage(self) -> (r: DataType)
        ensures
            r == storage_of(self),
    {
        match self {
            DataType::Date32 => DataType::Int32,
            DataType::Date64 => DataType::Int64,
            other => other,
        }
    }
}

impl Column {
    /// The storage type of this column.
    pub fn tag(&self) -> (r: DataType)
        ensures
            r == col_dtype(self@),
    {
        match self {
            Column::I32(_) => DataType::Int32,
            Column::I64(_) => DataType::Int64,
            Column::U32(_) => DataType::UInt32,
            Column::U64(_) => DataType::UInt64,
            Column::Bool(_) => DataType::Boolean,
            Column::Str(_) => DataType::Utf8,
        }
    }
}

impl SequentialReader {
    /// Read the input into the result frame.
    ///
    /// The byte region is terminated, trimmed of its preamble, split on
    /// record boundaries, parsed chunk by chunk, optionally filtered by
    /// the predicate per chunk, concatenated in order, optionally
    /// replaced by the aggregations, and truncated to `n_rows`. Without
    /// a predicate or aggregations the result equals the sequential
    /// parse of the whole data region.
    #[verifier::loop_isolation(false)]
    pub fn as_df<P: PhysicalIoExpr, A: ScanAggregation>(
        &mut self,
        predicate: Option<&P>,
        aggregate: Option<&Vec<A>>,
    ) -> (r: Result<DataFrame, CsvError>)
        requires
            old(self).delimiter != QUOTE,
            match old(self).bytes {
                Some(b) => b@.len() + 1 < usize::MAX,
                None => true,
            },
        ensures
            final(self).schema == old(self).schema,
            final(self).projection == old(self).projection,
            final(self).n_rows == old(self).n_rows,
            final(self).encoding == old(self).encoding,
            final(self).ignore_parser_errors == old(self).ignore_parser_errors,
            final(self).has_header == old(self).has_header,
            final(self).skip_rows == old(self).skip_rows,
            final(self).delimiter == old(self).delimiter,
            match old(self).bytes {
                None => r == Result::<DataFrame, CsvError>::Err(CsvError::ConfigurationError),
                Some(b) => {
                    &&& (match final(self).bytes {
                        Some(b2) => b2@ == terminated(b@),
                        None => false,
                    })
                    &&& aggregate is None ==> parse_outcome_ok(
                        *old(self),
                        terminated(b@),
                        r,
                        predicate is None,
                    )
                    &&& (match r {
                        Ok(df) => df.wf(),
                        Err(_) => true,
                    })
                },
            },
    {
        let n_threads = match self.n_threads {
            Some(n) => if n >= 1 {
                n
            } else {
                1
            },
            None => host_cpu_count(),
        };
        match &mut self.bytes {
            Some(v) => {
                // guarantee a final record terminator
                if v.len() == 0 || !(v[v.len() - 1] == LF || v[v.len() - 1] == CR) {
                    v.push(LF);
                }
                proof {
                    assert(v@ == terminated(old(self).bytes->0@));
                }
            },
            None => {
                return Err(CsvError::ConfigurationError);
            },
        }
        let ghost term_bytes = terminated(old(self).bytes->0@);
        let mut df = match &self.bytes {
            Some(v) => {
                match self.parse_csv(n_threads, v.as_slice(), predicate) {
                    Ok(df) => df,
                    Err(e) => {
                        return Err(e);
                    },
                }
            },
            None => {
                return Err(CsvError::ConfigurationError);
            },
        };
        let ghost parsed = df;
        // post-aggregations replace the frame
        match aggregate {
            Some(aggs) => {
                let mut fields: Vec<Field> = Vec::new();
                let mut cols: Vec<Column> = Vec::new();
                let mut a: usize = 0;
                while a < aggs.len()
                    invariant
                        fields@.len() == cols@.len(),
                        df.wf(),
                        forall|j: int|
                            0 <= j < cols@.len() ==> col_dtype(#[trigger] cols@[j]@) == storage_of(
                                fields@[j].dtype,
                            ),
                        forall|j: int|
                            0 <= j < cols@.len() ==> col_len(#[trigger] cols@[j]@) == (
                            if cols@.len() > 0 {
                                col_len(cols@[0]@)
                            } else {
                                0
                            }),
                    decreases aggs@.len() - a,
                {
                    let (f, c) = match aggs[a].finish(&df) {
                        Ok(fc) => fc,
                        Err(e) => {
                            return Err(e);
                        },
                    };
                    if !(c.tag() == f.dtype.storage()) {
                        return Err(CsvError::AggregationError);
                    }
                    if cols.len() > 0 && c.len() != cols[0].len() {
                        return Err(CsvError::AggregationError);
                    }
                    fields.push(f);
                    cols.push(c);
                    a += 1;
                }
                df = DataFrame { fields, cols };
                proof {
                    assert(df.wf());
                }
            },
            None => {},
        }
        // truncate to the row bound
        match self.n_rows {
            Some(n) => {
                let h = df.height();
                if n < h {
                    df.head(n);
                }
            },
            None => {},
        }
        proof {
            if aggregate is None {
                assert(df == parsed);
            }
        }
        Ok(df)
    }
}

/// Build a reader: resolve the delimiter default, require a supplied
/// schema (schema inference is an external service), and turn a column
/// name list into a projection.
#[allow(clippy::too_many_arguments)]
#[verifier::loop_isolation(false)]
pub fn build_csv_reader(
    bytes: Option<Vec<u8>>,
    n_rows: Option<usize>,
    skip_rows: usize,
    projection: Option<Vec<usize>>,
    batch_size: usize,
    delimiter: Option<u8>,
    has_header: bool,
    ignore_parser_errors: bool,
    schema: Option<Schema>,
    columns: Option<Vec<String>>,
    encoding: CsvEncoding,
    n_threads: Option<usize>,
    sample_size: usize,
    chunk_size: usize,
) -> (r: Result<SequentialReader, CsvError>)
    ensures
        match r {
            Ok(rd) => {
                &&& bytes is Some
                &&& schema is Some
                &&& rd.bytes == bytes
                &&& rd.schema == schema->0
                &&& rd.delimiter == (match delimiter {
                    Some(d) => d,
                    None => 44u8,
                })
                &&& rd.has_header == has_header
                &&& rd.ignore_parser_errors == ignore_parser_errors
                &&& rd.n_rows == n_rows
                &&& rd.skip_rows == skip_rows
                &&& rd.encoding == encoding
                &&& rd.n_threads == n_threads
                &&& rd.sample_size == sample_size
                &&& rd.chunk_size == chunk_size
                &&& (match columns {
                    Some(cs) => {
                        &&& (match rd.projection {
                            Some(pr) => {
                                &&& pr@.len() == cs@.len()
                                &&& forall|k: int|
                                    0 <= k < cs@.len() ==> {
                                        let i = #[trigger] pr@[k] as int;
                                        &&& 0 <= i < schema->0.fields@.len()
                                        &&& schema->0.fields@[i].name@ == cs@[k]@
                                        &&& forall|j: int|
                                            0 <= j < i ==> schema->0.fields@[j].name@ != cs@[k]@
                                    }
                            },
                            None => false,
                        })
                        &&& forall|k: int|
                            0 <= k < cs@.len() ==> has_field(
                                schema->0.fields@,
                                #[trigger] cs@[k]@,
                            )
                    },
                    None => rd.projection == projection,
                })
            },
            Err(e) => {
                &&& (e == CsvError::ConfigurationError || e == CsvError::SchemaMismatch)
                &&& e == CsvError::ConfigurationError <==> (bytes is None || schema is None)
                &&& e == CsvError::SchemaMismatch ==> (match (schema, columns) {
                    (Some(sc), Some(cs)) => exists|k: int|
                        0 <= k < cs@.len() && !has_field(sc.fields@, #[trigger] cs@[k]@),
                    _ => false,
                })
            },
        },
{
    let delimiter = match delimiter {
        Some(d) => d,
        None => 44u8,
    };
    let b = match bytes {
        Some(b) => b,
        None => {
            return Err(CsvError::ConfigurationError);
        },
    };
    let schema = match schema {
        Some(s) => s,
        None => {
            return Err(CsvError::ConfigurationError);
        },
    };
    let mut projection = projection;
    match &columns {
        Some(cols) => {
            let mut prj: Vec<usize> = Vec::new();
            let mut k: usize = 0;
            while k < cols.len()
                invariant
                    0 <= k <= cols@.len(),
                    prj@.len() == k,
                    forall|k2: int|
                        0 <= k2 < k ==> {
                            let i = #[trigger] prj@[k2] as int;
                            &&& 0 <= i < schema.fields@.len()
                            &&& schema.fields@[i].name@ == cols@[k2]@
                            &&& forall|j: int|
                                0 <= j < i ==> schema.fields@[j].name@ != cols@[k2]@
                        },
                    forall|k2: int|
                        0 <= k2 < k ==> has_field(schema.fields@, #[trigger] cols@[k2]@),
                decreases cols@.len() - k,
            {
                match schema.index_of(&cols[k]) {
                    Some(i) => {
                        prj.push(i);
                        proof {
                            assert(0 <= i < schema.fields@.len() && schema.fields@[i as int].name@
                                == cols@[k as int]@);
                            assert(has_field(schema.fields@, cols@[k as int]@));
                        }
                    },
                    None => {
                        proof {
                            assert(!has_field(schema.fields@, cols@[k as int]@));
                        }
                        return Err(CsvError::SchemaMismatch);
                    },
                }
                k += 1;
            }
            projection = Some(prj);
        },
        None => {},
    }
    Ok(
        SequentialReader::from_reader(
            b,
            schema,
            has_header,
            delimiter,
            batch_size,
            projection,
            ignore_parser_errors,
            n_rows,
            skip_rows,
            encoding,
            n_threads,
            sample_size,
            chunk_size,
        ),
    )
}

} // verus!
