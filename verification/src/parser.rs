use vstd::prelude::*;
use crate::cell::unescape_field;
use crate::column::{
    cell_bad, col_dtype, col_extend, push_cell, val_bad, ColView, Column,
    lemma_col_extend_take_step, lemma_col_extend_len,
};
use crate::err::{CsvError, ParseFailKind};
use crate::scan::{
    field_end, fields_from, find_record_end, lemma_fields_from_len, lemma_next_record_start,
    next_record_start, reach, read_term_len, record_end, rows_from,
};
use crate::schema::{CsvEncoding, DataType};

verus! {

/// The views of a sequence of columns.
pub open spec fn views_of(b: Seq<Column>) -> Seq<ColView> {
    Seq::new(b.len(), |j: int| b[j]@)
}

/// A projection is a strictly increasing sequence of column indices.
pub open spec fn strictly_sorted(p: Seq<usize>) -> bool {
    forall|i: int, j: int| 0 <= i < j < p.len() ==> p[i] < p[j]
}

/// Some projected field of this record fails to decode.
pub open spec fn row_bad(bufs: Seq<ColView>, proj: Seq<usize>, row: Seq<Seq<u8>>, lossy: bool) -> bool {
    exists|j: int|
        0 <= j < proj.len() && cell_bad(bufs[j], row, #[trigger] proj[j] as int, lossy)
}

/// The error kind a column's type reports.
pub open spec fn kind_of(dt: DataType) -> ParseFailKind {
    match dt {
        DataType::Boolean => ParseFailKind::Boolean,
        DataType::Utf8 => ParseFailKind::Encoding,
        _ => ParseFailKind::Numeric,
    }
}

/// Index of the first projected column whose cell of this record fails
/// to decode, from `j` on; the projection's length when none does.
pub open spec fn first_bad_col(
    bufs: Seq<ColView>,
    proj: Seq<usize>,
    row: Seq<Seq<u8>>,
    lossy: bool,
    j: int,
) -> int
    decreases proj.len() - j,
{
    if j < 0 || j >= proj.len() {
        proj.len() as int
    } else if cell_bad(bufs[j], row, proj[j] as int, lossy) {
        j
    } else {
        first_bad_col(bufs, proj, row, lossy, j + 1)
    }
}

/// Index of the first record with a failing projected cell, from `i` on;
/// the number of records when none has one.
pub open spec fn first_bad_row(
    bufs: Seq<ColView>,
    proj: Seq<usize>,
    rows: Seq<Seq<Seq<u8>>>,
    lossy: bool,
    i: int,
) -> int
    decreases rows.len() - i,
{
    if i < 0 || i >= rows.len() {
        rows.len() as int
    } else if row_bad(bufs, proj, rows[i], lossy) {
        i
    } else {
        first_bad_row(bufs, proj, rows, lossy, i + 1)
    }
}

pub proof fn lemma_first_bad_col_is(
    bufs: Seq<ColView>,
    proj: Seq<usize>,
    row: Seq<Seq<u8>>,
    lossy: bool,
    k: int,
    j: int,
)
    requires
        0 <= j <= k < proj.len(),
        cell_bad(bufs[k], row, proj[k] as int, lossy),
        forall|j2: int| j <= j2 < k ==> !cell_bad(bufs[j2], row, #[trigger] proj[j2] as int, lossy),
    ensures
        first_bad_col(bufs, proj, row, lossy, j) == k,
    decreases k - j,
{
    if j < k {
        lemma_first_bad_col_is(bufs, proj, row, lossy, k, j + 1);
    }
}

pub proof fn lemma_first_bad_row_is(
    bufs: Seq<ColView>,
    proj: Seq<usize>,
    rows: Seq<Seq<Seq<u8>>>,
    lossy: bool,
    k: int,
    i: int,
)
    requires
        0 <= i <= k < rows.len(),
        row_bad(bufs, proj, rows[k], lossy),
        forall|i2: int| i <= i2 < k ==> !row_bad(bufs, proj, #[trigger] rows[i2], lossy),
    ensures
        first_bad_row(bufs, proj, rows, lossy, i) == k,
    decreases k - i,
{
    if i < k {
        lemma_first_bad_row_is(bufs, proj, rows, lossy, k, i + 1);
    }
}

/// What holds of the first bad row index: it is in range, the row there
/// fails, and no earlier row does.
pub proof fn lemma_first_bad_row_props(
    bufs: Seq<ColView>,
    proj: Seq<usize>,
    rows: Seq<Seq<Seq<u8>>>,
    lossy: bool,
    i: int,
)
    requires
        0 <= i <= rows.len(),
    ensures
        i <= first_bad_row(bufs, proj, rows, lossy, i) <= rows.len(),
        first_bad_row(bufs, proj, rows, lossy, i) < rows.len() ==> row_bad(
            bufs,
            proj,
            rows[first_bad_row(bufs, proj, rows, lossy, i)],
            lossy,
        ),
        forall|i2: int|
            i <= i2 < first_bad_row(bufs, proj, rows, lossy, i) ==> !row_bad(
                bufs,
                proj,
                #[trigger] rows[i2],
                lossy,
            ),
    decreases rows.len() - i,
{
    if i < rows.len() && !row_bad(bufs, proj, rows[i], lossy) {
        lemma_first_bad_row_props(bufs, proj, rows, lossy, i + 1);
    }
}

pub proof fn lemma_first_bad_col_props(
    bufs: Seq<ColView>,
    proj: Seq<usize>,
    row: Seq<Seq<u8>>,
    lossy: bool,
    j: int,
)
    requires
        0 <= j <= proj.len(),
    ensures
        j <= first_bad_col(bufs, proj, row, lossy, j) <= proj.len(),
        first_bad_col(bufs, proj, row, lossy, j) < proj.len() ==> cell_bad(
            bufs[first_bad_col(bufs, proj, row, lossy, j)],
            row,
            proj[first_bad_col(bufs, proj, row, lossy, j)] as int,
            lossy,
        ),
        forall|j2: int|
            j <= j2 < first_bad_col(bufs, proj, row, lossy, j) ==> !cell_bad(
                bufs[j2],
                row,
                #[trigger] proj[j2] as int,
                lossy,
            ),
    decreases proj.len() - j,
{
    if j < proj.len() && !cell_bad(bufs[j], row, proj[j] as int, lossy) {
        lemma_first_bad_col_props(bufs, proj, row, lossy, j + 1);
    }
}

/// Number of records between a boundary and a later boundary.
pub open spec fn chunk_count(s: Seq<u8>, start: int, end: int, d: u8) -> int {
    rows_from(s, start, d).len() - rows_from(s, end, d).len()
}

/// Records only disappear as the scan advances over them.
pub proof fn lemma_reach_rows_le(s: Seq<u8>, a: int, b: int, d: u8)
    requires
        reach(s, a, b),
    ensures
        rows_from(s, b, d).len() <= rows_from(s, a, d).len(),
    decreases b - a,
{
    if a != b {
        if 0 <= a < s.len() {
            lemma_next_record_start(s, a);
        }
        lemma_reach_rows_le(s, next_record_start(s, a), b, d);
    }
}

/// A span of whole records holds at most one record per byte.
pub proof fn lemma_reach_rows_diff(s: Seq<u8>, a: int, b: int, d: u8)
    requires
        reach(s, a, b),
    ensures
        rows_from(s, a, d).len() - rows_from(s, b, d).len() <= b - a,
    decreases b - a,
{
    if a != b {
        if 0 <= a < s.len() {
            lemma_next_record_start(s, a);
        }
        lemma_reach_rows_diff(s, next_record_start(s, a), b, d);
    }
}

/// Decoding failure depends only on the column's storage type.
pub proof fn lemma_val_bad_same_dtype(a: ColView, b: ColView, f: Seq<u8>, lossy: bool)
    requires
        col_dtype(a) == col_dtype(b),
    ensures
        val_bad(a, f, lossy) == val_bad(b, f, lossy),
{
}

impl Column {
    /// The error kind this column's type reports.
    pub fn fail_kind(&self) -> (r: ParseFailKind)
        ensures
            r == kind_of(col_dtype(self@)),
    {
        match self {
            Column::Bool(_) => ParseFailKind::Boolean,
            Column::Str(_) => ParseFailKind::Encoding,
            _ => ParseFailKind::Numeric,
        }
    }
}

/// Extract the bytes `[a, b)` of a slice.
pub fn copy_range(f: &[u8], a: usize, b: usize) -> (out: Vec<u8>)
    requires
        a <= b <= f@.len(),
    ensures
        out@ == f@.subrange(a as int, b as int),
{
    let mut out: Vec<u8> = Vec::new();
    let mut i: usize = a;
    while i < b
        invariant
            a <= i <= b <= f@.len(),
            out@ == f@.subrange(a as int, i as int),
        decreases b - i,
    {
        out.push(f[i]);
        proof {
            assert(f@.subrange(a as int, i + 1) =~= f@.subrange(a as int, i as int).push(
                f@[i as int],
            ));
        }
        i += 1;
    }
    out
}

/// Quote-aware scan for the end of the field starting at `start` inside a
/// record ending at `e`.
pub fn find_field_end(bytes: &[u8], start: usize, e: usize, d: u8) -> (r: usize)
    requires
        start <= e <= bytes@.len(),
        d != crate::scan::QUOTE,
    ensures
        r == field_end(bytes@, start as int, e as int, d, false),
        start <= r <= e,
{
    let ghost s = bytes@;
    let mut i: usize = start;
    let mut q: bool = false;
    while i < e && !(!q && bytes[i] == d)
        invariant
            start <= i <= e,
            e <= s.len(),
            s == bytes@,
            field_end(s, start as int, e as int, d, false) == field_end(s, i as int, e as int, d, q),
        decreases e - i,
    {
        if q {
            q = bytes[i] != crate::scan::QUOTE;
        } else if bytes[i] == crate::scan::QUOTE {
            q = true;
        }
        i += 1;
    }
    proof {
        crate::scan::lemma_field_end_bounds(s, start as int, e as int, d, false);
    }
    i
}

/// A resynchronization candidate: the byte before `q` terminates a
/// record, and the record starting at `q` splits into at least
/// `expected_fields` fields, so `q` begins a plausible record after an
/// arbitrary byte split.
pub open spec fn resync_ok(s: Seq<u8>, q: int, expected_fields: nat, d: u8) -> bool {
    fields_from(s, q, record_end(s, q, false), d).len() >= expected_fields
}

/// Count the fields of the record starting at `start`.
#[verifier::loop_isolation(false)]
pub fn count_record_fields(bytes: &[u8], start: usize, d: u8) -> (r: usize)
    requires
        start <= bytes@.len(),
        bytes@.len() < usize::MAX,
        d != crate::scan::QUOTE,
    ensures
        r == fields_from(bytes@, start as int, record_end(bytes@, start as int, false), d).len(),
{
    let ghost s = bytes@;
    let re = find_record_end(bytes, start);
    let ghost row = fields_from(s, start as int, re as int, d);
    let mut p: usize = start;
    let mut n: usize = 0;
    let mut cont: bool = true;
    while cont
        invariant
            start <= p <= re,
            n <= p - start + 1,
            cont ==> n <= p - start,
            cont ==> row.len() == n + fields_from(s, p as int, re as int, d).len(),
            !cont ==> row.len() == n,
        decreases re - p + if cont {
            1int
        } else {
            0int
        },
    {
        let fe = find_field_end(bytes, p, re, d);
        proof {
            lemma_fields_from_len(s, p as int, re as int, d);
        }
        n += 1;
        if fe >= re {
            cont = false;
            proof {
                assert(fields_from(s, p as int, re as int, d).len() == 1);
            }
        } else {
            proof {
                assert(fields_from(s, p as int, re as int, d) == seq![
                    s.subrange(p as int, fe as int),
                ] + fields_from(s, fe + 1, re as int, d));
            }
            p = fe + 1;
        }
    }
    n
}

/// Locate the first byte offset that begins a candidate record whose
/// field count meets the expectation: used to resynchronize after an
/// arbitrary byte split. `None` when scanning to the end of input finds
/// no such offset.
#[verifier::loop_isolation(false)]
pub fn next_line_position(bytes: &[u8], expected_fields: usize, delimiter: u8) -> (r: Option<
    usize,
>)
    requires
        bytes@.len() < usize::MAX,
        delimiter != crate::scan::QUOTE,
    ensures
        match r {
            Some(q) => {
                &&& 0 < q <= bytes@.len()
                &&& crate::scan::is_term(bytes@[q - 1])
                &&& resync_ok(bytes@, q as int, expected_fields as nat, delimiter)
                &&& forall|q2: int|
                    0 < q2 < q ==> !(crate::scan::is_term(bytes@[q2 - 1]) && resync_ok(
                        bytes@,
                        q2,
                        expected_fields as nat,
                        delimiter,
                    ))
            },
            None => forall|q2: int|
                0 < q2 <= bytes@.len() ==> !(crate::scan::is_term(bytes@[q2 - 1]) && resync_ok(
                    bytes@,
                    q2,
                    expected_fields as nat,
                    delimiter,
                )),
        },
{
    let ghost s = bytes@;
    let mut q: usize = 1;
    while q <= bytes.len()
        invariant
            1 <= q <= s.len() + 1,
            forall|q2: int|
                0 < q2 < q ==> !(crate::scan::is_term(s[q2 - 1]) && resync_ok(
                    s,
                    q2,
                    expected_fields as nat,
                    delimiter,
                )),
        decreases s.len() + 1 - q,
    {
        if bytes[q - 1] == crate::scan::LF || bytes[q - 1] == crate::scan::CR {
            let n = count_record_fields(bytes, q, delimiter);
            if n >= expected_fields {
                return Some(q);
            }
        }
        q += 1;
    }
    None
}

/// Parse the records of `[start, end)` into the column buffers, one
/// buffer per entry of the sorted projection.
///
/// Tokenization: records end at an unquoted `\n`, `\r` or `\r\n`; a field
/// beginning with `"` is quoted, `""` denotes a literal quote, and
/// delimiters and newlines inside quotes are literal. A short record pads
/// the remaining projected columns with nulls; excess fields are dropped.
///
/// On success returns the number of records parsed, which is exactly the
/// chunk's record count, and appends, for projected column `j`, the cell
/// of field `projection[j]` of every record in order. Without
/// `ignore_parser_errors` the first failing cell, in record order and
/// then field order, aborts with its record index (`base_row` plus the
/// records parsed before it), schema column, and error kind; with it a
/// failing cell becomes a null.
#[verifier::loop_isolation(false)]
#[verifier::rlimit(100)]
pub fn parse_lines(
    bytes: &[u8],
    start: usize,
    end: usize,
    delimiter: u8,
    projection: &Vec<usize>,
    buffers: &mut Vec<Column>,
    ignore_parser_errors: bool,
    encoding: CsvEncoding,
    base_row: usize,
) -> (r: Result<usize, CsvError>)
    requires
        bytes@.len() < usize::MAX,
        delimiter != crate::scan::QUOTE,
        end <= bytes@.len(),
        reach(bytes@, start as int, end as int),
        strictly_sorted(projection@),
        old(buffers)@.len() == projection@.len(),
        base_row + (end - start) <= usize::MAX,
    ensures
        final(buffers)@.len() == projection@.len(),
        match r {
            Ok(n) => {
                &&& n <= rows_from(bytes@, start as int, delimiter).len()
                &&& rows_from(bytes@, end as int, delimiter) == rows_from(
                    bytes@,
                    start as int,
                    delimiter,
                ).skip(n as int)
                &&& forall|j: int|
                    0 <= j < projection@.len() ==> #[trigger] final(buffers)@[j]@ == col_extend(
                        old(buffers)@[j]@,
                        rows_from(bytes@, start as int, delimiter).take(n as int),
                        projection@[j] as int,
                        encoding == CsvEncoding::LossyUtf8,
                    )
                &&& !ignore_parser_errors ==> forall|i: int|
                    0 <= i < n ==> !row_bad(
                        views_of(old(buffers)@),
                        projection@,
                        #[trigger] rows_from(bytes@, start as int, delimiter)[i],
                        encoding == CsvEncoding::LossyUtf8,
                    )
            },
            Err(e) => {
                let rows = rows_from(bytes@, start as int, delimiter);
                let lossy = encoding == CsvEncoding::LossyUtf8;
                let bufs = views_of(old(buffers)@);
                let fb = first_bad_row(bufs, projection@, rows, lossy, 0);
                let bj = first_bad_col(bufs, projection@, rows[fb], lossy, 0);
                &&& !ignore_parser_errors
                &&& 0 <= fb < chunk_count(bytes@, start as int, end as int, delimiter)
                &&& fb < rows.len()
                &&& 0 <= bj < projection@.len()
                &&& e == (CsvError::ParseError {
                    row: (base_row + fb) as usize,
                    column: projection@[bj],
                    kind: kind_of(col_dtype(bufs[bj])),
                })
            },
        },
        (ignore_parser_errors || forall|i: int|
            0 <= i < chunk_count(bytes@, start as int, end as int, delimiter)
                ==> !row_bad(
                views_of(old(buffers)@),
                projection@,
                #[trigger] rows_from(bytes@, start as int, delimiter)[i],
                encoding == CsvEncoding::LossyUtf8,
            )) ==> r is Ok,
{
    let ghost s = bytes@;
    let ghost d = delimiter;
    let ghost rows = rows_from(s, start as int, d);
    let ghost bufs0 = views_of(old(buffers)@);
    let ghost lossy_g = encoding == CsvEncoding::LossyUtf8;
    let nproj = projection.len();

    let mut cur: usize = start;
    let mut done: usize = 0;
    while cur < end
        invariant
            s == bytes@,
            d == delimiter,
            rows == rows_from(s, start as int, d),
            bufs0 == views_of(old(buffers)@),
            lossy_g == (encoding == CsvEncoding::LossyUtf8),
            nproj == projection@.len(),
            strictly_sorted(projection@),
            end <= s.len(),
            base_row + (end - start) <= usize::MAX,
            start <= cur <= end,
            reach(s, cur as int, end as int),
            done <= cur - start,
            done <= rows.len(),
            rows_from(s, cur as int, d) == rows.skip(done as int),
            buffers@.len() == nproj,
            forall|j: int|
                0 <= j < nproj ==> #[trigger] buffers@[j]@ == col_extend(
                    bufs0[j],
                    rows.take(done as int),
                    projection@[j] as int,
                    lossy_g,
                ),
            !ignore_parser_errors ==> forall|i: int|
                0 <= i < done ==> !row_bad(bufs0, projection@, #[trigger] rows[i], lossy_g),
        decreases end - cur,
    {
        let ghost prev = cur as int;
        let re = find_record_end(bytes, cur);
        let t = read_term_len(bytes, re);
        proof {
            lemma_next_record_start(s, prev);
            assert(next_record_start(s, prev) == re + t);
            // the record cannot straddle the chunk end
            assert(next_record_start(s, prev) <= end);
            assert(reach(s, (re + t) as int, end as int));
        }
        if re == cur {
            // empty record: step over it
            proof {
                assert(rows_from(s, (re + t) as int, d) == rows_from(s, prev, d));
            }
            cur = re + t;
        } else {
            let ghost row = fields_from(s, prev, re as int, d);
            proof {
                assert(rows_from(s, prev, d) == seq![row] + rows_from(
                    s,
                    next_record_start(s, prev),
                    d,
                ));
                assert(rows.skip(done as int)[0] == row);
                assert(done < rows.len());
                assert(rows[done as int] == row);
            }
            // walk the record's fields, dispatching projected ones
            let mut p: usize = cur;
            let mut fi: usize = 0;
            let mut pj: usize = 0;
            let mut cont: bool = true;
            while cont
                invariant
                    s == bytes@,
                    d == delimiter,
                    lossy_g == (encoding == CsvEncoding::LossyUtf8),
                    nproj == projection@.len(),
                    strictly_sorted(projection@),
                    end <= s.len(),
                    base_row + (end - start) <= usize::MAX,
                    start <= cur <= end,
                    done <= cur - start,
                    done < rows.len(),
                    rows[done as int] == row,
                    cur as int <= re as int <= end,
                    re == record_end(s, cur as int, false),
                    row == fields_from(s, cur as int, re as int, d),
                    cont ==> cur <= p <= re,
                    cont ==> fi <= p - cur,
                    cont ==> fields_from(s, p as int, re as int, d) == row.skip(fi as int),
                    cont ==> fi < row.len(),
                    !cont ==> fi == row.len(),
                    pj <= nproj,
                    forall|jj: int| 0 <= jj < pj ==> #[trigger] projection@[jj] < fi,
                    pj < nproj ==> projection@[pj as int] >= fi,
                    buffers@.len() == nproj,
                    forall|j: int|
                        pj <= j < nproj ==> #[trigger] buffers@[j]@ == col_extend(
                            bufs0[j],
                            rows.take(done as int),
                            projection@[j] as int,
                            lossy_g,
                        ),
                    forall|j: int|
                        0 <= j < pj ==> #[trigger] buffers@[j]@ == push_cell(
                            col_extend(bufs0[j], rows.take(done as int), projection@[j] as int, lossy_g),
                            row,
                            projection@[j] as int,
                            lossy_g,
                        ),
                    !ignore_parser_errors ==> forall|j: int|
                        0 <= j < pj ==> !cell_bad(bufs0[j], row, #[trigger] projection@[j] as int, lossy_g),
                    !ignore_parser_errors ==> forall|i: int|
                        0 <= i < done ==> !row_bad(bufs0, projection@, #[trigger] rows[i], lossy_g),
                decreases re - p + if cont { 1int } else { 0int },
            {
                let fe = find_field_end(bytes, p, re, delimiter);
                let ghost field = s.subrange(p as int, fe as int);
                proof {
                    assert(fields_from(s, p as int, re as int, d) == if p as int <= field_end(
                        s,
                        p as int,
                        re as int,
                        d,
                        false,
                    ) < re as int {
                        seq![field] + fields_from(s, fe + 1, re as int, d)
                    } else {
                        seq![field]
                    });
                    assert(row.skip(fi as int)[0] == field);
                    assert(row[fi as int] == field);
                }
                let emit = pj < nproj && projection[pj] == fi;
                if emit {
                    let rawvec = copy_range(bytes, p, fe);
                    let uf = unescape_field(rawvec.as_slice());
                    let ghost pre_col = buffers@[pj as int]@;
                    let mut col = buffers.remove(pj);
                    let res = col.append_value(uf, encoding);
                    match res {
                        Ok(_) => {
                            buffers.insert(pj, col);
                            proof {
                                assert(raw_at_is(row, projection@[pj as int] as int, fi as int, field));
                                assert(buffers@[pj as int]@ == push_cell(
                                    pre_col,
                                    row,
                                    projection@[pj as int] as int,
                                    lossy_g,
                                ));
                                assert(!cell_bad(pre_col, row, projection@[pj as int] as int, lossy_g));
                                lemma_col_extend_len(
                                    bufs0[pj as int],
                                    rows.take(done as int),
                                    projection@[pj as int] as int,
                                    lossy_g,
                                );
                                lemma_val_bad_same_dtype(
                                    pre_col,
                                    bufs0[pj as int],
                                    crate::cell::unescape(row[projection@[pj as int] as int]),
                                    lossy_g,
                                );
                            }
                            pj += 1;
                        },
                        Err(_) => {
                            if ignore_parser_errors {
                                col.append_null();
                                buffers.insert(pj, col);
                                proof {
                                    assert(raw_at_is(row, projection@[pj as int] as int, fi as int, field));
                                    assert(buffers@[pj as int]@ == push_cell(
                                        pre_col,
                                        row,
                                        projection@[pj as int] as int,
                                        lossy_g,
                                    ));
                                }
                                pj += 1;
                            } else {
                                let kind = col.fail_kind();
                                let column = projection[pj];
                                buffers.insert(pj, col);
                                proof {
                                    assert(raw_at_is(row, projection@[pj as int] as int, fi as int, field));
                                    lemma_col_extend_len(
                                        bufs0[pj as int],
                                        rows.take(done as int),
                                        projection@[pj as int] as int,
                                        lossy_g,
                                    );
                                    lemma_val_bad_same_dtype(
                                        pre_col,
                                        bufs0[pj as int],
                                        crate::cell::unescape(row[projection@[pj as int] as int]),
                                        lossy_g,
                                    );
                                    assert(cell_bad(
                                        bufs0[pj as int],
                                        row,
                                        projection@[pj as int] as int,
                                        lossy_g,
                                    ));
                                    // this is the first bad row, and the first bad cell in it
                                    assert(forall|i: int|
                                        0 <= i < done ==> !row_bad(
                                            bufs0,
                                            projection@,
                                            #[trigger] rows[i],
                                            lossy_g,
                                        ));
                                    lemma_reach_rows_le(s, (re + t) as int, end as int, d);
                                    assert(rows_from(s, (re + t) as int, d).len() == rows.len()
                                        - done - 1);
                                    assert(done < chunk_count(s, start as int, end as int, d));
                                    assert(row_bad(bufs0, projection@, rows[done as int], lossy_g));
                                    lemma_first_bad_row_is(
                                        bufs0,
                                        projection@,
                                        rows,
                                        lossy_g,
                                        done as int,
                                        0,
                                    );
                                    lemma_first_bad_col_is(
                                        bufs0,
                                        projection@,
                                        row,
                                        lossy_g,
                                        pj as int,
                                        0,
                                    );
                                }
                                return Err(
                                    CsvError::ParseError { row: base_row + done, column, kind },
                                );
                            }
                        },
                    }
                }
                proof {
                    lemma_fields_from_len(s, cur as int, re as int, d);
                }
                fi += 1;
                if fe >= re {
                    cont = false;
                    proof {
                        assert(row.skip(fi - 1) == seq![field]);
                        assert(row.len() == fi);
                    }
                } else {
                    p = fe + 1;
                    proof {
                        assert(fields_from(s, p as int, re as int, d) == row.skip(fi as int)) by {
                            assert(fields_from(s, (fe + 1) as int, re as int, d) == row.skip(
                                fi - 1,
                            ).skip(1));
                            assert(row.skip(fi - 1).skip(1) =~= row.skip(fi as int));
                        }
                        assert(fi < row.len()) by {
                            assert(fields_from(s, p as int, re as int, d).len() >= 1);
                        }
                    }
                }
            }
            // pad the remaining projected columns with nulls
            while pj < nproj
                invariant
                    nproj == projection@.len(),
                    lossy_g == (encoding == CsvEncoding::LossyUtf8),
                    strictly_sorted(projection@),
                    done < rows.len(),
                    rows[done as int] == row,
                    fi == row.len(),
                    pj <= nproj,
                    pj < nproj ==> projection@[pj as int] >= fi,
                    buffers@.len() == nproj,
                    forall|j: int|
                        pj <= j < nproj ==> #[trigger] buffers@[j]@ == col_extend(
                            bufs0[j],
                            rows.take(done as int),
                            projection@[j] as int,
                            lossy_g,
                        ),
                    forall|j: int|
                        0 <= j < pj ==> #[trigger] buffers@[j]@ == push_cell(
                            col_extend(bufs0[j], rows.take(done as int), projection@[j] as int, lossy_g),
                            row,
                            projection@[j] as int,
                            lossy_g,
                        ),
                    !ignore_parser_errors ==> forall|j: int|
                        0 <= j < pj ==> !cell_bad(bufs0[j], row, #[trigger] projection@[j] as int, lossy_g),
                decreases nproj - pj,
            {
                let mut col = buffers.remove(pj);
                col.append_null();
                buffers.insert(pj, col);
                proof {
                    assert(projection@[pj as int] >= row.len());
                    assert(crate::column::raw_at(row, projection@[pj as int] as int) is None);
                }
                pj += 1;
            }
            // the record is complete: every buffer gained exactly its cell
            proof {
                assert forall|j: int| 0 <= j < nproj implies #[trigger] buffers@[j]@ == col_extend(
                    bufs0[j],
                    rows.take(done + 1),
                    projection@[j] as int,
                    lossy_g,
                ) by {
                    lemma_col_extend_take_step(
                        bufs0[j],
                        rows,
                        done as int,
                        projection@[j] as int,
                        lossy_g,
                    );
                }
                if !ignore_parser_errors {
                    assert(!row_bad(bufs0, projection@, row, lossy_g)) by {
                        assert forall|j: int|
                            0 <= j < projection@.len() implies !cell_bad(
                            bufs0[j],
                            row,
                            #[trigger] projection@[j] as int,
                            lossy_g,
                        ) by {}
                    }
                }
                assert(rows_from(s, (re + t) as int, d) =~= rows.skip(done + 1)) by {
                    assert(rows_from(s, prev, d).skip(1) =~= rows_from(
                        s,
                        next_record_start(s, prev),
                        d,
                    ));
                    assert(rows.skip(done as int).skip(1) =~= rows.skip(done + 1));
                }
            }
            cur = re + t;
            done += 1;
        }
    }
    proof {
        assert(cur == end);
        assert(rows_from(s, end as int, d) == rows.skip(done as int));
    }
    Ok(done)
}

/// Field `k` of a record is present at field index `fi` with these bytes.
pub open spec fn raw_at_is(row: Seq<Seq<u8>>, k: int, fi: int, field: Seq<u8>) -> bool {
    k == fi && 0 <= fi < row.len() && row[fi] == field
}

} // verus!
