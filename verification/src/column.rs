use vstd::prelude::*;
use crate::cell::{
    cv_bool, cv_i32, cv_i64, cv_str, cv_u32, cv_u64, or_null, parse_bool_field, parse_i32_field,
    parse_i64_field, parse_u32_field, parse_u64_field, unescape, utf8_lossy, decode_utf8_lossy,
    decode_utf8_strict,
};
use crate::schema::{storage_of, CsvEncoding, DataType};

verus! {

/// The mathematical content of a column: one sequence of optional plain
/// values per storage type.
pub enum ColView {
    I32(Seq<Option<i32>>),
    I64(Seq<Option<i64>>),
    U32(Seq<Option<u32>>),
    U64(Seq<Option<u64>>),
    Bool(Seq<Option<bool>>),
    Str(Seq<Option<Seq<char>>>),
}

/// A typed, growable column accumulator, and the materialized column of
/// the result frame.
#[derive(Debug)]
pub enum Column {
    I32(Vec<Option<i32>>),
    I64(Vec<Option<i64>>),
    U32(Vec<Option<u32>>),
    U64(Vec<Option<u64>>),
    Bool(Vec<Option<bool>>),
    Str(Vec<Option<String>>),
}

impl View for Column {
    type V = ColView;

    open spec fn view(&self) -> ColView {
        match self {
            Column::I32(v) => ColView::I32(v@),
            Column::I64(v) => ColView::I64(v@),
            Column::U32(v) => ColView::U32(v@),
            Column::U64(v) => ColView::U64(v@),
            Column::Bool(v) => ColView::Bool(v@),
            Column::Str(v) => ColView::Str(v.deep_view()),
        }
    }
}

pub open spec fn col_len(cv: ColView) -> nat {
    match cv {
        ColView::I32(s) => s.len(),
        ColView::I64(s) => s.len(),
        ColView::U32(s) => s.len(),
        ColView::U64(s) => s.len(),
        ColView::Bool(s) => s.len(),
        ColView::Str(s) => s.len(),
    }
}

/// The storage type a column holds.
pub open spec fn col_dtype(cv: ColView) -> DataType {
    match cv {
        ColView::I32(_) => DataType::Int32,
        ColView::I64(_) => DataType::Int64,
        ColView::U32(_) => DataType::UInt32,
        ColView::U64(_) => DataType::UInt64,
        ColView::Bool(_) => DataType::Boolean,
        ColView::Str(_) => DataType::Utf8,
    }
}

pub open spec fn empty_col(dt: DataType) -> ColView {
    match dt {
        DataType::Int32 => ColView::I32(Seq::empty()),
        DataType::Int64 => ColView::I64(Seq::empty()),
        DataType::UInt32 => ColView::U32(Seq::empty()),
        DataType::UInt64 => ColView::U64(Seq::empty()),
        DataType::Boolean => ColView::Bool(Seq::empty()),
        DataType::Utf8 => ColView::Str(Seq::empty()),
        DataType::Date32 => ColView::I32(Seq::empty()),
        DataType::Date64 => ColView::I64(Seq::empty()),
    }
}

pub open spec fn push_null(cv: ColView) -> ColView {
    match cv {
        ColView::I32(s) => ColView::I32(s.push(None)),
        ColView::I64(s) => ColView::I64(s.push(None)),
        ColView::U32(s) => ColView::U32(s.push(None)),
        ColView::U64(s) => ColView::U64(s.push(None)),
        ColView::Bool(s) => ColView::Bool(s.push(None)),
        ColView::Str(s) => ColView::Str(s.push(None)),
    }
}

/// Whether unescaped field bytes fail to decode for this column's type.
pub open spec fn val_bad(cv: ColView, f: Seq<u8>, lossy: bool) -> bool {
    match cv {
        ColView::I32(_) => cv_i32(f) is None,
        ColView::I64(_) => cv_i64(f) is None,
        ColView::U32(_) => cv_u32(f) is None,
        ColView::U64(_) => cv_u64(f) is None,
        ColView::Bool(_) => cv_bool(f) is None,
        ColView::Str(_) => cv_str(f, lossy) is None,
    }
}

/// The column after appending the cell that unescaped field bytes decode
/// to; a failed decode appends a null.
pub open spec fn push_val(cv: ColView, f: Seq<u8>, lossy: bool) -> ColView {
    match cv {
        ColView::I32(s) => ColView::I32(s.push(or_null(cv_i32(f)))),
        ColView::I64(s) => ColView::I64(s.push(or_null(cv_i64(f)))),
        ColView::U32(s) => ColView::U32(s.push(or_null(cv_u32(f)))),
        ColView::U64(s) => ColView::U64(s.push(or_null(cv_u64(f)))),
        ColView::Bool(s) => ColView::Bool(s.push(or_null(cv_bool(f)))),
        ColView::Str(s) => ColView::Str(s.push(or_null(cv_str(f, lossy)))),
    }
}

// ---------- cells of a record ----------

/// Raw bytes of field `k` of a record, unescaped; `None` when the record
/// is too short, which pads with nulls.
pub open spec fn raw_at(row: Seq<Seq<u8>>, k: int) -> Option<Seq<u8>> {
    if 0 <= k < row.len() {
        Some(unescape(row[k]))
    } else {
        None
    }
}

/// Whether field `k` of a record fails to decode for this column.
pub open spec fn cell_bad(cv: ColView, row: Seq<Seq<u8>>, k: int, lossy: bool) -> bool {
    match raw_at(row, k) {
        Some(f) => val_bad(cv, f, lossy),
        None => false,
    }
}

/// The column after appending field `k` of a record.
pub open spec fn push_cell(cv: ColView, row: Seq<Seq<u8>>, k: int, lossy: bool) -> ColView {
    match raw_at(row, k) {
        Some(f) => push_val(cv, f, lossy),
        None => push_null(cv),
    }
}

/// The column after appending field `k` of every record in order.
pub open spec fn col_extend(cv: ColView, rows: Seq<Seq<Seq<u8>>>, k: int, lossy: bool) -> ColView
    decreases rows.len(),
{
    if rows.len() == 0 {
        cv
    } else {
        push_cell(col_extend(cv, rows.drop_last(), k, lossy), rows.last(), k, lossy)
    }
}

pub proof fn lemma_col_extend_take_step(
    cv: ColView,
    rows: Seq<Seq<Seq<u8>>>,
    m: int,
    k: int,
    lossy: bool,
)
    requires
        0 <= m < rows.len(),
    ensures
        col_extend(cv, rows.take(m + 1), k, lossy) == push_cell(
            col_extend(cv, rows.take(m), k, lossy),
            rows[m],
            k,
            lossy,
        ),
{
    assert(rows.take(m + 1).drop_last() =~= rows.take(m));
    assert(rows.take(m + 1).last() == rows[m]);
}

pub proof fn lemma_col_extend_len(cv: ColView, rows: Seq<Seq<Seq<u8>>>, k: int, lossy: bool)
    ensures
        col_len(col_extend(cv, rows, k, lossy)) == col_len(cv) + rows.len(),
        col_dtype(col_extend(cv, rows, k, lossy)) == col_dtype(cv),
    decreases rows.len(),
{
    if rows.len() > 0 {
        lemma_col_extend_len(cv, rows.drop_last(), k, lossy);
    }
}

pub proof fn lemma_col_extend_concat(
    cv: ColView,
    a: Seq<Seq<Seq<u8>>>,
    b: Seq<Seq<Seq<u8>>>,
    k: int,
    lossy: bool,
)
    ensures
        col_extend(cv, a + b, k, lossy) == col_extend(col_extend(cv, a, k, lossy), b, k, lossy),
    decreases b.len(),
{
    if b.len() == 0 {
        assert(a + b =~= a);
    } else {
        lemma_col_extend_concat(cv, a, b.drop_last(), k, lossy);
        assert((a + b).drop_last() =~= a + b.drop_last());
        assert((a + b).last() == b.last());
    }
}

/// Appending cells to a column equals concatenating with the cells
/// appended to an empty column of the same storage type.
pub proof fn lemma_concat_extend(cv: ColView, rows: Seq<Seq<Seq<u8>>>, k: int, lossy: bool)
    ensures
        concat_col(cv, col_extend(empty_col(col_dtype(cv)), rows, k, lossy)) == col_extend(
            cv,
            rows,
            k,
            lossy,
        ),
    decreases rows.len(),
{
    let e = empty_col(col_dtype(cv));
    if rows.len() == 0 {
        match cv {
            ColView::I32(x) => {
                assert(x + Seq::<Option<i32>>::empty() =~= x);
            },
            ColView::I64(x) => {
                assert(x + Seq::<Option<i64>>::empty() =~= x);
            },
            ColView::U32(x) => {
                assert(x + Seq::<Option<u32>>::empty() =~= x);
            },
            ColView::U64(x) => {
                assert(x + Seq::<Option<u64>>::empty() =~= x);
            },
            ColView::Bool(x) => {
                assert(x + Seq::<Option<bool>>::empty() =~= x);
            },
            ColView::Str(x) => {
                assert(x + Seq::<Option<Seq<char>>>::empty() =~= x);
            },
        }
    } else {
        lemma_concat_extend(cv, rows.drop_last(), k, lossy);
        let y1 = col_extend(e, rows.drop_last(), k, lossy);
        lemma_col_extend_len(e, rows.drop_last(), k, lossy);
        match (cv, y1) {
            (ColView::I32(x), ColView::I32(y)) => {
                assert forall|w: Option<i32>| x + y.push(w) =~= (x + y).push(w) by {}
            },
            (ColView::I64(x), ColView::I64(y)) => {
                assert forall|w: Option<i64>| x + y.push(w) =~= (x + y).push(w) by {}
            },
            (ColView::U32(x), ColView::U32(y)) => {
                assert forall|w: Option<u32>| x + y.push(w) =~= (x + y).push(w) by {}
            },
            (ColView::U64(x), ColView::U64(y)) => {
                assert forall|w: Option<u64>| x + y.push(w) =~= (x + y).push(w) by {}
            },
            (ColView::Bool(x), ColView::Bool(y)) => {
                assert forall|w: Option<bool>| x + y.push(w) =~= (x + y).push(w) by {}
            },
            (ColView::Str(x), ColView::Str(y)) => {
                assert forall|w: Option<Seq<char>>| x + y.push(w) =~= (x + y).push(w) by {}
            },
            _ => {
                assert(false);
            },
        }
    }
}

// ---------- executable column operations ----------

impl Column {
    /// A fresh buffer for a logical type, sized by a row-capacity hint
    /// and, for strings, a byte-arena hint. Hints only guide allocation.
    pub fn new_buffer(dt: DataType, capacity: usize, _str_bytes_hint: usize) -> (r: Column)
        ensures
            r@ == empty_col(storage_of(dt)),
    {
        match dt {
            DataType::Int32 => Column::I32(Vec::with_capacity(capacity)),
            DataType::Int64 => Column::I64(Vec::with_capacity(capacity)),
            DataType::UInt32 => Column::U32(Vec::with_capacity(capacity)),
            DataType::UInt64 => Column::U64(Vec::with_capacity(capacity)),
            DataType::Boolean => Column::Bool(Vec::with_capacity(capacity)),
            DataType::Utf8 => {
                let v: Vec<Option<String>> = Vec::with_capacity(capacity);
                proof {
                    assert(v.deep_view() =~= Seq::<Option<Seq<char>>>::empty());
                }
                Column::Str(v)
            },
            DataType::Date32 => Column::I32(Vec::with_capacity(capacity)),
            DataType::Date64 => Column::I64(Vec::with_capacity(capacity)),
        }
    }

    pub fn len(&self) -> (r: usize)
        ensures
            r == col_len(self@),
    {
        match self {
            Column::I32(v) => v.len(),
            Column::I64(v) => v.len(),
            Column::U32(v) => v.len(),
            Column::U64(v) => v.len(),
            Column::Bool(v) => v.len(),
            Column::Str(v) => v.len(),
        }
    }

    /// Append a null cell.
    pub fn append_null(&mut self)
        ensures
            final(self)@ == push_null(old(self)@),
    {
        match self {
            Column::I32(v) => v.push(None),
            Column::I64(v) => v.push(None),
            Column::U32(v) => v.push(None),
            Column::U64(v) => v.push(None),
            Column::Bool(v) => v.push(None),
            Column::Str(v) => {
                let ghost pre = v.deep_view();
                v.push(None);
                proof {
                    assert(v.deep_view() =~= pre.push(None));
                }
            },
        }
    }

    /// Append the cell that unescaped field bytes decode to under this
    /// column's type. A decode failure appends nothing and reports it;
    /// empty bytes are a null.
    pub fn append_value(&mut self, f: Vec<u8>, enc: CsvEncoding) -> (r: Result<(), ()>)
        ensures
            r is Ok <==> !val_bad(old(self)@, f@, enc == CsvEncoding::LossyUtf8),
            r is Ok ==> final(self)@ == push_val(old(self)@, f@, enc == CsvEncoding::LossyUtf8),
            r is Err ==> final(self)@ == old(self)@,
    {
        let lossy = matches!(enc, CsvEncoding::LossyUtf8);
        match self {
            Column::I32(v) => {
                if f.len() == 0 {
                    v.push(None);
                    return Ok(());
                }
                match parse_i32_field(f.as_slice()) {
                    Some(x) => {
                        v.push(Some(x));
                        Ok(())
                    },
                    None => Err(()),
                }
            },
            Column::I64(v) => {
                if f.len() == 0 {
                    v.push(None);
                    return Ok(());
                }
                match parse_i64_field(f.as_slice()) {
                    Some(x) => {
                        v.push(Some(x));
                        Ok(())
                    },
                    None => Err(()),
                }
            },
            Column::U32(v) => {
                if f.len() == 0 {
                    v.push(None);
                    return Ok(());
                }
                match parse_u32_field(f.as_slice()) {
                    Some(x) => {
                        v.push(Some(x));
                        Ok(())
                    },
                    None => Err(()),
                }
            },
            Column::U64(v) => {
                if f.len() == 0 {
                    v.push(None);
                    return Ok(());
                }
                match parse_u64_field(f.as_slice()) {
                    Some(x) => {
                        v.push(Some(x));
                        Ok(())
                    },
                    None => Err(()),
                }
            },
            Column::Bool(v) => {
                if f.len() == 0 {
                    v.push(None);
                    return Ok(());
                }
                match parse_bool_field(f.as_slice()) {
                    Some(x) => {
                        v.push(Some(x));
                        Ok(())
                    },
                    None => Err(()),
                }
            },
            Column::Str(v) => {
                let ghost pre = v.deep_view();
                if f.len() == 0 {
                    v.push(None);
                    proof {
                        assert(v.deep_view() =~= pre.push(None));
                    }
                    return Ok(());
                }
                if lossy {
                    let s = decode_utf8_lossy(&f);
                    v.push(Some(s));
                    proof {
                        assert(v.deep_view() =~= pre.push(Some(utf8_lossy(f@))));
                    }
                    Ok(())
                } else {
                    match decode_utf8_strict(f) {
                        Some(s) => {
                            let ghost sv = s@;
                            v.push(Some(s));
                            proof {
                                assert(v.deep_view() =~= pre.push(Some(sv)));
                            }
                            Ok(())
                        },
                        None => Err(()),
                    }
                }
            },
        }
    }

    /// Move every cell of `other` onto the end of this column.
    pub fn append_col(&mut self, other: Column)
        requires
            col_dtype(old(self)@) == col_dtype(other@),
        ensures
            final(self)@ == concat_col(old(self)@, other@),
    {
        match (self, other) {
            (Column::I32(v), Column::I32(o)) => {
                let mut o = o;
                append_prim_vec(v, &o);
            },
            (Column::I64(v), Column::I64(o)) => {
                append_prim_vec_i64(v, &o);
            },
            (Column::U32(v), Column::U32(o)) => {
                append_prim_vec_u32(v, &o);
            },
            (Column::U64(v), Column::U64(o)) => {
                append_prim_vec_u64(v, &o);
            },
            (Column::Bool(v), Column::Bool(o)) => {
                append_prim_vec_bool(v, &o);
            },
            (Column::Str(v), Column::Str(o)) => {
                append_str_vec(v, &o);
            },
            _ => {
                proof {
                    assert(false);
                }
            },
        }
    }
}

impl Column {
    /// Bytes used by the strings of this column, saturating; zero for
    /// non-string columns. An allocation hint, never read for
    /// correctness.
    pub(crate) fn str_bytes(&self) -> usize {
        match self {
            Column::Str(v) => {
                let mut total: usize = 0;
                let mut i: usize = 0;
                while i < v.len()
                    decreases v@.len() - i,
                {
                    match &v[i] {
                        Some(t) => {
                            let l = t.as_str().len();
                            total = if total > usize::MAX - l {
                                usize::MAX
                            } else {
                                total + l
                            };
                        },
                        None => {},
                    }
                    i += 1;
                }
                total
            },
            _ => 0,
        }
    }
}

/// The first column followed by the second; only meaningful for columns
/// of one storage type.
pub open spec fn concat_col(a: ColView, b: ColView) -> ColView {
    match (a, b) {
        (ColView::I32(x), ColView::I32(y)) => ColView::I32(x + y),
        (ColView::I64(x), ColView::I64(y)) => ColView::I64(x + y),
        (ColView::U32(x), ColView::U32(y)) => ColView::U32(x + y),
        (ColView::U64(x), ColView::U64(y)) => ColView::U64(x + y),
        (ColView::Bool(x), ColView::Bool(y)) => ColView::Bool(x + y),
        (ColView::Str(x), ColView::Str(y)) => ColView::Str(x + y),
        (x, _) => x,
    }
}

fn append_prim_vec(v: &mut Vec<Option<i32>>, o: &Vec<Option<i32>>)
    ensures
        final(v)@ == old(v)@ + o@,
{
    let mut i: usize = 0;
    while i < o.len()
        invariant
            0 <= i <= o@.len(),
            v@ == old(v)@ + o@.take(i as int),
        decreases o@.len() - i,
    {
        v.push(o[i]);
        proof {
            assert(old(v)@ + o@.take(i + 1) =~= (old(v)@ + o@.take(i as int)).push(o@[i as int]));
        }
        i += 1;
    }
    proof {
        assert(old(v)@ + o@.take(i as int) =~= old(v)@ + o@);
    }
}

fn append_prim_vec_i64(v: &mut Vec<Option<i64>>, o: &Vec<Option<i64>>)
    ensures
        final(v)@ == old(v)@ + o@,
{
    let mut i: usize = 0;
    while i < o.len()
        invariant
            0 <= i <= o@.len(),
            v@ == old(v)@ + o@.take(i as int),
        decreases o@.len() - i,
    {
        v.push(o[i]);
        proof {
            assert(old(v)@ + o@.take(i + 1) =~= (old(v)@ + o@.take(i as int)).push(o@[i as int]));
        }
        i += 1;
    }
    proof {
        assert(old(v)@ + o@.take(i as int) =~= old(v)@ + o@);
    }
}

fn append_prim_vec_u32(v: &mut Vec<Option<u32>>, o: &Vec<Option<u32>>)
    ensures
        final(v)@ == old(v)@ + o@,
{
    let mut i: usize = 0;
    while i < o.len()
        invariant
            0 <= i <= o@.len(),
            v@ == old(v)@ + o@.take(i as int),
        decreases o@.len() - i,
    {
        v.push(o[i]);
        proof {
            assert(old(v)@ + o@.take(i + 1) =~= (old(v)@ + o@.take(i as int)).push(o@[i as int]));
        }
        i += 1;
    }
    proof {
        assert(old(v)@ + o@.take(i as int) =~= old(v)@ + o@);
    }
}

fn append_prim_vec_u64(v: &mut Vec<Option<u64>>, o: &Vec<Option<u64>>)
    ensures
        final(v)@ == old(v)@ + o@,
{
    let mut i: usize = 0;
    while i < o.len()
        invariant
            0 <= i <= o@.len(),
            v@ == old(v)@ + o@.take(i as int),
        decreases o@.len() - i,
    {
        v.push(o[i]);
        proof {
            assert(old(v)@ + o@.take(i + 1) =~= (old(v)@ + o@.take(i as int)).push(o@[i as int]));
        }
        i += 1;
    }
    proof {
        assert(old(v)@ + o@.take(i as int) =~= old(v)@ + o@);
    }
}

fn append_prim_vec_bool(v: &mut Vec<Option<bool>>, o: &Vec<Option<bool>>)
    ensures
        final(v)@ == old(v)@ + o@,
{
    let mut i: usize = 0;
    while i < o.len()
        invariant
            0 <= i <= o@.len(),
            v@ == old(v)@ + o@.take(i as int),
        decreases o@.len() - i,
    {
        v.push(o[i]);
        proof {
            assert(old(v)@ + o@.take(i + 1) =~= (old(v)@ + o@.take(i as int)).push(o@[i as int]));
        }
        i += 1;
    }
    proof {
        assert(old(v)@ + o@.take(i as int) =~= old(v)@ + o@);
    }
}

fn append_str_vec(v: &mut Vec<Option<String>>, o: &Vec<Option<String>>)
    ensures
        final(v).deep_view() == old(v).deep_view() + o.deep_view(),
{
    let mut i: usize = 0;
    while i < o.len()
        invariant
            0 <= i <= o@.len(),
            v.deep_view() == old(v).deep_view() + o.deep_view().take(i as int),
        decreases o@.len() - i,
    {
        let ghost pre = v.deep_view();
        let cell: Option<String> = match &o[i] {
            Some(s) => Some(s.clone()),
            None => None,
        };
        proof {
            assert(cell == o@[i as int]);
        }
        v.push(cell);
        proof {
            assert(v.deep_view() =~= pre.push(o@[i as int].deep_view()));
            assert(o.deep_view()[i as int] == o@[i as int].deep_view());
            assert(v.deep_view() =~= old(v).deep_view() + o.deep_view().take(i + 1));
        }
        i += 1;
    }
    proof {
        assert(old(v).deep_view() + o.deep_view().take(i as int) =~= old(v).deep_view()
            + o.deep_view());
    }
}

} // verus!
