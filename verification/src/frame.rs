use vstd::prelude::*;
use crate::column::{col_dtype, col_len, concat_col, ColView, Column};
use crate::schema::{storage_of, Field};

verus! {

/// The elements of `s` whose mask entry is set, in order.
pub open spec fn mask_seq<T>(s: Seq<T>, m: Seq<bool>) -> Seq<T>
    decreases s.len(),
{
    if s.len() == 0 || m.len() == 0 {
        Seq::empty()
    } else {
        mask_seq(s.drop_last(), m.drop_last()) + if m.last() {
            seq![s.last()]
        } else {
            Seq::empty()
        }
    }
}

pub open spec fn count_trues(m: Seq<bool>) -> nat
    decreases m.len(),
{
    if m.len() == 0 {
        0
    } else {
        count_trues(m.drop_last()) + if m.last() {
            1nat
        } else {
            0nat
        }
    }
}

pub proof fn lemma_count_trues_le(m: Seq<bool>)
    ensures
        count_trues(m) <= m.len(),
    decreases m.len(),
{
    if m.len() > 0 {
        lemma_count_trues_le(m.drop_last());
    }
}

pub proof fn lemma_mask_seq_len<T>(s: Seq<T>, m: Seq<bool>)
    requires
        s.len() == m.len(),
    ensures
        mask_seq(s, m).len() == count_trues(m),
    decreases s.len(),
{
    if s.len() > 0 {
        lemma_mask_seq_len(s.drop_last(), m.drop_last());
    }
}

/// A filtered column.
pub open spec fn mask_col(cv: ColView, m: Seq<bool>) -> ColView {
    match cv {
        ColView::I32(s) => ColView::I32(mask_seq(s, m)),
        ColView::I64(s) => ColView::I64(mask_seq(s, m)),
        ColView::U32(s) => ColView::U32(mask_seq(s, m)),
        ColView::U64(s) => ColView::U64(mask_seq(s, m)),
        ColView::Bool(s) => ColView::Bool(mask_seq(s, m)),
        ColView::Str(s) => ColView::Str(mask_seq(s, m)),
    }
}

/// A column truncated to its first `n` cells.
pub open spec fn take_col(cv: ColView, n: int) -> ColView {
    match cv {
        ColView::I32(s) => ColView::I32(s.take(if n <= s.len() { n } else { s.len() as int })),
        ColView::I64(s) => ColView::I64(s.take(if n <= s.len() { n } else { s.len() as int })),
        ColView::U32(s) => ColView::U32(s.take(if n <= s.len() { n } else { s.len() as int })),
        ColView::U64(s) => ColView::U64(s.take(if n <= s.len() { n } else { s.len() as int })),
        ColView::Bool(s) => ColView::Bool(s.take(if n <= s.len() { n } else { s.len() as int })),
        ColView::Str(s) => ColView::Str(s.take(if n <= s.len() { n } else { s.len() as int })),
    }
}

fn filter_vec_i32(v: &Vec<Option<i32>>, m: &Vec<bool>) -> (r: Vec<Option<i32>>)
    requires
        v@.len() == m@.len(),
    ensures
        r@ == mask_seq(v@, m@),
{
    let mut out: Vec<Option<i32>> = Vec::new();
    let mut i: usize = 0;
    while i < v.len()
        invariant
            0 <= i <= v@.len(),
            v@.len() == m@.len(),
            out@ == mask_seq(v@.take(i as int), m@.take(i as int)),
        decreases v@.len() - i,
    {
        proof {
            assert(v@.take(i + 1).drop_last() =~= v@.take(i as int));
            assert(m@.take(i + 1).drop_last() =~= m@.take(i as int));
        }
        if m[i] {
            out.push(v[i]);
        }
        i += 1;
    }
    proof {
        assert(v@.take(i as int) =~= v@);
        assert(m@.take(i as int) =~= m@);
    }
    out
}

fn filter_vec_i64(v: &Vec<Option<i64>>, m: &Vec<bool>) -> (r: Vec<Option<i64>>)
    requires
        v@.len() == m@.len(),
    ensures
        r@ == mask_seq(v@, m@),
{
    let mut out: Vec<Option<i64>> = Vec::new();
    let mut i: usize = 0;
    while i < v.len()
        invariant
            0 <= i <= v@.len(),
            v@.len() == m@.len(),
            out@ == mask_seq(v@.take(i as int), m@.take(i as int)),
        decreases v@.len() - i,
    {
        proof {
            assert(v@.take(i + 1).drop_last() =~= v@.take(i as int));
            assert(m@.take(i + 1).drop_last() =~= m@.take(i as int));
        }
        if m[i] {
            out.push(v[i]);
        }
        i += 1;
    }
    proof {
        assert(v@.take(i as int) =~= v@);
        assert(m@.take(i as int) =~= m@);
    }
    out
}

fn filter_vec_u32(v: &Vec<Option<u32>>, m: &Vec<bool>) -> (r: Vec<Option<u32>>)
    requires
        v@.len() == m@.len(),
    ensures
        r@ == mask_seq(v@, m@),
{
    let mut out: Vec<Option<u32>> = Vec::new();
    let mut i: usize = 0;
    while i < v.len()
        invariant
            0 <= i <= v@.len(),
            v@.len() == m@.len(),
            out@ == mask_seq(v@.take(i as int), m@.take(i as int)),
        decreases v@.len() - i,
    {
        proof {
            assert(v@.take(i + 1).drop_last() =~= v@.take(i as int));
            assert(m@.take(i + 1).drop_last() =~= m@.take(i as int));
        }
        if m[i] {
            out.push(v[i]);
        }
        i += 1;
    }
    proof {
        assert(v@.take(i as int) =~= v@);
        assert(m@.take(i as int) =~= m@);
    }
    out
}

fn filter_vec_u64(v: &Vec<Option<u64>>, m: &Vec<bool>) -> (r: Vec<Option<u64>>)
    requires
        v@.len() == m@.len(),
    ensures
        r@ == mask_seq(v@, m@),
{
    let mut out: Vec<Option<u64>> = Vec::new();
    let mut i: usize = 0;
    while i < v.len()
        invariant
            0 <= i <= v@.len(),
            v@.len() == m@.len(),
            out@ == mask_seq(v@.take(i as int), m@.take(i as int)),
        decreases v@.len() - i,
    {
        proof {
            assert(v@.take(i + 1).drop_last() =~= v@.take(i as int));
            assert(m@.take(i + 1).drop_last() =~= m@.take(i as int));
        }
        if m[i] {
            out.push(v[i]);
        }
        i += 1;
    }
    proof {
        assert(v@.take(i as int) =~= v@);
        assert(m@.take(i as int) =~= m@);
    }
    out
}

fn filter_vec_bool(v: &Vec<Option<bool>>, m: &Vec<bool>) -> (r: Vec<Option<bool>>)
    requires
        v@.len() == m@.len(),
    ensures
        r@ == mask_seq(v@, m@),
{
    let mut out: Vec<Option<bool>> = Vec::new();
    let mut i: usize = 0;
    while i < v.len()
        invariant
            0 <= i <= v@.len(),
            v@.len() == m@.len(),
            out@ == mask_seq(v@.take(i as int), m@.take(i as int)),
        decreases v@.len() - i,
    {
        proof {
            assert(v@.take(i + 1).drop_last() =~= v@.take(i as int));
            assert(m@.take(i + 1).drop_last() =~= m@.take(i as int));
        }
        if m[i] {
            out.push(v[i]);
        }
        i += 1;
    }
    proof {
        assert(v@.take(i as int) =~= v@);
        assert(m@.take(i as int) =~= m@);
    }
    out
}

fn filter_vec_str(v: &Vec<Option<String>>, m: &Vec<bool>) -> (r: Vec<Option<String>>)
    requires
        v@.len() == m@.len(),
    ensures
        r.deep_view() == mask_seq(v.deep_view(), m@),
{
    let mut out: Vec<Option<String>> = Vec::new();
    let mut i: usize = 0;
    while i < v.len()
        invariant
            0 <= i <= v@.len(),
            v@.len() == m@.len(),
            out.deep_view() == mask_seq(v.deep_view().take(i as int), m@.take(i as int)),
        decreases v@.len() - i,
    {
        proof {
            assert(v.deep_view().take(i + 1).drop_last() =~= v.deep_view().take(i as int));
            assert(m@.take(i + 1).drop_last() =~= m@.take(i as int));
        }
        if m[i] {
            let ghost pre = out.deep_view();
            let cell: Option<String> = match &v[i] {
                Some(s) => Some(s.clone()),
                None => None,
            };
            proof {
                assert(cell == v@[i as int]);
            }
            out.push(cell);
            proof {
                assert(out.deep_view() =~= pre.push(v.deep_view()[i as int]));
                assert(out.deep_view() =~= mask_seq(
                    v.deep_view().take(i + 1),
                    m@.take(i + 1),
                ));
            }
        }
        i += 1;
    }
    proof {
        assert(v.deep_view().take(i as int) =~= v.deep_view());
        assert(m@.take(i as int) =~= m@);
    }
    out
}

impl Column {
    /// The column with only the cells whose mask entry is set.
    pub fn filter_col(&self, m: &Vec<bool>) -> (r: Column)
        requires
            col_len(self@) == m@.len(),
        ensures
            r@ == mask_col(self@, m@),
    {
        match self {
            Column::I32(v) => Column::I32(filter_vec_i32(v, m)),
            Column::I64(v) => Column::I64(filter_vec_i64(v, m)),
            Column::U32(v) => Column::U32(filter_vec_u32(v, m)),
            Column::U64(v) => Column::U64(filter_vec_u64(v, m)),
            Column::Bool(v) => Column::Bool(filter_vec_bool(v, m)),
            Column::Str(v) => Column::Str(filter_vec_str(v, m)),
        }
    }

    /// Truncate the column to its first `n` cells.
    pub fn truncate_col(&mut self, n: usize)
        ensures
            final(self)@ == take_col(old(self)@, n as int),
    {
        match self {
            Column::I32(v) => {
                let ghost pre = v@;
                v.truncate(n);
                proof {
                    if n > pre.len() {
                        assert(pre.take(pre.len() as int) =~= pre);
                    }
                }
            },
            Column::I64(v) => {
                let ghost pre = v@;
                v.truncate(n);
                proof {
                    if n > pre.len() {
                        assert(pre.take(pre.len() as int) =~= pre);
                    }
                }
            },
            Column::U32(v) => {
                let ghost pre = v@;
                v.truncate(n);
                proof {
                    if n > pre.len() {
                        assert(pre.take(pre.len() as int) =~= pre);
                    }
                }
            },
            Column::U64(v) => {
                let ghost pre = v@;
                v.truncate(n);
                proof {
                    if n > pre.len() {
                        assert(pre.take(pre.len() as int) =~= pre);
                    }
                }
            },
            Column::Bool(v) => {
                let ghost pre = v@;
                v.truncate(n);
                proof {
                    if n > pre.len() {
                        assert(pre.take(pre.len() as int) =~= pre);
                    }
                }
            },
            Column::Str(v) => {
                let ghost pre = v.deep_view();
                v.truncate(n);
                proof {
                    if n <= pre.len() {
                        assert(v.deep_view() =~= pre.take(n as int));
                    } else {
                        assert(v.deep_view() =~= pre);
                        assert(pre.take(pre.len() as int) =~= pre);
                    }
                }
            },
        }
    }
}

/// A columnar table: equal-length typed columns, one per projected field.
#[derive(Debug)]
pub struct DataFrame {
    pub fields: Vec<Field>,
    pub cols: Vec<Column>,
}

impl DataFrame {
    /// Columns match the fields in number and storage type and share one
    /// length.
    pub open spec fn wf(&self) -> bool {
        &&& self.cols@.len() == self.fields@.len()
        &&& forall|j: int|
            0 <= j < self.cols@.len() ==> col_dtype(#[trigger] self.cols@[j]@) == storage_of(
                self.fields@[j].dtype,
            )
        &&& forall|j: int|
            0 <= j < self.cols@.len() ==> col_len(#[trigger] self.cols@[j]@) == self.spec_height()
    }

    /// Number of rows.
    pub open spec fn spec_height(&self) -> nat {
        if self.cols@.len() > 0 {
            col_len(self.cols@[0]@)
        } else {
            0
        }
    }

    pub fn height(&self) -> (r: usize)
        requires
            self.wf(),
        ensures
            r == self.spec_height(),
    {
        if self.cols.len() > 0 {
            self.cols[0].len()
        } else {
            0
        }
    }

    pub fn width(&self) -> (r: usize)
        ensures
            r == self.cols@.len(),
    {
        self.cols.len()
    }

    /// Append the rows of `other` below the rows of this frame.
    pub fn vstack(&mut self, other: DataFrame)
        requires
            old(self).wf(),
            other.wf(),
            old(self).cols@.len() == other.cols@.len(),
            forall|j: int|
                0 <= j < other.cols@.len() ==> col_dtype(#[trigger] other.cols@[j]@) == col_dtype(
                    old(self).cols@[j]@,
                ),
        ensures
            final(self).wf(),
            final(self).fields@ == old(self).fields@,
            final(self).cols@.len() == old(self).cols@.len(),
            forall|j: int|
                0 <= j < final(self).cols@.len() ==> #[trigger] final(self).cols@[j]@ == concat_col(
                    old(self).cols@[j]@,
                    other.cols@[j]@,
                ),
    {
        let ghost oself = *old(self);
        let mut rest = other.cols;
        let n = self.cols.len();
        let mut j: usize = 0;
        while j < n
            invariant
                n == oself.cols@.len(),
                0 <= j <= n,
                self.fields@ == oself.fields@,
                self.cols@.len() == n,
                rest@.len() == n - j,
                oself.wf(),
                forall|jj: int| 0 <= jj < n - j ==> #[trigger] rest@[jj]@ == other.cols@[j + jj]@,
                forall|jj: int|
                    0 <= jj < j ==> #[trigger] self.cols@[jj]@ == concat_col(
                        oself.cols@[jj]@,
                        other.cols@[jj]@,
                    ),
                forall|jj: int| j <= jj < n ==> #[trigger] self.cols@[jj]@ == oself.cols@[jj]@,
                forall|jj: int|
                    0 <= jj < n ==> col_dtype(#[trigger] other.cols@[jj]@) == col_dtype(
                        oself.cols@[jj]@,
                    ),
            decreases n - j,
        {
            let oc = rest.remove(0);
            let mut c = self.cols.remove(j);
            c.append_col(oc);
            self.cols.insert(j, c);
            j += 1;
        }
        proof {
            lemma_concat_col_props(oself, other, *self);
        }
    }

    /// Truncate the frame to its first `n` rows.
    pub fn head(&mut self, n: usize)
        requires
            old(self).wf(),
        ensures
            final(self).wf(),
            final(self).fields@ == old(self).fields@,
            final(self).cols@.len() == old(self).cols@.len(),
            forall|j: int|
                0 <= j < final(self).cols@.len() ==> #[trigger] final(self).cols@[j]@ == take_col(
                    old(self).cols@[j]@,
                    n as int,
                ),
            final(self).spec_height() == if n <= old(self).spec_height() {
                n as nat
            } else {
                old(self).spec_height()
            },
    {
        let ghost oself = *old(self);
        let m = self.cols.len();
        let mut j: usize = 0;
        while j < m
            invariant
                m == oself.cols@.len(),
                0 <= j <= m,
                self.fields@ == oself.fields@,
                self.cols@.len() == m,
                oself.wf(),
                forall|jj: int|
                    0 <= jj < j ==> #[trigger] self.cols@[jj]@ == take_col(
                        oself.cols@[jj]@,
                        n as int,
                    ),
                forall|jj: int| j <= jj < m ==> #[trigger] self.cols@[jj]@ == oself.cols@[jj]@,
            decreases m - j,
        {
            let mut c = self.cols.remove(j);
            c.truncate_col(n);
            self.cols.insert(j, c);
            j += 1;
        }
        proof {
            lemma_take_col_props(oself, *self, n as int);
        }
    }

    /// Keep only the rows whose mask entry is set.
    pub fn filter(&self, mask: &Vec<bool>) -> (r: DataFrame)
        requires
            self.wf(),
            mask@.len() == self.spec_height(),
        ensures
            r.wf(),
            r.fields@ == self.fields@,
            r.cols@.len() == self.cols@.len(),
            forall|j: int|
                0 <= j < r.cols@.len() ==> #[trigger] r.cols@[j]@ == mask_col(
                    self.cols@[j]@,
                    mask@,
                ),
            r.spec_height() == count_trues(mask@),
    {
        let mut fields: Vec<Field> = Vec::new();
        let mut cols: Vec<Column> = Vec::new();
        let mut j: usize = 0;
        while j < self.cols.len()
            invariant
                self.wf(),
                mask@.len() == self.spec_height(),
                0 <= j <= self.cols@.len(),
                fields@ == self.fields@.take(j as int),
                cols@.len() == j,
                forall|jj: int|
                    0 <= jj < j ==> #[trigger] cols@[jj]@ == mask_col(self.cols@[jj]@, mask@),
            decreases self.cols@.len() - j,
        {
            fields.push(self.fields[j].clone_field());
            cols.push(self.cols[j].filter_col(mask));
            proof {
                assert(self.fields@.take(j + 1) =~= self.fields@.take(j as int).push(
                    self.fields@[j as int],
                ));
            }
            j += 1;
        }
        proof {
            assert(self.fields@.take(j as int) =~= self.fields@);
        }
        let r = DataFrame { fields, cols };
        proof {
            lemma_mask_col_props(*self, r, mask@);
        }
        r
    }
}

proof fn lemma_mask_col_len(cv: ColView, m: Seq<bool>)
    requires
        col_len(cv) == m.len(),
    ensures
        col_len(mask_col(cv, m)) == count_trues(m),
        col_dtype(mask_col(cv, m)) == col_dtype(cv),
{
    match cv {
        ColView::I32(s) => lemma_mask_seq_len(s, m),
        ColView::I64(s) => lemma_mask_seq_len(s, m),
        ColView::U32(s) => lemma_mask_seq_len(s, m),
        ColView::U64(s) => lemma_mask_seq_len(s, m),
        ColView::Bool(s) => lemma_mask_seq_len(s, m),
        ColView::Str(s) => lemma_mask_seq_len(s, m),
    }
}

proof fn lemma_mask_col_props(a: DataFrame, r: DataFrame, m: Seq<bool>)
    requires
        a.wf(),
        m.len() == a.spec_height(),
        r.fields@.len() == a.fields@.len(),
        r.cols@.len() == a.cols@.len(),
        r.fields@ == a.fields@,
        forall|j: int| 0 <= j < r.cols@.len() ==> #[trigger] r.cols@[j]@ == mask_col(a.cols@[j]@, m),
    ensures
        r.wf(),
        r.spec_height() == count_trues(m),
{
    assert forall|j: int| 0 <= j < r.cols@.len() implies col_dtype(#[trigger] r.cols@[j]@)
        == storage_of(r.fields@[j].dtype) && col_len(r.cols@[j]@) == count_trues(m) by {
        lemma_mask_col_len(a.cols@[j]@, m);
    }
}

proof fn lemma_take_col_len(cv: ColView, n: int)
    requires
        n >= 0,
    ensures
        col_len(take_col(cv, n)) == if n <= col_len(cv) {
            n as nat
        } else {
            col_len(cv)
        },
        col_dtype(take_col(cv, n)) == col_dtype(cv),
{
}

proof fn lemma_take_col_props(a: DataFrame, r: DataFrame, n: int)
    requires
        a.wf(),
        n >= 0,
        r.fields@ == a.fields@,
        r.cols@.len() == a.cols@.len(),
        forall|j: int| 0 <= j < r.cols@.len() ==> #[trigger] r.cols@[j]@ == take_col(a.cols@[j]@, n),
    ensures
        r.wf(),
        r.spec_height() == if n <= a.spec_height() {
            n as nat
        } else {
            a.spec_height()
        },
{
    assert forall|j: int| 0 <= j < r.cols@.len() implies col_dtype(#[trigger] r.cols@[j]@)
        == storage_of(r.fields@[j].dtype) && col_len(r.cols@[j]@) == (if n <= a.spec_height() {
        n as nat
    } else {
        a.spec_height()
    }) by {
        lemma_take_col_len(a.cols@[j]@, n);
    }
}

proof fn lemma_concat_col_len(a: ColView, b: ColView)
    requires
        col_dtype(a) == col_dtype(b),
    ensures
        col_len(concat_col(a, b)) == col_len(a) + col_len(b),
        col_dtype(concat_col(a, b)) == col_dtype(a),
{
}

proof fn lemma_concat_col_props(a: DataFrame, b: DataFrame, r: DataFrame)
    requires
        a.wf(),
        b.wf(),
        a.cols@.len() == b.cols@.len(),
        forall|j: int|
            0 <= j < b.cols@.len() ==> col_dtype(#[trigger] b.cols@[j]@) == col_dtype(a.cols@[j]@),
        r.fields@ == a.fields@,
        r.cols@.len() == a.cols@.len(),
        forall|j: int|
            0 <= j < r.cols@.len() ==> #[trigger] r.cols@[j]@ == concat_col(
                a.cols@[j]@,
                b.cols@[j]@,
            ),
    ensures
        r.wf(),
        r.spec_height() == a.spec_height() + b.spec_height(),
{
    assert forall|j: int| 0 <= j < r.cols@.len() implies col_dtype(#[trigger] r.cols@[j]@)
        == storage_of(r.fields@[j].dtype) && col_len(r.cols@[j]@) == a.spec_height()
        + b.spec_height() by {
        lemma_concat_col_len(a.cols@[j]@, b.cols@[j]@);
    }
}

} // verus!
