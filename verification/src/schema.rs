use vstd::prelude::*;

verus! {

/// Logical type of a column.
///
/// Dates are carried as plain day counts and datetimes as plain
/// millisecond counts, so their fields parse with the integer rules.
#[derive(Clone, Copy, Debug, PartialEq, Eq, Structural)]
pub enum DataType {
    Int32,
    Int64,
    UInt32,
    UInt64,
    Boolean,
    Utf8,
    Date32,
    Date64,
}

/// The storage type a logical type parses and materializes as.
pub open spec fn storage_of(dt: DataType) -> DataType {
    match dt {
        DataType::Date32 => DataType::Int32,
        DataType::Date64 => DataType::Int64,
        other => other,
    }
}

/// How string decoding treats invalid UTF-8.
#[derive(Clone, Copy, Debug, PartialEq, Eq, Structural)]
pub enum CsvEncoding {
    /// Invalid UTF-8 in a string field is a parse error.
    Utf8,
    /// Invalid UTF-8 is replaced with the replacement character.
    LossyUtf8,
}

/// A named, typed column of the schema.
#[derive(Debug)]
pub struct Field {
    pub name: String,
    pub dtype: DataType,
}

impl Field {
    pub fn new(name: String, dtype: DataType) -> (r: Field)
        ensures
            r.name@ == name@,
            r.dtype == dtype,
    {
        Field { name, dtype }
    }

    pub fn clone_field(&self) -> (r: Field)
        ensures
            r == *self,
    {
        Field { name: self.name.clone(), dtype: self.dtype }
    }
}

/// An ordered sequence of fields, immutable for the lifetime of a read.
#[derive(Debug)]
pub struct Schema {
    pub fields: Vec<Field>,
}

/// Two fields agree on name and type.
pub open spec fn field_like(a: Field, b: Field) -> bool {
    a.name@ == b.name@ && a.dtype == b.dtype
}

impl Schema {
    pub fn new(fields: Vec<Field>) -> (r: Schema)
        ensures
            r.fields@ == fields@,
    {
        Schema { fields }
    }

    pub fn len(&self) -> (r: usize)
        ensures
            r == self.fields@.len(),
    {
        self.fields.len()
    }

    /// Index of the first field with the given name, if any.
    pub fn index_of(&self, name: &String) -> (r: Option<usize>)
        ensures
            match r {
                Some(i) => {
                    &&& 0 <= i < self.fields@.len()
                    &&& self.fields@[i as int].name@ == name@
                    &&& forall|j: int| 0 <= j < i ==> self.fields@[j].name@ != name@
                },
                None => forall|j: int|
                    0 <= j < self.fields@.len() ==> self.fields@[j].name@ != name@,
            },
    {
        let mut i: usize = 0;
        while i < self.fields.len()
            invariant
                0 <= i <= self.fields@.len(),
                forall|j: int| 0 <= j < i ==> self.fields@[j].name@ != name@,
            decreases self.fields@.len() - i,
        {
            if self.fields[i].name == *name {
                return Some(i);
            }
            i += 1;
        }
        None
    }

    pub fn clone_schema(&self) -> (r: Schema)
        ensures
            r.fields@ == self.fields@,
    {
        let mut out: Vec<Field> = Vec::new();
        let mut i: usize = 0;
        while i < self.fields.len()
            invariant
                0 <= i <= self.fields@.len(),
                out@ == self.fields@.take(i as int),
            decreases self.fields@.len() - i,
        {
            out.push(self.fields[i].clone_field());
            proof {
                assert(self.fields@.take(i + 1) =~= self.fields@.take(i as int).push(
                    self.fields@[i as int],
                ));
            }
            i += 1;
        }
        proof {
            assert(self.fields@.take(i as int) =~= self.fields@);
        }
        Schema { fields: out }
    }
}

} // verus!
