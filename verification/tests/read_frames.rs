use csv_loader::column::Column;
use csv_loader::err::CsvError;
use csv_loader::frame::DataFrame;
use csv_loader::reader::{build_csv_reader, PhysicalIoExpr, ScanAggregation, SequentialReader};
use csv_loader::schema::{CsvEncoding, DataType, Field, Schema};

struct NoPred;

impl PhysicalIoExpr for NoPred {
    fn evaluate(&self, _df: &DataFrame) -> Result<Vec<bool>, CsvError> {
        Ok(Vec::new())
    }
}

struct NoAgg;

impl ScanAggregation for NoAgg {
    fn finish(&self, _df: &DataFrame) -> Result<(Field, Column), CsvError> {
        Err(CsvError::AggregationError)
    }
}

fn schema_of(fields: &[(&str, DataType)]) -> Schema {
    let mut v = Vec::new();
    for (n, d) in fields {
        v.push(Field::new((*n).to_string(), *d));
    }
    Schema::new(v)
}

fn reader(
    input: &[u8],
    schema: Schema,
    has_header: bool,
    projection: Option<Vec<usize>>,
    ignore: bool,
    n_rows: Option<usize>,
    skip_rows: usize,
    n_threads: Option<usize>,
) -> SequentialReader {
    SequentialReader::from_reader(
        input.to_vec(),
        schema,
        has_header,
        b',',
        64,
        projection,
        ignore,
        n_rows,
        skip_rows,
        CsvEncoding::Utf8,
        n_threads,
        16,
        1024,
    )
}

fn read(
    input: &[u8],
    schema: Schema,
    has_header: bool,
    projection: Option<Vec<usize>>,
    ignore: bool,
    n_rows: Option<usize>,
    skip_rows: usize,
    n_threads: Option<usize>,
) -> Result<DataFrame, CsvError> {
    let mut rd = reader(
        input, schema, has_header, projection, ignore, n_rows, skip_rows, n_threads,
    );
    rd.as_df::<NoPred, NoAgg>(None, None)
}

fn i32_col(df: &DataFrame, j: usize) -> Vec<Option<i32>> {
    match &df.cols[j] {
        Column::I32(v) => v.clone(),
        _ => panic!("expected an Int32 column"),
    }
}

fn str_col(df: &DataFrame, j: usize) -> Vec<Option<String>> {
    match &df.cols[j] {
        Column::Str(v) => v.clone(),
        _ => panic!("expected a Utf8 column"),
    }
}

#[test]
fn basic_two_rows() {
    let schema = schema_of(&[
        ("a", DataType::Int32),
        ("b", DataType::Int32),
        ("c", DataType::Int32),
    ]);
    let df = read(b"a,b,c\n1,2,3\n4,5,6\n", schema, true, None, false, None, 0, Some(1)).unwrap();
    assert_eq!(df.height(), 2);
    assert_eq!(i32_col(&df, 0), vec![Some(1), Some(4)]);
    assert_eq!(i32_col(&df, 1), vec![Some(2), Some(5)]);
    assert_eq!(i32_col(&df, 2), vec![Some(3), Some(6)]);
}

#[test]
fn bom_and_crlf_and_missing_terminator() {
    let schema = schema_of(&[("a", DataType::Int32), ("b", DataType::Utf8)]);
    let df = read(
        b"\xEF\xBB\xBFa,b\r\n1,x\r\n2,y",
        schema,
        true,
        None,
        false,
        None,
        0,
        Some(2),
    )
    .unwrap();
    assert_eq!(df.height(), 2);
    assert_eq!(i32_col(&df, 0), vec![Some(1), Some(2)]);
    assert_eq!(
        str_col(&df, 1),
        vec![Some("x".to_string()), Some("y".to_string())]
    );
}

#[test]
fn quoting_and_embedded_newline() {
    let schema = schema_of(&[("a", DataType::Utf8), ("b", DataType::Utf8)]);
    let df = read(
        b"a,b\n\"he said \"\"hi\"\"\",\"li\nne\"\n",
        schema,
        true,
        None,
        false,
        None,
        0,
        Some(1),
    )
    .unwrap();
    assert_eq!(df.height(), 1);
    assert_eq!(str_col(&df, 0), vec![Some("he said \"hi\"".to_string())]);
    assert_eq!(str_col(&df, 1), vec![Some("li\nne".to_string())]);
}

#[test]
fn projection_is_sorted() {
    let schema = schema_of(&[
        ("a", DataType::Int32),
        ("b", DataType::Int32),
        ("c", DataType::Int32),
    ]);
    let df = read(
        b"a,b,c\n1,2,3\n",
        schema,
        true,
        Some(vec![2, 0]),
        false,
        None,
        0,
        Some(1),
    )
    .unwrap();
    assert_eq!(df.width(), 2);
    assert_eq!(df.fields[0].name, "a");
    assert_eq!(df.fields[1].name, "c");
    assert_eq!(i32_col(&df, 0), vec![Some(1)]);
    assert_eq!(i32_col(&df, 1), vec![Some(3)]);
}

#[test]
fn skip_rows_and_n_rows() {
    let mut input = String::from("v\n");
    for i in 1..=100 {
        input.push_str(&format!("{}\n", i));
    }
    let schema = schema_of(&[("v", DataType::Int32)]);
    let df = read(
        input.as_bytes(),
        schema,
        true,
        None,
        false,
        Some(5),
        10,
        Some(3),
    )
    .unwrap();
    assert_eq!(df.height(), 5);
    assert_eq!(
        i32_col(&df, 0),
        vec![Some(11), Some(12), Some(13), Some(14), Some(15)]
    );
}

#[test]
fn ignore_parser_errors_yields_nulls() {
    let schema = schema_of(&[("x", DataType::Int32)]);
    let df = read(b"x\n1\nabc\n3\n", schema, true, None, true, None, 0, Some(1)).unwrap();
    assert_eq!(df.height(), 3);
    assert_eq!(i32_col(&df, 0), vec![Some(1), None, Some(3)]);
}

#[test]
fn parse_error_reports_position() {
    let schema = schema_of(&[("x", DataType::Int32), ("y", DataType::Int32)]);
    let err = read(
        b"x,y\n1,2\n3,oops\n",
        schema,
        true,
        None,
        false,
        None,
        0,
        Some(1),
    )
    .unwrap_err();
    match err {
        CsvError::ParseError { row, column, .. } => {
            assert_eq!(row, 1);
            assert_eq!(column, 1);
        }
        other => panic!("unexpected error {:?}", other),
    }
}

#[test]
fn thread_counts_agree() {
    let mut input = String::from("a,b\n");
    for i in 0..200 {
        input.push_str(&format!("{},{}\n", i, i * 7));
    }
    let schema1 = schema_of(&[("a", DataType::Int64), ("b", DataType::Int64)]);
    let schema8 = schema_of(&[("a", DataType::Int64), ("b", DataType::Int64)]);
    let df1 = read(input.as_bytes(), schema1, true, None, false, None, 0, Some(1)).unwrap();
    let df8 = read(input.as_bytes(), schema8, true, None, false, None, 0, Some(8)).unwrap();
    assert_eq!(df1.height(), df8.height());
    for j in 0..2 {
        match (&df1.cols[j], &df8.cols[j]) {
            (Column::I64(x), Column::I64(y)) => assert_eq!(x, y),
            _ => panic!("unexpected column type"),
        }
    }
}

#[test]
fn idempotent_reads() {
    let schema_a = schema_of(&[("a", DataType::UInt32), ("b", DataType::Boolean)]);
    let schema_b = schema_of(&[("a", DataType::UInt32), ("b", DataType::Boolean)]);
    let input = b"a,b\n1,true\n2,FALSE\n3,True\n";
    let d1 = read(input, schema_a, true, None, false, None, 0, Some(2)).unwrap();
    let d2 = read(input, schema_b, true, None, false, None, 0, Some(2)).unwrap();
    match (&d1.cols[1], &d2.cols[1]) {
        (Column::Bool(x), Column::Bool(y)) => {
            assert_eq!(x, y);
            assert_eq!(x, &vec![Some(true), Some(false), Some(true)]);
        }
        _ => panic!("unexpected column type"),
    }
}

#[test]
fn input_exhausted_when_skipping_too_far() {
    let schema = schema_of(&[("a", DataType::Int32)]);
    let err = read(b"a\n1\n", schema, true, None, false, None, 10, Some(1)).unwrap_err();
    assert!(matches!(err, CsvError::InputExhausted));
}

#[test]
fn schema_mismatch_on_bad_projection() {
    let schema = schema_of(&[("a", DataType::Int32)]);
    let err = read(b"a\n1\n", schema, true, Some(vec![3]), false, None, 0, Some(1)).unwrap_err();
    assert!(matches!(err, CsvError::SchemaMismatch));
}

#[test]
fn configuration_error_without_source() {
    let schema = schema_of(&[("a", DataType::Int32)]);
    let r = build_csv_reader(
        None,
        None,
        0,
        None,
        64,
        None,
        true,
        false,
        Some(schema),
        None,
        CsvEncoding::Utf8,
        Some(1),
        16,
        1024,
    );
    assert!(matches!(r.unwrap_err(), CsvError::ConfigurationError));
}

#[test]
fn build_reader_resolves_columns() {
    let schema = schema_of(&[
        ("a", DataType::Int32),
        ("b", DataType::Int32),
        ("c", DataType::Int32),
    ]);
    let mut rd = build_csv_reader(
        Some(b"a,b,c\n7,8,9\n".to_vec()),
        None,
        0,
        None,
        64,
        Some(b','),
        true,
        false,
        Some(schema),
        Some(vec!["c".to_string(), "a".to_string()]),
        CsvEncoding::Utf8,
        Some(1),
        16,
        1024,
    )
    .unwrap();
    let df = rd.as_df::<NoPred, NoAgg>(None, None).unwrap();
    assert_eq!(df.fields[0].name, "a");
    assert_eq!(df.fields[1].name, "c");
    assert_eq!(i32_col(&df, 0), vec![Some(7)]);
    assert_eq!(i32_col(&df, 1), vec![Some(9)]);
}

#[test]
fn build_reader_rejects_unknown_column() {
    let schema = schema_of(&[("a", DataType::Int32)]);
    let r = build_csv_reader(
        Some(b"a\n1\n".to_vec()),
        None,
        0,
        None,
        64,
        None,
        true,
        false,
        Some(schema),
        Some(vec!["nope".to_string()]),
        CsvEncoding::Utf8,
        Some(1),
        16,
        1024,
    );
    assert!(matches!(r.unwrap_err(), CsvError::SchemaMismatch));
}

#[test]
fn projected_schema_accessor() {
    let schema = schema_of(&[("a", DataType::Int32), ("b", DataType::Utf8)]);
    let rd = reader(b"a,b\n", schema, true, Some(vec![1]), false, None, 0, Some(1));
    let s = rd.schema();
    assert_eq!(s.len(), 1);
    assert_eq!(s.fields[0].name, "b");
    assert_eq!(s.fields[0].dtype, DataType::Utf8);
}

#[test]
fn lossy_encoding_replaces_invalid_bytes() {
    let schema = schema_of(&[("s", DataType::Utf8)]);
    let mut rd = SequentialReader::from_reader(
        b"s\na\xFFb\n".to_vec(),
        schema,
        true,
        b',',
        64,
        None,
        false,
        None,
        0,
        CsvEncoding::LossyUtf8,
        Some(1),
        16,
        1024,
    );
    let df = rd.as_df::<NoPred, NoAgg>(None, None).unwrap();
    assert_eq!(str_col(&df, 0), vec![Some("a\u{fffd}b".to_string())]);
}

#[test]
fn strict_encoding_rejects_invalid_bytes() {
    let schema = schema_of(&[("s", DataType::Utf8)]);
    let err = read(b"s\na\xFFb\n", schema, true, None, false, None, 0, Some(1)).unwrap_err();
    match err {
        CsvError::ParseError { row, column, kind } => {
            assert_eq!(row, 0);
            assert_eq!(column, 0);
            assert_eq!(kind, csv_loader::err::ParseFailKind::Encoding);
        }
        other => panic!("unexpected error {:?}", other),
    }
}

#[test]
fn host_thread_default_is_used() {
    let schema = schema_of(&[("a", DataType::Int32)]);
    let df = read(b"a\n5\n", schema, true, None, false, None, 0, None).unwrap();
    assert_eq!(i32_col(&df, 0), vec![Some(5)]);
}

#[test]
fn dates_parse_as_plain_counts() {
    let schema = schema_of(&[("d", DataType::Date32), ("t", DataType::Date64)]);
    let df = read(b"d,t\n18993,1640995200000\n", schema, true, None, false, None, 0, Some(1))
        .unwrap();
    assert_eq!(i32_col(&df, 0), vec![Some(18993)]);
    match &df.cols[1] {
        Column::I64(v) => assert_eq!(v, &vec![Some(1640995200000)]),
        _ => panic!("unexpected column type"),
    }
}

#[test]
fn short_and_long_records() {
    // a short record pads with nulls; excess fields are dropped
    let schema = schema_of(&[("a", DataType::Int32), ("b", DataType::Int32)]);
    let df = read(b"a,b\n1\n2,3,4\n", schema, true, None, false, None, 0, Some(1)).unwrap();
    assert_eq!(i32_col(&df, 0), vec![Some(1), Some(2)]);
    assert_eq!(i32_col(&df, 1), vec![None, Some(3)]);
}

#[test]
fn empty_input_gives_empty_frame() {
    let schema = schema_of(&[("a", DataType::Int32)]);
    let df = read(b"", schema, true, None, false, None, 0, Some(1)).unwrap();
    assert_eq!(df.height(), 0);
    assert_eq!(df.width(), 1);
}

#[test]
fn headerless_unterminated_input() {
    let schema = schema_of(&[("a", DataType::Int32), ("b", DataType::Int32)]);
    let df = read(b"7,8", schema, false, None, false, None, 0, Some(1)).unwrap();
    assert_eq!(df.height(), 1);
    assert_eq!(i32_col(&df, 0), vec![Some(7)]);
    assert_eq!(i32_col(&df, 1), vec![Some(8)]);
}

struct KeepEven;

impl PhysicalIoExpr for KeepEven {
    fn evaluate(&self, df: &DataFrame) -> Result<Vec<bool>, CsvError> {
        match &df.cols[0] {
            Column::I32(v) => Ok(v
                .iter()
                .map(|c| matches!(c, Some(x) if x % 2 == 0))
                .collect()),
            _ => Err(CsvError::PredicateError),
        }
    }
}

#[test]
fn predicate_filters_rows() {
    let schema = schema_of(&[("a", DataType::Int32)]);
    let mut rd = reader(
        b"a\n1\n2\n3\n4\n5\n6\n",
        schema,
        true,
        None,
        false,
        None,
        0,
        Some(2),
    );
    let pred = KeepEven;
    let df = rd.as_df::<KeepEven, NoAgg>(Some(&pred), None).unwrap();
    assert_eq!(i32_col(&df, 0), vec![Some(2), Some(4), Some(6)]);
}

struct CountRows;

impl ScanAggregation for CountRows {
    fn finish(&self, df: &DataFrame) -> Result<(Field, Column), CsvError> {
        Ok((
            Field::new("n".to_string(), DataType::Int64),
            Column::I64(vec![Some(df.height() as i64)]),
        ))
    }
}

#[test]
fn predicate_with_wrong_mask_length_is_an_error() {
    let schema = schema_of(&[("a", DataType::Int32)]);
    let mut rd = reader(b"a\n1\n2\n", schema, true, None, false, None, 0, Some(1));
    let pred = NoPred;
    let err = rd.as_df::<NoPred, NoAgg>(Some(&pred), None).unwrap_err();
    assert!(matches!(err, CsvError::PredicateError));
}

struct BadAgg;

impl ScanAggregation for BadAgg {
    fn finish(&self, _df: &DataFrame) -> Result<(Field, Column), CsvError> {
        // the declared type and the returned column disagree
        Ok((
            Field::new("n".to_string(), DataType::Int64),
            Column::Bool(vec![Some(true)]),
        ))
    }
}

#[test]
fn aggregation_type_mismatch_is_an_error() {
    let schema = schema_of(&[("a", DataType::Int32)]);
    let mut rd = reader(b"a\n1\n", schema, true, None, false, None, 0, Some(1));
    let aggs = vec![BadAgg];
    let err = rd.as_df::<NoPred, BadAgg>(None, Some(&aggs)).unwrap_err();
    assert!(matches!(err, CsvError::AggregationError));
}

#[test]
fn aggregation_replaces_frame() {
    let schema = schema_of(&[("a", DataType::Int32)]);
    let mut rd = reader(b"a\n1\n2\n3\n", schema, true, None, false, None, 0, Some(1));
    let aggs = vec![CountRows];
    let df = rd.as_df::<NoPred, CountRows>(None, Some(&aggs)).unwrap();
    assert_eq!(df.fields[0].name, "n");
    match &df.cols[0] {
        Column::I64(v) => assert_eq!(v, &vec![Some(3)]),
        _ => panic!("unexpected column type"),
    }
}
