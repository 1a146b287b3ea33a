use csv_loader::cell::{
    copy_bytes, decode_utf8_lossy, decode_utf8_strict, parse_bool_field, parse_i32_field,
    parse_i64_field, parse_u32_field, parse_u64_field, unescape_field,
};
use csv_loader::chunks::get_file_chunks;
use csv_loader::parser::{count_record_fields, next_line_position};
use csv_loader::scan::{
    advance_records, find_record_end, skip_bom, skip_line_ending, skip_whitespace,
};
use csv_loader::stats::{estimate_rows, get_line_stats, isqrt};

#[test]
fn bom_is_skipped() {
    assert_eq!(skip_bom(b"\xEF\xBB\xBFhi"), 3);
    assert_eq!(skip_bom(b"hi"), 0);
    assert_eq!(skip_bom(b"\xEF\xBB"), 0);
}

#[test]
fn whitespace_and_line_endings() {
    assert_eq!(skip_whitespace(b"  \tx", 0), 3);
    assert_eq!(skip_whitespace(b"x", 0), 0);
    assert_eq!(skip_line_ending(b"\r\nx", 0), 2);
    assert_eq!(skip_line_ending(b"\nx", 0), 1);
    assert_eq!(skip_line_ending(b"x", 0), 0);
}

#[test]
fn record_end_is_quote_aware() {
    assert_eq!(find_record_end(b"a,b\nc", 0), 3);
    assert_eq!(find_record_end(b"\"a\nb\",c\nd", 0), 7);
    assert_eq!(find_record_end(b"no newline", 0), 10);
}

#[test]
fn advancing_skips_records() {
    let (pos, n) = advance_records(b"a\nb\nc\n", 0, 2);
    assert_eq!(n, 2);
    assert_eq!(pos, 4);
    let (pos2, n2) = advance_records(b"a\nb\n", 0, 5);
    assert_eq!(n2, 2);
    assert_eq!(pos2, 4);
}

#[test]
fn unescaping_collapses_quotes() {
    assert_eq!(unescape_field(b"plain"), b"plain".to_vec());
    assert_eq!(unescape_field(b"\"he said \"\"hi\"\"\""), b"he said \"hi\"".to_vec());
    assert_eq!(unescape_field(b"\"a,b\""), b"a,b".to_vec());
    assert_eq!(copy_bytes(b"xyz"), b"xyz".to_vec());
}

#[test]
fn integer_fields_parse_exactly() {
    assert_eq!(parse_i32_field(b"123"), Some(123));
    assert_eq!(parse_i32_field(b"-123"), Some(-123));
    assert_eq!(parse_i32_field(b"2147483647"), Some(i32::MAX));
    assert_eq!(parse_i32_field(b"-2147483648"), Some(i32::MIN));
    assert_eq!(parse_i32_field(b"2147483648"), None);
    assert_eq!(parse_i32_field(b" 1"), None);
    assert_eq!(parse_i32_field(b"1.5"), None);
    assert_eq!(parse_i64_field(b"-9223372036854775808"), Some(i64::MIN));
    assert_eq!(parse_i64_field(b"9223372036854775807"), Some(i64::MAX));
    assert_eq!(parse_i64_field(b"9223372036854775808"), None);
    assert_eq!(parse_u32_field(b"4294967295"), Some(u32::MAX));
    assert_eq!(parse_u32_field(b"4294967296"), None);
    assert_eq!(parse_u32_field(b"-1"), None);
    assert_eq!(parse_u64_field(b"18446744073709551615"), Some(u64::MAX));
    assert_eq!(parse_u64_field(b"18446744073709551616"), None);
}

#[test]
fn booleans_are_case_insensitive() {
    assert_eq!(parse_bool_field(b"true"), Some(true));
    assert_eq!(parse_bool_field(b"TRUE"), Some(true));
    assert_eq!(parse_bool_field(b"False"), Some(false));
    assert_eq!(parse_bool_field(b"yes"), None);
    assert_eq!(parse_bool_field(b"truex"), None);
}

#[test]
fn utf8_decoding() {
    assert_eq!(
        decode_utf8_strict(b"caf\xC3\xA9".to_vec()),
        Some("caf\u{e9}".to_string())
    );
    assert_eq!(decode_utf8_strict(b"\xFF".to_vec()), None);
    assert_eq!(decode_utf8_lossy(&b"a\xFFb".to_vec()), "a\u{fffd}b");
}

#[test]
fn chunks_cover_the_region() {
    let data = b"1,a\n2,b\n3,c\n4,d\n5,e\n6,f\n";
    let chunks = get_file_chunks(data, 0, data.len(), 3);
    assert!(chunks.len() >= 1 && chunks.len() <= 3);
    assert_eq!(chunks[0].0, 0);
    assert_eq!(chunks[chunks.len() - 1].1, data.len());
    for w in chunks.windows(2) {
        assert_eq!(w[0].1, w[1].0);
        // every boundary begins a record
        assert!(w[1].0 == data.len() || data[w[1].0 - 1] == b'\n');
    }
}

#[test]
fn resynchronization_uses_field_counts() {
    // the first line break inside quotes is rejected by the field count
    let data = b"x,\"a\nb\",y\n1,2,3\n";
    assert_eq!(count_record_fields(data, 0, b','), 3);
    assert_eq!(next_line_position(data, 3, b','), Some(10));
    // a break whose next line has too few fields is passed over
    assert_eq!(next_line_position(b"a,b\nc\nd,e\n", 2, b','), Some(6));
    assert_eq!(next_line_position(b"a,b,c", 2, b','), None);
}

#[test]
fn line_stats_mean_and_deviation() {
    // four lines of 4 bytes each, terminators included
    let r = get_line_stats(b"aaa\nbbb\nccc\nddd\n", 0, 16);
    let (m, sd) = r.unwrap();
    assert_eq!(m, 400);
    assert_eq!(sd, 0);
    assert_eq!(get_line_stats(b"one\n", 0, 16), None);
}

#[test]
fn square_roots_and_row_estimates() {
    assert_eq!(isqrt(0), 0);
    assert_eq!(isqrt(15), 3);
    assert_eq!(isqrt(16), 4);
    assert_eq!(isqrt(u64::MAX as u128 * u64::MAX as u128), u64::MAX);
    // one hundred bytes of four-byte lines: about twenty-five rows
    assert_eq!(estimate_rows(100, 400, 0), 25);
}
