use vstd::prelude::*;

verus! {

pub const QUOTE: u8 = 34;
pub const LF: u8 = 10;
pub const CR: u8 = 13;
pub const SPACE: u8 = 32;
pub const TAB: u8 = 9;

/// A byte that terminates a record.
pub open spec fn is_term(b: u8) -> bool {
    b == LF || b == CR
}

/// Index of the byte that terminates the record whose scan stands at `i`
/// with quote state `q`; the input's length when no terminator follows.
/// A quote toggles the state, so a doubled quote leaves it unchanged.
pub open spec fn record_end(s: Seq<u8>, i: int, q: bool) -> int
    decreases s.len() - i,
{
    if i < 0 || i >= s.len() {
        s.len() as int
    } else if q {
        record_end(s, i + 1, s[i] != QUOTE)
    } else if s[i] == QUOTE {
        record_end(s, i + 1, true)
    } else if is_term(s[i]) {
        i
    } else {
        record_end(s, i + 1, false)
    }
}

/// Width of the record terminator at `e`: two for `\r\n`, one for a lone
/// `\n` or `\r`, zero at the end of input.
pub open spec fn term_len(s: Seq<u8>, e: int) -> int {
    if 0 <= e < s.len() {
        if s[e] == CR && e + 1 < s.len() && s[e + 1] == LF {
            2
        } else {
            1
        }
    } else {
        0
    }
}

/// Start of the record after the one at `i`.
pub open spec fn next_record_start(s: Seq<u8>, i: int) -> int {
    record_end(s, i, false) + term_len(s, record_end(s, i, false))
}

pub proof fn lemma_record_end_bounds(s: Seq<u8>, i: int, q: bool)
    requires
        0 <= i <= s.len(),
    ensures
        i <= record_end(s, i, q) <= s.len(),
    decreases s.len() - i,
{
    if i < s.len() {
        if q {
            lemma_record_end_bounds(s, i + 1, s[i] != QUOTE);
        } else if s[i] == QUOTE {
            lemma_record_end_bounds(s, i + 1, true);
        } else if is_term(s[i]) {
        } else {
            lemma_record_end_bounds(s, i + 1, false);
        }
    }
}

pub proof fn lemma_next_record_start(s: Seq<u8>, i: int)
    requires
        0 <= i < s.len(),
    ensures
        i < next_record_start(s, i) <= s.len(),
        i <= record_end(s, i, false) <= s.len(),
{
    lemma_record_end_bounds(s, i, false);
}

/// `e` can be reached from `i` by whole records: every chunk boundary
/// the coordinator uses satisfies this, which is what makes chunked
/// parsing equal to the sequential parse.
pub open spec fn reach(s: Seq<u8>, i: int, e: int) -> bool
    decreases e - i,
{
    i == e || (i < e && i < next_record_start(s, i) <= e && reach(s, next_record_start(s, i), e))
}

/// Reaching `b` and stepping one record from `b` reaches the step's end.
pub proof fn lemma_reach_extend(s: Seq<u8>, a: int, b: int)
    requires
        reach(s, a, b),
        0 <= b < s.len(),
    ensures
        reach(s, a, next_record_start(s, b)),
    decreases b - a,
{
    lemma_next_record_start(s, b);
    if a == b {
        assert(reach(s, next_record_start(s, b), next_record_start(s, b)));
    } else {
        lemma_reach_extend(s, next_record_start(s, a), b);
    }
}

pub proof fn lemma_reach_bounds(s: Seq<u8>, a: int, b: int)
    requires
        reach(s, a, b),
    ensures
        a <= b,
    decreases b - a,
{
    if a != b {
        lemma_reach_bounds(s, next_record_start(s, a), b);
    }
}

/// Index of the byte that ends the field whose scan stands at `i`, within
/// a record that ends at `e`; `e` itself for the record's last field.
pub open spec fn field_end(s: Seq<u8>, i: int, e: int, d: u8, q: bool) -> int
    decreases e - i,
{
    if i < 0 || i >= e {
        e
    } else if q {
        field_end(s, i + 1, e, d, s[i] != QUOTE)
    } else if s[i] == QUOTE {
        field_end(s, i + 1, e, d, true)
    } else if s[i] == d {
        i
    } else {
        field_end(s, i + 1, e, d, false)
    }
}

pub proof fn lemma_field_end_bounds(s: Seq<u8>, i: int, e: int, d: u8, q: bool)
    requires
        0 <= i <= e,
    ensures
        i <= field_end(s, i, e, d, q) <= e,
    decreases e - i,
{
    if i < e {
        if q {
            lemma_field_end_bounds(s, i + 1, e, d, s[i] != QUOTE);
        } else if s[i] == QUOTE {
            lemma_field_end_bounds(s, i + 1, e, d, true);
        } else if s[i] == d {
        } else {
            lemma_field_end_bounds(s, i + 1, e, d, false);
        }
    }
}

/// The raw fields of the record spanning `[i, e)`, split at unquoted
/// delimiters; trailing empty fields are preserved.
pub open spec fn fields_from(s: Seq<u8>, i: int, e: int, d: u8) -> Seq<Seq<u8>>
    decreases e - i,
{
    let fe = field_end(s, i, e, d, false);
    if i <= fe < e {
        seq![s.subrange(i, fe)] + fields_from(s, fe + 1, e, d)
    } else {
        seq![s.subrange(i, e)]
    }
}

pub proof fn lemma_fields_from_len(s: Seq<u8>, i: int, e: int, d: u8)
    requires
        0 <= i <= e,
    ensures
        1 <= fields_from(s, i, e, d).len() <= e - i + 1,
    decreases e - i,
{
    lemma_field_end_bounds(s, i, e, d, false);
    let fe = field_end(s, i, e, d, false);
    if i <= fe < e {
        lemma_fields_from_len(s, fe + 1, e, d);
    }
}

/// The records from `i` to the end of input, each as its raw fields.
/// Records with no bytes at all are skipped.
pub open spec fn rows_from(s: Seq<u8>, i: int, d: u8) -> Seq<Seq<Seq<u8>>>
    decreases s.len() - i,
{
    if 0 <= i < s.len() {
        let re = record_end(s, i, false);
        let nx = next_record_start(s, i);
        if i < nx <= s.len() {
            if re == i {
                rows_from(s, nx, d)
            } else {
                seq![fields_from(s, i, re, d)] + rows_from(s, nx, d)
            }
        } else {
            Seq::empty()
        }
    } else {
        Seq::empty()
    }
}

/// A region of `n` bytes holds at most `n` records.
pub proof fn lemma_rows_len_le(s: Seq<u8>, i: int, d: u8)
    ensures
        rows_from(s, i, d).len() <= if 0 <= i <= s.len() {
            s.len() - i
        } else {
            0
        },
    decreases s.len() - i,
{
    if 0 <= i < s.len() {
        lemma_next_record_start(s, i);
        lemma_rows_len_le(s, next_record_start(s, i), d);
    }
}

/// Position of the first data record after skipping `k` records from `i`,
/// stepping over empty records; the input's length when fewer remain.
pub open spec fn after_rows(s: Seq<u8>, i: int, k: nat) -> int
    decreases k, s.len() - i,
{
    if 0 <= i < s.len() {
        let re = record_end(s, i, false);
        let nx = next_record_start(s, i);
        if i < nx <= s.len() {
            if re == i {
                after_rows(s, nx, k)
            } else if k > 0 {
                after_rows(s, nx, (k - 1) as nat)
            } else {
                i
            }
        } else {
            i
        }
    } else {
        s.len() as int
    }
}

/// Number of records between two record boundaries.
pub open spec fn recs_between(s: Seq<u8>, i: int, e: int) -> nat
    decreases s.len() - i,
{
    if 0 <= i < e && i < s.len() {
        let re = record_end(s, i, false);
        let nx = next_record_start(s, i);
        if i < nx <= s.len() {
            ((if re == i {
                0nat
            } else {
                1nat
            }) + (if nx <= e {
                recs_between(s, nx, e)
            } else {
                0nat
            })) as nat
        } else {
            0
        }
    } else {
        0
    }
}

/// Bytes consumed by a UTF-8 byte-order mark at the start of the input.
pub open spec fn bom_len(s: Seq<u8>) -> int {
    if s.len() >= 3 && s[0] == 0xef && s[1] == 0xbb && s[2] == 0xbf {
        3
    } else {
        0
    }
}

/// First index at or after `i` that is not a space or tab.
pub open spec fn ws_end(s: Seq<u8>, i: int) -> int
    decreases s.len() - i,
{
    if 0 <= i < s.len() && (s[i] == SPACE || s[i] == TAB) {
        ws_end(s, i + 1)
    } else {
        i
    }
}

/// Width of at most one line ending at `i`.
pub open spec fn line_ending_len(s: Seq<u8>, i: int) -> int {
    if 0 <= i < s.len() {
        if s[i] == CR && i + 1 < s.len() && s[i + 1] == LF {
            2
        } else if s[i] == CR || s[i] == LF {
            1
        } else {
            0
        }
    } else {
        0
    }
}

/// Where data scanning starts: after the BOM, leading whitespace, and at
/// most one leading line ending.
pub open spec fn preamble_start(s: Seq<u8>) -> int {
    let a = bom_len(s);
    let b = ws_end(s, a);
    b + line_ending_len(s, b)
}

/// If the first three bytes are `EF BB BF`, advance past them.
pub fn skip_bom(bytes: &[u8]) -> (r: usize)
    ensures
        r == bom_len(bytes@),
{
    if bytes.len() >= 3 && bytes[0] == 0xef && bytes[1] == 0xbb && bytes[2] == 0xbf {
        3
    } else {
        0
    }
}

/// Advance while bytes are space or tab.
pub fn skip_whitespace(bytes: &[u8], start: usize) -> (r: usize)
    requires
        start <= bytes@.len(),
    ensures
        r == ws_end(bytes@, start as int),
        start <= r <= bytes@.len(),
{
    let mut i: usize = start;
    while i < bytes.len() && (bytes[i] == SPACE || bytes[i] == TAB)
        invariant
            start <= i <= bytes@.len(),
            ws_end(bytes@, start as int) == ws_end(bytes@, i as int),
        decreases bytes@.len() - i,
    {
        i += 1;
    }
    proof {
        lemma_ws_end_bounds(bytes@, start as int);
    }
    i
}

proof fn lemma_ws_end_bounds(s: Seq<u8>, i: int)
    requires
        0 <= i <= s.len(),
    ensures
        i <= ws_end(s, i) <= s.len(),
    decreases s.len() - i,
{
    if i < s.len() && (s[i] == SPACE || s[i] == TAB) {
        lemma_ws_end_bounds(s, i + 1);
    }
}

/// Consume at most one `\r\n`, `\n`, or `\r`.
pub fn skip_line_ending(bytes: &[u8], start: usize) -> (r: usize)
    requires
        start <= bytes@.len(),
    ensures
        r == start + line_ending_len(bytes@, start as int),
        start <= r <= bytes@.len(),
{
    if start < bytes.len() {
        if bytes[start] == CR && start + 1 < bytes.len() && bytes[start + 1] == LF {
            start + 2
        } else if bytes[start] == CR || bytes[start] == LF {
            start + 1
        } else {
            start
        }
    } else {
        start
    }
}

/// Quote-aware scan for the end of the record starting at `start`.
pub fn find_record_end(bytes: &[u8], start: usize) -> (r: usize)
    requires
        start <= bytes@.len(),
    ensures
        r == record_end(bytes@, start as int, false),
        start <= r <= bytes@.len(),
{
    let ghost s = bytes@;
    let mut i: usize = start;
    let mut q: bool = false;
    proof {
        lemma_record_end_bounds(s, start as int, false);
    }
    while i < bytes.len() && !(!q && (bytes[i] == LF || bytes[i] == CR))
        invariant
            start <= i <= s.len(),
            record_end(s, start as int, false) == record_end(s, i as int, q),
            s == bytes@,
        decreases s.len() - i,
    {
        if q {
            q = bytes[i] != QUOTE;
        } else if bytes[i] == QUOTE {
            q = true;
        }
        i += 1;
    }
    proof {
        lemma_record_end_bounds(s, start as int, false);
    }
    i
}

/// The terminator width at `e`, as `term_len` gives it.
pub fn read_term_len(bytes: &[u8], e: usize) -> (r: usize)
    requires
        e <= bytes@.len(),
    ensures
        r == term_len(bytes@, e as int),
{
    if e < bytes.len() {
        if bytes[e] == CR && e + 1 < bytes.len() && bytes[e + 1] == LF {
            2
        } else {
            1
        }
    } else {
        0
    }
}

/// Advance at most `k` records from `start`, skipping empty records, and
/// report the records actually advanced over.
pub fn advance_records(bytes: &[u8], start: usize, k: usize) -> (r: (usize, usize))
    requires
        start <= bytes@.len(),
    ensures
        r.0 == after_rows(bytes@, start as int, k as nat),
        start <= r.0 <= bytes@.len(),
        reach(bytes@, start as int, r.0 as int),
        r.1 <= k,
        forall|d: u8| #[trigger] rows_from(bytes@, r.0 as int, d) == rows_from(
            bytes@,
            start as int,
            d,
        ).skip(r.1 as int),
        forall|d: u8| r.1 < k ==> #[trigger] rows_from(bytes@, start as int, d).len() == r.1,
        forall|d: u8| #[trigger] rows_from(bytes@, start as int, d).len() >= r.1,
{
    let ghost s = bytes@;
    let mut cur: usize = start;
    let mut done: usize = 0;
    loop
        invariant
            start <= cur <= s.len(),
            done <= k,
            s == bytes@,
            reach(s, start as int, cur as int),
            after_rows(s, start as int, k as nat) == after_rows(s, cur as int, (k - done) as nat),
            forall|d: u8| #[trigger] rows_from(s, cur as int, d) == rows_from(
                s,
                start as int,
                d,
            ).skip(done as int),
            forall|d: u8| #[trigger] rows_from(s, start as int, d).len() >= done,
        decreases s.len() - cur, k - done,
    {
        if cur >= bytes.len() {
            proof {
                assert forall|d: u8| done < k implies #[trigger] rows_from(s, start as int, d).len()
                    == done by {
                    assert(rows_from(s, cur as int, d) == rows_from(s, start as int, d).skip(
                        done as int,
                    ));
                    assert(rows_from(s, cur as int, d).len() == 0);
                }
            }
            return (cur, done);
        }
        let ghost prev = cur as int;
        let re = find_record_end(bytes, cur);
        let t = read_term_len(bytes, re);
        proof {
            lemma_next_record_start(s, prev);
            assert(next_record_start(s, prev) == re + t);
        }
        if re == cur {
            // empty record: step over it without counting
            proof {
                assert forall|d: u8| #[trigger] rows_from(s, (re + t) as int, d) == rows_from(
                    s,
                    start as int,
                    d,
                ).skip(done as int) by {
                    assert(rows_from(s, prev, d) == rows_from(s, next_record_start(s, prev), d));
                }
                assert(after_rows(s, prev, (k - done) as nat) == after_rows(
                    s,
                    next_record_start(s, prev),
                    (k - done) as nat,
                ));
            }
            cur = re + t;
        } else if done < k {
            proof {
                assert forall|d: u8| #[trigger] rows_from(s, (re + t) as int, d) == rows_from(
                    s,
                    start as int,
                    d,
                ).skip(done + 1) by {
                    assert(rows_from(s, prev, d) == seq![
                        fields_from(s, prev, record_end(s, prev, false), d),
                    ] + rows_from(s, next_record_start(s, prev), d));
                    assert(rows_from(s, prev, d).skip(1) =~= rows_from(
                        s,
                        next_record_start(s, prev),
                        d,
                    ));
                    assert(rows_from(s, start as int, d).skip(done as int).skip(1) =~= rows_from(
                        s,
                        start as int,
                        d,
                    ).skip(done + 1));
                }
            }
            proof {
                assert forall|d: u8| #[trigger] rows_from(s, start as int, d).len() >= done + 1 by {
                    assert(rows_from(s, prev, d).len() >= 1);
                    assert(rows_from(s, prev, d) == rows_from(s, start as int, d).skip(done as int));
                }
            }
            cur = re + t;
            done += 1;
        } else {
            return (cur, done);
        }
        proof {
            lemma_reach_extend(s, start as int, prev);
        }
    }
}

} // verus!
