use vstd::prelude::*;
use crate::scan::QUOTE;

verus! {

// ---------- quote unescaping ----------

/// One pass of collapsing doubled quotes within `[i, e)`.
pub open spec fn collapse_between(g: Seq<u8>, i: int, e: int) -> Seq<u8>
    decreases e - i,
{
    if i < 0 || i >= e || e > g.len() {
        Seq::empty()
    } else if i + 1 < e && g[i] == QUOTE && g[i + 1] == QUOTE {
        seq![QUOTE] + collapse_between(g, i + 2, e)
    } else {
        seq![g[i]] + collapse_between(g, i + 1, e)
    }
}

/// The bytes a raw field stands for: a field that starts with a quote is
/// stripped of its surrounding quotes and doubled quotes become one.
pub open spec fn unescape(f: Seq<u8>) -> Seq<u8> {
    if f.len() > 0 && f[0] == QUOTE {
        let e = if f.len() >= 2 && f[f.len() - 1] == QUOTE {
            f.len() - 1
        } else {
            f.len() as int
        };
        collapse_between(f, 1, e)
    } else {
        f
    }
}

/// Copy a byte slice into an owned vector.
pub fn copy_bytes(f: &[u8]) -> (out: Vec<u8>)
    ensures
        out@ == f@,
{
    let mut out: Vec<u8> = Vec::new();
    let mut i: usize = 0;
    while i < f.len()
        invariant
            0 <= i <= f@.len(),
            out@ == f@.take(i as int),
        decreases f@.len() - i,
    {
        out.push(f[i]);
        proof {
            assert(f@.take(i + 1) =~= f@.take(i as int).push(f@[i as int]));
        }
        i += 1;
    }
    proof {
        assert(f@.take(i as int) =~= f@);
    }
    out
}

/// Unescape a raw field slice.
pub fn unescape_field(f: &[u8]) -> (out: Vec<u8>)
    ensures
        out@ == unescape(f@),
{
    if f.len() == 0 || f[0] != QUOTE {
        return copy_bytes(f);
    }
    let e: usize = if f.len() >= 2 && f[f.len() - 1] == QUOTE {
        f.len() - 1
    } else {
        f.len()
    };
    let mut out: Vec<u8> = Vec::new();
    let mut i: usize = 1;
    while i < e
        invariant
            1 <= i <= e <= f@.len(),
            collapse_between(f@, 1, e as int) == out@ + collapse_between(f@, i as int, e as int),
        decreases e - i,
    {
        if i + 1 < e && f[i] == QUOTE && f[i + 1] == QUOTE {
            out.push(QUOTE);
            i += 2;
        } else {
            out.push(f[i]);
            i += 1;
        }
    }
    proof {
        assert(out@ + collapse_between(f@, i as int, e as int) =~= out@);
    }
    out
}

// ---------- integer fields ----------

pub open spec fn is_digit(b: u8) -> bool {
    48 <= b && b <= 57
}

pub open spec fn all_digits(f: Seq<u8>) -> bool {
    forall|i: int| 0 <= i < f.len() ==> is_digit(#[trigger] f[i])
}

/// Value of a digit string, most significant first.
pub open spec fn digits_val(f: Seq<u8>) -> int
    decreases f.len(),
{
    if f.len() == 0 {
        0
    } else {
        digits_val(f.drop_last()) * 10 + (f.last() - 48)
    }
}

/// An unsigned field is one or more digits; its value.
pub open spec fn parse_unsigned_spec(f: Seq<u8>) -> Option<int> {
    if f.len() > 0 && all_digits(f) {
        Some(digits_val(f))
    } else {
        None
    }
}

/// A signed field may carry one leading minus sign.
pub open spec fn parse_int_spec(f: Seq<u8>) -> Option<int> {
    if f.len() > 0 && f[0] == 45 {
        match parse_unsigned_spec(f.skip(1)) {
            Some(v) => Some(-v),
            None => None,
        }
    } else {
        parse_unsigned_spec(f)
    }
}

proof fn lemma_digits_val_nonneg(f: Seq<u8>)
    requires
        all_digits(f),
    ensures
        digits_val(f) >= 0,
    decreases f.len(),
{
    if f.len() > 0 {
        assert(all_digits(f.drop_last()));
        lemma_digits_val_nonneg(f.drop_last());
    }
}

proof fn lemma_digits_prefix_le(f: Seq<u8>, m: int)
    requires
        all_digits(f),
        0 <= m <= f.len(),
    ensures
        digits_val(f.take(m)) <= digits_val(f),
    decreases f.len() - m,
{
    if m < f.len() {
        lemma_digits_prefix_le(f, m + 1);
        assert(f.take(m + 1).drop_last() =~= f.take(m));
        assert(all_digits(f.take(m)));
        lemma_digits_val_nonneg(f.take(m));
        assert(digits_val(f.take(m + 1)) == digits_val(f.take(m)) * 10 + (f.take(m + 1).last()
            - 48));
        assert(digits_val(f.take(m)) * 10 >= digits_val(f.take(m)));
    } else {
        assert(f.take(m) =~= f);
    }
}

/// Parse the digits of `f@.skip(from)` as a value of at most `limit`.
/// `None` exactly when the bytes are not all digits, are empty, or the
/// value exceeds `limit`.
pub fn parse_digits_limited(f: &[u8], from: usize, limit: u64) -> (r: Option<u64>)
    requires
        from <= f@.len(),
    ensures
        match r {
            Some(v) => parse_unsigned_spec(f@.skip(from as int)) == Some(v as int) && v <= limit,
            None => match parse_unsigned_spec(f@.skip(from as int)) {
                Some(v) => v > limit,
                None => true,
            },
        },
{
    let ghost g = f@.skip(from as int);
    if from == f.len() {
        return None;
    }
    let mut acc: u64 = 0;
    let mut i: usize = from;
    while i < f.len()
        invariant
            from <= i <= f@.len(),
            g == f@.skip(from as int),
            from < f@.len(),
            acc <= limit,
            all_digits(g.take(i - from)),
            acc == digits_val(g.take(i - from)),
        decreases f@.len() - i,
    {
        let b = f[i];
        if !(48 <= b && b <= 57) {
            proof {
                assert(g[i - from] == b);
                assert(!all_digits(g));
            }
            return None;
        }
        let d: u64 = (b - 48) as u64;
        proof {
            assert(g.take(i - from + 1).drop_last() =~= g.take(i - from));
            assert(g.take(i - from + 1).last() == b);
        }
        if acc > limit / 10 || (acc == limit / 10 && d > limit % 10) {
            // any further digits only grow the value
            proof {
                assert(acc * 10 + d > limit) by (nonlinear_arith)
                    requires
                        acc > limit / 10 || (acc == limit / 10 && d > limit % 10),
                        acc >= 0,
                        limit >= 0,
                        d >= 0,
                ;
                if all_digits(g) {
                    assert(digits_val(g.take(i - from + 1)) == acc * 10 + d);
                    lemma_digits_prefix_le(g, i - from + 1);
                }
            }
            return None;
        }
        proof {
            assert(acc * 10 + d <= limit) by (nonlinear_arith)
                requires
                    !(acc > limit / 10 || (acc == limit / 10 && d > limit % 10)),
                    acc >= 0,
                    limit >= 0,
                    0 <= d <= 9,
            ;
        }
        acc = acc * 10 + d;
        i += 1;
    }
    proof {
        assert(g.take(i - from) =~= g);
    }
    Some(acc)
}

// ---------- cell values ----------

/// Map a decode outcome to the stored cell: an error is only kept as an
/// error by the caller; under the ignore policy it becomes a null.
pub open spec fn or_null<T>(c: Option<Option<T>>) -> Option<T> {
    match c {
        Some(v) => v,
        None => None,
    }
}

/// Decoded `i32` cell: `None` is a decode error, `Some(None)` a null.
pub open spec fn cv_i32(f: Seq<u8>) -> Option<Option<i32>> {
    if f.len() == 0 {
        Some(None)
    } else {
        match parse_int_spec(f) {
            Some(v) => if i32::MIN <= v <= i32::MAX {
                Some(Some(v as i32))
            } else {
                None
            },
            None => None,
        }
    }
}

pub open spec fn cv_i64(f: Seq<u8>) -> Option<Option<i64>> {
    if f.len() == 0 {
        Some(None)
    } else {
        match parse_int_spec(f) {
            Some(v) => if i64::MIN <= v <= i64::MAX {
                Some(Some(v as i64))
            } else {
                None
            },
            None => None,
        }
    }
}

pub open spec fn cv_u32(f: Seq<u8>) -> Option<Option<u32>> {
    if f.len() == 0 {
        Some(None)
    } else {
        match parse_unsigned_spec(f) {
            Some(v) => if v <= u32::MAX {
                Some(Some(v as u32))
            } else {
                None
            },
            None => None,
        }
    }
}

pub open spec fn cv_u64(f: Seq<u8>) -> Option<Option<u64>> {
    if f.len() == 0 {
        Some(None)
    } else {
        match parse_unsigned_spec(f) {
            Some(v) => if v <= u64::MAX {
                Some(Some(v as u64))
            } else {
                None
            },
            None => None,
        }
    }
}

/// ASCII lower-casing of one byte.
pub open spec fn lower(b: u8) -> u8 {
    if 65 <= b && b <= 90 {
        (b + 32) as u8
    } else {
        b
    }
}

pub open spec fn lower_seq(f: Seq<u8>) -> Seq<u8> {
    f.map_values(|b: u8| lower(b))
}

pub open spec fn true_bytes() -> Seq<u8> {
    seq![116u8, 114u8, 117u8, 101u8]
}

pub open spec fn false_bytes() -> Seq<u8> {
    seq![102u8, 97u8, 108u8, 115u8, 101u8]
}

/// Boolean cells accept `true` and `false` in any letter case.
pub open spec fn cv_bool(f: Seq<u8>) -> Option<Option<bool>> {
    if f.len() == 0 {
        Some(None)
    } else if lower_seq(f) == true_bytes() {
        Some(Some(true))
    } else if lower_seq(f) == false_bytes() {
        Some(Some(false))
    } else {
        None
    }
}

// ---------- string cells ----------

/// What `String::from_utf8` decodes a byte sequence to, when it is valid.
pub uninterp spec fn utf8_decode(b: Seq<u8>) -> Option<Seq<char>>;

/// What `String::from_utf8_lossy` decodes a byte sequence to.
pub uninterp spec fn utf8_lossy(b: Seq<u8>) -> Seq<char>;

/// Relies on `String::from_utf8`: decodes exactly the valid UTF-8 byte
/// sequences, as a function of the bytes alone.
#[verifier::external_body]
pub fn decode_utf8_strict(b: Vec<u8>) -> (r: Option<String>)
    ensures
        match r {
            Some(t) => utf8_decode(b@) == Some(t@),
            None => utf8_decode(b@) is None,
        },
{
    String::from_utf8(b).ok()
}

/// Relies on `String::from_utf8_lossy`: replaces invalid sequences with
/// the replacement character, as a function of the bytes alone.
#[verifier::external_body]
pub fn decode_utf8_lossy(b: &Vec<u8>) -> (r: String)
    ensures
        r@ == utf8_lossy(b@),
{
    String::from_utf8_lossy(b).into_owned()
}

/// String cells: empty is null; invalid UTF-8 is an error under strict
/// decoding and replaced under lossy decoding.
pub open spec fn cv_str(f: Seq<u8>, lossy: bool) -> Option<Option<Seq<char>>> {
    if f.len() == 0 {
        Some(None)
    } else if lossy {
        Some(Some(utf8_lossy(f)))
    } else {
        match utf8_decode(f) {
            Some(t) => Some(Some(t)),
            None => None,
        }
    }
}

// ---------- executable typed parsers ----------

pub fn parse_u64_field(f: &[u8]) -> (r: Option<u64>)
    requires
        f@.len() > 0,
    ensures
        match r {
            Some(v) => cv_u64(f@) == Some(Some(v)),
            None => cv_u64(f@) is None,
        },
{
    proof {
        assert(f@.skip(0) =~= f@);
    }
    parse_digits_limited(f, 0, u64::MAX)
}

pub fn parse_u32_field(f: &[u8]) -> (r: Option<u32>)
    requires
        f@.len() > 0,
    ensures
        match r {
            Some(v) => cv_u32(f@) == Some(Some(v)),
            None => cv_u32(f@) is None,
        },
{
    proof {
        assert(f@.skip(0) =~= f@);
    }
    match parse_digits_limited(f, 0, 0xffff_ffffu64) {
        Some(v) => Some(v as u32),
        None => None,
    }
}

pub fn parse_i64_field(f: &[u8]) -> (r: Option<i64>)
    requires
        f@.len() > 0,
    ensures
        match r {
            Some(v) => cv_i64(f@) == Some(Some(v)),
            None => cv_i64(f@) is None,
        },
{
    if f[0] == 45 {
        match parse_digits_limited(f, 1, 9_223_372_036_854_775_808u64) {
            Some(mag) => {
                proof {
                    assert(f@.skip(0) =~= f@);
                }
                if mag == 9_223_372_036_854_775_808u64 {
                    Some(i64::MIN)
                } else {
                    Some(-(mag as i64))
                }
            },
            None => None,
        }
    } else {
        proof {
            assert(f@.skip(0) =~= f@);
        }
        match parse_digits_limited(f, 0, 9_223_372_036_854_775_807u64) {
            Some(v) => Some(v as i64),
            None => None,
        }
    }
}

pub fn parse_i32_field(f: &[u8]) -> (r: Option<i32>)
    requires
        f@.len() > 0,
    ensures
        match r {
            Some(v) => cv_i32(f@) == Some(Some(v)),
            None => cv_i32(f@) is None,
        },
{
    if f[0] == 45 {
        match parse_digits_limited(f, 1, 2_147_483_648u64) {
            Some(mag) => {
                proof {
                    assert(f@.skip(0) =~= f@);
                }
                if mag == 2_147_483_648u64 {
                    Some(i32::MIN)
                } else {
                    Some(-(mag as i32))
                }
            },
            None => None,
        }
    } else {
        proof {
            assert(f@.skip(0) =~= f@);
        }
        match parse_digits_limited(f, 0, 2_147_483_647u64) {
            Some(v) => Some(v as i32),
            None => None,
        }
    }
}

pub fn parse_bool_field(f: &[u8]) -> (r: Option<bool>)
    requires
        f@.len() > 0,
    ensures
        match r {
            Some(v) => cv_bool(f@) == Some(Some(v)),
            None => cv_bool(f@) is None,
        },
{
    let ghost lo = lower_seq(f@);
    if f.len() == 4 {
        let mut ok = true;
        let t: [u8; 4] = [116, 114, 117, 101];
        let mut i: usize = 0;
        while i < 4
            invariant
                0 <= i <= 4,
                f@.len() == 4,
                t@ == true_bytes(),
                ok <==> (forall|j: int| 0 <= j < i ==> lower_seq(f@)[j] == true_bytes()[j]),
            decreases 4 - i,
        {
            let b = f[i];
            let low: u8 = if 65 <= b && b <= 90 {
                b + 32
            } else {
                b
            };
            proof {
                assert(lower_seq(f@)[i as int] == lower(f@[i as int]));
            }
            if low != t[i] {
                proof {
                    assert(lower_seq(f@)[i as int] != true_bytes()[i as int]);
                }
                ok = false;
            }
            i += 1;
        }
        if ok {
            proof {
                assert(lower_seq(f@) =~= true_bytes());
            }
            return Some(true);
        }
        proof {
            assert(lower_seq(f@) != true_bytes());
            assert(lower_seq(f@).len() != false_bytes().len());
        }
        return None;
    }
    if f.len() == 5 {
        let mut ok = true;
        let t: [u8; 5] = [102, 97, 108, 115, 101];
        let mut i: usize = 0;
        while i < 5
            invariant
                0 <= i <= 5,
                f@.len() == 5,
                t@ == false_bytes(),
                ok <==> (forall|j: int| 0 <= j < i ==> lower_seq(f@)[j] == false_bytes()[j]),
            decreases 5 - i,
        {
            let b = f[i];
            let low: u8 = if 65 <= b && b <= 90 {
                b + 32
            } else {
                b
            };
            proof {
                assert(lower_seq(f@)[i as int] == lower(f@[i as int]));
            }
            if low != t[i] {
                proof {
                    assert(lower_seq(f@)[i as int] != false_bytes()[i as int]);
                }
                ok = false;
            }
            i += 1;
        }
        if ok {
            proof {
                assert(lower_seq(f@) =~= false_bytes());
            }
            return Some(false);
        }
        proof {
            assert(lower_seq(f@) != false_bytes());
            assert(lower_seq(f@).len() != true_bytes().len());
        }
        return None;
    }
    proof {
        assert(lower_seq(f@).len() == f@.len());
        assert(lower_seq(f@) != true_bytes());
        assert(lower_seq(f@) != false_bytes());
    }
    None
}

} // verus!
