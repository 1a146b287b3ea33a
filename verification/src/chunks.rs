use vstd::prelude::*;
use crate::scan::{
    find_record_end, lemma_next_record_start, lemma_reach_extend, next_record_start, reach,
    read_term_len,
};

verus! {

/// Split `[start, end)` into at most `n` adjacent sub-regions whose
/// boundaries are record boundaries, covering the region, left to right.
/// Every thread can then parse one sub-region independently, and the
/// concatenation of their rows equals the sequential parse.
#[verifier::loop_isolation(false)]
pub fn get_file_chunks(bytes: &[u8], start: usize, end: usize, n: usize) -> (r: Vec<
    (usize, usize),
>)
    requires
        end <= bytes@.len(),
        reach(bytes@, start as int, end as int),
        n >= 1,
    ensures
        r@.len() >= 1,
        r@.len() <= n,
        r@[0].0 == start,
        r@[r@.len() - 1].1 == end,
        forall|i: int| 0 <= i < r@.len() ==> (#[trigger] r@[i]).0 <= r@[i].1 <= end,
        forall|i: int|
            0 <= i < r@.len() ==> reach(bytes@, (#[trigger] r@[i]).0 as int, r@[i].1 as int),
        forall|i: int| 0 <= i < r@.len() - 1 ==> (#[trigger] r@[i]).1 == r@[i + 1].0,
        forall|i: int| 0 <= i < r@.len() ==> reach(bytes@, (#[trigger] r@[i]).1 as int, end as int),
{
    let ghost s = bytes@;
    let step: usize = (end - start) / n;
    let mut out: Vec<(usize, usize)> = Vec::new();
    let mut b: usize = start;
    let mut c: usize = 0;
    while c + 1 < n && b < end
        invariant
            start <= b <= end,
            reach(s, b as int, end as int),
            out@.len() == c,
            c < n,
            c == 0 ==> b == start,
            c > 0 ==> out@[c - 1].1 == b && out@[0].0 == start,
            forall|i: int| 0 <= i < c ==> (#[trigger] out@[i]).0 <= out@[i].1 <= end,
            forall|i: int|
                0 <= i < c ==> reach(s, (#[trigger] out@[i]).0 as int, out@[i].1 as int),
            forall|i: int| 0 <= i < c ==> reach(s, (#[trigger] out@[i]).1 as int, end as int),
            forall|i: int| 0 <= i < c - 1 ==> (#[trigger] out@[i]).1 == out@[i + 1].0,
        decreases n - c,
    {
        let target: usize = if end - b > step {
            b + step
        } else {
            end
        };
        let mut cur: usize = b;
        while cur < target
            invariant
                b <= cur <= end,
                target <= end,
                b < end,
                reach(s, b as int, cur as int),
                reach(s, cur as int, end as int),
            decreases end - cur,
        {
            let ghost prev = cur as int;
            let re = find_record_end(bytes, cur);
            let t = read_term_len(bytes, re);
            proof {
                lemma_next_record_start(s, prev);
                assert(next_record_start(s, prev) == re + t);
                assert(next_record_start(s, prev) <= end);
                lemma_reach_extend(s, b as int, prev);
            }
            cur = re + t;
        }
        out.push((b, cur));
        b = cur;
        c += 1;
    }
    out.push((b, end));
    out
}

} // verus!
