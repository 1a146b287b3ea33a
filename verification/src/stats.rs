use vstd::prelude::*;
use crate::scan::{
    find_record_end, lemma_next_record_start, next_record_start, read_term_len,
};

verus! {

/// Cap on one sampled line length, so that squared deviations fit.
pub const LINE_CLAMP: u64 = 0xffff_ffff;

/// Cap on the number of sampled lines.
pub const SAMPLE_CLAMP: usize = 1048576;

pub open spec fn clamp_len(x: int) -> int {
    if x > LINE_CLAMP {
        LINE_CLAMP as int
    } else {
        x
    }
}

/// Lengths (terminator included, clamped) of up to `fuel` records from `i`.
pub open spec fn sample_lengths(s: Seq<u8>, i: int, fuel: nat) -> Seq<int>
    decreases fuel,
{
    if fuel == 0 || !(0 <= i < s.len()) {
        Seq::empty()
    } else {
        let nx = next_record_start(s, i);
        if i < nx <= s.len() {
            seq![clamp_len(nx - i)] + sample_lengths(s, nx, (fuel - 1) as nat)
        } else {
            Seq::empty()
        }
    }
}

pub open spec fn sum_of(ls: Seq<int>) -> int
    decreases ls.len(),
{
    if ls.len() == 0 {
        0
    } else {
        sum_of(ls.drop_last()) + ls.last()
    }
}

/// Mean line length in hundredths of a byte.
pub open spec fn mean_x100(ls: Seq<int>) -> int {
    100 * sum_of(ls) / (ls.len() as int)
}

/// Sum of squared deviations from `m`, lengths scaled by one hundred.
pub open spec fn sum_sq_dev(ls: Seq<int>, m: int) -> int
    decreases ls.len(),
{
    if ls.len() == 0 {
        0
    } else {
        sum_sq_dev(ls.drop_last(), m) + (100 * ls.last() - m) * (100 * ls.last() - m)
    }
}

/// Variance of the scaled lengths, in ten-thousandths.
pub open spec fn var_x10000(ls: Seq<int>) -> int {
    sum_sq_dev(ls, mean_x100(ls)) / (ls.len() as int)
}

proof fn lemma_sample_bounds(s: Seq<u8>, i: int, fuel: nat)
    ensures
        sample_lengths(s, i, fuel).len() <= fuel,
        forall|k: int|
            0 <= k < sample_lengths(s, i, fuel).len() ==> 1 <= #[trigger] sample_lengths(
                s,
                i,
                fuel,
            )[k] <= LINE_CLAMP,
    decreases fuel,
{
    if fuel > 0 && 0 <= i < s.len() {
        let nx = next_record_start(s, i);
        if i < nx <= s.len() {
            lemma_sample_bounds(s, nx, (fuel - 1) as nat);
        }
    }
}

proof fn lemma_sum_bounds(ls: Seq<int>, lo: int, hi: int)
    requires
        forall|k: int| 0 <= k < ls.len() ==> lo <= #[trigger] ls[k] <= hi,
        0 <= lo,
    ensures
        lo * ls.len() <= sum_of(ls) <= hi * ls.len(),
    decreases ls.len(),
{
    if ls.len() == 0 {
    } else {
        assert forall|k: int| 0 <= k < ls.drop_last().len() implies lo <= #[trigger] ls.drop_last()[k]
            <= hi by {
            assert(ls.drop_last()[k] == ls[k]);
        }
        lemma_sum_bounds(ls.drop_last(), lo, hi);
        assert(lo * ls.len() == lo * (ls.len() - 1) + lo) by (nonlinear_arith);
        assert(hi * ls.len() == hi * (ls.len() - 1) + hi) by (nonlinear_arith);
    }
}

proof fn lemma_sq_dev_bounds(ls: Seq<int>, m: int, b: int)
    requires
        forall|k: int| 0 <= k < ls.len() ==> 0 <= 100 * #[trigger] ls[k] <= b,
        0 <= m <= b,
    ensures
        0 <= sum_sq_dev(ls, m) <= b * b * ls.len(),
    decreases ls.len(),
{
    if ls.len() == 0 {
    } else {
        assert forall|k: int| 0 <= k < ls.drop_last().len() implies 0 <= 100 * #[trigger] ls.drop_last()[k]
            <= b by {
            assert(ls.drop_last()[k] == ls[k]);
        }
        lemma_sq_dev_bounds(ls.drop_last(), m, b);
        let d = 100 * ls.last() - m;
        assert(0 <= d * d <= b * b) by (nonlinear_arith)
            requires
                -b <= d <= b,
                b >= 0,
        ;
        assert(b * b * ls.len() == b * b * (ls.len() - 1) + b * b) by (nonlinear_arith);
    }
}

/// Integer square root of a value below two to the one hundred
/// twenty-eighth.
pub fn isqrt(x: u128) -> (r: u64)
    ensures
        (r as int) * (r as int) <= x < (r as int + 1) * (r as int + 1),
{
    let mut lo: u128 = 0;
    let mut hi: u128 = 0xffff_ffff_ffff_ffff;
    proof {
        assert((hi as int + 1) * (hi as int + 1) > x) by (nonlinear_arith)
            requires
                hi == 0xffff_ffff_ffff_ffffu128,
                x <= 0xffff_ffff_ffff_ffff_ffff_ffff_ffff_ffffu128,
        ;
    }
    while lo < hi
        invariant
            0 <= lo <= hi <= 0xffff_ffff_ffff_ffff,
            (lo as int) * (lo as int) <= x,
            (hi as int + 1) * (hi as int + 1) > x,
        decreases hi - lo,
    {
        let mid: u128 = lo + (hi - lo + 1) / 2;
        proof {
            assert(lo < mid <= hi);
            assert(mid * mid <= 0xffff_ffff_ffff_ffff_0000_0000_0000_0001u128) by (nonlinear_arith)
                requires
                    0 <= mid <= 0xffff_ffff_ffff_ffffu128,
            ;
        }
        if mid * mid <= x {
            lo = mid;
        } else {
            hi = mid - 1;
        }
    }
    lo as u64
}

/// Sample up to `sample_size` line lengths from `start` and return the
/// mean and standard deviation of the byte length per line, both in
/// hundredths; `None` when fewer than two lines can be sampled. The
/// standard deviation is the integer square root of the variance.
#[verifier::loop_isolation(false)]
#[verifier::rlimit(60)]
pub fn get_line_stats(bytes: &[u8], start: usize, sample_size: usize) -> (r: Option<(u64, u64)>)
    requires
        start <= bytes@.len(),
    ensures
        ({
            let fuel = if sample_size > SAMPLE_CLAMP {
                SAMPLE_CLAMP
            } else {
                sample_size
            };
            let ls = sample_lengths(bytes@, start as int, fuel as nat);
            match r {
                Some((m, sd)) => {
                    &&& ls.len() >= 2
                    &&& m == mean_x100(ls)
                    &&& (sd as int) * (sd as int) <= var_x10000(ls) < (sd as int + 1) * (sd as int
                        + 1)
                },
                None => ls.len() < 2,
            }
        }),
{
    let ghost s = bytes@;
    let fuel: usize = if sample_size > SAMPLE_CLAMP {
        SAMPLE_CLAMP
    } else {
        sample_size
    };
    let ghost ls = sample_lengths(s, start as int, fuel as nat);
    proof {
        lemma_sample_bounds(s, start as int, fuel as nat);
    }
    let mut lens: Vec<u64> = Vec::new();
    let mut cur: usize = start;
    let mut k: usize = 0;
    while k < fuel && cur < bytes.len()
        invariant
            start <= cur <= s.len(),
            k <= fuel,
            lens@.len() == k,
            sample_lengths(s, start as int, fuel as nat) == lens@.map_values(|x: u64| x as int)
                + sample_lengths(s, cur as int, (fuel - k) as nat),
            forall|i: int| 0 <= i < k ==> 1 <= #[trigger] lens@[i] <= LINE_CLAMP,
        decreases fuel - k,
    {
        let ghost prev = cur as int;
        let re = find_record_end(bytes, cur);
        let t = read_term_len(bytes, re);
        proof {
            lemma_next_record_start(s, prev);
            assert(next_record_start(s, prev) == re + t);
        }
        let rawlen: usize = re + t - cur;
        let l: u64 = if rawlen as u64 > LINE_CLAMP {
            LINE_CLAMP
        } else {
            rawlen as u64
        };
        let ghost pre = lens@;
        lens.push(l);
        proof {
            assert(l as int == clamp_len(next_record_start(s, prev) - prev));
            assert(sample_lengths(s, prev, (fuel - k) as nat) == seq![l as int]
                + sample_lengths(s, (re + t) as int, (fuel - k - 1) as nat));
            assert(lens@.map_values(|x: u64| x as int) =~= pre.map_values(|x: u64| x as int)
                + seq![l as int]);
            assert(lens@.map_values(|x: u64| x as int) + sample_lengths(
                s,
                (re + t) as int,
                (fuel - k - 1) as nat,
            ) =~= pre.map_values(|x: u64| x as int) + sample_lengths(s, prev, (fuel - k) as nat));
        }
        cur = re + t;
        k += 1;
    }
    proof {
        assert(sample_lengths(s, cur as int, (fuel - k) as nat) =~= Seq::<int>::empty());
        assert(ls =~= lens@.map_values(|x: u64| x as int));
        assert(ls.len() == lens@.len());
    }
    let n = lens.len();
    if n < 2 {
        return None;
    }
    // mean in hundredths
    let mut sum: u64 = 0;
    let mut i: usize = 0;
    while i < n
        invariant
            0 <= i <= n,
            n == lens@.len(),
            ls == lens@.map_values(|x: u64| x as int),
            forall|j: int| 0 <= j < n ==> 1 <= #[trigger] lens@[j] <= LINE_CLAMP,
            n <= SAMPLE_CLAMP,
            sum == sum_of(ls.take(i as int)),
            sum <= (LINE_CLAMP as u64) * (i as u64),
        decreases n - i,
    {
        proof {
            assert(ls.take(i + 1).drop_last() =~= ls.take(i as int));
            assert(ls.take(i + 1).last() == lens@[i as int] as int);
            assert((LINE_CLAMP as int) * (i as int) + LINE_CLAMP == (LINE_CLAMP as int) * (i + 1))
                by (nonlinear_arith);
            assert((LINE_CLAMP as int) * (i + 1) <= (LINE_CLAMP as int) * (SAMPLE_CLAMP as int))
                by (nonlinear_arith)
                requires
                    i + 1 <= SAMPLE_CLAMP as int,
            ;
        }
        sum = sum + lens[i];
        i += 1;
    }
    proof {
        assert(ls.take(n as int) =~= ls);
    }
    let mean: u64 = sum * 100 / (n as u64);
    proof {
        assert(100 * sum_of(ls) == sum * 100);
        assert(mean as int == mean_x100(ls));
        lemma_sum_bounds(ls, 1, LINE_CLAMP as int);
        assert(mean as int <= 100 * (LINE_CLAMP as int)) by (nonlinear_arith)
            requires
                sum_of(ls) <= (LINE_CLAMP as int) * (ls.len() as int),
                ls.len() >= 1,
                mean as int == 100 * sum_of(ls) / (ls.len() as int),
                sum_of(ls) >= 0,
        ;
        assert(mean as int >= 0);
    }
    // variance in ten-thousandths
    let mut ssd: u128 = 0;
    let mut i2: usize = 0;
    while i2 < n
        invariant
            0 <= i2 <= n,
            n == lens@.len(),
            ls == lens@.map_values(|x: u64| x as int),
            forall|j: int| 0 <= j < n ==> 1 <= #[trigger] lens@[j] <= LINE_CLAMP,
            n <= SAMPLE_CLAMP,
            0 <= mean as int <= 100 * (LINE_CLAMP as int),
            ssd == sum_sq_dev(ls.take(i2 as int), mean as int),
            ssd <= (100 * (LINE_CLAMP as u128)) * (100 * (LINE_CLAMP as u128)) * (i2 as u128),
        decreases n - i2,
    {
        proof {
            assert(ls.take(i2 + 1).drop_last() =~= ls.take(i2 as int));
            assert(ls.take(i2 + 1).last() == lens@[i2 as int] as int);
        }
        let li: u64 = lens[i2];
        let scaled: u64 = li * 100;
        let dev: u128 = if scaled >= mean {
            (scaled - mean) as u128
        } else {
            (mean - scaled) as u128
        };
        proof {
            let b = 100 * (LINE_CLAMP as int);
            assert((dev as int) * (dev as int) == (100 * (li as int) - mean as int) * (100 * (
            li as int) - mean as int)) by (nonlinear_arith)
                requires
                    dev as int == if 100 * (li as int) >= mean as int {
                        100 * (li as int) - mean as int
                    } else {
                        mean as int - 100 * (li as int)
                    },
            ;
            assert((dev as int) * (dev as int) <= b * b) by (nonlinear_arith)
                requires
                    0 <= dev as int <= b,
            ;
            assert(b * b * (i2 as int) + b * b == b * b * (i2 + 1)) by (nonlinear_arith);
            assert(b * b * (i2 + 1) <= b * b * (SAMPLE_CLAMP as int)) by (nonlinear_arith)
                requires
                    i2 + 1 <= SAMPLE_CLAMP as int,
            ;
        }
        ssd = ssd + dev * dev;
        i2 += 1;
    }
    proof {
        assert(ls.take(n as int) =~= ls);
    }
    let var: u128 = ssd / (n as u128);
    proof {
        assert(var as int == var_x10000(ls));
    }
    let sd: u64 = isqrt(var);
    Some((mean, sd))
}

/// Estimated total rows: the region's byte count divided by the mean
/// line length less one hundredth of its standard deviation, at least
/// one.
pub open spec fn spec_estimate_rows(nbytes: int, mean_x100v: int, std_x100v: int) -> int {
    let den = if mean_x100v - std_x100v / 100 >= 1 {
        mean_x100v - std_x100v / 100
    } else {
        1
    };
    let est = nbytes * 100 / den;
    if est >= 1 {
        est
    } else {
        1
    }
}

pub fn estimate_rows(nbytes: usize, mean: u64, std: u64) -> (r: usize)
    ensures
        r == if spec_estimate_rows(nbytes as int, mean as int, std as int) > usize::MAX {
            usize::MAX as int
        } else {
            spec_estimate_rows(nbytes as int, mean as int, std as int)
        },
{
    let den: u128 = if mean as u128 > (std / 100) as u128 {
        mean as u128 - (std / 100) as u128
    } else {
        1
    };
    let est: u128 = (nbytes as u128) * 100 / den;
    let est1: u128 = if est >= 1 {
        est
    } else {
        1
    };
    if est1 > usize::MAX as u128 {
        usize::MAX
    } else {
        est1 as usize
    }
}

} // verus!
