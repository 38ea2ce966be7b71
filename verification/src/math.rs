//! Integer helpers shared by the platform's ledgers.

use vstd::prelude::*;

verus! {

/// Division that rounds toward zero, as Rust's `/` on signed integers does.
pub open spec fn div_toward_zero(n: int, d: int) -> int {
    if n >= 0 {
        n / d
    } else {
        -((-n) / d)
    }
}

/// `amount * percentage / total_percentage`, truncated toward zero, as fee
/// splits across the platform compute it.
pub fn calculate_percentage(amount: i128, percentage: u32, total_percentage: u32) -> (r: i128)
    requires
        total_percentage > 0,
        i128::MIN <= amount * (percentage as int) <= i128::MAX,
    ensures
        r == div_toward_zero(amount * (percentage as int), total_percentage as int),
{
    let numerator = amount * percentage as i128;
    numerator / total_percentage as i128
}

/// The liquidity-pool ledger living beside the oracle network; its share
/// issuance leans on the integer square root below.
pub struct AMMLiquidityPools;

impl AMMLiquidityPools {
    /// The integer square root: the largest `r` with `r * r <= n`.
    pub fn sqrt(n: u64) -> (r: u64)
        ensures
            r * r <= n < (r + 1) * (r + 1),
    {
        if n == 0 {
            return 0;
        }
        let mut lo: u64 = 1;
        let mut hi: u64 = 4294967296;
        proof {
            assert((4294967296u64 as int) * (4294967296u64 as int) > u64::MAX as int);
        }
        while hi - lo > 1
            invariant
                1 <= lo < hi <= 4294967296,
                lo * lo <= n,
                n < hi * hi,
            decreases hi - lo,
        {
            let mid = lo + (hi - lo) / 2;
            proof {
                assert(mid * mid <= 18446744065119617025) by (nonlinear_arith)
                    requires
                        mid <= 4294967295u64,
                ;
            }
            if mid * mid <= n {
                lo = mid;
            } else {
                hi = mid;
            }
        }
        lo
    }
}

} // verus!
