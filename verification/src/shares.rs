use vstd::prelude::*;

use crate::errors::Error;

verus! {

/// The basis-point denominator: a share of 10 000 is the whole amount.
pub const BPS_DENOMINATOR: u32 = 10_000;

/// A recipient, named by its account handle, and its share in basis points.
#[derive(Copy, Clone, Debug, PartialEq, Eq, Structural)]
pub struct Recipient {
    pub address: u64,
    /// Share in basis points; `BPS_DENOMINATOR` is 100%.
    pub share_bps: u32,
}

/// The sum of the shares of `rs`, as a mathematical integer.
pub open spec fn bps_total(rs: Seq<Recipient>) -> int
    decreases rs.len(),
{
    if rs.len() == 0 {
        0
    } else {
        bps_total(rs.drop_last()) + rs.last().share_bps
    }
}

/// A prefix never holds more basis points than the whole sequence.
pub proof fn lemma_bps_total_prefix(rs: Seq<Recipient>, i: int)
    requires
        0 <= i <= rs.len(),
    ensures
        0 <= bps_total(rs.take(i)) <= bps_total(rs),
    decreases rs.len(),
{
    if rs.len() > 0 {
        if i == rs.len() {
            assert(rs.take(i) =~= rs);
            lemma_bps_total_prefix(rs.drop_last(), i - 1);
            assert(rs.drop_last().take(i - 1) =~= rs.drop_last());
        } else {
            lemma_bps_total_prefix(rs.drop_last(), i);
            assert(rs.drop_last().take(i) =~= rs.take(i));
        }
    }
}

/// Each share is at most the total, and shares that are all zero total zero.
pub proof fn lemma_bps_total_elems(rs: Seq<Recipient>)
    ensures
        bps_total(rs) >= 0,
        forall|j: int| 0 <= j < rs.len() ==> #[trigger] rs[j].share_bps <= bps_total(rs),
        (forall|j: int| 0 <= j < rs.len() ==> #[trigger] rs[j].share_bps == 0) ==> bps_total(rs)
            == 0,
    decreases rs.len(),
{
    if rs.len() > 0 {
        let init = rs.drop_last();
        lemma_bps_total_elems(init);
        assert forall|j: int| 0 <= j < rs.len() implies #[trigger] rs[j].share_bps <= bps_total(rs) by {
            if j < rs.len() - 1 {
                assert(init[j] == rs[j]);
            }
        }
        if forall|j: int| 0 <= j < rs.len() ==> #[trigger] rs[j].share_bps == 0 {
            assert forall|j: int| 0 <= j < init.len() implies #[trigger] init[j].share_bps == 0 by {
                assert(init[j] == rs[j]);
            }
            assert(rs[rs.len() - 1].share_bps == 0);
        }
    }
}

/// Adds up the shares of `recipients` with checked `u32` arithmetic and
/// accepts them only when they make exactly `BPS_DENOMINATOR`.
pub fn check_shares(recipients: &Vec<Recipient>) -> (r: Result<u32, Error>)
    ensures
        bps_total(recipients@) > u32::MAX ==> r == Err::<u32, Error>(Error::Overflow),
        bps_total(recipients@) <= u32::MAX && bps_total(recipients@) != BPS_DENOMINATOR
            ==> r == Err::<u32, Error>(Error::InvalidSplit),
        bps_total(recipients@) == BPS_DENOMINATOR ==> r == Ok::<u32, Error>(BPS_DENOMINATOR),
{
    let mut bps_sum: u32 = 0;
    let n = recipients.len();
    for i in 0..n
        invariant
            n == recipients@.len(),
            bps_sum == bps_total(recipients@.take(i as int)),
    {
        proof {
            assert(recipients@.take(i + 1).drop_last() =~= recipients@.take(i as int));
        }
        match bps_sum.checked_add(recipients[i].share_bps) {
            Some(s) => {
                bps_sum = s;
            },
            None => {
                proof {
                    lemma_bps_total_prefix(recipients@, i + 1);
                }
                return Err(Error::Overflow);
            },
        }
    }
    proof {
        assert(recipients@.take(n as int) =~= recipients@);
    }
    if bps_sum != BPS_DENOMINATOR {
        return Err(Error::InvalidSplit);
    }
    Ok(bps_sum)
}


/// Rust's integer division of `a` by a positive `d`, which rounds toward zero.
pub open spec fn trunc_div(a: int, d: int) -> int {
    if a >= 0 {
        a / d
    } else {
        -((-a) / d)
    }
}

/// `x` lies in the range of `i128`.
pub open spec fn fits_i128(x: int) -> bool {
    i128::MIN <= x <= i128::MAX
}

/// `share` basis points of `amount`, rounded toward zero; `None` where the
/// product `amount * share` leaves `i128`.
pub open spec fn bps_of(amount: i128, share: u32) -> Option<int> {
    if fits_i128(amount * share) {
        Some(trunc_div(amount * share, BPS_DENOMINATOR as int))
    } else {
        None
    }
}

/// The protocol fee taken from `total`: nothing at a rate of zero, else
/// `fee_bps` basis points of it.
pub open spec fn protocol_fee(total: i128, fee_bps: u32) -> Option<int> {
    if fee_bps == 0 {
        Some(0)
    } else {
        bps_of(total, fee_bps)
    }
}

/// Rounding toward zero keeps a quotient by `BPS_DENOMINATOR` in `i128`.
pub proof fn lemma_trunc_div_fits(a: int)
    requires
        fits_i128(a),
    ensures
        fits_i128(trunc_div(a, BPS_DENOMINATOR as int)),
        a >= 0 ==> 0 <= trunc_div(a, BPS_DENOMINATOR as int) <= a,
        a < 0 ==> a <= trunc_div(a, BPS_DENOMINATOR as int) <= 0,
{
}

/// What rounding toward zero means for a quotient by `BPS_DENOMINATOR`: the
/// quotient times the denominator lies within one denominator of `a`, on the
/// side of zero.
pub proof fn lemma_trunc_div_bounds(a: int)
    ensures
        a >= 0 ==> BPS_DENOMINATOR * trunc_div(a, BPS_DENOMINATOR as int) <= a
            < BPS_DENOMINATOR * trunc_div(a, BPS_DENOMINATOR as int) + BPS_DENOMINATOR,
        a < 0 ==> BPS_DENOMINATOR * trunc_div(a, BPS_DENOMINATOR as int) - BPS_DENOMINATOR < a
            <= BPS_DENOMINATOR * trunc_div(a, BPS_DENOMINATOR as int),
{
}

/// `share` basis points of `amount`, rounded toward zero, with the product
/// checked for overflow.
pub fn bps_amount(amount: i128, share: u32) -> (r: Result<i128, Error>)
    ensures
        match bps_of(amount, share) {
            Some(v) => r == Ok::<i128, Error>(v as i128),
            None => r == Err::<i128, Error>(Error::Overflow),
        },
{
    match amount.checked_mul(share as i128) {
        Some(p) => {
            proof {
                lemma_trunc_div_fits(p as int);
            }
            Ok(p / 10_000)
        },
        None => Err(Error::Overflow),
    }
}

} // verus!
