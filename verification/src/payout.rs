use vstd::prelude::*;

use crate::errors::Error;
use crate::shares::{bps_amount, fits_i128, trunc_div, Recipient, BPS_DENOMINATOR};

verus! {

/// A token movement out of the splitter: `amount` to account `to`.
#[derive(Copy, Clone, Debug, PartialEq, Eq, Structural)]
pub struct Transfer {
    pub to: u64,
    pub amount: i128,
}

/// Some recipient's cut of `amount` overflows `i128` before the division.
pub open spec fn payouts_overflow(rs: Seq<Recipient>, amount: i128) -> bool {
    exists|i: int| 0 <= i < rs.len() && !fits_i128(amount * #[trigger] rs[i].share_bps)
}

/// The transfers that paying `amount` out over `rs` makes, in the order of
/// `rs`: each recipient gets its share of `amount` rounded toward zero, and
/// a recipient whose cut is not positive gets no transfer.
pub open spec fn payouts(rs: Seq<Recipient>, amount: i128) -> Seq<Transfer>
    decreases rs.len(),
{
    if rs.len() == 0 {
        Seq::empty()
    } else {
        let before = payouts(rs.drop_last(), amount);
        let cut = trunc_div(amount * rs.last().share_bps, BPS_DENOMINATOR as int);
        if cut > 0 {
            before.push(Transfer { to: rs.last().address, amount: cut as i128 })
        } else {
            before
        }
    }
}

/// Pays `distributable` out over `recipients` in proportion to their shares.
/// Any dust from rounding stays behind; the first cut whose product
/// overflows makes the whole payout fail.
pub fn distribute(recipients: &Vec<Recipient>, distributable: i128) -> (r: Result<
    Vec<Transfer>,
    Error,
>)
    ensures
        payouts_overflow(recipients@, distributable) ==> r == Err::<Vec<Transfer>, Error>(
            Error::Overflow,
        ),
        !payouts_overflow(recipients@, distributable) ==> (r matches Ok(v) && v@ == payouts(
            recipients@,
            distributable,
        )),
{
    let mut out: Vec<Transfer> = Vec::new();
    let n = recipients.len();
    for i in 0..n
        invariant
            n == recipients@.len(),
            out@ == payouts(recipients@.take(i as int), distributable),
            forall|j: int|
                0 <= j < i ==> fits_i128(distributable * #[trigger] recipients@[j].share_bps),
    {
        let r = recipients[i];
        proof {
            assert(recipients@.take(i + 1).drop_last() =~= recipients@.take(i as int));
            assert(recipients@.take(i + 1).last() == r);
        }
        match bps_amount(distributable, r.share_bps) {
            Ok(amount) => {
                if amount > 0 {
                    out.push(Transfer { to: r.address, amount });
                }
            },
            Err(e) => {
                return Err(e);
            },
        }
    }
    proof {
        assert(recipients@.take(n as int) =~= recipients@);
    }
    Ok(out)
}

} // verus!
