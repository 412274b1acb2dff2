use vstd::prelude::*;

use crate::payout::{payouts, Transfer};
use crate::payout::payouts_overflow;
use crate::shares::{
    bps_total, fits_i128, lemma_bps_total_elems, lemma_trunc_div_bounds, lemma_trunc_div_fits, protocol_fee, trunc_div, Recipient,
    BPS_DENOMINATOR,
};
use crate::splitter::{all_verified, rescaled, verified_in, verified_only, SplitterV3};

verus! {

/// The sum of the amounts of `ts`.
pub open spec fn transfer_total(ts: Seq<Transfer>) -> int
    decreases ts.len(),
{
    if ts.len() == 0 {
        0
    } else {
        transfer_total(ts.drop_last()) + ts.last().amount
    }
}

/// Everything that a planned split sends out: the fee, where there is one,
/// and the payouts.
pub open spec fn outflow(fee: Option<Transfer>, ts: Seq<Transfer>) -> int {
    match fee {
        Some(f) => f.amount + transfer_total(ts),
        None => transfer_total(ts),
    }
}

/// Payouts go to recipients of `rs` only, and each moves a positive amount.
proof fn lemma_payouts_to(rs: Seq<Recipient>, d: i128, m: Map<u64, bool>)
    requires
        forall|i: int| 0 <= i < rs.len() ==> verified_in(m, #[trigger] rs[i].address),
        !payouts_overflow(rs, d),
    ensures
        forall|k: int|
            0 <= k < payouts(rs, d).len() ==> verified_in(m, #[trigger] payouts(rs, d)[k].to)
                && payouts(rs, d)[k].amount > 0,
    decreases rs.len(),
{
    if rs.len() > 0 {
        let init = rs.drop_last();
        assert forall|i: int| 0 <= i < init.len() implies verified_in(m, #[trigger] init[i].address) by {
            assert(init[i] == rs[i]);
        }
        assert(!payouts_overflow(init, d)) by {
            assert forall|i: int| 0 <= i < init.len() implies fits_i128(d * #[trigger] init[i].share_bps) by {
                assert(init[i] == rs[i]);
            }
        }
        lemma_payouts_to(init, d, m);
        assert(rs[rs.len() - 1] == rs.last());
        let before = payouts(init, d);
        let cut = trunc_div(d * rs.last().share_bps, BPS_DENOMINATOR as int);
        lemma_trunc_div_fits(d * rs.last().share_bps);
        if cut > 0 {
            let t = Transfer { to: rs.last().address, amount: cut as i128 };
            assert(payouts(rs, d) == before.push(t));
            assert forall|k: int| 0 <= k < payouts(rs, d).len() implies verified_in(m, #[trigger] payouts(rs, d)[k].to)
                && payouts(rs, d)[k].amount > 0 by {
                if k < before.len() {
                    assert(payouts(rs, d)[k] == before[k]);
                }
            }
        } else {
            assert(payouts(rs, d) == before);
        }
    }
}

/// With a non-negative amount, the payouts add up to at most the amount's
/// share `bps_total(rs)`: `BPS_DENOMINATOR * total <= d * bps_total(rs)`.
proof fn lemma_payouts_bounded(rs: Seq<Recipient>, d: i128)
    requires
        d >= 0,
        !payouts_overflow(rs, d),
    ensures
        0 <= transfer_total(payouts(rs, d)),
        BPS_DENOMINATOR * transfer_total(payouts(rs, d)) <= d * bps_total(rs),
    decreases rs.len(),
{
    if rs.len() > 0 {
        let init = rs.drop_last();
        let s = rs.last().share_bps;
        assert(!payouts_overflow(init, d)) by {
            assert forall|i: int| 0 <= i < init.len() implies fits_i128(d * #[trigger] init[i].share_bps) by {
                assert(init[i] == rs[i]);
            }
        }
        assert(rs[rs.len() - 1] == rs.last());
        lemma_trunc_div_fits(d * s);
        lemma_payouts_bounded(init, d);
        let before = payouts(init, d);
        let cut = trunc_div(d * s, BPS_DENOMINATOR as int);
        assert(d * s >= 0) by (nonlinear_arith)
            requires
                d >= 0,
                s >= 0,
        ;
        assert(BPS_DENOMINATOR * cut <= d * s);
        assert(d * bps_total(rs) == d * bps_total(init) + d * s) by (nonlinear_arith)
            requires
                bps_total(rs) == bps_total(init) + s,
        ;
        if cut > 0 {
            let t = Transfer { to: rs.last().address, amount: cut as i128 };
            assert(before.push(t).drop_last() =~= before);
            assert(payouts(rs, d) == before.push(t));
        } else {
            assert(payouts(rs, d) == before);
        }
    }
}

/// Scaling the shares of `rs`, which add up to `t`, never adds up to more
/// than the whole: `t * bps_total(rescaled(rs, t)) <= BPS_DENOMINATOR * bps_total(rs)`.
proof fn lemma_rescaled_bounded(rs: Seq<Recipient>, t: int)
    requires
        t > 0,
        forall|i: int| 0 <= i < rs.len() ==> #[trigger] rs[i].share_bps <= t,
    ensures
        t * bps_total(rescaled(rs, t)) <= BPS_DENOMINATOR * bps_total(rs),
    decreases rs.len(),
{
    if rs.len() > 0 {
        let init = rs.drop_last();
        assert forall|i: int| 0 <= i < init.len() implies #[trigger] init[i].share_bps <= t by {
            assert(init[i] == rs[i]);
        }
        lemma_rescaled_bounded(init, t);
        let s = rs.last().share_bps;
        assert(rs[rs.len() - 1] == rs.last());
        assert(rescaled(rs, t).drop_last() =~= rescaled(init, t));
        let q = s * BPS_DENOMINATOR / t;
        assert(0 <= q <= BPS_DENOMINATOR && t * q <= s * BPS_DENOMINATOR) by (nonlinear_arith)
            requires
                q == s * BPS_DENOMINATOR / t,
                0 <= s <= t,
                t > 0,
        ;
        assert(rescaled(rs, t).last().share_bps == q);
        assert(t * bps_total(rescaled(rs, t)) == t * bps_total(rescaled(init, t)) + t * q)
            by (nonlinear_arith)
            requires
                bps_total(rescaled(rs, t)) == bps_total(rescaled(init, t)) + q,
        ;
    }
}

/// A split never pays an unverified account: every payout of a successful
/// split goes to a verified account, and moves a positive amount.
pub proof fn law_split_pays_only_verified(s: SplitterV3, rs: Seq<Recipient>, total: i128)
    ensures
        s.split_outcome(rs, total) matches Ok(p) ==> forall|k: int|
            0 <= k < p.payouts.len() ==> s.has_verified(#[trigger] p.payouts[k].to)
                && p.payouts[k].amount > 0,
{
    if let Ok(p) = s.split_outcome(rs, total) {
        let d = p.distributable;
        let m = s.verified@;
        match s.payees(rs) {
            Ok(q) => {
                if s.strict {
                    lemma_payouts_to(q, d, m);
                } else {
                    let v = verified_only(rs, m);
                    crate::splitter::lemma_verified_only_total(rs, m);
                    assert forall|i: int| 0 <= i < q.len() implies verified_in(m, #[trigger] q[i].address) by {
                        assert(q[i].address == v[i].address);
                    }
                    lemma_payouts_to(q, d, m);
                }
            },
            Err(_) => {},
        }
    }
}

/// In strict mode a split succeeds only when every recipient is verified.
pub proof fn law_strict_split_needs_all_verified(s: SplitterV3, rs: Seq<Recipient>, total: i128)
    requires
        s.strict,
    ensures
        s.split_outcome(rs, total) is Ok ==> all_verified(rs, s.verified@),
{
}

/// A split succeeds only on shares that add up to exactly `BPS_DENOMINATOR`.
pub proof fn law_split_needs_whole_shares(s: SplitterV3, rs: Seq<Recipient>, total: i128)
    ensures
        s.split_outcome(rs, total) is Ok ==> bps_total(rs) == BPS_DENOMINATOR,
{
}

/// Out of strict mode, when every recipient is verified the split is the
/// one at the shares as given: scaling by their total changes nothing.
pub proof fn law_relaxed_split_of_verified_keeps_shares(rs: Seq<Recipient>, m: Map<u64, bool>)
    requires
        bps_total(rs) == BPS_DENOMINATOR,
        all_verified(rs, m),
    ensures
        verified_only(rs, m) == rs,
        rescaled(verified_only(rs, m), bps_total(verified_only(rs, m))) == rs,
{
    lemma_verified_only_all(rs, m);
    assert forall|i: int| 0 <= i < rs.len() implies #[trigger] rescaled(rs, BPS_DENOMINATOR as int)[i] == rs[i] by {
        let sh = rs[i].share_bps;
        assert(sh * BPS_DENOMINATOR / (BPS_DENOMINATOR as int) == sh) by (nonlinear_arith)
            requires
                sh >= 0,
        ;
    }
    assert(rescaled(rs, BPS_DENOMINATOR as int) =~= rs);
}

/// When every recipient is verified, strict mode makes no difference: two
/// splitters that differ only in the strict flag split alike.
pub proof fn law_strictness_moot_when_all_verified(
    s: SplitterV3,
    t: SplitterV3,
    rs: Seq<Recipient>,
    total: i128,
)
    requires
        s.config == t.config,
        s.verified@ == t.verified@,
        all_verified(rs, s.verified@),
    ensures
        s.split_outcome(rs, total) == t.split_outcome(rs, total),
{
    if bps_total(rs) == BPS_DENOMINATOR {
        law_relaxed_split_of_verified_keeps_shares(rs, s.verified@);
        assert(s.payees(rs) == t.payees(rs));
    }
}

proof fn lemma_verified_only_all(rs: Seq<Recipient>, m: Map<u64, bool>)
    requires
        all_verified(rs, m),
    ensures
        verified_only(rs, m) == rs,
    decreases rs.len(),
{
    if rs.len() > 0 {
        let init = rs.drop_last();
        assert forall|i: int| 0 <= i < init.len() implies verified_in(m, #[trigger] init[i].address) by {
            assert(init[i] == rs[i]);
        }
        lemma_verified_only_all(init, m);
        assert(rs[rs.len() - 1] == rs.last());
        assert(init.push(rs.last()) =~= rs);
    }
}

/// A split hands out no more than it took in: with a non-negative amount
/// and a fee rate of at most 100%, the fee and the payouts together come to
/// at most `total`, and the payouts to at most what remained after the fee;
/// the rest is rounding dust that stays in the splitter.
pub proof fn law_split_conserves_funds(s: SplitterV3, rs: Seq<Recipient>, total: i128)
    requires
        total >= 0,
        s.fee_rate() <= BPS_DENOMINATOR,
        !s.split_panics(rs, total),
    ensures
        s.split_outcome(rs, total) matches Ok(p) ==> {
            &&& 0 <= p.distributable <= total
            &&& 0 <= transfer_total(p.payouts) <= p.distributable
            &&& outflow(p.fee, p.payouts) <= total
        },
{
    if let Ok(p) = s.split_outcome(rs, total) {
        let fee_bps = s.fee_rate();
        let fee = protocol_fee(total, fee_bps).unwrap();
        assert(0 <= fee <= total) by {
            if fee_bps > 0 {
                let prod = total * fee_bps;
                assert(0 <= prod <= total * BPS_DENOMINATOR) by (nonlinear_arith)
                    requires
                        total >= 0,
                        0 <= fee_bps <= BPS_DENOMINATOR,
                        prod == total * fee_bps,
                ;
                assert(prod / (BPS_DENOMINATOR as int) <= total) by (nonlinear_arith)
                    requires
                        0 <= prod <= total * BPS_DENOMINATOR,
                ;
            }
        }
        let d = p.distributable;
        let q = s.payees(rs).unwrap();
        lemma_payouts_bounded(q, d);
        assert(bps_total(q) <= BPS_DENOMINATOR) by {
            if !s.strict {
                let v = verified_only(rs, s.verified@);
                lemma_bps_total_elems(v);
                assert(bps_total(v) > 0);
                lemma_rescaled_bounded(v, bps_total(v));
                let t = bps_total(v);
                let b = bps_total(q);
                assert(b <= BPS_DENOMINATOR) by (nonlinear_arith)
                    requires
                        t > 0,
                        t * b <= BPS_DENOMINATOR * t,
                ;
            }
        }
        let tt = transfer_total(p.payouts);
        assert(tt <= d) by (nonlinear_arith)
            requires
                d >= 0,
                BPS_DENOMINATOR * tt <= d * bps_total(q),
                bps_total(q) <= BPS_DENOMINATOR,
        ;
    }
}

/// `q` is `x` divided by a positive `unit`, rounded down:
/// `unit * q <= x < unit * q + unit`.
pub open spec fn floor_quotient(x: int, unit: int, q: int) -> bool {
    unit * q <= x && x < unit * q + unit
}

/// Paying `d` out over `rs` gives each recipient exactly its cut: every
/// recipient whose cut (`d * share` basis points, rounded toward zero) is
/// positive, that is whose `d * share` reaches `BPS_DENOMINATOR`, receives a
/// transfer of that cut; and every transfer is such a cut, positive, to a
/// recipient of `rs`; there are at most as many transfers as recipients.
#[verifier::spinoff_prover]
pub proof fn law_distribute_pays_each_cut(rs: Seq<Recipient>, d: i128)
    requires
        !payouts_overflow(rs, d),
    ensures
        payouts(rs, d).len() <= rs.len(),
        forall|i: int|
            #![trigger rs[i]]
            0 <= i < rs.len() && d * rs[i].share_bps >= BPS_DENOMINATOR ==> exists|k: int|
                #![trigger payouts(rs, d)[k]]
                0 <= k < payouts(rs, d).len() && payouts(rs, d)[k].to == rs[i].address
                    && floor_quotient(
                    d * rs[i].share_bps,
                    BPS_DENOMINATOR as int,
                    payouts(rs, d)[k].amount as int,
                ),
        forall|k: int|
            #![trigger payouts(rs, d)[k]]
            0 <= k < payouts(rs, d).len() ==> payouts(rs, d)[k].amount > 0 && exists|i: int|
                #![trigger rs[i]]
                0 <= i < rs.len() && payouts(rs, d)[k].to == rs[i].address && floor_quotient(
                    d * rs[i].share_bps,
                    BPS_DENOMINATOR as int,
                    payouts(rs, d)[k].amount as int,
                ),
    decreases rs.len(),
{
    if rs.len() > 0 {
        let init = rs.drop_last();
        let n = rs.len() - 1;
        let last = rs.last();
        assert(rs[n] == last);
        assert(!payouts_overflow(init, d)) by {
            assert forall|i: int| 0 <= i < init.len() implies fits_i128(d * #[trigger] init[i].share_bps) by {
                assert(init[i] == rs[i]);
            }
        }
        law_distribute_pays_each_cut(init, d);
        let before = payouts(init, d);
        let prod = d * last.share_bps;
        let cut = trunc_div(prod, BPS_DENOMINATOR as int);
        lemma_trunc_div_fits(prod);
        lemma_trunc_div_bounds(prod);
        let t = Transfer { to: last.address, amount: cut as i128 };
        let p = payouts(rs, d);
        if cut > 0 {
            assert(p == before.push(t));
        } else {
            assert(p == before);
        }
        assert forall|i: int|
            #![trigger rs[i]]
            0 <= i < rs.len() && d * rs[i].share_bps >= BPS_DENOMINATOR implies exists|k: int|
                #![trigger p[k]]
                0 <= k < p.len() && p[k].to == rs[i].address && floor_quotient(
                    d * rs[i].share_bps,
                    BPS_DENOMINATOR as int,
                    p[k].amount as int,
                ) by {
            if i < n {
                assert(init[i] == rs[i]);
                let k = choose|k: int|
                    #![trigger before[k]]
                    0 <= k < before.len() && before[k].to == init[i].address && floor_quotient(
                        d * init[i].share_bps,
                        BPS_DENOMINATOR as int,
                        before[k].amount as int,
                    );
                assert(p[k] == before[k]);
            } else {
                assert(cut > 0);
                assert(p[before.len() as int] == t);
            }
        }
        assert forall|k: int|
            #![trigger p[k]]
            0 <= k < p.len() implies p[k].amount > 0 && exists|i: int|
                #![trigger rs[i]]
                0 <= i < rs.len() && p[k].to == rs[i].address && floor_quotient(
                    d * rs[i].share_bps,
                    BPS_DENOMINATOR as int,
                    p[k].amount as int,
                ) by {
            if k < before.len() {
                assert(p[k] == before[k]);
                let i = choose|i: int|
                    #![trigger init[i]]
                    0 <= i < init.len() && before[k].to == init[i].address && floor_quotient(
                        d * init[i].share_bps,
                        BPS_DENOMINATOR as int,
                        before[k].amount as int,
                    );
                assert(init[i] == rs[i]);
            } else {
                assert(p[k] == t);
                assert(rs[n] == last);
            }
        }
    }
}

/// Paying out over recipients one after another is paying out over all of
/// them: the transfers for `a + b` are those for `a`, then those for `b`.
pub proof fn law_distribute_concat(a: Seq<Recipient>, b: Seq<Recipient>, d: i128)
    ensures
        payouts(a + b, d) == payouts(a, d) + payouts(b, d),
    decreases b.len(),
{
    if b.len() == 0 {
        assert(a + b =~= a);
        assert(payouts(b, d) =~= Seq::<Transfer>::empty());
        assert(payouts(a, d) + payouts(b, d) =~= payouts(a, d));
    } else {
        let bi = b.drop_last();
        law_distribute_concat(a, bi, d);
        assert((a + b).drop_last() =~= a + bi);
        assert((a + b).last() == b.last());
        let cut = trunc_div(d * b.last().share_bps, BPS_DENOMINATOR as int);
        if cut > 0 {
            let t = Transfer { to: b.last().address, amount: cut as i128 };
            assert(payouts(a, d) + payouts(bi, d).push(t) =~= (payouts(a, d) + payouts(bi, d)).push(t));
        }
    }
}

/// A single recipient gets one transfer, of its cut rounded down, exactly
/// when `d * share` reaches `BPS_DENOMINATOR`, and none otherwise.
pub proof fn law_distribute_single(r: Recipient, d: i128)
    requires
        fits_i128(d * r.share_bps),
    ensures
        d * r.share_bps >= BPS_DENOMINATOR ==> payouts(seq![r], d).len() == 1 && payouts(
            seq![r],
            d,
        )[0].to == r.address && floor_quotient(
            d * r.share_bps,
            BPS_DENOMINATOR as int,
            payouts(seq![r], d)[0].amount as int,
        ),
        d * r.share_bps < BPS_DENOMINATOR ==> payouts(seq![r], d).len() == 0,
{
    let rs = seq![r];
    assert(rs.drop_last() =~= Seq::<Recipient>::empty());
    assert(rs.last() == r);
    let prod = d * r.share_bps;
    lemma_trunc_div_fits(prod);
    lemma_trunc_div_bounds(prod);
    let cut = trunc_div(prod, BPS_DENOMINATOR as int);
    assert(payouts(rs.drop_last(), d) =~= Seq::<Transfer>::empty());
    if cut > 0 {
        let t = Transfer { to: r.address, amount: cut as i128 };
        assert(payouts(rs, d) == Seq::<Transfer>::empty().push(t));
        assert(payouts(rs, d)[0] == t);
    } else {
        assert(payouts(rs, d) == Seq::<Transfer>::empty());
    }
}

/// Paying a non-negative `d` out over `rs` loses less than one token per
/// recipient to rounding, and never pays more than the shares' part of `d`:
/// `d * bps_total(rs) + n <= BPS_DENOMINATOR * (total + n)` and
/// `BPS_DENOMINATOR * total <= d * bps_total(rs)`, for `n` recipients. With
/// shares that make the whole, the payouts come to more than `d - n` and
/// at most `d`.
pub proof fn law_distribute_rounding(rs: Seq<Recipient>, d: i128)
    requires
        d >= 0,
        !payouts_overflow(rs, d),
    ensures
        BPS_DENOMINATOR * transfer_total(payouts(rs, d)) <= d * bps_total(rs),
        d * bps_total(rs) + rs.len() <= BPS_DENOMINATOR * (transfer_total(payouts(rs, d))
            + rs.len()),
        bps_total(rs) == BPS_DENOMINATOR ==> d - rs.len() < transfer_total(payouts(rs, d)) <= d,
    decreases rs.len(),
{
    lemma_payouts_bounded(rs, d);
    if rs.len() > 0 {
        let init = rs.drop_last();
        let last = rs.last();
        assert(rs[rs.len() - 1] == last);
        assert(!payouts_overflow(init, d)) by {
            assert forall|i: int| 0 <= i < init.len() implies fits_i128(d * #[trigger] init[i].share_bps) by {
                assert(init[i] == rs[i]);
            }
        }
        law_distribute_rounding(init, d);
        let before = payouts(init, d);
        let s = last.share_bps;
        let prod = d * s;
        assert(prod >= 0) by (nonlinear_arith)
            requires
                d >= 0,
                s >= 0,
                prod == d * s,
        ;
        let cut = trunc_div(prod, BPS_DENOMINATOR as int);
        lemma_trunc_div_fits(prod);
        lemma_trunc_div_bounds(prod);
        let t = Transfer { to: last.address, amount: cut as i128 };
        let c = if cut > 0 { cut } else { 0 };
        if cut > 0 {
            assert(payouts(rs, d) == before.push(t));
            assert(before.push(t).drop_last() =~= before);
        } else {
            assert(payouts(rs, d) == before);
        }
        assert(transfer_total(payouts(rs, d)) == transfer_total(before) + c);
        assert(d * bps_total(rs) == d * bps_total(init) + prod) by (nonlinear_arith)
            requires
                bps_total(rs) == bps_total(init) + s,
                prod == d * s,
        ;
        assert(prod + 1 <= BPS_DENOMINATOR * (c + 1));
    }
    if bps_total(rs) == BPS_DENOMINATOR {
        assert(rs.len() > 0);
        let tt = transfer_total(payouts(rs, d));
        let n = rs.len() as int;
        assert(d - n < tt <= d) by (nonlinear_arith)
            requires
                BPS_DENOMINATOR * tt <= d * BPS_DENOMINATOR,
                d * BPS_DENOMINATOR + n <= BPS_DENOMINATOR * (tt + n),
                n > 0,
        ;
    }
}

/// Each verified recipient comes from `rs` and is verified there.
#[verifier::spinoff_prover]
proof fn lemma_verified_only_sound(rs: Seq<Recipient>, m: Map<u64, bool>)
    ensures
        forall|j: int|
            #![trigger verified_only(rs, m)[j]]
            0 <= j < verified_only(rs, m).len() ==> exists|i: int|
                #![trigger rs[i]]
                0 <= i < rs.len() && verified_only(rs, m)[j] == rs[i] && verified_in(
                    m,
                    rs[i].address,
                ),
    decreases rs.len(),
{
    if rs.len() > 0 {
        let init = rs.drop_last();
        let n = rs.len() - 1;
        assert(rs[n] == rs.last());
        lemma_verified_only_sound(init, m);
        let before = verified_only(init, m);
        let v = verified_only(rs, m);
        if verified_in(m, rs.last().address) {
            assert(v == before.push(rs.last()));
        } else {
            assert(v == before);
        }
        assert forall|j: int|
            #![trigger v[j]]
            0 <= j < v.len() implies exists|i: int|
                #![trigger rs[i]]
                0 <= i < rs.len() && v[j] == rs[i] && verified_in(m, rs[i].address) by {
            if j < before.len() {
                assert(v[j] == before[j]);
                let i = choose|i: int|
                    #![trigger init[i]]
                    0 <= i < init.len() && before[j] == init[i] && verified_in(m, init[i].address);
                assert(init[i] == rs[i]);
            } else {
                assert(v[j] == rs[n]);
            }
        }
    }
}

/// Each recipient of `rs` that is verified is among the verified recipients.
#[verifier::spinoff_prover]
proof fn lemma_verified_only_complete(rs: Seq<Recipient>, m: Map<u64, bool>)
    ensures
        forall|i: int|
            #![trigger rs[i]]
            0 <= i < rs.len() && verified_in(m, rs[i].address) ==> exists|j: int|
                #![trigger verified_only(rs, m)[j]]
                0 <= j < verified_only(rs, m).len() && verified_only(rs, m)[j] == rs[i],
    decreases rs.len(),
{
    if rs.len() > 0 {
        let init = rs.drop_last();
        let n = rs.len() - 1;
        assert(rs[n] == rs.last());
        lemma_verified_only_complete(init, m);
        let before = verified_only(init, m);
        let v = verified_only(rs, m);
        if verified_in(m, rs.last().address) {
            assert(v == before.push(rs.last()));
        } else {
            assert(v == before);
        }
        assert forall|i: int|
            #![trigger rs[i]]
            0 <= i < rs.len() && verified_in(m, rs[i].address) implies exists|j: int|
                #![trigger v[j]]
                0 <= j < v.len() && v[j] == rs[i] by {
            if i < n {
                assert(init[i] == rs[i]);
                let j = choose|j: int|
                    #![trigger before[j]]
                    0 <= j < before.len() && before[j] == init[i];
                assert(v[j] == before[j]);
            } else {
                assert(v[before.len() as int] == rs[i]);
            }
        }
    }
}

/// A split is stuck, and only then: its shares make the whole and either
/// the splitter has no configuration yet, or strict mode is off, the fee
/// computes, some recipient is verified, and every verified recipient has a
/// share of zero. In particular a configured splitter with a verified
/// recipient whose share is positive never gets stuck.
#[verifier::spinoff_prover]
pub proof fn law_split_panics_exactly_when_stuck(s: SplitterV3, rs: Seq<Recipient>, total: i128)
    ensures
        s.split_panics(rs, total) <==> (bps_total(rs) == BPS_DENOMINATOR && (s.config is None || (
        !s.strict && (s.fee_rate() == 0 || fits_i128(total * s.fee_rate())) && (exists|i: int|
            0 <= i < rs.len() && #[trigger] verified_in(s.verified@, rs[i].address)) && (forall|
            i: int|
            0 <= i < rs.len() && #[trigger] verified_in(s.verified@, rs[i].address)
                ==> rs[i].share_bps == 0)))),
{
    let m = s.verified@;
    let v = verified_only(rs, m);
    let some_verified = exists|i: int| 0 <= i < rs.len() && #[trigger] verified_in(m, rs[i].address);
    let all_zero = forall|i: int|
        0 <= i < rs.len() && #[trigger] verified_in(m, rs[i].address) ==> rs[i].share_bps == 0;
    assert(v.len() > 0 <==> some_verified) by {
        lemma_verified_only_sound(rs, m);
        lemma_verified_only_complete(rs, m);
        if some_verified {
            let i = choose|i: int| 0 <= i < rs.len() && #[trigger] verified_in(m, rs[i].address);
            assert(rs[i] == rs[i]);
        }
        if v.len() > 0 {
            assert(v[0] == v[0]);
            let i = choose|i: int|
                #![trigger rs[i]]
                0 <= i < rs.len() && v[0] == rs[i] && verified_in(m, rs[i].address);
            assert(verified_in(m, rs[i].address));
        }
    }
    assert(bps_total(v) == 0 <==> all_zero) by {
        lemma_bps_total_elems(v);
        if all_zero {
            lemma_verified_only_sound(rs, m);
            assert forall|j: int| 0 <= j < v.len() implies #[trigger] v[j].share_bps == 0 by {
                let i = choose|i: int|
                    #![trigger rs[i]]
                    0 <= i < rs.len() && v[j] == rs[i] && verified_in(m, rs[i].address);
            }
        }
        if bps_total(v) == 0 {
            lemma_verified_only_complete(rs, m);
            assert forall|i: int|
                0 <= i < rs.len() && #[trigger] verified_in(m, rs[i].address) implies rs[i].share_bps
                == 0 by {
                assert(rs[i] == rs[i]);
                let j = choose|j: int| #![trigger v[j]] 0 <= j < v.len() && v[j] == rs[i];
            }
        }
    }
}

/// The fee of a successful split is the configured rate of the amount,
/// rounded toward zero: `f = total - distributable` lies within one
/// `BPS_DENOMINATOR` of `total * fee_bps` on the side of zero, for the
/// `fee_bps` given at `initialize`; and the fee goes to the treasury exactly
/// when it is positive.
pub proof fn law_split_fee(s: SplitterV3, rs: Seq<Recipient>, total: i128)
    requires
        s.config is Some,
    ensures
        s.split_outcome(rs, total) matches Ok(p) ==> ({
            let c = s.config.unwrap();
            let f = total - p.distributable;
            &&& total * c.fee_bps >= 0 ==> BPS_DENOMINATOR * f <= total * c.fee_bps
                < BPS_DENOMINATOR * f + BPS_DENOMINATOR
            &&& total * c.fee_bps < 0 ==> BPS_DENOMINATOR * f - BPS_DENOMINATOR < total
                * c.fee_bps <= BPS_DENOMINATOR * f
            &&& p.fee == if f > 0 {
                Some(Transfer { to: c.treasury, amount: f as i128 })
            } else {
                None::<Transfer>
            }
        }),
{
    if let Ok(p) = s.split_outcome(rs, total) {
        let c = s.config.unwrap();
        lemma_trunc_div_bounds(total * c.fee_bps);
        if c.fee_bps == 0 {
            assert(total * c.fee_bps == 0);
        }
    }
}

/// In strict mode a successful split pays each recipient exactly its cut of
/// what remains after the fee: every recipient whose `distributable * share`
/// reaches `BPS_DENOMINATOR` gets a transfer of that product divided by
/// `BPS_DENOMINATOR`, rounded down, and every transfer is such a cut.
pub proof fn law_strict_split_pays_each_cut(s: SplitterV3, rs: Seq<Recipient>, total: i128)
    requires
        s.strict,
    ensures
        s.split_outcome(rs, total) matches Ok(p) ==> {
            &&& forall|i: int|
                #![trigger rs[i]]
                0 <= i < rs.len() && p.distributable * rs[i].share_bps >= BPS_DENOMINATOR
                    ==> exists|k: int|
                    #![trigger p.payouts[k]]
                    0 <= k < p.payouts.len() && p.payouts[k].to == rs[i].address
                        && floor_quotient(
                        p.distributable * rs[i].share_bps,
                        BPS_DENOMINATOR as int,
                        p.payouts[k].amount as int,
                    )
            &&& forall|k: int|
                #![trigger p.payouts[k]]
                0 <= k < p.payouts.len() ==> p.payouts[k].amount > 0 && exists|i: int|
                    #![trigger rs[i]]
                    0 <= i < rs.len() && p.payouts[k].to == rs[i].address && floor_quotient(
                        p.distributable * rs[i].share_bps,
                        BPS_DENOMINATOR as int,
                        p.payouts[k].amount as int,
                    )
        },
{
    if let Ok(p) = s.split_outcome(rs, total) {
        assert(s.payees(rs) == Ok::<Seq<Recipient>, crate::errors::Error>(rs));
        assert(p.payouts == payouts(rs, p.distributable));
        assert(!payouts_overflow(rs, p.distributable));
        law_distribute_pays_each_cut(rs, p.distributable);
    }
}

/// Out of strict mode, a successful split pays each payee (see
/// `law_relaxed_split_payees`) exactly its cut of what remains after the
/// fee, and makes no other transfer.
pub proof fn law_relaxed_split_pays_each_cut(s: SplitterV3, rs: Seq<Recipient>, total: i128)
    requires
        !s.strict,
    ensures
        s.split_outcome(rs, total) matches Ok(p) ==> ({
            let q = s.payees(rs).unwrap();
            &&& forall|i: int|
                #![trigger q[i]]
                0 <= i < q.len() && p.distributable * q[i].share_bps >= BPS_DENOMINATOR
                    ==> exists|k: int|
                    #![trigger p.payouts[k]]
                    0 <= k < p.payouts.len() && p.payouts[k].to == q[i].address
                        && floor_quotient(
                        p.distributable * q[i].share_bps,
                        BPS_DENOMINATOR as int,
                        p.payouts[k].amount as int,
                    )
            &&& forall|k: int|
                #![trigger p.payouts[k]]
                0 <= k < p.payouts.len() ==> p.payouts[k].amount > 0 && exists|i: int|
                    #![trigger q[i]]
                    0 <= i < q.len() && p.payouts[k].to == q[i].address && floor_quotient(
                        p.distributable * q[i].share_bps,
                        BPS_DENOMINATOR as int,
                        p.payouts[k].amount as int,
                    )
        }),
{
    if let Ok(p) = s.split_outcome(rs, total) {
        let q = s.payees(rs).unwrap();
        assert(s.payees(rs) is Ok);
        assert(p.payouts == payouts(q, p.distributable));
        assert(!payouts_overflow(q, p.distributable));
        law_distribute_pays_each_cut(q, p.distributable);
    }
}

/// Out of strict mode, whom a split pays and at what shares: every verified
/// recipient, and only they, with its share scaled by `BPS_DENOMINATOR /
/// vb` and rounded down, where `vb` is what the verified shares add up to:
/// the new share is `floor_quotient(share * BPS_DENOMINATOR, vb, _)`.
/// This holds wherever some verified recipient has a positive share.
#[verifier::spinoff_prover]
pub proof fn law_relaxed_split_payees(s: SplitterV3, rs: Seq<Recipient>)
    requires
        !s.strict,
        exists|i: int|
            0 <= i < rs.len() && #[trigger] verified_in(s.verified@, rs[i].address)
                && rs[i].share_bps > 0,
    ensures
        s.payees(rs) is Ok,
        bps_total(verified_only(rs, s.verified@)) > 0,
        forall|j: int|
            #![trigger s.payees(rs).unwrap()[j]]
            0 <= j < s.payees(rs).unwrap().len() ==> exists|i: int|
                #![trigger rs[i]]
                0 <= i < rs.len() && verified_in(s.verified@, rs[i].address)
                    && s.payees(rs).unwrap()[j].address == rs[i].address && floor_quotient(
                    rs[i].share_bps * BPS_DENOMINATOR,
                    bps_total(verified_only(rs, s.verified@)),
                    s.payees(rs).unwrap()[j].share_bps as int,
                ),
        forall|i: int|
            #![trigger rs[i]]
            0 <= i < rs.len() && verified_in(s.verified@, rs[i].address) ==> exists|j: int|
                #![trigger s.payees(rs).unwrap()[j]]
                0 <= j < s.payees(rs).unwrap().len() && s.payees(rs).unwrap()[j].address
                    == rs[i].address && floor_quotient(
                    rs[i].share_bps * BPS_DENOMINATOR,
                    bps_total(verified_only(rs, s.verified@)),
                    s.payees(rs).unwrap()[j].share_bps as int,
                ),
{
    let m = s.verified@;
    let v = verified_only(rs, m);
    let vb = bps_total(v);
    lemma_verified_total_positive(rs, m);
    let q = rescaled(v, vb);
    assert(s.payees(rs) == Ok::<Seq<Recipient>, crate::errors::Error>(q));
    assert(s.payees(rs).unwrap() == q);
    lemma_relaxed_payees_sound(rs, m);
    lemma_relaxed_payees_complete(rs, m);
}

/// A verified recipient with a positive share makes the verified shares
/// add up to something positive.
proof fn lemma_verified_total_positive(rs: Seq<Recipient>, m: Map<u64, bool>)
    requires
        exists|i: int| 0 <= i < rs.len() && #[trigger] verified_in(m, rs[i].address) && rs[i].share_bps > 0,
    ensures
        bps_total(verified_only(rs, m)) > 0,
{
    let v = verified_only(rs, m);
    lemma_verified_only_complete(rs, m);
    lemma_bps_total_elems(v);
    let i0 = choose|i: int|
        0 <= i < rs.len() && #[trigger] verified_in(m, rs[i].address) && rs[i].share_bps > 0;
    assert(rs[i0] == rs[i0]);
    let j0 = choose|j: int| #![trigger v[j]] 0 <= j < v.len() && v[j] == rs[i0];
    assert(v[j0].share_bps > 0);
}

/// Each scaled verified recipient is a verified recipient of `rs` at its
/// rounded-down scaled share.
#[verifier::spinoff_prover]
proof fn lemma_relaxed_payees_sound(rs: Seq<Recipient>, m: Map<u64, bool>)
    requires
        bps_total(verified_only(rs, m)) > 0,
    ensures
        forall|j: int|
            #![trigger rescaled(verified_only(rs, m), bps_total(verified_only(rs, m)))[j]]
            0 <= j < verified_only(rs, m).len() ==> exists|i: int|
                #![trigger rs[i]]
                0 <= i < rs.len() && verified_in(m, rs[i].address) && rescaled(
                    verified_only(rs, m),
                    bps_total(verified_only(rs, m)),
                )[j].address == rs[i].address && floor_quotient(
                    rs[i].share_bps * BPS_DENOMINATOR,
                    bps_total(verified_only(rs, m)),
                    rescaled(verified_only(rs, m), bps_total(verified_only(rs, m)))[j].share_bps
                        as int,
                ),
{
    let v = verified_only(rs, m);
    let vb = bps_total(v);
    let q = rescaled(v, vb);
    lemma_verified_only_sound(rs, m);
    assert forall|j: int|
        #![trigger q[j]]
        0 <= j < v.len() implies exists|i: int|
            #![trigger rs[i]]
            0 <= i < rs.len() && verified_in(m, rs[i].address) && q[j].address == rs[i].address
                && floor_quotient(rs[i].share_bps * BPS_DENOMINATOR, vb, q[j].share_bps as int) by {
        lemma_rescaled_entry(v, j);
        assert(v[j] == v[j]);
        let i = choose|i: int|
            #![trigger rs[i]]
            0 <= i < rs.len() && v[j] == rs[i] && verified_in(m, rs[i].address);
    }
}

/// Each verified recipient of `rs` is among the scaled verified recipients,
/// at its rounded-down scaled share.
#[verifier::spinoff_prover]
proof fn lemma_relaxed_payees_complete(rs: Seq<Recipient>, m: Map<u64, bool>)
    requires
        bps_total(verified_only(rs, m)) > 0,
    ensures
        forall|i: int|
            #![trigger rs[i]]
            0 <= i < rs.len() && verified_in(m, rs[i].address) ==> exists|j: int|
                #![trigger rescaled(verified_only(rs, m), bps_total(verified_only(rs, m)))[j]]
                0 <= j < verified_only(rs, m).len() && rescaled(
                    verified_only(rs, m),
                    bps_total(verified_only(rs, m)),
                )[j].address == rs[i].address && floor_quotient(
                    rs[i].share_bps * BPS_DENOMINATOR,
                    bps_total(verified_only(rs, m)),
                    rescaled(verified_only(rs, m), bps_total(verified_only(rs, m)))[j].share_bps
                        as int,
                ),
{
    let v = verified_only(rs, m);
    let vb = bps_total(v);
    let q = rescaled(v, vb);
    lemma_verified_only_complete(rs, m);
    assert forall|i: int|
        #![trigger rs[i]]
        0 <= i < rs.len() && verified_in(m, rs[i].address) implies exists|j: int|
            #![trigger q[j]]
            0 <= j < v.len() && q[j].address == rs[i].address && floor_quotient(
                rs[i].share_bps * BPS_DENOMINATOR,
                vb,
                q[j].share_bps as int,
            ) by {
        assert(rs[i] == rs[i]);
        let j = choose|j: int| #![trigger v[j]] 0 <= j < v.len() && v[j] == rs[i];
        lemma_rescaled_entry(v, j);
    }
}

/// The scaled share of `v[j]` is its share times `BPS_DENOMINATOR` divided
/// by the total of the shares, rounded down; its address is unchanged.
proof fn lemma_rescaled_entry(v: Seq<Recipient>, j: int)
    requires
        bps_total(v) > 0,
        0 <= j < v.len(),
    ensures
        rescaled(v, bps_total(v))[j].address == v[j].address,
        floor_quotient(
            v[j].share_bps * BPS_DENOMINATOR,
            bps_total(v),
            rescaled(v, bps_total(v))[j].share_bps as int,
        ),
{
    let vb = bps_total(v);
    lemma_bps_total_elems(v);
    let sh = v[j].share_bps;
    let x = sh * BPS_DENOMINATOR;
    let nq = x / vb;
    assert(vb * nq <= x && x < vb * nq + vb && 0 <= nq && nq <= BPS_DENOMINATOR)
        by (nonlinear_arith)
        requires
            nq == x / vb,
            vb > 0,
            0 <= sh <= vb,
            x == sh * BPS_DENOMINATOR,
    ;
    assert(rescaled(v, vb)[j].share_bps == nq);
}

} // verus!
