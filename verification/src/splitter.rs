use std::collections::HashMap;

use vstd::prelude::*;

use crate::errors::Error;
use crate::payout::{distribute, payouts, payouts_overflow, Transfer};
use crate::shares::{
    bps_amount, bps_total, check_shares, protocol_fee, fits_i128, lemma_bps_total_elems,
    lemma_bps_total_prefix, Recipient, BPS_DENOMINATOR,
};

verus! {

broadcast use vstd::std_specs::hash::group_hash_axioms;

/// What `initialize` fixes for the life of a splitter.
#[derive(Copy, Clone, Debug, PartialEq, Eq, Structural)]
pub struct Config {
    /// The account whose authorization the admin operations need.
    pub admin: u64,
    /// The token that the splitter moves.
    pub token: u64,
    /// The protocol fee in basis points of each split amount.
    pub fee_bps: u32,
    /// Where the protocol fee goes.
    pub treasury: u64,
}

/// A splitter with everything that it keeps between calls: its
/// configuration (absent until `initialize`), the strict-mode flag and the
/// verification status of each account that has one. An account without an
/// entry counts as unverified.
pub struct SplitterV3 {
    pub config: Option<Config>,
    pub strict: bool,
    pub verified: HashMap<u64, bool>,
}

/// The outcome of a successful split, as mathematical values.
pub struct SplitPlanView {
    pub fee: Option<Transfer>,
    pub payouts: Seq<Transfer>,
    pub distributable: i128,
}

/// What a successful split moves out of the splitter, once the sender's
/// `total_amount` is in: the fee to the treasury (where positive), then the
/// payouts in the order of the recipients. `distributable` is what remained
/// after the fee.
pub struct SplitPlan {
    pub fee: Option<Transfer>,
    pub payouts: Vec<Transfer>,
    pub distributable: i128,
}

impl View for SplitPlan {
    type V = SplitPlanView;

    open spec fn view(&self) -> SplitPlanView {
        SplitPlanView { fee: self.fee, payouts: self.payouts@, distributable: self.distributable }
    }
}

/// `m` marks account `a` verified.
pub open spec fn verified_in(m: Map<u64, bool>, a: u64) -> bool {
    m.contains_key(a) && m[a]
}

/// Every recipient in `rs` is verified in `m`.
pub open spec fn all_verified(rs: Seq<Recipient>, m: Map<u64, bool>) -> bool {
    forall|i: int| 0 <= i < rs.len() ==> verified_in(m, #[trigger] rs[i].address)
}

/// The recipients of `rs` that `m` marks verified, in their order.
pub open spec fn verified_only(rs: Seq<Recipient>, m: Map<u64, bool>) -> Seq<Recipient>
    decreases rs.len(),
{
    if rs.len() == 0 {
        Seq::empty()
    } else {
        let before = verified_only(rs.drop_last(), m);
        if verified_in(m, rs.last().address) {
            before.push(rs.last())
        } else {
            before
        }
    }
}

/// `rs` with each share scaled up so that shares summing to `total_bps`
/// sum to about `BPS_DENOMINATOR`: `share * BPS_DENOMINATOR / total_bps`,
/// rounded down.
pub open spec fn rescaled(rs: Seq<Recipient>, total_bps: int) -> Seq<Recipient> {
    rs.map_values(
        |r: Recipient|
            Recipient {
                address: r.address,
                share_bps: (r.share_bps * BPS_DENOMINATOR / total_bps) as u32,
            },
    )
}

/// `m` with each account of `accounts` marked verified, in order.
pub open spec fn with_verified(m: Map<u64, bool>, accounts: Seq<u64>) -> Map<u64, bool>
    decreases accounts.len(),
{
    if accounts.len() == 0 {
        m
    } else {
        with_verified(m, accounts.drop_last()).insert(accounts.last(), true)
    }
}

/// The fee transfer for a fee of `fee`: to the treasury, and only where
/// the fee is positive.
pub open spec fn fee_transfer(config: Option<Config>, fee: int) -> Option<Transfer> {
    match config {
        Some(c) => if fee > 0 {
            Some(Transfer { to: c.treasury, amount: fee as i128 })
        } else {
            None
        },
        None => None,
    }
}

pub(crate) proof fn lemma_verified_only_total(rs: Seq<Recipient>, m: Map<u64, bool>)
    ensures
        bps_total(verified_only(rs, m)) <= bps_total(rs),
        forall|j: int|
            0 <= j < verified_only(rs, m).len() ==> verified_in(
                m,
                #[trigger] verified_only(rs, m)[j].address,
            ),
    decreases rs.len(),
{
    if rs.len() > 0 {
        lemma_verified_only_total(rs.drop_last(), m);
        let before = verified_only(rs.drop_last(), m);
        if verified_in(m, rs.last().address) {
            assert(before.push(rs.last()).drop_last() =~= before);
        }
    }
}

proof fn lemma_with_verified(m: Map<u64, bool>, accounts: Seq<u64>)
    ensures
        forall|a: u64| accounts.contains(a) ==> #[trigger] verified_in(with_verified(m, accounts), a),
        forall|a: u64|
            !accounts.contains(a) ==> (#[trigger] with_verified(m, accounts).contains_key(a)
                == m.contains_key(a)) && (m.contains_key(a) ==> with_verified(m, accounts)[a]
                == m[a]),
    decreases accounts.len(),
{
    if accounts.len() > 0 {
        let init = accounts.drop_last();
        let last = accounts.last();
        lemma_with_verified(m, init);
        let w = with_verified(m, init);
        assert(with_verified(m, accounts) == w.insert(last, true));
        assert forall|a: u64| accounts.contains(a) implies #[trigger] verified_in(with_verified(m, accounts), a) by {
            if a != last {
                let k = choose|k: int| 0 <= k < accounts.len() && accounts[k] == a;
                assert(init[k] == a);
                assert(init.contains(a));
                assert(verified_in(w, a));
            }
        }
        assert forall|a: u64| !accounts.contains(a) implies (#[trigger] with_verified(m, accounts).contains_key(a)
                == m.contains_key(a)) && (m.contains_key(a) ==> with_verified(m, accounts)[a]
                == m[a]) by {
            assert(accounts[accounts.len() - 1] == last);
            if init.contains(a) {
                let k = choose|k: int| 0 <= k < init.len() && init[k] == a;
                assert(accounts[k] == a);
            }
            assert(a != last);
            assert(w.contains_key(a) == m.contains_key(a));
        }
    }
}

impl SplitterV3 {
    /// `account` is verified in this splitter.
    pub open spec fn has_verified(&self, account: u64) -> bool {
        verified_in(self.verified@, account)
    }

    /// The fee rate in force: zero until `initialize`.
    pub open spec fn fee_rate(&self) -> u32 {
        match self.config {
            Some(c) => c.fee_bps,
            None => 0,
        }
    }

    /// Whom a split with shares `rs` pays, and with what shares: in strict
    /// mode `rs` itself, refused unless every recipient is verified; else
    /// the verified recipients alone, their shares scaled up to fill the
    /// whole, refused where there is none.
    pub open spec fn payees(&self, rs: Seq<Recipient>) -> Result<Seq<Recipient>, Error> {
        if self.strict {
            if all_verified(rs, self.verified@) {
                Ok(rs)
            } else {
                Err(Error::RecipientNotVerified)
            }
        } else {
            let v = verified_only(rs, self.verified@);
            if v.len() == 0 {
                Err(Error::NoVerifiedRecipients)
            } else {
                Ok(rescaled(v, bps_total(v)))
            }
        }
    }

    /// The outcome of splitting `total` over `rs`, checked in this order:
    /// the shares must sum to exactly `BPS_DENOMINATOR` in `u32`; the fee is
    /// taken; the payees are chosen by `payees`; each payee gets its share
    /// of what remains.
    pub open spec fn split_outcome(&self, rs: Seq<Recipient>, total: i128) -> Result<
        SplitPlanView,
        Error,
    > {
        let sum = bps_total(rs);
        if sum > u32::MAX {
            Err(Error::Overflow)
        } else if sum != BPS_DENOMINATOR {
            Err(Error::InvalidSplit)
        } else {
            match protocol_fee(total, self.fee_rate()) {
                None => Err(Error::Overflow),
                Some(fee) => {
                    let d = total - fee;
                    if !fits_i128(d) {
                        Err(Error::Overflow)
                    } else {
                        match self.payees(rs) {
                            Err(e) => Err(e),
                            Ok(p) => if payouts_overflow(p, d as i128) {
                                Err(Error::Overflow)
                            } else {
                                Ok(
                                    SplitPlanView {
                                        fee: fee_transfer(self.config, fee),
                                        payouts: payouts(p, d as i128),
                                        distributable: d as i128,
                                    },
                                )
                            },
                        }
                    }
                },
            }
        }
    }

    /// The inputs on which a split cannot go on once its shares are valid:
    /// the splitter has no configuration yet, so no token to move; or strict
    /// mode is off, the fee computes, and some recipients are verified but
    /// all of them with a share of zero, which divides by zero.
    pub open spec fn split_panics(&self, rs: Seq<Recipient>, total: i128) -> bool {
        let v = verified_only(rs, self.verified@);
        &&& bps_total(rs) == BPS_DENOMINATOR
        &&& {
            ||| self.config is None
            ||| {
                &&& protocol_fee(total, self.fee_rate()) is Some
                &&& !self.strict
                &&& v.len() > 0
                &&& bps_total(v) == 0
            }
        }
    }

    /// A freshly deployed splitter: no configuration, strict mode off, no
    /// account verified.
    pub fn new() -> (s: Self)
        ensures
            s.config is None,
            !s.strict,
            s.verified@ == Map::<u64, bool>::empty(),
    {
        SplitterV3 { config: None, strict: false, verified: HashMap::new() }
    }

    /// Looks up whether `address` is verified; an account without an entry
    /// is not.
    pub fn is_verified(&self, address: u64) -> (b: bool)
        ensures
            b == self.has_verified(address),
    {
        match self.verified.get(&address) {
            Some(v) => *v,
            None => false,
        }
    }

    /// Whether strict mode is on.
    pub fn strict_mode(&self) -> (b: bool)
        ensures
            b == self.strict,
    {
        self.strict
    }

    /// The admin of an initialized splitter.
    pub fn admin(&self) -> (a: u64)
        requires
            self.config is Some,
        ensures
            a == self.config.unwrap().admin,
    {
        self.config.unwrap().admin
    }

    /// Starts the splitter: `owner` becomes its admin, with `token`,
    /// `fee_bps` and `treasury`; strict mode is off; the owner and each of
    /// `extra_admins` are verified. A splitter can be started once: a second
    /// call returns `AlreadyInitialized` and changes nothing. `Ok` carries the
    /// account whose authorization the call needs, the owner.
    pub fn initialize(
        &mut self,
        owner: u64,
        token: u64,
        fee_bps: u32,
        treasury: u64,
        extra_admins: &Vec<u64>,
    ) -> (r: Result<u64, Error>)
        ensures
            old(self).config is Some ==> r == Err::<u64, Error>(Error::AlreadyInitialized)
                && *final(self) == *old(self),
            old(self).config is None ==> {
                &&& r == Ok::<u64, Error>(owner)
                &&& final(self).config == Some(
                    Config { admin: owner, token, fee_bps, treasury },
                )
                &&& !final(self).strict
                &&& final(self).verified@ == with_verified(
                    old(self).verified@.insert(owner, true),
                    extra_admins@,
                )
                &&& final(self).has_verified(owner)
                &&& forall|a: u64| extra_admins@.contains(a) ==> #[trigger] final(self).has_verified(a)
                &&& forall|a: u64|
                    a != owner && !extra_admins@.contains(a) ==> #[trigger] final(self).has_verified(a)
                        == old(self).has_verified(a)
            },
    {
        if self.config.is_some() {
            return Err(Error::AlreadyInitialized);
        }
        self.config = Some(Config { admin: owner, token, fee_bps, treasury });
        self.strict = false;
        self._set_verified(owner, true);
        let ghost base = self.verified@;
        let n = extra_admins.len();
        for i in 0..n
            invariant
                n == extra_admins@.len(),
                self.config == Some(Config { admin: owner, token, fee_bps, treasury }),
                !self.strict,
                self.verified@ == with_verified(base, extra_admins@.take(i as int)),
        {
            proof {
                assert(extra_admins@.take(i + 1).drop_last() =~= extra_admins@.take(i as int));
            }
            self._set_verified(extra_admins[i], true);
        }
        proof {
            assert(extra_admins@.take(n as int) =~= extra_admins@);
            lemma_with_verified(base, extra_admins@);
        }
        Ok(owner)
    }

    /// Sets whether `user` is verified. Only the admin may: before
    /// `initialize` this is `NotAdmin` and changes nothing; after it `Ok`
    /// carries the admin, whose authorization the call needs.
    pub fn set_verification_status(&mut self, user: u64, status: bool) -> (r: Result<u64, Error>)
        ensures
            old(self).config is None ==> r == Err::<u64, Error>(Error::NotAdmin) && *final(self)
                == *old(self),
            old(self).config is Some ==> {
                &&& r == Ok::<u64, Error>(old(self).config.unwrap().admin)
                &&& final(self).verified@ == old(self).verified@.insert(user, status)
                &&& final(self).has_verified(user) == status
                &&& forall|a: u64| a != user ==> #[trigger] final(self).has_verified(a)
                    == old(self).has_verified(a)
                &&& final(self).config == old(self).config
                &&& final(self).strict == old(self).strict
            },
    {
        let admin = match self._require_admin() {
            Ok(a) => a,
            Err(e) => return Err(e),
        };
        self._set_verified(user, status);
        Ok(admin)
    }

    /// Turns strict mode on or off. Only the admin may, as for
    /// `set_verification_status`.
    pub fn set_strict_mode(&mut self, strict: bool) -> (r: Result<u64, Error>)
        ensures
            old(self).config is None ==> r == Err::<u64, Error>(Error::NotAdmin) && *final(self)
                == *old(self),
            old(self).config is Some ==> {
                &&& r == Ok::<u64, Error>(old(self).config.unwrap().admin)
                &&& final(self).strict == strict
                &&& final(self).config == old(self).config
                &&& final(self).verified@ == old(self).verified@
            },
    {
        let admin = match self._require_admin() {
            Ok(a) => a,
            Err(e) => return Err(e),
        };
        self.strict = strict;
        Ok(admin)
    }

    /// The recipients that are verified, in their order.
    fn verified_subset(&self, recipients: &Vec<Recipient>) -> (v: Vec<Recipient>)
        ensures
            v@ == verified_only(recipients@, self.verified@),
    {
        let mut v: Vec<Recipient> = Vec::new();
        let n = recipients.len();
        for i in 0..n
            invariant
                n == recipients@.len(),
                v@ == verified_only(recipients@.take(i as int), self.verified@),
        {
            proof {
                assert(recipients@.take(i + 1).drop_last() =~= recipients@.take(i as int));
            }
            let r = recipients[i];
            if self.is_verified(r.address) {
                v.push(r);
            }
        }
        proof {
            assert(recipients@.take(n as int) =~= recipients@);
        }
        v
    }

    /// In strict mode, refuses a split with an unverified recipient.
    fn check_all_verified(&self, recipients: &Vec<Recipient>) -> (r: Result<(), Error>)
        ensures
            all_verified(recipients@, self.verified@) ==> r is Ok,
            !all_verified(recipients@, self.verified@) ==> r == Err::<(), Error>(
                Error::RecipientNotVerified,
            ),
    {
        let n = recipients.len();
        for i in 0..n
            invariant
                n == recipients@.len(),
                forall|j: int|
                    0 <= j < i ==> verified_in(self.verified@, #[trigger] recipients@[j].address),
        {
            if !self.is_verified(recipients[i].address) {
                return Err(Error::RecipientNotVerified);
            }
        }
        Ok(())
    }

    /// Out of strict mode, keeps the verified recipients and scales their
    /// shares up: `share * BPS_DENOMINATOR / verified_bps`, where
    /// `verified_bps` is what the verified shares add up to.
    fn rescale_verified(&self, recipients: &Vec<Recipient>) -> (r: Result<Vec<Recipient>, Error>)
        requires
            bps_total(recipients@) == BPS_DENOMINATOR,
            verified_only(recipients@, self.verified@).len() > 0 ==> bps_total(
                verified_only(recipients@, self.verified@),
            ) > 0,
        ensures
            ({
                let v = verified_only(recipients@, self.verified@);
                &&& v.len() == 0 ==> r == Err::<Vec<Recipient>, Error>(
                    Error::NoVerifiedRecipients,
                )
                &&& v.len() > 0 ==> (r matches Ok(s) && s@ == rescaled(v, bps_total(v)))
            }),
    {
        let verified = self.verified_subset(recipients);
        let ghost v = verified@;
        proof {
            lemma_verified_only_total(recipients@, self.verified@);
            lemma_bps_total_elems(v);
        }
        let n = verified.len();
        let mut verified_bps: u32 = 0;
        for i in 0..n
            invariant
                n == v.len(),
                v == verified@,
                bps_total(v) <= BPS_DENOMINATOR,
                verified_bps == bps_total(v.take(i as int)),
        {
            proof {
                assert(v.take(i + 1).drop_last() =~= v.take(i as int));
                lemma_bps_total_prefix(v, i + 1);
            }
            verified_bps = match verified_bps.checked_add(verified[i].share_bps) {
                Some(s) => s,
                None => return Err(Error::Overflow),
            };
        }
        proof {
            assert(v.take(n as int) =~= v);
        }
        if verified.len() == 0 {
            return Err(Error::NoVerifiedRecipients);
        }
        let mut scaled: Vec<Recipient> = Vec::new();
        for i in 0..n
            invariant
                n == v.len(),
                v == verified@,
                verified_bps == bps_total(v),
                verified_bps > 0,
                bps_total(v) <= BPS_DENOMINATOR,
                forall|j: int| 0 <= j < v.len() ==> #[trigger] v[j].share_bps <= bps_total(v),
                scaled@.len() == i,
                forall|j: int|
                    0 <= j < i ==> #[trigger] scaled@[j] == rescaled(v, bps_total(v))[j],
        {
            let r = verified[i];
            let new_bps: u32 = match (r.share_bps as u64).checked_mul(10_000) {
                Some(p) => (p as u32) / verified_bps,
                None => return Err(Error::Overflow),
            };
            scaled.push(Recipient { address: r.address, share_bps: new_bps });
        }
        proof {
            assert(scaled@ =~= rescaled(v, bps_total(v)));
        }
        Ok(scaled)
    }

    /// Plans the split of `total_amount`, once the sender has paid it in:
    /// the shares must add up to exactly `BPS_DENOMINATOR`; the protocol fee
    /// (`fee_bps` of the amount, rounded toward zero) goes to the treasury
    /// where positive; what remains is paid out in proportion to the shares,
    /// with the dust from rounding left behind. In strict mode an unverified
    /// recipient refuses the whole split; otherwise unverified recipients are
    /// skipped and the verified shares are scaled up to fill the whole.
    pub fn split(&self, recipients: &Vec<Recipient>, total_amount: i128) -> (r: Result<
        SplitPlan,
        Error,
    >)
        requires
            !self.split_panics(recipients@, total_amount),
        ensures
            match r {
                Ok(p) => self.split_outcome(recipients@, total_amount) == Ok::<
                    SplitPlanView,
                    Error,
                >(p@),
                Err(e) => self.split_outcome(recipients@, total_amount) == Err::<
                    SplitPlanView,
                    Error,
                >(e),
            },
    {
        match check_shares(recipients) {
            Ok(_) => {},
            Err(e) => return Err(e),
        }
        let fee_bps: u32 = match self.config {
            Some(c) => c.fee_bps,
            None => 0,
        };
        let fee_amount: i128 = if fee_bps > 0 {
            match bps_amount(total_amount, fee_bps) {
                Ok(f) => f,
                Err(e) => return Err(e),
            }
        } else {
            0
        };
        let fee: Option<Transfer> = match self.config {
            Some(c) => if fee_amount > 0 {
                Some(Transfer { to: c.treasury, amount: fee_amount })
            } else {
                None
            },
            None => None,
        };
        let distributable = match total_amount.checked_sub(fee_amount) {
            Some(d) => d,
            None => return Err(Error::Overflow),
        };
        let paid = if self.strict {
            match self.check_all_verified(recipients) {
                Ok(()) => {},
                Err(e) => return Err(e),
            }
            distribute(recipients, distributable)
        } else {
            proof {
                lemma_bps_total_elems(verified_only(recipients@, self.verified@));
            }
            let scaled = match self.rescale_verified(recipients) {
                Ok(s) => s,
                Err(e) => return Err(e),
            };
            distribute(&scaled, distributable)
        };
        match paid {
            Ok(payouts) => Ok(SplitPlan { fee, payouts, distributable }),
            Err(e) => Err(e),
        }
    }

    /// Whether `split` cannot go on with these arguments (see
    /// `split_panics`); a caller tests this before `split`.
    pub fn split_would_panic(&self, recipients: &Vec<Recipient>, total_amount: i128) -> (b:
        bool)
        ensures
            b == self.split_panics(recipients@, total_amount),
    {
        if check_shares(recipients).is_err() {
            return false;
        }
        if self.config.is_none() {
            return true;
        }
        if self.strict {
            return false;
        }
        let fee_bps: u32 = match self.config {
            Some(c) => c.fee_bps,
            None => 0,
        };
        if fee_bps > 0 && bps_amount(total_amount, fee_bps).is_err() {
            return false;
        }
        let verified = self.verified_subset(recipients);
        if verified.len() == 0 {
            return false;
        }
        let ghost v = verified@;
        proof {
            lemma_bps_total_elems(v);
        }
        let n = verified.len();
        for i in 0..n
            invariant
                n == v.len(),
                v == verified@,
                v == verified_only(recipients@, self.verified@),
                self.config is Some,
                forall|j: int| 0 <= j < v.len() ==> #[trigger] v[j].share_bps <= bps_total(v),
                forall|j: int| 0 <= j < i ==> #[trigger] v[j].share_bps == 0,
        {
            if verified[i].share_bps != 0 {
                assert(v[i as int].share_bps <= bps_total(v));
                return false;
            }
        }
        proof {
            lemma_bps_total_elems(v);
        }
        true
    }

    /// Records `status` as the verification status of `user`.
    fn _set_verified(&mut self, user: u64, status: bool)
        ensures
            final(self).verified@ == old(self).verified@.insert(user, status),
            final(self).config == old(self).config,
            final(self).strict == old(self).strict,
    {
        self.verified.insert(user, status);
    }

    /// The account whose authorization an admin operation needs; `NotAdmin`
    /// before `initialize`.
    fn _require_admin(&self) -> (r: Result<u64, Error>)
        ensures
            match self.config {
                Some(c) => r == Ok::<u64, Error>(c.admin),
                None => r == Err::<u64, Error>(Error::NotAdmin),
            },
    {
        match self.config {
            Some(c) => Ok(c.admin),
            None => Err(Error::NotAdmin),
        }
    }
}

} // verus!
