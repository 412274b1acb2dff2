use std::collections::HashMap;

use splitter_v3::{
    bps_amount, check_shares, distribute, Config, Error, Recipient, SplitterV3, Transfer,
};

const ADMIN: u64 = 1;
const TREASURY: u64 = 2;
const TOKEN: u64 = 3;
const CONTRACT: u64 = 4;
const ALICE: u64 = 10;
const BOB: u64 = 11;
const CAROL: u64 = 12;

/// Token balances of the accounts that a test touches.
struct Ledger {
    balances: HashMap<u64, i128>,
}

impl Ledger {
    fn balance(&self, who: u64) -> i128 {
        *self.balances.get(&who).unwrap_or(&0)
    }

    fn transfer(&mut self, from: u64, to: u64, amount: i128) {
        assert!(amount >= 0);
        assert!(self.balance(from) >= amount, "balance is not sufficient");
        *self.balances.entry(from).or_insert(0) -= amount;
        *self.balances.entry(to).or_insert(0) += amount;
    }
}

struct Setup {
    splitter: SplitterV3,
    ledger: Ledger,
}

/// A splitter initialized by `ADMIN` with a 1% fee, and 10^9 tokens minted
/// to the admin.
fn setup() -> Setup {
    let mut splitter = SplitterV3::new();
    let who = splitter.initialize(ADMIN, TOKEN, 100, TREASURY, &Vec::new()).unwrap();
    assert_eq!(who, ADMIN);
    let mut balances = HashMap::new();
    balances.insert(ADMIN, 1_000_000_000i128);
    Setup { splitter, ledger: Ledger { balances } }
}

fn make_recipients(addrs: &[u64], bps: &[u32]) -> Vec<Recipient> {
    addrs.iter().zip(bps.iter()).map(|(a, b)| Recipient { address: *a, share_bps: *b }).collect()
}

/// Runs a split as a caller of the library does: shares first, then the
/// sender pays in, then the plan's transfers. An error undoes everything.
fn run_split(s: &mut Setup, sender: u64, recipients: &Vec<Recipient>, total: i128) -> Result<(), Error> {
    check_shares(recipients)?;
    assert!(!s.splitter.split_would_panic(recipients, total));
    let plan = s.splitter.split(recipients, total)?;
    s.ledger.transfer(sender, CONTRACT, total);
    if let Some(fee) = plan.fee {
        s.ledger.transfer(CONTRACT, fee.to, fee.amount);
    }
    for t in plan.payouts.iter() {
        s.ledger.transfer(CONTRACT, t.to, t.amount);
    }
    Ok(())
}

#[test]
fn test_split_all_verified_succeeds() {
    let mut s = setup();
    s.splitter.set_verification_status(ALICE, true).unwrap();
    s.splitter.set_verification_status(BOB, true).unwrap();

    let recipients = make_recipients(&[ALICE, BOB], &[5_000, 5_000]);
    let amount = 1_000_000i128;
    run_split(&mut s, ADMIN, &recipients, amount).unwrap();

    // 1% fee -> 10_000 to treasury; 990_000 distributable; 50/50 -> 495_000 each
    assert_eq!(s.ledger.balance(ALICE), 495_000);
    assert_eq!(s.ledger.balance(BOB), 495_000);
    assert_eq!(s.ledger.balance(TREASURY), 10_000);
}

#[test]
fn test_strict_mode_unverified_recipient_fails() {
    let mut s = setup();
    s.splitter.set_verification_status(ALICE, true).unwrap();
    s.splitter.set_strict_mode(true).unwrap();

    let recipients = make_recipients(&[ALICE, BOB], &[5_000, 5_000]);
    let result = run_split(&mut s, ADMIN, &recipients, 1_000_000);
    assert_eq!(result, Err(Error::RecipientNotVerified));

    assert_eq!(s.ledger.balance(ALICE), 0);
    assert_eq!(s.ledger.balance(BOB), 0);
}

#[test]
fn test_non_strict_skips_unverified_redistributes() {
    let mut s = setup();
    s.splitter.set_verification_status(ALICE, true).unwrap();
    s.splitter.set_verification_status(CAROL, true).unwrap();

    let recipients = make_recipients(&[ALICE, BOB, CAROL], &[4_000, 2_000, 4_000]);
    let amount = 1_000_000i128;
    run_split(&mut s, ADMIN, &recipients, amount).unwrap();

    // verified bps = 8000; each verified share becomes 5000 -> 495_000
    assert_eq!(s.ledger.balance(ALICE), 495_000);
    assert_eq!(s.ledger.balance(CAROL), 495_000);
    assert_eq!(s.ledger.balance(BOB), 0);
    assert_eq!(s.ledger.balance(TREASURY), 10_000);
}

#[test]
fn test_only_admin_can_set_verification() {
    let attacker = 20u64;
    let victim = 21u64;
    // Before initialization nobody is admin: the call is refused outright.
    let mut fresh = SplitterV3::new();
    assert_eq!(fresh.set_verification_status(victim, true), Err(Error::NotAdmin));
    assert!(!fresh.is_verified(victim));

    // Afterwards the change needs the admin's authorization, never the caller's.
    let mut s = setup();
    let who = s.splitter.set_verification_status(victim, true).unwrap();
    assert_eq!(who, ADMIN);
    assert_ne!(who, attacker);
}

#[test]
fn test_non_strict_no_verified_recipients_errors() {
    let mut s = setup();
    let recipients = make_recipients(&[ALICE], &[10_000]);
    let result = run_split(&mut s, ADMIN, &recipients, 1_000_000);
    assert_eq!(result, Err(Error::NoVerifiedRecipients));
}

#[test]
fn test_invalid_bps_sum_errors() {
    let mut s = setup();
    s.splitter.set_verification_status(ALICE, true).unwrap();
    let recipients = make_recipients(&[ALICE], &[9_000]);
    let result = run_split(&mut s, ADMIN, &recipients, 1_000_000);
    assert_eq!(result, Err(Error::InvalidSplit));
}

#[test]
fn test_double_initialize_fails() {
    let mut s = setup();
    let result = s.splitter.initialize(ADMIN, TOKEN, 100, TREASURY, &Vec::new());
    assert_eq!(result, Err(Error::AlreadyInitialized));
}

// ── Further cases ───────────────────────────────────────────────────────────

#[test]
fn initialize_verifies_owner_and_extra_admins() {
    let mut s = SplitterV3::new();
    assert!(!s.strict_mode());
    s.initialize(ADMIN, TOKEN, 250, TREASURY, &vec![ALICE, BOB]).unwrap();
    assert!(s.is_verified(ADMIN));
    assert!(s.is_verified(ALICE));
    assert!(s.is_verified(BOB));
    assert!(!s.is_verified(CAROL));
    assert!(!s.strict_mode());
    assert_eq!(s.admin(), ADMIN);
    assert_eq!(s.config, Some(Config { admin: ADMIN, token: TOKEN, fee_bps: 250, treasury: TREASURY }));
}

#[test]
fn second_initialize_changes_nothing() {
    let mut s = setup();
    s.splitter.set_strict_mode(true).unwrap();
    assert_eq!(s.splitter.initialize(ALICE, 99, 0, 98, &vec![BOB]), Err(Error::AlreadyInitialized));
    assert_eq!(s.splitter.admin(), ADMIN);
    assert!(s.splitter.strict_mode());
    assert!(!s.splitter.is_verified(ALICE));
    assert!(!s.splitter.is_verified(BOB));
}

#[test]
fn verification_status_reads_back() {
    let mut s = setup();
    s.splitter.set_verification_status(ALICE, true).unwrap();
    assert!(s.splitter.is_verified(ALICE));
    s.splitter.set_verification_status(ALICE, false).unwrap();
    assert!(!s.splitter.is_verified(ALICE));
    assert!(s.splitter.is_verified(ADMIN));
}

#[test]
fn strict_mode_needs_admin_and_reads_back() {
    let mut fresh = SplitterV3::new();
    assert_eq!(fresh.set_strict_mode(true), Err(Error::NotAdmin));
    assert!(!fresh.strict_mode());
    let mut s = setup();
    assert_eq!(s.splitter.set_strict_mode(true), Ok(ADMIN));
    assert!(s.splitter.strict_mode());
    assert_eq!(s.splitter.set_strict_mode(false), Ok(ADMIN));
    assert!(!s.splitter.strict_mode());
}

#[test]
fn shares_overflow_u32() {
    let rs = make_recipients(&[ALICE, BOB], &[u32::MAX, 1]);
    assert_eq!(check_shares(&rs), Err(Error::Overflow));
    let s = setup();
    assert!(matches!(s.splitter.split(&rs, 1_000), Err(Error::Overflow)));
}

#[test]
fn shares_must_be_whole() {
    assert_eq!(check_shares(&Vec::new()), Err(Error::InvalidSplit));
    assert_eq!(check_shares(&make_recipients(&[ALICE, BOB], &[6_000, 5_000])), Err(Error::InvalidSplit));
    assert_eq!(check_shares(&make_recipients(&[ALICE, BOB], &[6_000, 4_000])), Ok(10_000));
}

#[test]
fn bps_amount_rounds_toward_zero() {
    assert_eq!(bps_amount(15, 5_000), Ok(7));
    assert_eq!(bps_amount(-15, 5_000), Ok(-7));
    assert_eq!(bps_amount(1_000_000, 100), Ok(10_000));
    assert_eq!(bps_amount(i128::MAX, 2), Err(Error::Overflow));
}

#[test]
fn distribute_leaves_dust_and_skips_zero_cuts() {
    let rs = make_recipients(&[ALICE, BOB, CAROL], &[3_333, 3_333, 3_334]);
    let out = distribute(&rs, 100).unwrap();
    assert_eq!(
        out,
        vec![
            Transfer { to: ALICE, amount: 33 },
            Transfer { to: BOB, amount: 33 },
            Transfer { to: CAROL, amount: 33 },
        ]
    );
    let rs = make_recipients(&[ALICE, BOB], &[9_999, 1]);
    assert_eq!(distribute(&rs, 5_000).unwrap(), vec![Transfer { to: ALICE, amount: 4_999 }]);
    assert_eq!(distribute(&rs, i128::MAX), Err(Error::Overflow));
}

#[test]
fn fee_below_one_token_is_not_transferred() {
    let mut s = setup();
    s.splitter.set_verification_status(ALICE, true).unwrap();
    let plan = s.splitter.split(&make_recipients(&[ALICE], &[10_000]), 50).unwrap();
    assert_eq!(plan.fee, None);
    assert_eq!(plan.distributable, 50);
    assert_eq!(plan.payouts, vec![Transfer { to: ALICE, amount: 50 }]);
}

#[test]
fn zero_fee_rate_takes_nothing() {
    let mut s = SplitterV3::new();
    s.initialize(ADMIN, TOKEN, 0, TREASURY, &vec![ALICE]).unwrap();
    let plan = s.split(&make_recipients(&[ALICE], &[10_000]), 1_000).unwrap();
    assert_eq!(plan.fee, None);
    assert_eq!(plan.payouts, vec![Transfer { to: ALICE, amount: 1_000 }]);
}

#[test]
fn fee_overflow_is_an_error() {
    let mut s = setup();
    s.splitter.set_verification_status(ALICE, true).unwrap();
    let result = s.splitter.split(&make_recipients(&[ALICE], &[10_000]), i128::MAX);
    assert!(matches!(result, Err(Error::Overflow)));
}

#[test]
fn payout_overflow_is_an_error() {
    let mut s = SplitterV3::new();
    s.initialize(ADMIN, TOKEN, 0, TREASURY, &vec![ALICE]).unwrap();
    let result = s.split(&make_recipients(&[ALICE], &[10_000]), i128::MAX / 2);
    assert!(matches!(result, Err(Error::Overflow)));
}

#[test]
fn negative_amount_pays_nobody() {
    let mut s = setup();
    s.splitter.set_verification_status(ALICE, true).unwrap();
    let plan = s.splitter.split(&make_recipients(&[ALICE], &[10_000]), -1_000_001).unwrap();
    // fee = -100_000_100 / 10_000 rounded toward zero = -10_000
    assert_eq!(plan.fee, None);
    assert_eq!(plan.distributable, -990_001);
    assert!(plan.payouts.is_empty());
}

#[test]
fn rescaling_rounds_down() {
    let mut s = setup();
    s.splitter.set_verification_status(ALICE, true).unwrap();
    s.splitter.set_verification_status(BOB, true).unwrap();
    s.splitter.set_verification_status(CAROL, true).unwrap();
    let unverified = 30u64;
    // verified bps = 9_000: 3_000 -> 3_333 each, total 9_999 of the whole.
    let rs = make_recipients(&[ALICE, BOB, CAROL, unverified], &[3_000, 3_000, 3_000, 1_000]);
    let plan = s.splitter.split(&rs, 1_000_000).unwrap();
    assert_eq!(plan.distributable, 990_000);
    assert_eq!(
        plan.payouts,
        vec![
            Transfer { to: ALICE, amount: 329_967 },
            Transfer { to: BOB, amount: 329_967 },
            Transfer { to: CAROL, amount: 329_967 },
        ]
    );
}

#[test]
fn strict_mode_with_all_verified_pays_as_given() {
    let mut s = setup();
    s.splitter.set_verification_status(ALICE, true).unwrap();
    s.splitter.set_verification_status(BOB, true).unwrap();
    let rs = make_recipients(&[ALICE, BOB], &[7_000, 3_000]);
    let relaxed = s.splitter.split(&rs, 1_000_000).unwrap();
    s.splitter.set_strict_mode(true).unwrap();
    let strict = s.splitter.split(&rs, 1_000_000).unwrap();
    assert_eq!(relaxed.payouts, strict.payouts);
    assert_eq!(strict.payouts, vec![Transfer { to: ALICE, amount: 693_000 }, Transfer { to: BOB, amount: 297_000 }]);
}

#[test]
fn split_conserves_funds_and_pays_only_verified() {
    let mut s = setup();
    s.splitter.set_verification_status(ALICE, true).unwrap();
    s.splitter.set_verification_status(CAROL, true).unwrap();
    let rs = make_recipients(&[ALICE, BOB, CAROL], &[3_333, 3_334, 3_333]);
    let total = 999_999i128;
    let plan = s.splitter.split(&rs, total).unwrap();
    let fee = plan.fee.map(|f| f.amount).unwrap_or(0);
    let paid: i128 = plan.payouts.iter().map(|t| t.amount).sum();
    assert!(fee + paid <= total);
    assert!(paid <= plan.distributable);
    assert!(plan.payouts.iter().all(|t| s.splitter.is_verified(t.to)));
}

#[test]
fn split_that_would_divide_by_zero_is_flagged() {
    let mut s = setup();
    s.splitter.set_verification_status(ALICE, true).unwrap();
    let rs = make_recipients(&[ALICE, BOB], &[0, 10_000]);
    assert!(s.splitter.split_would_panic(&rs, 1_000));
    s.splitter.set_strict_mode(true).unwrap();
    assert!(!s.splitter.split_would_panic(&rs, 1_000));
    let uninitialized = SplitterV3::new();
    assert!(uninitialized.split_would_panic(&make_recipients(&[ALICE], &[10_000]), 1_000));
    assert!(!uninitialized.split_would_panic(&make_recipients(&[ALICE], &[1]), 1_000));
}
