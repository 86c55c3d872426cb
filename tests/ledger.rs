use tokens::ledger::{Error, Event, Module};

const ALICE: u64 = 1;
const BOB: u64 = 2;
const DOT: u64 = 1;
const BTC: u64 = 2;

fn endowed(list: Vec<(u64, u64, u64)>) -> Module {
    Module::initialize(&list).expect("allocations fit")
}

#[test]
fn transfer_moves_balance_and_keeps_issuance() {
    let mut m = endowed(vec![(ALICE, DOT, 100)]);
    assert_eq!(m.balance(DOT, BOB), 0);
    assert_eq!(m.transfer(DOT, ALICE, BOB, 30), Ok(()));
    assert_eq!(m.balance(DOT, ALICE), 70);
    assert_eq!(m.balance(DOT, BOB), 30);
    assert_eq!(m.total_issuance(DOT), 100);
}

#[test]
fn transfer_fails_when_balance_too_low() {
    let mut m = endowed(vec![(ALICE, DOT, 10)]);
    assert_eq!(m.transfer(DOT, ALICE, BOB, 11), Err(Error::BalanceTooLow));
    assert_eq!(m.balance(DOT, ALICE), 10);
    assert_eq!(m.balance(DOT, BOB), 0);
    assert_eq!(m.total_issuance(DOT), 10);
}

#[test]
fn transfer_leaves_other_assets_alone() {
    let mut m = endowed(vec![(ALICE, DOT, 100), (ALICE, BTC, 5), (BOB, BTC, 7)]);
    assert_eq!(m.transfer(DOT, ALICE, BOB, 100), Ok(()));
    assert_eq!(m.balance(DOT, ALICE), 0);
    assert_eq!(m.balance(DOT, BOB), 100);
    assert_eq!(m.balance(BTC, ALICE), 5);
    assert_eq!(m.balance(BTC, BOB), 7);
    assert_eq!(m.total_issuance(BTC), 12);
    assert_eq!(m.total_issuance(DOT), 100);
}

#[test]
fn self_transfer_changes_nothing() {
    let mut m = endowed(vec![(ALICE, DOT, 50)]);
    assert_eq!(m.transfer(DOT, ALICE, ALICE, 50), Ok(()));
    assert_eq!(m.balance(DOT, ALICE), 50);
    assert_eq!(m.total_issuance(DOT), 50);
    assert_eq!(m.transfer(DOT, ALICE, ALICE, 51), Err(Error::BalanceTooLow));
    assert_eq!(m.balance(DOT, ALICE), 50);
    assert_eq!(m.total_issuance(DOT), 50);
}

#[test]
fn deposit_overflowing_issuance_is_refused() {
    let mut m = endowed(vec![(BOB, DOT, u64::MAX - 5)]);
    assert_eq!(m.deposit(DOT, ALICE, 10), Err(Error::TotalIssuanceOverflow));
    assert_eq!(m.total_issuance(DOT), u64::MAX - 5);
    assert_eq!(m.balance(DOT, ALICE), 0);
    assert_eq!(m.deposit(DOT, ALICE, 5), Ok(()));
    assert_eq!(m.total_issuance(DOT), u64::MAX);
    assert_eq!(m.balance(DOT, ALICE), 5);
}

#[test]
fn deposit_credits_account_and_issuance() {
    let mut m = Module::new();
    assert_eq!(m.deposit(BTC, BOB, 42), Ok(()));
    assert_eq!(m.balance(BTC, BOB), 42);
    assert_eq!(m.total_issuance(BTC), 42);
    assert_eq!(m.total_issuance(DOT), 0);
}

#[test]
fn withdraw_more_than_held_is_refused() {
    let mut m = endowed(vec![(ALICE, DOT, 50)]);
    assert_eq!(m.withdraw(DOT, ALICE, 60), Err(Error::BalanceTooLow));
    assert_eq!(m.balance(DOT, ALICE), 50);
    assert_eq!(m.total_issuance(DOT), 50);
}

#[test]
fn withdraw_debits_account_and_issuance() {
    let mut m = endowed(vec![(ALICE, DOT, 50), (BOB, DOT, 20)]);
    assert_eq!(m.withdraw(DOT, ALICE, 50), Ok(()));
    assert_eq!(m.balance(DOT, ALICE), 0);
    assert_eq!(m.balance(DOT, BOB), 20);
    assert_eq!(m.total_issuance(DOT), 20);
}

#[test]
fn deposit_then_withdraw_restores_state() {
    let mut m = endowed(vec![(ALICE, DOT, 50), (BOB, BTC, 3)]);
    assert_eq!(m.deposit(DOT, ALICE, 25), Ok(()));
    assert_eq!(m.withdraw(DOT, ALICE, 25), Ok(()));
    assert_eq!(m.balance(DOT, ALICE), 50);
    assert_eq!(m.total_issuance(DOT), 50);
    assert_eq!(m.balance(BTC, BOB), 3);
    assert_eq!(m.total_issuance(BTC), 3);
}

#[test]
fn slash_beyond_balance_returns_remainder() {
    let mut m = endowed(vec![(ALICE, DOT, 50), (BOB, DOT, 10)]);
    assert_eq!(m.slash(DOT, ALICE, 80), 30);
    assert_eq!(m.balance(DOT, ALICE), 0);
    assert_eq!(m.total_issuance(DOT), 10);
    assert_eq!(m.balance(DOT, BOB), 10);
}

#[test]
fn slash_within_balance_returns_zero() {
    let mut m = endowed(vec![(ALICE, DOT, 50)]);
    assert_eq!(m.slash(DOT, ALICE, 20), 0);
    assert_eq!(m.balance(DOT, ALICE), 30);
    assert_eq!(m.total_issuance(DOT), 30);
    assert_eq!(m.slash(DOT, BOB, 7), 7);
    assert_eq!(m.balance(DOT, BOB), 0);
    assert_eq!(m.total_issuance(DOT), 30);
}

#[test]
fn ensure_can_withdraw_checks_only() {
    let m = endowed(vec![(ALICE, DOT, 50)]);
    assert_eq!(m.ensure_can_withdraw(DOT, ALICE, 50), Ok(()));
    assert_eq!(m.ensure_can_withdraw(DOT, ALICE, 51), Err(Error::BalanceTooLow));
    assert_eq!(m.ensure_can_withdraw(DOT, BOB, 0), Ok(()));
    assert_eq!(m.balance(DOT, ALICE), 50);
}

#[test]
fn update_balance_positive_deposits() {
    let mut m = endowed(vec![(ALICE, DOT, 50)]);
    assert_eq!(m.update_balance(DOT, ALICE, 20), Ok(()));
    assert_eq!(m.balance(DOT, ALICE), 70);
    assert_eq!(m.total_issuance(DOT), 70);
}

#[test]
fn update_balance_negative_withdraws() {
    let mut m = endowed(vec![(ALICE, DOT, 50)]);
    assert_eq!(m.update_balance(DOT, ALICE, -20), Ok(()));
    assert_eq!(m.balance(DOT, ALICE), 30);
    assert_eq!(m.total_issuance(DOT), 30);
    assert_eq!(m.update_balance(DOT, ALICE, -31), Err(Error::BalanceTooLow));
    assert_eq!(m.balance(DOT, ALICE), 30);
}

#[test]
fn update_balance_zero_is_a_zero_withdrawal() {
    let mut m = endowed(vec![(ALICE, DOT, 50)]);
    assert_eq!(m.update_balance(DOT, ALICE, 0), Ok(()));
    assert_eq!(m.update_balance(DOT, BOB, 0), Ok(()));
    assert_eq!(m.balance(DOT, ALICE), 50);
    assert_eq!(m.total_issuance(DOT), 50);
}

#[test]
fn update_balance_overflowing_issuance_is_refused() {
    let mut m = endowed(vec![(BOB, DOT, u64::MAX - 5)]);
    assert_eq!(m.update_balance(DOT, ALICE, 10), Err(Error::TotalIssuanceOverflow));
    assert_eq!(m.total_issuance(DOT), u64::MAX - 5);
}

#[test]
fn update_balance_with_oversized_amount_fails() {
    let mut m = endowed(vec![(ALICE, DOT, 50)]);
    let too_big = u64::MAX as i128 + 1;
    assert_eq!(m.update_balance(DOT, ALICE, too_big), Err(Error::AmountIntoBalanceFailed));
    assert_eq!(m.update_balance(DOT, ALICE, -too_big), Err(Error::AmountIntoBalanceFailed));
    assert_eq!(m.update_balance(DOT, ALICE, i128::MIN), Err(Error::AmountIntoBalanceFailed));
    assert_eq!(m.balance(DOT, ALICE), 50);
    assert_eq!(m.total_issuance(DOT), 50);
}

#[test]
fn update_balance_accepts_largest_magnitude() {
    let mut m = Module::new();
    assert_eq!(m.update_balance(DOT, ALICE, u64::MAX as i128), Ok(()));
    assert_eq!(m.balance(DOT, ALICE), u64::MAX);
    assert_eq!(m.update_balance(DOT, ALICE, -(u64::MAX as i128)), Ok(()));
    assert_eq!(m.balance(DOT, ALICE), 0);
    assert_eq!(m.total_issuance(DOT), 0);
}

#[test]
fn genesis_sets_balances_and_issuance() {
    let m = endowed(vec![(ALICE, DOT, 40), (BOB, DOT, 60)]);
    assert_eq!(m.total_issuance(DOT), 100);
    assert_eq!(m.balance(DOT, ALICE), 40);
    assert_eq!(m.balance(DOT, BOB), 60);
    assert_eq!(m.total_issuance(BTC), 0);
}

#[test]
fn genesis_adds_up_repeated_allocations() {
    let m = endowed(vec![(ALICE, DOT, 40), (ALICE, DOT, 2), (BOB, BTC, 9)]);
    assert_eq!(m.balance(DOT, ALICE), 42);
    assert_eq!(m.total_issuance(DOT), 42);
    assert_eq!(m.balance(BTC, BOB), 9);
    assert_eq!(m.total_issuance(BTC), 9);
}

#[test]
fn genesis_overflow_is_refused() {
    let list = vec![(ALICE, DOT, u64::MAX), (BOB, BTC, 1), (BOB, DOT, 1)];
    assert!(matches!(Module::initialize(&list), Err(Error::TotalIssuanceOverflow)));
    let empty: Vec<(u64, u64, u64)> = Vec::new();
    let m = Module::initialize(&empty).expect("empty list");
    assert_eq!(m.total_issuance(DOT), 0);
}

#[test]
fn issuance_equals_sum_of_balances_after_operations() {
    let mut m = endowed(vec![(ALICE, DOT, 40), (BOB, DOT, 60), (3, DOT, 1)]);
    assert_eq!(m.transfer(DOT, ALICE, BOB, 15), Ok(()));
    assert_eq!(m.deposit(DOT, 3, 9), Ok(()));
    assert_eq!(m.withdraw(DOT, BOB, 5), Ok(()));
    assert_eq!(m.slash(DOT, ALICE, 100), 75);
    assert_eq!(m.update_balance(DOT, 3, -4), Ok(()));
    let sum = m.balance(DOT, ALICE) + m.balance(DOT, BOB) + m.balance(DOT, 3);
    assert_eq!(m.total_issuance(DOT), sum);
    assert_eq!(sum, 76);
}

#[test]
fn handle_transfer_reports_event() {
    let mut m = endowed(vec![(ALICE, DOT, 100)]);
    assert_eq!(m.handle_transfer(ALICE, BOB, DOT, 30), Ok(Event::Transferred(DOT, ALICE, BOB, 30)));
    assert_eq!(m.balance(DOT, BOB), 30);
    assert_eq!(m.handle_transfer(BOB, ALICE, DOT, 31), Err(Error::BalanceTooLow));
    assert_eq!(m.balance(DOT, BOB), 30);
}
