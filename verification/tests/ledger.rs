use candid::Principal;
use splitwise_ledger::ledger::{Ledger, LedgerError};

fn party(tag: u8) -> Principal {
    Principal::from_slice(&[tag, 1])
}

fn sum(ledger: &Ledger) -> i128 {
    ledger
        .get_all_user_balances()
        .iter()
        .map(|entry| entry.1 as i128)
        .sum()
}

#[test]
fn new_ledger_is_empty() {
    let ledger = Ledger::new();
    assert_eq!(ledger.get_all_user_balances(), vec![]);
    assert_eq!(sum(&ledger), 0);
}

#[test]
fn even_split_among_three() {
    let (a, b, c) = (party(1), party(2), party(3));
    let mut ledger = Ledger::new();
    assert_eq!(ledger.record_expense(a, a, 90, vec![a, b, c]), Ok(()));
    assert_eq!(ledger.get_net_balance_with_user(a), 60);
    assert_eq!(ledger.get_net_balance_with_user(b), -30);
    assert_eq!(ledger.get_net_balance_with_user(c), -30);
    assert_eq!(sum(&ledger), 0);
}

#[test]
fn settlement_nets_the_smaller_amount() {
    let (a, b, c) = (party(1), party(2), party(3));
    let mut ledger = Ledger::new();
    assert_eq!(ledger.record_expense(b, b, 50, vec![a]), Ok(()));
    assert_eq!(ledger.record_expense(b, b, 30, vec![c]), Ok(()));
    assert_eq!(ledger.get_net_balance_with_user(a), -50);
    assert_eq!(ledger.get_net_balance_with_user(b), 80);
    ledger.settle_balance_with_user(a, b);
    assert_eq!(ledger.get_net_balance_with_user(a), 0);
    assert_eq!(ledger.get_net_balance_with_user(b), 30);
    assert_eq!(ledger.get_net_balance_with_user(c), -30);
    assert_eq!(sum(&ledger), 0);
}

#[test]
fn settlement_is_bounded_by_what_the_creditor_is_owed() {
    let (a, b, c) = (party(1), party(2), party(3));
    let mut ledger = Ledger::new();
    assert_eq!(ledger.record_expense(c, c, 80, vec![a]), Ok(()));
    assert_eq!(ledger.record_expense(b, b, 30, vec![c]), Ok(()));
    assert_eq!(ledger.get_net_balance_with_user(a), -80);
    assert_eq!(ledger.get_net_balance_with_user(b), 30);
    ledger.settle_balance_with_user(a, b);
    assert_eq!(ledger.get_net_balance_with_user(a), -50);
    assert_eq!(ledger.get_net_balance_with_user(b), 0);
    assert_eq!(ledger.get_net_balance_with_user(c), 50);
}

#[test]
fn settlement_does_nothing_when_the_caller_owes_nothing() {
    let (a, b, c) = (party(1), party(2), party(3));
    let mut ledger = Ledger::new();
    assert_eq!(ledger.record_expense(a, a, 10, vec![c]), Ok(()));
    assert_eq!(ledger.record_expense(b, b, 5, vec![c]), Ok(()));
    assert_eq!(ledger.get_net_balance_with_user(a), 10);
    assert_eq!(ledger.get_net_balance_with_user(b), 5);
    let before = ledger.get_all_user_balances();
    ledger.settle_balance_with_user(a, b);
    assert_eq!(ledger.get_all_user_balances(), before);
}

#[test]
fn settlement_is_not_tried_the_other_way_round() {
    let (a, b) = (party(1), party(2));
    let mut ledger = Ledger::new();
    assert_eq!(ledger.record_expense(a, a, 40, vec![b]), Ok(()));
    let before = ledger.get_all_user_balances();
    // the caller is owed and the other party owes: nothing happens
    ledger.settle_balance_with_user(a, b);
    assert_eq!(ledger.get_all_user_balances(), before);
    // the debtor settles with its creditor
    ledger.settle_balance_with_user(b, a);
    assert_eq!(ledger.get_all_user_balances(), vec![(b, 0), (a, 0)]);
}

#[test]
fn settlement_with_oneself_or_a_stranger_does_nothing() {
    let (a, b, stranger) = (party(1), party(2), party(9));
    let mut ledger = Ledger::new();
    assert_eq!(ledger.record_expense(a, a, 40, vec![b]), Ok(()));
    let before = ledger.get_all_user_balances();
    ledger.settle_balance_with_user(b, b);
    ledger.settle_balance_with_user(a, a);
    ledger.settle_balance_with_user(b, stranger);
    ledger.settle_balance_with_user(stranger, a);
    assert_eq!(ledger.get_all_user_balances(), before);
}

#[test]
fn settlement_of_the_largest_debt() {
    let (a, b, c) = (party(1), party(2), party(3));
    let mut ledger = Ledger::new();
    assert_eq!(ledger.record_expense(b, b, i64::MAX, vec![a]), Ok(()));
    assert_eq!(ledger.record_expense(c, c, 1, vec![a]), Ok(()));
    assert_eq!(ledger.get_net_balance_with_user(a), i64::MIN);
    ledger.settle_balance_with_user(a, b);
    assert_eq!(ledger.get_net_balance_with_user(a), -1);
    assert_eq!(ledger.get_net_balance_with_user(b), 0);
    assert_eq!(ledger.get_net_balance_with_user(c), 1);
}

#[test]
fn only_the_payer_may_record() {
    let (a, b, c) = (party(1), party(2), party(3));
    let mut ledger = Ledger::new();
    assert_eq!(ledger.record_expense(a, a, 90, vec![a, b, c]), Ok(()));
    let before = ledger.get_all_user_balances();
    assert_eq!(
        ledger.record_expense(a, b, 60, vec![a, b, c]),
        Err(LedgerError::Unauthorized)
    );
    assert_eq!(ledger.get_all_user_balances(), before);
    assert_eq!(ledger.get_net_balance_with_user(a), 60);
    assert_eq!(ledger.get_net_balance_with_user(b), -30);
    assert_eq!(ledger.get_net_balance_with_user(c), -30);
}

#[test]
fn a_wrong_payer_is_reported_before_missing_participants() {
    let (a, b) = (party(1), party(2));
    let mut ledger = Ledger::new();
    assert_eq!(
        ledger.record_expense(a, b, 60, vec![]),
        Err(LedgerError::Unauthorized)
    );
    assert_eq!(ledger.get_all_user_balances(), vec![]);
}

#[test]
fn no_participants_is_invalid_input() {
    let a = party(1);
    let mut ledger = Ledger::new();
    assert_eq!(
        ledger.record_expense(a, a, 100, vec![]),
        Err(LedgerError::InvalidInput)
    );
    assert_eq!(ledger.get_all_user_balances(), vec![]);
    assert_eq!(ledger.get_net_balance_with_user(a), 0);
}

#[test]
fn split_expense_follows_the_same_rules() {
    let (a, b, c) = (party(1), party(2), party(3));
    let mut ledger = Ledger::new();
    assert_eq!(ledger.split_expense(a, a, 90, vec![a, b, c]), Ok(()));
    assert_eq!(
        ledger.get_all_user_balances(),
        vec![(a, 60), (b, -30), (c, -30)]
    );
    assert_eq!(
        ledger.split_expense(a, b, 90, vec![a]),
        Err(LedgerError::Unauthorized)
    );
    assert_eq!(
        ledger.split_expense(a, a, 90, vec![]),
        Err(LedgerError::InvalidInput)
    );
    assert_eq!(
        ledger.get_all_user_balances(),
        vec![(a, 60), (b, -30), (c, -30)]
    );
}

#[test]
fn a_participant_listed_twice_pays_twice() {
    let (a, b, c) = (party(1), party(2), party(3));
    let mut ledger = Ledger::new();
    assert_eq!(ledger.record_expense(a, a, 90, vec![b, c, b]), Ok(()));
    assert_eq!(
        ledger.get_all_user_balances(),
        vec![(b, -60), (c, -30), (a, 90)]
    );
    assert_eq!(sum(&ledger), 0);
}

#[test]
fn the_payer_keeps_its_own_share() {
    let (a, b) = (party(1), party(2));
    let mut ledger = Ledger::new();
    assert_eq!(ledger.record_expense(a, a, 100, vec![a, b]), Ok(()));
    assert_eq!(ledger.get_net_balance_with_user(a), 50);
    assert_eq!(ledger.get_net_balance_with_user(b), -50);
}

#[test]
fn the_remainder_is_not_handed_out() {
    let (a, b, c, d) = (party(1), party(2), party(3), party(4));
    let mut ledger = Ledger::new();
    assert_eq!(ledger.record_expense(a, a, 100, vec![b, c, d]), Ok(()));
    assert_eq!(
        ledger.get_all_user_balances(),
        vec![(b, -33), (c, -33), (d, -33), (a, 100)]
    );
    assert_eq!(sum(&ledger), 1);
}

#[test]
fn a_negative_amount_is_divided_toward_zero() {
    let (a, b, c, d) = (party(1), party(2), party(3), party(4));
    let mut ledger = Ledger::new();
    assert_eq!(ledger.record_expense(a, a, -100, vec![b, c, d]), Ok(()));
    assert_eq!(
        ledger.get_all_user_balances(),
        vec![(b, 33), (c, 33), (d, 33), (a, -100)]
    );
}

#[test]
fn a_share_of_zero_still_lists_the_participants() {
    let (a, b, c) = (party(1), party(2), party(3));
    let mut ledger = Ledger::new();
    assert_eq!(ledger.record_expense(a, a, 2, vec![b, c, b]), Ok(()));
    assert_eq!(
        ledger.get_all_user_balances(),
        vec![(b, 0), (c, 0), (a, 2)]
    );
}

#[test]
fn parties_are_listed_in_order_of_first_touch() {
    let (a, b, c, d) = (party(1), party(2), party(3), party(4));
    let mut ledger = Ledger::new();
    assert_eq!(ledger.record_expense(c, c, 10, vec![b, c]), Ok(()));
    assert_eq!(ledger.record_expense(a, a, 9, vec![d, b, a]), Ok(()));
    assert_eq!(
        ledger.get_all_user_balances(),
        vec![(b, -8), (c, 5), (d, -3), (a, 6)]
    );
}

#[test]
fn an_unknown_party_has_a_balance_of_zero() {
    let (a, b, stranger) = (party(1), party(2), party(9));
    let mut ledger = Ledger::new();
    assert_eq!(ledger.get_net_balance_with_user(stranger), 0);
    assert_eq!(ledger.get_total_net_balance(stranger), 0);
    assert_eq!(ledger.record_expense(a, a, 10, vec![b]), Ok(()));
    assert_eq!(ledger.get_net_balance_with_user(stranger), 0);
    assert_eq!(ledger.get_total_net_balance(stranger), 0);
    assert_eq!(ledger.get_all_user_balances(), vec![(b, -10), (a, 10)]);
}

#[test]
fn the_total_net_balance_is_the_callers_own() {
    let (a, b, c) = (party(1), party(2), party(3));
    let mut ledger = Ledger::new();
    assert_eq!(ledger.record_expense(a, a, 90, vec![a, b, c]), Ok(()));
    assert_eq!(ledger.get_total_net_balance(a), 60);
    assert_eq!(ledger.get_total_net_balance(b), -30);
    assert_eq!(ledger.get_total_net_balance(c), -30);
}

#[test]
fn reading_twice_gives_the_same() {
    let (a, b, c) = (party(1), party(2), party(3));
    let mut ledger = Ledger::new();
    assert_eq!(ledger.record_expense(a, a, 90, vec![a, b, c]), Ok(()));
    let first = ledger.get_net_balance_with_user(b);
    let second = ledger.get_net_balance_with_user(b);
    assert_eq!(first, -30);
    assert_eq!(first, second);
    let all = ledger.get_all_user_balances();
    assert_eq!(all, vec![(a, 60), (b, -30), (c, -30)]);
    assert_eq!(ledger.get_all_user_balances(), all);
    assert_eq!(ledger.get_total_net_balance(a), 60);
    assert_eq!(ledger.get_net_balance_with_user(b), -30);
}

#[test]
fn exact_amounts_keep_the_sum_at_zero() {
    let (a, b, c, d) = (party(1), party(2), party(3), party(4));
    let mut ledger = Ledger::new();
    assert_eq!(ledger.record_expense(a, a, 90, vec![a, b, c]), Ok(()));
    assert_eq!(sum(&ledger), 0);
    assert_eq!(ledger.split_expense(b, b, 44, vec![d, d, a, c]), Ok(()));
    assert_eq!(sum(&ledger), 0);
    ledger.settle_balance_with_user(c, a);
    assert_eq!(sum(&ledger), 0);
    ledger.settle_balance_with_user(d, b);
    assert_eq!(sum(&ledger), 0);
    assert_eq!(ledger.record_expense(d, d, -12, vec![a, b]), Ok(()));
    assert_eq!(sum(&ledger), 0);
    assert_eq!(
        ledger.get_all_user_balances(),
        vec![(a, 14), (b, 6), (c, 0), (d, -20)]
    );
}

#[test]
fn principals_are_told_apart_by_their_bytes() {
    let anonymous = Principal::anonymous();
    let management = Principal::management_canister();
    let short = Principal::from_slice(&[7]);
    let long = Principal::from_slice(&[7, 0]);
    let mut ledger = Ledger::new();
    assert_eq!(
        ledger.record_expense(short, short, 40, vec![anonymous, management, long, short]),
        Ok(())
    );
    assert_eq!(
        ledger.get_all_user_balances(),
        vec![(anonymous, -10), (management, -10), (long, -10), (short, 30)]
    );
    assert_eq!(
        ledger.get_net_balance_with_user(Principal::from_slice(&[4])),
        -10
    );
    assert_eq!(
        ledger.record_expense(short, long, 40, vec![anonymous]),
        Err(LedgerError::Unauthorized)
    );
}

#[test]
fn checked_recording_succeeds_like_recording() {
    let (a, b, c) = (party(1), party(2), party(3));
    let mut ledger = Ledger::new();
    assert_eq!(
        ledger.checked_record_expense(a, a, 90, vec![a, b, c]),
        Some(Ok(()))
    );
    assert_eq!(
        ledger.get_all_user_balances(),
        vec![(a, 60), (b, -30), (c, -30)]
    );
    assert_eq!(
        ledger.checked_record_expense(a, b, 90, vec![a, b, c]),
        Some(Err(LedgerError::Unauthorized))
    );
    assert_eq!(
        ledger.checked_record_expense(a, a, 90, vec![]),
        Some(Err(LedgerError::InvalidInput))
    );
    assert_eq!(
        ledger.get_all_user_balances(),
        vec![(a, 60), (b, -30), (c, -30)]
    );
}

#[test]
fn checked_recording_refuses_a_balance_out_of_range() {
    let (a, b, c) = (party(1), party(2), party(3));
    let mut ledger = Ledger::new();
    assert_eq!(
        ledger.checked_record_expense(a, a, i64::MAX, vec![b]),
        Some(Ok(()))
    );
    let before = ledger.get_all_user_balances();
    assert_eq!(before, vec![(b, -i64::MAX), (a, i64::MAX)]);
    // the payer's balance would pass the upper end
    assert_eq!(ledger.checked_record_expense(a, a, 1, vec![c]), None);
    assert_eq!(ledger.get_all_user_balances(), before);
    // a participant's balance would pass the lower end
    assert_eq!(ledger.checked_record_expense(c, c, 2, vec![b]), None);
    assert_eq!(ledger.get_all_user_balances(), before);
    // the lower end itself is in range
    assert_eq!(ledger.checked_record_expense(c, c, 1, vec![b]), Some(Ok(())));
    assert_eq!(
        ledger.get_all_user_balances(),
        vec![(b, i64::MIN), (a, i64::MAX), (c, 1)]
    );
}

#[test]
fn checked_recording_looks_at_the_balances_that_result() {
    let (a, b, c) = (party(1), party(2), party(3));
    let mut ledger = Ledger::new();
    assert_eq!(
        ledger.checked_record_expense(b, b, i64::MAX, vec![a]),
        Some(Ok(()))
    );
    // debit and credit of the payer are taken together
    assert_eq!(
        ledger.checked_record_expense(a, a, 90, vec![a, b, c]),
        Some(Ok(()))
    );
    assert_eq!(
        ledger.get_all_user_balances(),
        vec![(a, i64::MIN + 61), (b, i64::MAX - 30), (c, -30)]
    );
}

#[test]
fn the_whole_range_of_amounts_can_be_recorded() {
    let (a, b, c) = (party(1), party(2), party(3));
    let mut ledger = Ledger::new();
    // the one participant would be owed one more than fits
    assert_eq!(
        ledger.checked_record_expense(a, a, i64::MIN, vec![b]),
        None
    );
    assert_eq!(
        ledger.checked_record_expense(a, a, i64::MIN, vec![b, b]),
        None
    );
    assert_eq!(ledger.get_all_user_balances(), vec![]);
    assert_eq!(
        ledger.checked_record_expense(a, a, i64::MIN, vec![b, c]),
        Some(Ok(()))
    );
    assert_eq!(
        ledger.get_all_user_balances(),
        vec![(b, 1 << 62), (c, 1 << 62), (a, i64::MIN)]
    );
    assert_eq!(
        ledger.checked_record_expense(b, b, i64::MAX, vec![a, a, a]),
        None
    );
    assert_eq!(
        ledger.checked_record_expense(a, a, i64::MAX, vec![a]),
        Some(Ok(()))
    );
    assert_eq!(
        ledger.get_all_user_balances(),
        vec![(b, 1 << 62), (c, 1 << 62), (a, i64::MIN)]
    );
}
