use inheritance::{Identity, InheritanceContract, InheritanceError};

const T0: u64 = 1_700_000_000;
const DAY: u64 = 86400;

fn id(n: u128) -> Identity {
    Identity::new(0, n)
}

fn owner() -> Identity {
    Identity::new(7, 1)
}

fn b1() -> Identity {
    id(11)
}

fn b2() -> Identity {
    id(22)
}

fn ok_transfer(_to: Identity, _amount: u128) -> bool {
    true
}

fn failing_transfer(_to: Identity, _amount: u128) -> bool {
    false
}

fn two_beneficiary_plan(deposit: u128) -> InheritanceContract {
    let mut r = InheritanceContract::new();
    r.create_inheritance_plan(owner(), vec![b1(), b2()], 1, deposit, T0).unwrap();
    r
}

fn locked_plan() -> InheritanceContract {
    let mut r = two_beneficiary_plan(100);
    r.add_funds(owner(), 50).unwrap();
    r.lock_share(owner(), T0 + DAY + 1).unwrap();
    r
}

#[test]
fn create_plan_reports_details() {
    let r = two_beneficiary_plan(100);
    assert_eq!(r.get_plan_details(owner()), Ok((100, 2, T0, 86400, 0, false)));
    assert_eq!(r.get_owner_count(), 1);
    assert!(r.owner_exists(owner()));
}

#[test]
fn add_funds_then_withdraw_all() {
    let mut r = two_beneficiary_plan(100);
    r.add_funds(owner(), 50).unwrap();
    assert_eq!(r.get_plan_details(owner()).unwrap().0, 150);
    let mut paid: Vec<(Identity, u128)> = Vec::new();
    let got = r.withdraw_all(owner(), |to, amount| {
        paid.push((to, amount));
        true
    });
    assert_eq!(got, Ok(150));
    assert_eq!(paid, vec![(owner(), 150)]);
    assert!(!r.owner_exists(owner()));
    assert_eq!(r.get_owner_count(), 0);
    assert_eq!(r.get_plan_details(owner()), Err(InheritanceError::PlanNotFound));
}

#[test]
fn lock_share_after_expiry() {
    let r = locked_plan();
    let d = r.get_plan_details(owner()).unwrap();
    assert!(d.5);
    assert_eq!(d.4, 75);
    assert_eq!(d.0, 150);
}

#[test]
fn first_redeem_pays_one_share() {
    let mut r = locked_plan();
    let mut paid: Vec<(Identity, u128)> = Vec::new();
    let got = r.redeem(owner(), b1(), T0 + DAY + 2, |to, amount| {
        paid.push((to, amount));
        true
    });
    assert_eq!(got, Ok(75));
    assert_eq!(paid, vec![(b1(), 75)]);
    assert_eq!(r.is_beneficiary(owner(), b1()), Ok(false));
    assert_eq!(r.has_claimed(owner(), b1()), Ok(true));
    let d = r.get_plan_details(owner()).unwrap();
    assert_eq!(d.0, 75);
    assert_eq!(d.1, 1);
    assert!(r.owner_exists(owner()));
    assert_eq!(r.get_owner_count(), 1);
}

#[test]
fn second_redeem_drains_plan() {
    let mut r = locked_plan();
    assert_eq!(r.redeem(owner(), b1(), T0 + DAY + 2, ok_transfer), Ok(75));
    assert_eq!(r.redeem(owner(), b2(), T0 + DAY + 3, ok_transfer), Ok(75));
    assert!(!r.owner_exists(owner()));
    assert_eq!(r.get_owner_count(), 0);
    assert_eq!(r.get_plan_details(owner()), Err(InheritanceError::PlanNotFound));
}

#[test]
fn beneficiary_limit_duplicate_and_zero() {
    let mut r = InheritanceContract::new();
    r.create_inheritance_plan(owner(), vec![id(1), id(2), id(3), id(4), id(5)], 1, 10, T0).unwrap();
    let before = r.get_plan_details(owner());
    assert_eq!(r.add_beneficiary(owner(), id(6)), Err(InheritanceError::BeneficiaryLimitExceeded));
    assert_eq!(r.get_plan_details(owner()), before);
    r.remove_beneficiary(owner(), id(5)).unwrap();
    let before = r.get_plan_details(owner());
    assert_eq!(r.add_beneficiary(owner(), id(1)), Err(InheritanceError::DuplicateBeneficiary));
    assert_eq!(r.add_beneficiary(owner(), id(0)), Err(InheritanceError::InvalidBeneficiary));
    assert_eq!(r.get_plan_details(owner()), before);
    assert_eq!(r.is_beneficiary(owner(), id(6)), Ok(false));
}

#[test]
fn creation_skips_zero_and_repeated_identities() {
    let mut r = InheritanceContract::new();
    let list = vec![id(0), id(1), id(1), id(2), id(3), id(0), id(4), id(5), id(6)];
    r.create_inheritance_plan(owner(), list, 2, 0, T0).unwrap();
    assert_eq!(r.get_plan_details(owner()), Ok((0, 5, T0, 2 * 86400, 0, false)));
    for n in 1..=5u128 {
        assert_eq!(r.is_beneficiary(owner(), id(n)), Ok(true));
    }
    assert_eq!(r.is_beneficiary(owner(), id(6)), Ok(false));
    assert_eq!(r.is_beneficiary(owner(), id(0)), Ok(false));
}

#[test]
fn second_plan_for_same_owner_is_refused() {
    let mut r = two_beneficiary_plan(100);
    assert_eq!(
        r.create_inheritance_plan(owner(), vec![b1()], 3, 5, T0 + 1),
        Err(InheritanceError::PlanAlreadyExists)
    );
    assert_eq!(r.get_plan_details(owner()), Ok((100, 2, T0, 86400, 0, false)));
    assert_eq!(r.get_owner_count(), 1);
}

#[test]
fn redeem_again_is_already_claimed() {
    let mut r = locked_plan();
    assert_eq!(r.redeem(owner(), b1(), T0 + DAY + 2, ok_transfer), Ok(75));
    let before = r.get_plan_details(owner());
    assert_eq!(r.redeem(owner(), b1(), T0 + DAY + 9, ok_transfer), Err(InheritanceError::AlreadyClaimed));
    assert_eq!(r.get_plan_details(owner()), before);
    assert_eq!(r.has_claimed(owner(), b1()), Ok(true));
}

#[test]
fn failed_redeem_transfer_rolls_back() {
    let mut r = two_beneficiary_plan(150);
    let now = T0 + DAY;
    assert_eq!(r.redeem(owner(), b2(), now, failing_transfer), Err(InheritanceError::TransferFailed));
    assert_eq!(r.get_plan_details(owner()), Ok((150, 2, T0, 86400, 0, false)));
    assert_eq!(r.is_beneficiary(owner(), b2()), Ok(true));
    assert_eq!(r.has_claimed(owner(), b2()), Ok(false));
    assert_eq!(r.get_owner_count(), 1);
}

#[test]
fn failed_last_redeem_reactivates_plan() {
    let mut r = locked_plan();
    assert_eq!(r.redeem(owner(), b1(), T0 + DAY + 2, ok_transfer), Ok(75));
    assert_eq!(r.redeem(owner(), b2(), T0 + DAY + 3, failing_transfer), Err(InheritanceError::TransferFailed));
    assert!(r.owner_exists(owner()));
    assert_eq!(r.get_owner_count(), 1);
    assert_eq!(r.get_plan_details(owner()), Ok((75, 1, T0, 86400, 75, true)));
    assert_eq!(r.is_beneficiary(owner(), b2()), Ok(true));
    assert_eq!(r.has_claimed(owner(), b2()), Ok(false));
}

#[test]
fn failed_withdraw_transfer_rolls_back() {
    let mut r = two_beneficiary_plan(100);
    assert_eq!(r.withdraw_all(owner(), failing_transfer), Err(InheritanceError::TransferFailed));
    assert!(r.owner_exists(owner()));
    assert_eq!(r.get_owner_count(), 1);
    assert_eq!(r.get_plan_details(owner()), Ok((100, 2, T0, 86400, 0, false)));
}

#[test]
fn remainder_of_division_stays_behind() {
    let mut r = two_beneficiary_plan(101);
    let now = T0 + DAY;
    assert_eq!(r.redeem(owner(), b1(), now, ok_transfer), Ok(50));
    assert_eq!(r.get_plan_details(owner()), Ok((51, 1, T0, 86400, 50, true)));
    assert_eq!(r.redeem(owner(), b2(), now, ok_transfer), Ok(50));
    assert!(!r.owner_exists(owner()));
    assert_eq!(r.get_owner_count(), 0);
}

#[test]
fn recreated_plan_starts_clean() {
    let mut r = locked_plan();
    r.redeem(owner(), b1(), T0 + DAY + 2, ok_transfer).unwrap();
    r.redeem(owner(), b2(), T0 + DAY + 2, ok_transfer).unwrap();
    r.create_inheritance_plan(owner(), vec![b1()], 1, 40, T0 + 5 * DAY).unwrap();
    assert_eq!(r.get_plan_details(owner()), Ok((40, 1, T0 + 5 * DAY, 86400, 0, false)));
    assert_eq!(r.has_claimed(owner(), b1()), Ok(false));
    assert_eq!(r.get_owner_count(), 1);
    assert_eq!(r.redeem(owner(), b1(), T0 + 6 * DAY, ok_transfer), Ok(40));
}

#[test]
fn count_follows_beneficiary_changes() {
    let mut r = two_beneficiary_plan(10);
    r.add_beneficiary(owner(), id(3)).unwrap();
    assert_eq!(r.get_plan_details(owner()).unwrap().1, 3);
    r.remove_beneficiary(owner(), b1()).unwrap();
    assert_eq!(r.get_plan_details(owner()).unwrap().1, 2);
    assert_eq!(r.remove_beneficiary(owner(), b1()), Err(InheritanceError::NotABeneficiary));
    assert_eq!(r.get_plan_details(owner()).unwrap().1, 2);
}

#[test]
fn locked_share_does_not_move() {
    let mut r = locked_plan();
    let now = T0 + DAY + 2;
    assert_eq!(r.add_funds(owner(), 10), Err(InheritanceError::PlanLocked));
    assert_eq!(r.add_beneficiary(owner(), id(9)), Err(InheritanceError::PlanLocked));
    assert_eq!(r.remove_beneficiary(owner(), b1()), Err(InheritanceError::PlanLocked));
    assert_eq!(r.reset_timer(owner(), now), Err(InheritanceError::PlanLocked));
    assert_eq!(r.withdraw_all(owner(), ok_transfer), Err(InheritanceError::PlanLocked));
    assert_eq!(r.lock_share(owner(), now), Err(InheritanceError::AlreadyLocked));
    r.redeem(owner(), b1(), now, ok_transfer).unwrap();
    assert_eq!(r.get_plan_details(owner()).unwrap().4, 75);
}

#[test]
fn lock_before_expiry_is_refused() {
    let mut r = two_beneficiary_plan(100);
    assert_eq!(r.lock_share(owner(), T0 + DAY - 1), Err(InheritanceError::PlanNotExpired));
    assert_eq!(r.is_owner_expired(owner(), T0 + DAY - 1), Ok(false));
    assert_eq!(r.is_owner_expired(owner(), T0 + DAY), Ok(true));
    assert_eq!(r.redeem(owner(), b1(), T0 + DAY - 1, ok_transfer), Err(InheritanceError::PlanNotExpired));
}

#[test]
fn reset_timer_moves_expiry() {
    let mut r = two_beneficiary_plan(100);
    r.reset_timer(owner(), T0 + DAY - 1).unwrap();
    assert_eq!(r.is_owner_expired(owner(), T0 + DAY), Ok(false));
    assert_eq!(r.get_plan_details(owner()).unwrap().2, T0 + DAY - 1);
    assert_eq!(r.lock_share(owner(), T0 + DAY), Err(InheritanceError::PlanNotExpired));
}

#[test]
fn lock_without_beneficiaries_or_funds() {
    let mut r = InheritanceContract::new();
    r.create_inheritance_plan(owner(), vec![], 1, 100, T0).unwrap();
    assert_eq!(r.lock_share(owner(), T0 + DAY), Err(InheritanceError::NoBeneficiaries));
    let other = id(99);
    r.create_inheritance_plan(other, vec![b1()], 1, 0, T0).unwrap();
    assert_eq!(r.lock_share(other, T0 + DAY), Err(InheritanceError::NoFunds));
    assert_eq!(r.redeem(other, b1(), T0 + DAY, ok_transfer), Err(InheritanceError::NoFunds));
    assert_eq!(r.withdraw_all(other, ok_transfer), Err(InheritanceError::NoFunds));
    assert_eq!(r.get_owner_count(), 2);
}

#[test]
fn share_of_zero_cannot_be_redeemed() {
    let mut r = two_beneficiary_plan(1);
    assert_eq!(r.redeem(owner(), b1(), T0 + DAY, ok_transfer), Err(InheritanceError::NoFundsToRedeem));
    assert_eq!(r.get_plan_details(owner()), Ok((1, 2, T0, 86400, 0, false)));
    r.lock_share(owner(), T0 + DAY).unwrap();
    assert_eq!(r.get_plan_details(owner()), Ok((1, 2, T0, 86400, 0, true)));
    assert_eq!(r.redeem(owner(), b1(), T0 + DAY, ok_transfer), Err(InheritanceError::NoFundsToRedeem));
}

#[test]
fn unknown_owner_and_stranger() {
    let mut r = two_beneficiary_plan(100);
    let nobody = id(500);
    assert_eq!(r.add_funds(nobody, 1), Err(InheritanceError::PlanNotFound));
    assert_eq!(r.add_beneficiary(nobody, b1()), Err(InheritanceError::PlanNotFound));
    assert_eq!(r.remove_beneficiary(nobody, b1()), Err(InheritanceError::PlanNotFound));
    assert_eq!(r.reset_timer(nobody, T0), Err(InheritanceError::PlanNotFound));
    assert_eq!(r.lock_share(nobody, T0 + DAY), Err(InheritanceError::PlanNotFound));
    assert_eq!(r.withdraw_all(nobody, ok_transfer), Err(InheritanceError::PlanNotFound));
    assert_eq!(r.redeem(nobody, b1(), T0 + DAY, ok_transfer), Err(InheritanceError::PlanNotFound));
    assert_eq!(r.is_owner_expired(nobody, T0), Err(InheritanceError::PlanNotFound));
    assert_eq!(r.is_beneficiary(nobody, b1()), Err(InheritanceError::PlanNotFound));
    assert_eq!(r.has_claimed(nobody, b1()), Err(InheritanceError::PlanNotFound));
    assert_eq!(r.redeem(owner(), nobody, T0 + DAY, ok_transfer), Err(InheritanceError::NotABeneficiary));
    assert!(!r.owner_exists(nobody));
}

#[test]
fn zero_identity_is_zero() {
    assert!(Identity::new(0, 0).is_zero());
    assert!(!Identity::new(1, 0).is_zero());
    assert!(!Identity::new(0, 1).is_zero());
}
