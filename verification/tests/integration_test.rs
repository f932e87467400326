use requests_contract::bignum::{BigUint, BASE};
use requests_contract::ledger::{Address, LedgerError, RequestsContract};

fn owner() -> Address {
    Address::new(vec![1u8; 32])
}

fn stranger() -> Address {
    Address::new(vec![2u8; 32])
}

/// A payment of `n` whole currency units, in smallest units.
fn whole_units(n: u64) -> BigUint {
    BigUint::from_u64(n).mul(&BigUint::from_u64(BASE))
}

fn new_contract(rate: u64) -> RequestsContract {
    RequestsContract::init(BigUint::from_u64(rate)).unwrap()
}

#[test]
fn test_init_with_valid_value() {
    let contract = RequestsContract::init(BigUint::from_u64(100)).unwrap();
    assert!(!contract.get_is_paused());
    assert_eq!(contract.get_requests(1), BigUint::zero());
}

#[test]
fn test_init_with_zero_value() {
    let r = RequestsContract::init(BigUint::zero());
    assert!(matches!(r, Err(LedgerError::InvalidRate)));
}

#[test]
fn test_add_requests_single_user() {
    let mut contract = new_contract(100);
    let granted = contract.add_requests(1, &whole_units(1)).unwrap();
    assert_eq!(granted, BigUint::from_u64(100));
    assert_eq!(contract.get_requests(1), BigUint::from_u64(100));
}

#[test]
fn test_add_requests_multiple_users() {
    let mut contract = new_contract(100);
    contract.add_requests(1, &whole_units(1)).unwrap();
    contract.add_requests(2, &whole_units(3)).unwrap();
    assert_eq!(contract.get_requests(1), BigUint::from_u64(100));
    assert_eq!(contract.get_requests(2), BigUint::from_u64(300));
}

#[test]
fn test_add_requests_accumulation() {
    let mut contract = new_contract(100);
    contract.add_requests(1, &whole_units(1)).unwrap();
    contract.add_requests(1, &whole_units(2)).unwrap();
    assert_eq!(contract.get_requests(1), BigUint::from_u64(300));
}

#[test]
fn test_get_requests_existing_user() {
    let mut contract = new_contract(100);
    contract.add_requests(7, &whole_units(1)).unwrap();
    assert_eq!(contract.get_requests(7), BigUint::from_u64(100));
}

#[test]
fn test_get_requests_nonexistent_user() {
    let contract = new_contract(100);
    assert_eq!(contract.get_requests(42), BigUint::zero());
}

#[test]
fn test_change_exchange_rate_valid() {
    let mut contract = new_contract(100);
    let previous = contract
        .change_num_requests_per_egld(&owner(), &owner(), BigUint::from_u64(200))
        .unwrap();
    assert_eq!(previous, BigUint::from_u64(100));
    let granted = contract.add_requests(1, &whole_units(1)).unwrap();
    assert_eq!(granted, BigUint::from_u64(200));
}

#[test]
fn test_change_exchange_rate_zero() {
    let mut contract = new_contract(100);
    let r = contract.change_num_requests_per_egld(&owner(), &owner(), BigUint::zero());
    assert!(matches!(r, Err(LedgerError::InvalidRate)));
    // the rate is untouched
    let granted = contract.add_requests(1, &whole_units(1)).unwrap();
    assert_eq!(granted, BigUint::from_u64(100));
}

#[test]
fn test_change_exchange_rate_non_owner() {
    let mut contract = new_contract(100);
    let r = contract.change_num_requests_per_egld(&stranger(), &owner(), BigUint::from_u64(200));
    assert!(matches!(r, Err(LedgerError::Unauthorized)));
    let granted = contract.add_requests(1, &whole_units(1)).unwrap();
    assert_eq!(granted, BigUint::from_u64(100));
}

#[test]
fn test_withdraw_all_success() {
    let contract = new_contract(100);
    let amount = contract.withdraw_all(&owner(), &owner(), &whole_units(5)).unwrap();
    assert_eq!(amount, whole_units(5));
}

#[test]
fn test_withdraw_all_empty_contract() {
    let contract = new_contract(100);
    let r = contract.withdraw_all(&owner(), &owner(), &BigUint::zero());
    assert!(matches!(r, Err(LedgerError::NothingToWithdraw)));
}

#[test]
fn test_withdraw_all_non_owner() {
    let contract = new_contract(100);
    let r = contract.withdraw_all(&stranger(), &owner(), &whole_units(5));
    assert!(matches!(r, Err(LedgerError::Unauthorized)));
}

#[test]
fn test_full_workflow() {
    let mut contract = new_contract(100);
    contract.add_requests(1, &whole_units(1)).unwrap();
    assert_eq!(contract.get_requests(1), BigUint::from_u64(100));

    contract
        .change_num_requests_per_egld(&owner(), &owner(), BigUint::from_u64(50))
        .unwrap();
    contract.add_requests(1, &whole_units(2)).unwrap();
    assert_eq!(contract.get_requests(1), BigUint::from_u64(200));

    let amount = contract.withdraw_all(&owner(), &owner(), &whole_units(3)).unwrap();
    assert_eq!(amount, whole_units(3));
}

#[test]
fn test_rate_change_affects_future_requests() {
    let mut contract = new_contract(100);
    contract.add_requests(1, &whole_units(1)).unwrap();
    contract
        .change_num_requests_per_egld(&owner(), &owner(), BigUint::from_u64(200))
        .unwrap();
    contract.add_requests(1, &whole_units(1)).unwrap();
    // 100 from the first call stays; the second call converts at 200
    assert_eq!(contract.get_requests(1), BigUint::from_u64(300));
}
