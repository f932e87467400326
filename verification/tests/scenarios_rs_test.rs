use requests_contract::bignum::{BigUint, BASE};
use requests_contract::ledger::{Address, LedgerError, RequestsContract};

fn owner() -> Address {
    Address::new(vec![1u8; 32])
}

fn stranger() -> Address {
    Address::new(vec![2u8; 32])
}

fn whole_units(n: u64) -> BigUint {
    BigUint::from_u64(n).mul(&BigUint::from_u64(BASE))
}

fn new_contract(rate: u64) -> RequestsContract {
    RequestsContract::init(BigUint::from_u64(rate)).unwrap()
}

#[test]
fn add_requests_accumulation_rs() {
    let mut contract = new_contract(100);
    contract.add_requests(1, &whole_units(1)).unwrap();
    contract.add_requests(1, &whole_units(2)).unwrap();
    assert_eq!(contract.get_requests(1), BigUint::from_u64(300));
}

#[test]
fn add_requests_multiple_rs() {
    let mut contract = new_contract(100);
    contract.add_requests(1, &whole_units(1)).unwrap();
    contract.add_requests(2, &whole_units(3)).unwrap();
    assert_eq!(contract.get_requests(1), BigUint::from_u64(100));
    assert_eq!(contract.get_requests(2), BigUint::from_u64(300));
}

#[test]
fn add_requests_single_rs() {
    let mut contract = new_contract(100);
    let granted = contract.add_requests(1, &whole_units(1)).unwrap();
    assert_eq!(granted, BigUint::from_u64(100));
    assert_eq!(contract.get_requests(1), BigUint::from_u64(100));
}

#[test]
fn add_requests_when_paused_rs() {
    let mut contract = new_contract(100);
    contract.pause(&owner(), &owner()).unwrap();
    let r = contract.add_requests(1, &whole_units(1));
    assert!(matches!(r, Err(LedgerError::ContractPaused)));
    assert_eq!(contract.get_requests(1), BigUint::zero());
}

#[test]
fn change_rate_non_owner_rs() {
    let mut contract = new_contract(100);
    let r = contract.change_num_requests_per_egld(&stranger(), &owner(), BigUint::from_u64(200));
    assert!(matches!(r, Err(LedgerError::Unauthorized)));
}

#[test]
fn change_rate_valid_rs() {
    let mut contract = new_contract(100);
    let previous = contract
        .change_num_requests_per_egld(&owner(), &owner(), BigUint::from_u64(200))
        .unwrap();
    assert_eq!(previous, BigUint::from_u64(100));
}

#[test]
fn change_rate_zero_rs() {
    let mut contract = new_contract(100);
    let r = contract.change_num_requests_per_egld(&owner(), &owner(), BigUint::zero());
    assert!(matches!(r, Err(LedgerError::InvalidRate)));
}

#[test]
fn full_workflow_rs() {
    let mut contract = new_contract(100);
    contract.add_requests(1, &whole_units(1)).unwrap();
    contract.pause(&owner(), &owner()).unwrap();
    assert!(contract.get_is_paused());
    contract.unpause(&owner(), &owner()).unwrap();
    contract.add_requests(1, &whole_units(1)).unwrap();
    assert_eq!(contract.get_requests(1), BigUint::from_u64(200));
    let amount = contract.withdraw_all(&owner(), &owner(), &whole_units(2)).unwrap();
    assert_eq!(amount, whole_units(2));
}

#[test]
fn get_requests_existing_rs() {
    let mut contract = new_contract(100);
    contract.add_requests(7, &whole_units(1)).unwrap();
    assert_eq!(contract.get_requests(7), BigUint::from_u64(100));
}

#[test]
fn get_requests_nonexistent_rs() {
    let contract = new_contract(100);
    assert_eq!(contract.get_requests(42), BigUint::zero());
}

#[test]
fn init_valid_rs() {
    let contract = RequestsContract::init(BigUint::from_u64(100)).unwrap();
    assert!(!contract.get_is_paused());
}

#[test]
fn init_zero_rs() {
    let r = RequestsContract::init(BigUint::zero());
    assert!(matches!(r, Err(LedgerError::InvalidRate)));
}

#[test]
fn pause_already_paused_rs() {
    let mut contract = new_contract(100);
    contract.pause(&owner(), &owner()).unwrap();
    let r = contract.pause(&owner(), &owner());
    assert!(matches!(r, Err(LedgerError::AlreadyPaused)));
    assert!(contract.get_is_paused());
}

#[test]
fn pause_non_owner_rs() {
    let mut contract = new_contract(100);
    let r = contract.pause(&stranger(), &owner());
    assert!(matches!(r, Err(LedgerError::Unauthorized)));
    assert!(!contract.get_is_paused());
}

#[test]
fn pause_success_rs() {
    let mut contract = new_contract(100);
    contract.pause(&owner(), &owner()).unwrap();
    assert!(contract.get_is_paused());
}

#[test]
fn pause_unpause_workflow_rs() {
    let mut contract = new_contract(100);
    contract.pause(&owner(), &owner()).unwrap();
    assert!(contract.get_is_paused());
    contract.unpause(&owner(), &owner()).unwrap();
    assert!(!contract.get_is_paused());
    contract.add_requests(1, &whole_units(1)).unwrap();
    assert_eq!(contract.get_requests(1), BigUint::from_u64(100));
}

#[test]
fn rate_change_affects_future_rs() {
    let mut contract = new_contract(100);
    contract.add_requests(1, &whole_units(1)).unwrap();
    contract
        .change_num_requests_per_egld(&owner(), &owner(), BigUint::from_u64(200))
        .unwrap();
    contract.add_requests(1, &whole_units(1)).unwrap();
    assert_eq!(contract.get_requests(1), BigUint::from_u64(300));
}

#[test]
fn unpause_non_owner_rs() {
    let mut contract = new_contract(100);
    contract.pause(&owner(), &owner()).unwrap();
    let r = contract.unpause(&stranger(), &owner());
    assert!(matches!(r, Err(LedgerError::Unauthorized)));
    assert!(contract.get_is_paused());
}

#[test]
fn unpause_not_paused_rs() {
    let mut contract = new_contract(100);
    let r = contract.unpause(&owner(), &owner());
    assert!(matches!(r, Err(LedgerError::NotPaused)));
}

#[test]
fn unpause_success_rs() {
    let mut contract = new_contract(100);
    contract.pause(&owner(), &owner()).unwrap();
    contract.unpause(&owner(), &owner()).unwrap();
    assert!(!contract.get_is_paused());
}

#[test]
fn withdraw_empty_rs() {
    let contract = new_contract(100);
    let r = contract.withdraw_all(&owner(), &owner(), &BigUint::zero());
    assert!(matches!(r, Err(LedgerError::NothingToWithdraw)));
}

#[test]
fn withdraw_non_owner_rs() {
    let contract = new_contract(100);
    let r = contract.withdraw_all(&stranger(), &owner(), &whole_units(5));
    assert!(matches!(r, Err(LedgerError::Unauthorized)));
}

#[test]
fn withdraw_success_rs() {
    let contract = new_contract(100);
    let amount = contract.withdraw_all(&owner(), &owner(), &whole_units(5)).unwrap();
    assert_eq!(amount, whole_units(5));
}
