//! Group lifecycle: creation, membership and threshold mutations, and the
//! group invariant they preserve.

use multisig::multisig::{create, Multisig, MultisigError};
use multisig::storage::{RecordStore, StorageError};
use multisig::{Error, Operand};

fn addr(n: u8) -> [u8; 32] {
    [n; 32]
}

fn group_addr(pid: &[u8; 32], name: &[u8]) -> [u8; 32] {
    // computed independently through the host's own derivation
    let (key, _) = solana_program::pubkey::Pubkey::find_program_address(
        &[b"group", name],
        &solana_program::pubkey::Pubkey::new_from_array(*pid),
    );
    key.to_bytes()
}

fn setup_group(
    store: &mut RecordStore,
    payer: [u8; 32],
    name: &[u8],
    members: Vec<[u8; 32]>,
    threshold: u64,
) -> [u8; 32] {
    store.credit(&payer, 1_000_000_000_000).unwrap();
    let ga = group_addr(&store.program_id, name);
    create(store, &payer, &ga, name.to_vec(), &members, threshold).unwrap();
    ga
}

fn signer(address: [u8; 32]) -> Operand {
    Operand { address, is_signer: true }
}

#[test]
fn test_create_multisig() {
    let mut store = RecordStore::new(addr(9));
    let m1 = addr(1);
    let m2 = addr(2);
    let ga = setup_group(&mut store, addr(7), b"test", vec![m1, m2, m1], 2);
    let g = Multisig::get(&store, &ga).unwrap();
    assert_eq!(g.name, b"test".to_vec());
    // the duplicate entry was dropped, insertion order kept
    assert_eq!(g.members, vec![m1, m2]);
    assert_eq!(g.threshold, 2);
}

#[test]
fn test_add_member_fail() {
    // mutating a group is self-authorized: without the group record's own
    // signature the operation is rejected and the group unchanged
    let mut store = RecordStore::new(addr(9));
    let m1 = addr(1);
    let ga = setup_group(&mut store, addr(7), b"test", vec![m1], 1);
    let r = multisig::multisig::add_member(
        &mut store,
        &Operand { address: ga, is_signer: false },
        &addr(2),
    );
    assert_eq!(r, Err(Error::Storage(StorageError::InvalidRecord)));
    assert_eq!(Multisig::get(&store, &ga).unwrap().members, vec![m1]);
}

#[test]
fn test_add_member() {
    let mut store = RecordStore::new(addr(9));
    let m1 = addr(1);
    let m2 = addr(2);
    let ga = setup_group(&mut store, addr(7), b"test", vec![m1], 1);
    // the group record pays for its own growth
    store.credit(&ga, 1_000_000_000_000).unwrap();
    multisig::multisig::add_member(&mut store, &signer(ga), &m2).unwrap();
    assert_eq!(Multisig::get(&store, &ga).unwrap().members, vec![m1, m2]);
    let again = multisig::multisig::add_member(&mut store, &signer(ga), &m2);
    assert_eq!(again, Err(Error::Multisig(MultisigError::AlreadyMember)));
}

#[test]
fn test_remove_member_fail() {
    let mut store = RecordStore::new(addr(9));
    let m1 = addr(1);
    let ga = setup_group(&mut store, addr(7), b"test", vec![m1], 1);
    let r = multisig::multisig::remove_member(
        &mut store,
        &Operand { address: ga, is_signer: false },
        &m1,
    );
    assert_eq!(r, Err(Error::Storage(StorageError::InvalidRecord)));
}

#[test]
fn test_remove_member() {
    let mut store = RecordStore::new(addr(9));
    let m1 = addr(1);
    let m2 = addr(2);
    let ga = setup_group(&mut store, addr(7), b"test", vec![m1, m2], 1);
    multisig::multisig::remove_member(&mut store, &signer(ga), &m1).unwrap();
    assert_eq!(Multisig::get(&store, &ga).unwrap().members, vec![m2]);
    let absent = multisig::multisig::remove_member(&mut store, &signer(ga), &m1);
    assert_eq!(absent, Err(Error::Multisig(MultisigError::NotAMember)));
}

#[test]
fn test_change_threshold_fail() {
    let mut store = RecordStore::new(addr(9));
    let m1 = addr(1);
    let ga = setup_group(&mut store, addr(7), b"test", vec![m1], 1);
    let r = multisig::multisig::set_threshold(
        &mut store,
        &Operand { address: ga, is_signer: false },
        1,
    );
    assert_eq!(r, Err(Error::Storage(StorageError::InvalidRecord)));
}

#[test]
fn test_change_threshold() {
    let mut store = RecordStore::new(addr(9));
    let m1 = addr(1);
    let m2 = addr(2);
    let ga = setup_group(&mut store, addr(7), b"test", vec![m1, m2], 1);
    multisig::multisig::set_threshold(&mut store, &signer(ga), 2).unwrap();
    assert_eq!(Multisig::get(&store, &ga).unwrap().threshold, 2);
    let high = multisig::multisig::set_threshold(&mut store, &signer(ga), 3);
    assert_eq!(high, Err(Error::Multisig(MultisigError::ThresholdTooHigh)));
    let low = multisig::multisig::set_threshold(&mut store, &signer(ga), 0);
    assert_eq!(low, Err(Error::Multisig(MultisigError::ThresholdTooLow)));
    assert_eq!(Multisig::get(&store, &ga).unwrap().threshold, 2);
}

#[test]
fn test_remove_member_invalid_threshold() {
    let mut store = RecordStore::new(addr(9));
    let m1 = addr(1);
    let m2 = addr(2);
    let ga = setup_group(&mut store, addr(7), b"test", vec![m1, m2], 2);
    let r = multisig::multisig::remove_member(&mut store, &signer(ga), &m2);
    assert_eq!(r, Err(Error::Multisig(MultisigError::ThresholdTooHigh)));
    assert_eq!(Multisig::get(&store, &ga).unwrap().members, vec![m1, m2]);
}

#[test]
fn test_too_high_threshold() {
    let mut store = RecordStore::new(addr(9));
    store.credit(&addr(7), 1_000_000_000_000).unwrap();
    let ga = group_addr(&store.program_id, b"test");
    let r = create(&mut store, &addr(7), &ga, b"test".to_vec(), &vec![addr(1), addr(2)], 3);
    assert_eq!(r, Err(Error::Multisig(MultisigError::ThresholdTooHigh)));
}

#[test]
fn test_too_low_threshold() {
    let mut store = RecordStore::new(addr(9));
    store.credit(&addr(7), 1_000_000_000_000).unwrap();
    let ga = group_addr(&store.program_id, b"test");
    let r = create(&mut store, &addr(7), &ga, b"test".to_vec(), &vec![addr(1), addr(2)], 0);
    assert_eq!(r, Err(Error::Multisig(MultisigError::ThresholdTooLow)));
}

#[test]
fn test_no_members() {
    let mut store = RecordStore::new(addr(9));
    store.credit(&addr(7), 1_000_000_000_000).unwrap();
    let ga = group_addr(&store.program_id, b"test");
    let r = create(&mut store, &addr(7), &ga, b"test".to_vec(), &vec![], 1);
    assert_eq!(r, Err(Error::Multisig(MultisigError::NoMembers)));
}

#[test]
fn test_no_member_left() {
    // the threshold check runs before the emptiness check, so stripping the
    // last member of a group whose threshold is one reads as a threshold
    // violation
    let mut store = RecordStore::new(addr(9));
    let m1 = addr(1);
    let m2 = addr(2);
    let ga = setup_group(&mut store, addr(7), b"test", vec![m1, m2], 1);
    multisig::multisig::remove_member(&mut store, &signer(ga), &m2).unwrap();
    let r = multisig::multisig::remove_member(&mut store, &signer(ga), &m1);
    assert_eq!(r, Err(Error::Multisig(MultisigError::ThresholdTooHigh)));
    assert_eq!(Multisig::get(&store, &ga).unwrap().members, vec![m1]);
}

#[test]
fn test_create_existing_group() {
    let mut store = RecordStore::new(addr(9));
    let ga = setup_group(&mut store, addr(7), b"test", vec![addr(1)], 1);
    let r = create(&mut store, &addr(7), &ga, b"test".to_vec(), &vec![addr(1)], 1);
    assert_eq!(r, Err(Error::Storage(StorageError::AlreadyExists)));
}

#[test]
fn test_create_wrong_address() {
    let mut store = RecordStore::new(addr(9));
    store.credit(&addr(7), 1_000_000_000_000).unwrap();
    let wrong = addr(42);
    let r = create(&mut store, &addr(7), &wrong, b"test".to_vec(), &vec![addr(1)], 1);
    assert_eq!(r, Err(Error::Storage(StorageError::InvalidRecord)));
}

#[test]
fn test_create_poor_payer() {
    let mut store = RecordStore::new(addr(9));
    let ga = group_addr(&store.program_id, b"test");
    let r = create(&mut store, &addr(7), &ga, b"test".to_vec(), &vec![addr(1)], 1);
    assert_eq!(r, Err(Error::Storage(StorageError::InsufficientFunds)));
}

#[test]
fn test_update_members_and_threshold_values() {
    let mut g = Multisig::new(b"g".to_vec(), vec![addr(1)], 1);
    g.update_members(vec![addr(2), addr(3)]).unwrap();
    assert_eq!(g.members, vec![addr(2), addr(3)]);
    assert_eq!(
        g.update_members(vec![]),
        Err(MultisigError::NoMembers)
    );
    assert_eq!(
        g.update_members(vec![addr(4), addr(4)]),
        Err(MultisigError::AlreadyMember)
    );
    g.update_threshold(2).unwrap();
    assert_eq!(g.threshold, 2);
    assert_eq!(g.update_members(vec![addr(5)]), Err(MultisigError::ThresholdTooHigh));
    assert!(g.is_member(&addr(2)));
    assert!(!g.is_member(&addr(1)));
    assert_eq!(g.check_member(&addr(1)), Err(MultisigError::NotAMember));
}
