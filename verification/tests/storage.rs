//! The record store: derived addresses, storage-cost funding, explicit
//! resizes, and exact writes, cross-checked against the primitives the
//! arena stands on.

use multisig::storage::{addr_eq, write_to_pda, RecordStore, StorageError};

fn addr(n: u8) -> [u8; 32] {
    [n; 32]
}

fn seeds_of(parts: &[&[u8]]) -> Vec<Vec<u8>> {
    parts.iter().map(|p| p.to_vec()).collect()
}


fn host_derive(pid: &[u8; 32], seeds: &[&[u8]]) -> ([u8; 32], u8) {
    let (key, bump) = solana_program::pubkey::Pubkey::find_program_address(
        seeds,
        &solana_program::pubkey::Pubkey::new_from_array(*pid),
    );
    (key.to_bytes(), bump)
}

fn reserve(size: usize) -> u64 {
    solana_program::rent::Rent::default().minimum_balance(size)
}

#[test]
fn test_derive_matches_host_derivation() {
    // the store allocates at exactly the host's program-derived address for
    // the same seed tuple
    let mut store = RecordStore::new(addr(9));
    let payer = addr(1);
    store.credit(&payer, 1_000_000_000_000).unwrap();
    let seeds = seeds_of(&[b"team", b"alpha"]);
    let (a, bump) = store.create_pda(&payer, &seeds, 16).unwrap();
    let (expected, expected_bump) = host_derive(&addr(9), &[b"team", b"alpha"]);
    assert_eq!(a, expected);
    assert_eq!(bump, expected_bump);
}

#[test]
fn test_create_pda_funds_exact_reserve() {
    let mut store = RecordStore::new(addr(9));
    let payer = addr(1);
    store.credit(&payer, 1_000_000_000_000).unwrap();
    let seeds = seeds_of(&[b"thing", b"one"]);
    let (a, _bump) = store.create_pda(&payer, &seeds, 100).unwrap();
    let (owner, lamports, data) = store.read_record(&a);
    assert_eq!(owner, Some(addr(9)));
    assert_eq!(lamports, reserve(100));
    assert_eq!(data, vec![0u8; 100]);
    let (_, payer_left, _) = store.read_record(&payer);
    assert_eq!(payer_left, 1_000_000_000_000 - reserve(100));
}

#[test]
fn test_create_pda_reclaims_placeholder() {
    // an unallocated address already holding some funding is topped up to
    // the reserve and claimed rather than rejected
    let mut store = RecordStore::new(addr(9));
    let payer = addr(1);
    store.credit(&payer, 1_000_000_000_000).unwrap();
    let seeds = seeds_of(&[b"thing"]);
    let (expected, _) = host_derive(&addr(9), &[b"thing"]);
    store.credit(&expected, 10).unwrap();
    let (a, _) = store.create_pda(&payer, &seeds, 100).unwrap();
    assert_eq!(a, expected);
    let (owner, lamports, data) = store.read_record(&a);
    assert_eq!(owner, Some(addr(9)));
    assert_eq!(lamports, reserve(100));
    assert_eq!(data.len(), 100);
    // the payer covered only the missing part
    assert_eq!(store.read_record(&payer).1, 1_000_000_000_000 - (reserve(100) - 10));
}

#[test]
fn test_create_pda_twice_fails() {
    let mut store = RecordStore::new(addr(9));
    let payer = addr(1);
    store.credit(&payer, 1_000_000_000_000).unwrap();
    let seeds = seeds_of(&[b"thing"]);
    store.create_pda(&payer, &seeds, 10).unwrap();
    let r = store.create_pda(&payer, &seeds, 10);
    assert_eq!(r, Err(StorageError::AlreadyExists));
}

#[test]
fn test_create_pda_poor_payer() {
    let mut store = RecordStore::new(addr(9));
    let payer = addr(1);
    store.credit(&payer, 1).unwrap();
    let seeds = seeds_of(&[b"thing"]);
    let r = store.create_pda(&payer, &seeds, 10);
    assert_eq!(r, Err(StorageError::InsufficientFunds));
    // the failed attempt moved nothing
    assert_eq!(store.read_record(&payer).1, 1);
}

#[test]
fn test_resize_preserves_prefix_and_funding() {
    let mut store = RecordStore::new(addr(9));
    let payer = addr(1);
    store.credit(&payer, 1_000_000_000_000).unwrap();
    let seeds = seeds_of(&[b"thing"]);
    let (a, _) = store.create_pda(&payer, &seeds, 4).unwrap();
    store.write_pda(&a, &vec![1, 2, 3, 4]).unwrap();
    store.resize_pda(&a, 6, &payer).unwrap();
    assert_eq!(store.read_record(&a).2, vec![1, 2, 3, 4, 0, 0]);
    assert_eq!(store.read_record(&a).1, reserve(6));
    let funded = store.read_record(&a).1;
    store.resize_pda(&a, 2, &payer).unwrap();
    assert_eq!(store.read_record(&a).2, vec![1, 2]);
    // shrinking never returns the funding surplus
    assert_eq!(store.read_record(&a).1, funded);
}

#[test]
fn test_write_pda_demands_exact_size() {
    let mut store = RecordStore::new(addr(9));
    let payer = addr(1);
    store.credit(&payer, 1_000_000_000_000).unwrap();
    let seeds = seeds_of(&[b"thing"]);
    let (a, _) = store.create_pda(&payer, &seeds, 3).unwrap();
    assert_eq!(store.write_pda(&a, &vec![1, 2]), Err(StorageError::InvalidRecord));
    assert_eq!(store.write_pda(&a, &vec![1, 2, 3, 4]), Err(StorageError::InvalidRecord));
    store.write_pda(&a, &vec![1, 2, 3]).unwrap();
    assert_eq!(store.read_record(&a).2, vec![1, 2, 3]);
}

#[test]
fn test_check_pda() {
    let mut store = RecordStore::new(addr(9));
    let payer = addr(1);
    store.credit(&payer, 1_000_000_000_000).unwrap();
    let seeds = seeds_of(&[b"thing"]);
    let (a, _) = store.create_pda(&payer, &seeds, 3).unwrap();
    assert_eq!(store.check_pda(&seeds, &a), Ok(()));
    assert_eq!(store.check_pda(&seeds, &addr(5)), Err(StorageError::InvalidRecord));
    let other = seeds_of(&[b"other"]);
    assert_eq!(store.check_pda(&other, &a), Err(StorageError::InvalidRecord));
}

#[test]
fn test_transfer_and_credit() {
    let mut store = RecordStore::new(addr(9));
    store.credit(&addr(1), 100).unwrap();
    store.transfer(&addr(1), &addr(2), 30).unwrap();
    assert_eq!(store.read_record(&addr(1)).1, 70);
    assert_eq!(store.read_record(&addr(2)).1, 30);
    assert_eq!(
        store.transfer(&addr(1), &addr(2), 71),
        Err(StorageError::InsufficientFunds)
    );
    // a self-funded move checks the balance but moves nothing
    store.transfer(&addr(1), &addr(1), 50).unwrap();
    assert_eq!(store.read_record(&addr(1)).1, 70);
    assert_eq!(
        store.transfer(&addr(1), &addr(1), 71),
        Err(StorageError::InsufficientFunds)
    );
}

#[test]
fn test_write_to_pda() {
    let mut data = vec![9u8; 5];
    write_to_pda(&mut data, &vec![1, 2, 3]);
    assert_eq!(data, vec![1, 2, 3, 9, 9]);
}

#[test]
fn test_addr_eq() {
    assert!(addr_eq(&addr(1), &addr(1)));
    assert!(!addr_eq(&addr(1), &addr(2)));
    let mut nearly = addr(1);
    nearly[31] = 0;
    assert!(!addr_eq(&addr(1), &nearly));
}
