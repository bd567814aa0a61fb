//! Proposal lifecycle: creation, approval bookkeeping, threshold-gated
//! execution, and the dispatch of action batches through the group's
//! authority, with a host fixture that applies descriptors and unwinds a
//! failed invocation in full.

use multisig::codec::encode_instruction;
use multisig::multisig::{create as create_group, Multisig, MultisigError};
use multisig::proposal::{
    approve, create as create_proposal, execute, Action, ActionAccount, CallDescriptor, Proposal,
    ProposalError,
};
use multisig::storage::{RecordStore, StorageError};
use multisig::{process_instruction, Error, Instruction, Operand};

fn addr(n: u8) -> [u8; 32] {
    [n; 32]
}

fn signer(address: [u8; 32]) -> Operand {
    Operand { address, is_signer: true }
}

fn host_derive(pid: &[u8; 32], seeds: &[&[u8]]) -> [u8; 32] {
    // computed independently through the host's own derivation
    solana_program::pubkey::Pubkey::find_program_address(
        seeds,
        &solana_program::pubkey::Pubkey::new_from_array(*pid),
    )
    .0
    .to_bytes()
}

fn group_addr(pid: &[u8; 32], name: &[u8]) -> [u8; 32] {
    host_derive(pid, &[b"group", name])
}

fn proposal_addr(pid: &[u8; 32], group: &[u8; 32], id: u64) -> [u8; 32] {
    host_derive(pid, &[b"proposal", group, &id.to_be_bytes()])
}

fn setup_group(
    store: &mut RecordStore,
    payer: [u8; 32],
    name: &[u8],
    members: Vec<[u8; 32]>,
    threshold: u64,
) -> [u8; 32] {
    store.credit(&payer, 1_000_000_000_000).unwrap();
    let ga = group_addr(&store.program_id, name);
    create_group(store, &payer, &ga, name.to_vec(), &members, threshold).unwrap();
    ga
}

/// The action that asks the engine itself to add a member to the group;
/// its one parameter is the group record acting through itself.
fn add_member_action(pid: [u8; 32], ga: [u8; 32], member: [u8; 32]) -> Action {
    Action {
        program_id: pid,
        accounts: vec![ActionAccount { pubkey: ga, is_signer: true, is_writable: true }],
        data: encode_instruction(&Instruction::AddMember { member }),
    }
}

/// Applies each descriptor in order, as the execution host would: a call
/// back into the engine is dispatched with the authority record marked as
/// a signer; any other target is a foreign capability handler this fixture
/// cannot run and counts as a failed call.
fn apply_descriptors(
    store: &mut RecordStore,
    pid: &[u8; 32],
    ds: &[CallDescriptor],
) -> Result<(), Error> {
    for d in ds {
        if d.program_id != *pid {
            return Err(Error::InvalidAccount);
        }
        let mut ops: Vec<Operand> = Vec::new();
        for aa in &d.accounts {
            ops.push(Operand {
                address: aa.pubkey,
                is_signer: aa.is_signer || aa.pubkey == d.authority,
            });
        }
        match process_instruction(store, &ops, &d.data) {
            Ok(nested) => assert!(nested.is_empty()),
            Err(e) => return Err(e),
        }
    }
    Ok(())
}

type Snapshot = Vec<([u8; 32], Option<[u8; 32]>, u64, Vec<u8>)>;

fn snapshot(store: &RecordStore, addrs: &[[u8; 32]]) -> Snapshot {
    addrs
        .iter()
        .map(|a| {
            let (owner, lamports, data) = store.read_record(a);
            (*a, owner, lamports, data)
        })
        .collect()
}

fn restore(store: &mut RecordStore, snap: Snapshot) {
    for (a, owner, lamports, data) in snap {
        store.put_record(&a, owner, lamports, data);
    }
}

#[test]
fn test_create_proposal() {
    let mut store = RecordStore::new(addr(9));
    let m1 = addr(1);
    let ga = setup_group(&mut store, m1, b"team", vec![m1], 1);
    let pa = proposal_addr(&store.program_id, &ga, 7);
    let action = add_member_action(store.program_id, ga, addr(2));
    create_proposal(&mut store, &signer(m1), &ga, &pa, 7, vec![action]).unwrap();
    let p = Proposal::get(&store, &pa).unwrap();
    assert_eq!(p.id, 7);
    assert_eq!(p.actions.len(), 1);
    assert_eq!(p.actions[0].accounts.len(), 1);
    assert_eq!(p.actions[0].accounts[0].pubkey, ga);
    assert!(p.approvers.is_empty());
    assert!(!p.executed);
    assert_eq!(p.multisig, ga);
    // the record's backing size is exactly the proposal's computed size
    let (_, _, data) = store.read_record(&pa);
    assert_eq!(data.len(), p.size());
}

#[test]
fn test_create_proposal_non_member() {
    let mut store = RecordStore::new(addr(9));
    let m1 = addr(1);
    let outsider = addr(5);
    let ga = setup_group(&mut store, m1, b"team", vec![m1], 1);
    store.credit(&outsider, 1_000_000_000_000).unwrap();
    let pa = proposal_addr(&store.program_id, &ga, 7);
    let action = add_member_action(store.program_id, ga, addr(2));
    let r = create_proposal(&mut store, &signer(outsider), &ga, &pa, 7, vec![action]);
    assert_eq!(r, Err(Error::Multisig(MultisigError::NotAMember)));
}

#[test]
fn test_approve_proposal() {
    let mut store = RecordStore::new(addr(9));
    let m1 = addr(1);
    let m2 = addr(2);
    let ga = setup_group(&mut store, m1, b"team", vec![m1, m2], 2);
    let pa = proposal_addr(&store.program_id, &ga, 7);
    let action = add_member_action(store.program_id, ga, addr(3));
    create_proposal(&mut store, &signer(m1), &ga, &pa, 7, vec![action]).unwrap();
    let before = store.read_record(&pa).2.len();
    let ds = approve(&mut store, &signer(m1), &ga, &pa, false, &vec![]).unwrap();
    assert!(ds.is_empty());
    let p = Proposal::get(&store, &pa).unwrap();
    // the approver list grew by exactly this approver
    assert_eq!(p.approvers, vec![m1]);
    assert!(!p.executed);
    // and the record by exactly one address width
    assert_eq!(store.read_record(&pa).2.len(), before + 32);
}

#[test]
fn test_approve_proposal_non_member() {
    // a principal outside the group cannot approve, and the approver list
    // is untouched
    let mut store = RecordStore::new(addr(9));
    let m1 = addr(1);
    let outsider = addr(5);
    let ga = setup_group(&mut store, m1, b"team", vec![m1], 1);
    store.credit(&outsider, 1_000_000_000_000).unwrap();
    let pa = proposal_addr(&store.program_id, &ga, 7);
    let action = add_member_action(store.program_id, ga, addr(2));
    create_proposal(&mut store, &signer(m1), &ga, &pa, 7, vec![action]).unwrap();
    let r = approve(&mut store, &signer(outsider), &ga, &pa, false, &vec![]);
    assert!(matches!(r, Err(Error::Multisig(MultisigError::NotAMember))));
    assert!(Proposal::get(&store, &pa).unwrap().approvers.is_empty());
}

#[test]
fn test_approve_proposal_and_execute() {
    // one approval meets the threshold of one; the chained execution hands
    // out the add-member call and the host applies it: the group grows
    let mut store = RecordStore::new(addr(9));
    let pid = store.program_id;
    let m1 = addr(1);
    let m2 = addr(2);
    let ga = setup_group(&mut store, m1, b"team", vec![m1], 1);
    store.credit(&ga, 1_000_000_000_000).unwrap();
    let pa = proposal_addr(&pid, &ga, 7);
    let action = add_member_action(pid, ga, m2);
    create_proposal(&mut store, &signer(m1), &ga, &pa, 7, vec![action]).unwrap();
    let ds = approve(&mut store, &signer(m1), &ga, &pa, true, &vec![ga]).unwrap();
    assert_eq!(ds.len(), 1);
    assert_eq!(ds[0].program_id, pid);
    assert_eq!(ds[0].authority, ga);
    apply_descriptors(&mut store, &pid, &ds).unwrap();
    let g = Multisig::get(&store, &ga).unwrap();
    assert_eq!(g.members, vec![m1, m2]);
    let p = Proposal::get(&store, &pa).unwrap();
    assert!(p.executed);
    assert_eq!(p.approvers, vec![m1]);
}

#[test]
fn test_no_execute_without_threshold() {
    let mut store = RecordStore::new(addr(9));
    let m1 = addr(1);
    let m2 = addr(2);
    let ga = setup_group(&mut store, m1, b"team", vec![m1, m2], 2);
    let pa = proposal_addr(&store.program_id, &ga, 7);
    let action = add_member_action(store.program_id, ga, addr(3));
    create_proposal(&mut store, &signer(m1), &ga, &pa, 7, vec![action]).unwrap();
    approve(&mut store, &signer(m1), &ga, &pa, false, &vec![]).unwrap();
    let r = execute(&mut store, &ga, &pa, &vec![ga]);
    assert!(matches!(r, Err(Error::Proposal(ProposalError::NotEnoughApprovals))));
    assert!(!Proposal::get(&store, &pa).unwrap().executed);
}

#[test]
fn test_execute_proposal_once() {
    // the executed flag moves from false to true exactly once: a second
    // execution always fails with AlreadyExecuted and dispatches nothing
    let mut store = RecordStore::new(addr(9));
    let pid = store.program_id;
    let m1 = addr(1);
    let ga = setup_group(&mut store, m1, b"team", vec![m1], 1);
    store.credit(&ga, 1_000_000_000_000).unwrap();
    let pa = proposal_addr(&pid, &ga, 7);
    let action = add_member_action(pid, ga, addr(2));
    create_proposal(&mut store, &signer(m1), &ga, &pa, 7, vec![action]).unwrap();
    approve(&mut store, &signer(m1), &ga, &pa, false, &vec![]).unwrap();
    let ds = execute(&mut store, &ga, &pa, &vec![ga]).unwrap();
    assert_eq!(ds.len(), 1);
    let again = execute(&mut store, &ga, &pa, &vec![ga]);
    assert!(matches!(again, Err(Error::Proposal(ProposalError::AlreadyExecuted))));
}

#[test]
fn test_cannot_approve_twice() {
    let mut store = RecordStore::new(addr(9));
    let m1 = addr(1);
    let m2 = addr(2);
    let ga = setup_group(&mut store, m1, b"team", vec![m1, m2], 2);
    let pa = proposal_addr(&store.program_id, &ga, 7);
    let action = add_member_action(store.program_id, ga, addr(3));
    create_proposal(&mut store, &signer(m1), &ga, &pa, 7, vec![action]).unwrap();
    approve(&mut store, &signer(m1), &ga, &pa, false, &vec![]).unwrap();
    let r = approve(&mut store, &signer(m1), &ga, &pa, false, &vec![]);
    assert!(matches!(r, Err(Error::Proposal(ProposalError::AlreadyApproved))));
    assert_eq!(Proposal::get(&store, &pa).unwrap().approvers, vec![m1]);
}

#[test]
fn test_approve_after_execute() {
    // an executed proposal is never mutated again
    let mut store = RecordStore::new(addr(9));
    let pid = store.program_id;
    let m1 = addr(1);
    let m2 = addr(2);
    let ga = setup_group(&mut store, m1, b"team", vec![m1, m2], 1);
    store.credit(&ga, 1_000_000_000_000).unwrap();
    let pa = proposal_addr(&pid, &ga, 7);
    let action = add_member_action(pid, ga, addr(3));
    create_proposal(&mut store, &signer(m1), &ga, &pa, 7, vec![action]).unwrap();
    approve(&mut store, &signer(m1), &ga, &pa, false, &vec![]).unwrap();
    execute(&mut store, &ga, &pa, &vec![ga]).unwrap();
    let r = approve(&mut store, &signer(m2), &ga, &pa, false, &vec![]);
    assert!(matches!(r, Err(Error::Proposal(ProposalError::AlreadyExecuted))));
}

#[test]
fn test_execute_account_mismatch() {
    // a mismatched operand at any position aborts before any call is
    // issued: no descriptor, no flag flip, no record touched
    let mut store = RecordStore::new(addr(9));
    let pid = store.program_id;
    let m1 = addr(1);
    let ga = setup_group(&mut store, m1, b"team", vec![m1], 1);
    let pa = proposal_addr(&pid, &ga, 7);
    let action = add_member_action(pid, ga, addr(2));
    create_proposal(&mut store, &signer(m1), &ga, &pa, 7, vec![action]).unwrap();
    approve(&mut store, &signer(m1), &ga, &pa, false, &vec![]).unwrap();
    let r = execute(&mut store, &ga, &pa, &vec![addr(42)]);
    assert!(matches!(r, Err(Error::InvalidAccount)));
    assert!(!Proposal::get(&store, &pa).unwrap().executed);
    let short = execute(&mut store, &ga, &pa, &vec![]);
    assert!(matches!(short, Err(Error::InvalidAccount)));
}

#[test]
fn test_remove_last_member_via_proposal() {
    // proposing to remove the group's only member cannot take effect: the
    // dispatched removal violates the group invariant, the host unwinds,
    // and the member remains
    let mut store = RecordStore::new(addr(9));
    let pid = store.program_id;
    let m1 = addr(1);
    let ga = setup_group(&mut store, m1, b"team", vec![m1], 1);
    store.credit(&ga, 1_000_000_000_000).unwrap();
    let pa = proposal_addr(&pid, &ga, 7);
    let action = Action {
        program_id: pid,
        accounts: vec![ActionAccount { pubkey: ga, is_signer: true, is_writable: true }],
        data: encode_instruction(&Instruction::RemoveMember { member: m1 }),
    };
    create_proposal(&mut store, &signer(m1), &ga, &pa, 7, vec![action]).unwrap();
    let snap = snapshot(&store, &[ga, pa, m1]);
    let outcome = approve(&mut store, &signer(m1), &ga, &pa, true, &vec![ga])
        .and_then(|ds| apply_descriptors(&mut store, &pid, &ds));
    assert_eq!(outcome, Err(Error::Multisig(MultisigError::ThresholdTooHigh)));
    restore(&mut store, snap);
    assert_eq!(Multisig::get(&store, &ga).unwrap().members, vec![m1]);
    assert!(!Proposal::get(&store, &pa).unwrap().executed);
}

#[test]
fn test_failed_action_rolls_back_batch() {
    // the second action targets a foreign handler the host cannot run; the
    // whole invocation unwinds: the first action's effect is gone and the
    // proposal reads as never executed
    let mut store = RecordStore::new(addr(9));
    let pid = store.program_id;
    let m1 = addr(1);
    let m2 = addr(2);
    let foreign_program = addr(200);
    let foreign_record = addr(201);
    let ga = setup_group(&mut store, m1, b"team", vec![m1], 1);
    store.credit(&ga, 1_000_000_000_000).unwrap();
    let pa = proposal_addr(&pid, &ga, 7);
    let first = add_member_action(pid, ga, m2);
    let second = Action {
        program_id: foreign_program,
        accounts: vec![ActionAccount { pubkey: foreign_record, is_signer: false, is_writable: true }],
        data: vec![1, 2, 3],
    };
    create_proposal(&mut store, &signer(m1), &ga, &pa, 7, vec![first, second]).unwrap();
    let snap = snapshot(&store, &[ga, pa, m1]);
    let outcome = approve(&mut store, &signer(m1), &ga, &pa, true, &vec![ga, foreign_record])
        .and_then(|ds| {
            assert_eq!(ds.len(), 2);
            apply_descriptors(&mut store, &pid, &ds)
        });
    assert!(outcome.is_err());
    // the first call went through before the second failed
    assert_eq!(Multisig::get(&store, &ga).unwrap().members, vec![m1, m2]);
    restore(&mut store, snap);
    assert_eq!(Multisig::get(&store, &ga).unwrap().members, vec![m1]);
    assert!(!Proposal::get(&store, &pa).unwrap().executed);
}

#[test]
fn test_process_instruction_end_to_end() {
    // the whole flow through the outer entrypoint: create a group, propose,
    // approve with auto-execute, apply the handed-out call
    let mut store = RecordStore::new(addr(9));
    let pid = store.program_id;
    let m1 = addr(1);
    let m2 = addr(2);
    store.credit(&m1, 1_000_000_000_000).unwrap();
    let ga = group_addr(&pid, b"team");
    let create_ins = encode_instruction(&Instruction::Create {
        name: b"team".to_vec(),
        members: vec![m1],
        threshold: 1,
    });
    process_instruction(
        &mut store,
        &vec![signer(m1), Operand { address: ga, is_signer: false }],
        &create_ins,
    )
    .unwrap();
    store.credit(&ga, 1_000_000_000_000).unwrap();
    let pa = proposal_addr(&pid, &ga, 1);
    let propose_ins = encode_instruction(&Instruction::CreateProposal {
        id: 1,
        actions: vec![add_member_action(pid, ga, m2)],
    });
    process_instruction(
        &mut store,
        &vec![
            signer(m1),
            Operand { address: ga, is_signer: false },
            Operand { address: pa, is_signer: false },
        ],
        &propose_ins,
    )
    .unwrap();
    let approve_ins = encode_instruction(&Instruction::Approve { try_execute: true });
    let ds = process_instruction(
        &mut store,
        &vec![
            signer(m1),
            Operand { address: ga, is_signer: false },
            Operand { address: pa, is_signer: false },
            Operand { address: ga, is_signer: false },
        ],
        &approve_ins,
    )
    .unwrap();
    apply_descriptors(&mut store, &pid, &ds).unwrap();
    assert_eq!(Multisig::get(&store, &ga).unwrap().members, vec![m1, m2]);
    assert!(Proposal::get(&store, &pa).unwrap().executed);
}

#[test]
fn test_process_instruction_rejects_garbage() {
    let mut store = RecordStore::new(addr(9));
    let r = process_instruction(&mut store, &vec![], &vec![99, 1, 2]);
    assert!(matches!(r, Err(Error::Storage(StorageError::InvalidRecord))));
    let short = process_instruction(
        &mut store,
        &vec![],
        &encode_instruction(&Instruction::AddMember { member: addr(1) }),
    );
    assert!(matches!(short, Err(Error::Storage(StorageError::InvalidRecord))));
}

#[test]
fn test_auto_execute_with_bad_stream() {
    // the approval itself lands, but the chained execution aborts on the
    // mismatched stream before any call is handed out; the host discards
    // the whole invocation on such an error
    let mut store = RecordStore::new(addr(9));
    let m1 = addr(1);
    let ga = setup_group(&mut store, m1, b"team", vec![m1], 1);
    let pa = proposal_addr(&store.program_id, &ga, 7);
    let action = add_member_action(store.program_id, ga, addr(2));
    create_proposal(&mut store, &signer(m1), &ga, &pa, 7, vec![action]).unwrap();
    let r = approve(&mut store, &signer(m1), &ga, &pa, true, &vec![addr(42)]);
    assert!(matches!(r, Err(Error::InvalidAccount)));
    let p = Proposal::get(&store, &pa).unwrap();
    assert_eq!(p.approvers, vec![m1]);
    assert!(!p.executed);
}

#[test]
fn test_approval_growth_funded_by_approver() {
    // growing the proposal record by one address width is funded by the
    // approver, up to exactly the reserve for the new size
    let mut store = RecordStore::new(addr(9));
    let m1 = addr(1);
    let m2 = addr(2);
    let ga = setup_group(&mut store, m1, b"team", vec![m1, m2], 2);
    store.credit(&m2, 1_000_000_000_000).unwrap();
    let pa = proposal_addr(&store.program_id, &ga, 7);
    let action = add_member_action(store.program_id, ga, addr(3));
    create_proposal(&mut store, &signer(m1), &ga, &pa, 7, vec![action]).unwrap();
    let before_size = store.read_record(&pa).2.len();
    let approver_before = store.read_record(&m2).1;
    approve(&mut store, &signer(m2), &ga, &pa, false, &vec![]).unwrap();
    let rent = solana_program::rent::Rent::default();
    let need = rent.minimum_balance(before_size + 32);
    assert_eq!(store.read_record(&pa).1, need);
    let paid = need - rent.minimum_balance(before_size);
    assert_eq!(store.read_record(&m2).1, approver_before - paid);
}

#[test]
fn test_execute_wrong_group_record() {
    // a proposal is bound to its own group: executing it against another
    // group's record is rejected before any state is read
    let mut store = RecordStore::new(addr(9));
    let m1 = addr(1);
    let ga = setup_group(&mut store, m1, b"team", vec![m1], 1);
    let other = setup_group(&mut store, m1, b"other", vec![m1], 1);
    let pa = proposal_addr(&store.program_id, &ga, 7);
    let action = add_member_action(store.program_id, ga, addr(2));
    create_proposal(&mut store, &signer(m1), &ga, &pa, 7, vec![action]).unwrap();
    approve(&mut store, &signer(m1), &ga, &pa, false, &vec![]).unwrap();
    let r = execute(&mut store, &other, &pa, &vec![ga]);
    assert!(matches!(r, Err(Error::Storage(StorageError::InvalidRecord))));
}

#[test]
fn test_proposal_default() {
    let p = Proposal::default();
    assert_eq!(p.id, 0);
    assert!(p.actions.is_empty());
    assert!(p.approvers.is_empty());
    assert!(!p.executed);
    assert_eq!(p.multisig, [0u8; 32]);
}

#[test]
fn test_proposal_checks() {
    let g = Multisig::new(b"g".to_vec(), vec![addr(1), addr(2)], 2);
    let mut p = Proposal::new(3, vec![], addr(9));
    assert_eq!(p.check_threshold(&g), Err(ProposalError::NotEnoughApprovals));
    assert!(!p.has_reached_threshold(&g));
    p.approve(&g, &addr(1)).unwrap();
    assert!(p.has_approved(&addr(1)));
    assert!(!p.has_approved(&addr(2)));
    assert_eq!(
        p.approve(&g, &addr(1)),
        Err(Error::Proposal(ProposalError::AlreadyApproved))
    );
    assert_eq!(
        p.approve(&g, &addr(5)),
        Err(Error::Multisig(MultisigError::NotAMember))
    );
    p.approve(&g, &addr(2)).unwrap();
    assert!(p.has_reached_threshold(&g));
    assert_eq!(p.check_threshold(&g), Ok(()));
    assert_eq!(p.check_executed(), Ok(()));
    p.executed = true;
    assert_eq!(p.check_executed(), Err(ProposalError::AlreadyExecuted));
}
