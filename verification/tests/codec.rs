//! The record and instruction layout: exact bytes, exact sizes, and
//! round-trips, cross-checked against an independent implementation of the
//! same length-prefixed encoding.

use multisig::codec::{
    decode_instruction, decode_multisig, decode_proposal, encode_action, encode_instruction,
    encode_multisig, encode_proposal, u64_be_bytes,
};
use multisig::multisig::Multisig;
use multisig::proposal::{Action, ActionAccount, Proposal};
use multisig::Instruction;

fn addr(n: u8) -> [u8; 32] {
    [n; 32]
}

fn sample_action() -> Action {
    Action {
        program_id: addr(10),
        accounts: vec![
            ActionAccount { pubkey: addr(11), is_signer: true, is_writable: false },
            ActionAccount { pubkey: addr(12), is_signer: false, is_writable: true },
        ],
        data: vec![1, 2, 3, 4, 5],
    }
}

#[test]
fn test_multisig_exact_bytes() {
    let g = Multisig { name: vec![97, 98], members: vec![addr(1)], threshold: 2, bump: 255 };
    let bytes = encode_multisig(&g);
    let mut expected: Vec<u8> = Vec::new();
    expected.extend_from_slice(b"multisig");
    expected.extend_from_slice(&[2, 0, 0, 0, 97, 98]);
    expected.extend_from_slice(&[1, 0, 0, 0]);
    expected.extend_from_slice(&[1u8; 32]);
    expected.extend_from_slice(&2u64.to_le_bytes());
    expected.push(255);
    assert_eq!(bytes, expected);
    assert_eq!(bytes.len(), g.size());
}

#[test]
fn test_multisig_round_trip() {
    let g = Multisig {
        name: b"a group".to_vec(),
        members: vec![addr(1), addr(2), addr(3)],
        threshold: 2,
        bump: 254,
    };
    let bytes = encode_multisig(&g);
    assert_eq!(bytes.len(), g.size());
    let back = decode_multisig(&bytes).expect("round trip");
    assert_eq!(back.name, g.name);
    assert_eq!(back.members, g.members);
    assert_eq!(back.threshold, g.threshold);
    assert_eq!(back.bump, g.bump);
}

#[test]
fn test_multisig_matches_independent_encoder() {
    // the layout after the type tag is the ordinary length-prefixed field
    // encoding, byte for byte
    let g = Multisig {
        name: b"cross".to_vec(),
        members: vec![addr(4), addr(5)],
        threshold: 1,
        bump: 7,
    };
    let bytes = encode_multisig(&g);
    let independent =
        borsh::to_vec(&(g.name.clone(), vec![[4u8; 32], [5u8; 32]], 1u64, 7u8)).unwrap();
    assert_eq!(&bytes[8..], &independent[..]);
}

#[test]
fn test_action_size_is_exact() {
    let a = sample_action();
    let bytes = encode_action(&a);
    assert_eq!(bytes.len(), a.size());
    // target + count prefix + two 34-byte parameters + payload prefix + payload
    assert_eq!(a.size(), 32 + 4 + 2 * 34 + 4 + 5);
}

#[test]
fn test_proposal_round_trip() {
    let p = Proposal {
        id: 77,
        actions: vec![sample_action()],
        approvers: vec![addr(1), addr(2)],
        executed: true,
        multisig: addr(9),
    };
    let bytes = encode_proposal(&p);
    assert_eq!(bytes.len(), p.size());
    assert_eq!(&bytes[..8], b"proposal");
    let back = decode_proposal(&bytes).expect("round trip");
    assert_eq!(back.id, 77);
    assert_eq!(back.actions.len(), 1);
    assert_eq!(back.actions[0].program_id, addr(10));
    assert_eq!(back.actions[0].accounts.len(), 2);
    assert_eq!(back.actions[0].accounts[0].pubkey, addr(11));
    assert!(back.actions[0].accounts[0].is_signer);
    assert!(!back.actions[0].accounts[0].is_writable);
    assert_eq!(back.actions[0].data, vec![1, 2, 3, 4, 5]);
    assert_eq!(back.approvers, vec![addr(1), addr(2)]);
    assert!(back.executed);
    assert_eq!(back.multisig, addr(9));
}

#[test]
fn test_proposal_matches_independent_encoder() {
    let p = Proposal {
        id: 3,
        actions: vec![],
        approvers: vec![addr(8)],
        executed: false,
        multisig: addr(9),
    };
    let bytes = encode_proposal(&p);
    let actions: Vec<([u8; 32], Vec<([u8; 32], bool, bool)>, Vec<u8>)> = vec![];
    let independent =
        borsh::to_vec(&(3u64, actions, vec![[8u8; 32]], false, [9u8; 32])).unwrap();
    assert_eq!(&bytes[8..], &independent[..]);
}

#[test]
fn test_decode_rejects_wrong_tag() {
    let g = Multisig { name: vec![], members: vec![addr(1)], threshold: 1, bump: 0 };
    let bytes = encode_multisig(&g);
    assert!(decode_proposal(&bytes).is_none());
    let mut wrong = bytes.clone();
    wrong[0] = b'x';
    assert!(decode_multisig(&wrong).is_none());
}

#[test]
fn test_decode_rejects_trailing_bytes() {
    let g = Multisig { name: vec![], members: vec![addr(1)], threshold: 1, bump: 0 };
    let mut bytes = encode_multisig(&g);
    bytes.push(0);
    assert!(decode_multisig(&bytes).is_none());
}

#[test]
fn test_decode_rejects_bad_flag_byte() {
    let p = Proposal {
        id: 1,
        actions: vec![],
        approvers: vec![],
        executed: false,
        multisig: addr(9),
    };
    let mut bytes = encode_proposal(&p);
    let flag_pos = bytes.len() - 33;
    assert_eq!(bytes[flag_pos], 0);
    bytes[flag_pos] = 2;
    assert!(decode_proposal(&bytes).is_none());
}

#[test]
fn test_instruction_round_trips() {
    let cases = vec![
        Instruction::Create { name: b"n".to_vec(), members: vec![addr(1), addr(2)], threshold: 2 },
        Instruction::AddMember { member: addr(3) },
        Instruction::RemoveMember { member: addr(4) },
        Instruction::Approve { try_execute: true },
        Instruction::CreateProposal { id: 5, actions: vec![sample_action()] },
        Instruction::ExecuteProposal {},
        Instruction::ChangeThreshold { threshold: 9 },
    ];
    for ins in cases {
        let bytes = encode_instruction(&ins);
        let back = decode_instruction(&bytes).expect("round trip");
        assert_eq!(encode_instruction(&back), bytes);
    }
}

#[test]
fn test_instruction_selector_bytes() {
    assert_eq!(encode_instruction(&Instruction::ExecuteProposal {}), vec![5]);
    assert_eq!(
        encode_instruction(&Instruction::Approve { try_execute: false }),
        vec![3, 0]
    );
    let change = encode_instruction(&Instruction::ChangeThreshold { threshold: 1 });
    assert_eq!(change[0], 6);
    assert_eq!(&change[1..], &1u64.to_le_bytes());
    assert!(decode_instruction(&vec![7]).is_none());
    assert!(decode_instruction(&vec![]).is_none());
}

#[test]
fn test_u64_big_endian_bytes() {
    assert_eq!(u64_be_bytes(0x0102030405060708), 0x0102030405060708u64.to_be_bytes().to_vec());
}
