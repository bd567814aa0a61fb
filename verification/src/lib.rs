//! A multi-party authorization engine: a group of member addresses jointly
//! controls a delegated execution authority behind an approval threshold.
//! Proposals batch external calls; once enough distinct members approve,
//! the batch is dispatched through the group's derived authority.

pub mod codec;
pub mod multisig;
pub mod proposal;
pub mod storage;

use vstd::prelude::*;

verus! {

/// One operand record handed to the engine by the host: its address, and
/// whether the host attests that the record's holder authorized this
/// invocation. Self-authorized operations demand that attestation on the
/// record itself.
#[derive(Clone, Copy, Debug)]
pub struct Operand {
    pub address: crate::storage::Address,
    pub is_signer: bool,
}

/// One decoded operation for the engine, with its fixed-format arguments.
/// The operand records each operation works on arrive separately, as an
/// ordered list.
pub enum Instruction {
    Create { name: Vec<u8>, members: Vec<crate::storage::Address>, threshold: u64 },
    AddMember { member: crate::storage::Address },
    RemoveMember { member: crate::storage::Address },
    Approve { try_execute: bool },
    CreateProposal { id: u64, actions: Vec<crate::proposal::Action> },
    ExecuteProposal {},
    ChangeThreshold { threshold: u64 },
}

/// The mathematical image of an instruction.
pub ghost enum InstructionV {
    Create { name: Seq<u8>, members: Seq<crate::storage::Address>, threshold: u64 },
    AddMember { member: crate::storage::Address },
    RemoveMember { member: crate::storage::Address },
    Approve { try_execute: bool },
    CreateProposal { id: u64, actions: Seq<crate::proposal::ActionV> },
    ExecuteProposal {},
    ChangeThreshold { threshold: u64 },
}

impl View for Instruction {
    type V = InstructionV;

    open spec fn view(&self) -> InstructionV {
        match self {
            Instruction::Create { name, members, threshold } => InstructionV::Create {
                name: name@,
                members: members@,
                threshold: *threshold,
            },
            Instruction::AddMember { member } => InstructionV::AddMember { member: *member },
            Instruction::RemoveMember { member } => InstructionV::RemoveMember {
                member: *member,
            },
            Instruction::Approve { try_execute } => InstructionV::Approve {
                try_execute: *try_execute,
            },
            Instruction::CreateProposal { id, actions } => InstructionV::CreateProposal {
                id: *id,
                actions: actions@.map_values(|a: crate::proposal::Action| a@),
            },
            Instruction::ExecuteProposal {  } => InstructionV::ExecuteProposal {  },
            Instruction::ChangeThreshold { threshold } => InstructionV::ChangeThreshold {
                threshold: *threshold,
            },
        }
    }
}

/// Any error the engine surfaces; every one is local, typed and final —
/// the caller aborts the whole invocation and discards its tentative
/// writes.
#[derive(Clone, Copy, Debug, PartialEq, Eq, Structural)]
pub enum Error {
    /// A membership or threshold rule was violated.
    Multisig(crate::multisig::MultisigError),
    /// A proposal lifecycle rule was violated.
    Proposal(crate::proposal::ProposalError),
    /// A record could not be verified, created or funded.
    Storage(crate::storage::StorageError),
    /// The supplied operand records do not positionally match an action's
    /// declared parameters.
    InvalidAccount,
}

/// The addresses of a list of operand records.
pub open spec fn operand_addrs(ops: Seq<Operand>) -> Seq<crate::storage::Address> {
    ops.map_values(|o: Operand| o.address)
}

/// A result with its payload forgotten, for operations that return nothing.
pub open spec fn unit_result(r: Result<Vec<crate::proposal::CallDescriptor>, Error>) -> Result<
    (),
    Error,
> {
    match r {
        Ok(_) => Ok(()),
        Err(e) => Err(e),
    }
}

/// What one decoded operation does through the outer entrypoint: bytes
/// that decode to no instruction, and operand lists shorter than the
/// operation's table demands, are rejected as invalid records with the
/// store untouched; otherwise the operation's own outcome holds, with the
/// operand records wired in table order.
pub open spec fn process_outcome(
    pre: crate::storage::StoreV,
    post: crate::storage::StoreV,
    ops: Seq<Operand>,
    bytes: Seq<u8>,
    r: Result<Vec<crate::proposal::CallDescriptor>, Error>,
) -> bool {
    let rejected = r == Err::<Vec<crate::proposal::CallDescriptor>, Error>(
        Error::Storage(crate::storage::StorageError::InvalidRecord),
    ) && crate::storage::store_eq(post, pre);
    match crate::codec::dec_instruction(bytes) {
        None => rejected,
        Some(ins) => match ins {
            InstructionV::Create { name, members, threshold } => if ops.len() < 2 {
                rejected
            } else {
                &&& crate::multisig::create_outcome(
                    pre,
                    post,
                    ops[0].address,
                    ops[1].address,
                    name,
                    members,
                    threshold,
                    unit_result(r),
                )
                &&& r matches Ok(ds) ==> crate::proposal::descriptor_views(ds@) == Seq::<
                    crate::proposal::CallDescriptorV,
                >::empty()
            },
            InstructionV::AddMember { member } => if ops.len() < 1 {
                rejected
            } else {
                &&& crate::multisig::add_member_outcome(pre, post, ops[0], member, unit_result(r))
                &&& r matches Ok(ds) ==> crate::proposal::descriptor_views(ds@) == Seq::<
                    crate::proposal::CallDescriptorV,
                >::empty()
            },
            InstructionV::RemoveMember { member } => if ops.len() < 1 {
                rejected
            } else {
                &&& crate::multisig::remove_member_outcome(
                    pre,
                    post,
                    ops[0],
                    member,
                    unit_result(r),
                )
                &&& r matches Ok(ds) ==> crate::proposal::descriptor_views(ds@) == Seq::<
                    crate::proposal::CallDescriptorV,
                >::empty()
            },
            InstructionV::ChangeThreshold { threshold } => if ops.len() < 1 {
                rejected
            } else {
                &&& crate::multisig::set_threshold_outcome(
                    pre,
                    post,
                    ops[0],
                    threshold,
                    unit_result(r),
                )
                &&& r matches Ok(ds) ==> crate::proposal::descriptor_views(ds@) == Seq::<
                    crate::proposal::CallDescriptorV,
                >::empty()
            },
            InstructionV::CreateProposal { id, actions } => if ops.len() < 3 {
                rejected
            } else {
                &&& crate::proposal::create_outcome(
                    pre,
                    post,
                    ops[0],
                    ops[1].address,
                    ops[2].address,
                    id,
                    actions,
                    unit_result(r),
                )
                &&& r matches Ok(ds) ==> crate::proposal::descriptor_views(ds@) == Seq::<
                    crate::proposal::CallDescriptorV,
                >::empty()
            },
            InstructionV::Approve { try_execute } => if ops.len() < 3 {
                rejected
            } else {
                crate::proposal::approve_outcome(
                    pre,
                    post,
                    ops[0],
                    ops[1].address,
                    ops[2].address,
                    try_execute,
                    operand_addrs(ops.skip(3)),
                    r,
                )
            },
            InstructionV::ExecuteProposal {  } => if ops.len() < 2 {
                rejected
            } else {
                crate::proposal::execute_outcome(
                    pre,
                    post,
                    ops[0].address,
                    ops[1].address,
                    operand_addrs(ops.skip(2)),
                    r,
                )
            },
        },
    }
}

/// The engine's outer entrypoint: decodes an operation selector and its
/// fixed-format arguments, then runs the operation against the record
/// store with the operand records wired in table order. Bytes that decode
/// to no operation, and operand lists shorter than the operation demands,
/// are rejected as invalid records before any state is touched.
#[verifier::loop_isolation(false)]
pub fn process_instruction(
    store: &mut crate::storage::RecordStore,
    accounts: &Vec<Operand>,
    instruction_data: &Vec<u8>,
) -> (r: Result<Vec<crate::proposal::CallDescriptor>, Error>)
    requires
        old(store).wf(),
        instruction_data@.len() + 64 <= usize::MAX,
    ensures
        final(store).wf(),
        final(store)@.program_id == old(store)@.program_id,
        process_outcome(old(store)@, final(store)@, accounts@, instruction_data@, r),
{
    let empty_ok: Vec<crate::proposal::CallDescriptor> = Vec::new();
    proof {
        assert(crate::proposal::descriptor_views(empty_ok@) =~= Seq::<
            crate::proposal::CallDescriptorV,
        >::empty());
        crate::codec::lemma_dec_instruction_bounds(instruction_data@);
    }
    let ins = match crate::codec::decode_instruction(instruction_data) {
        Some(ins) => ins,
        None => {
            return Err(Error::Storage(crate::storage::StorageError::InvalidRecord));
        },
    };
    match ins {
        Instruction::Create { name, members, threshold } => {
            if accounts.len() < 2 {
                return Err(Error::Storage(crate::storage::StorageError::InvalidRecord));
            }
            let payer = accounts[0].address;
            let multisig_account = accounts[1].address;
            match crate::multisig::create(
                store,
                &payer,
                &multisig_account,
                name,
                &members,
                threshold,
            ) {
                Ok(()) => Ok(empty_ok),
                Err(e) => Err(e),
            }
        },
        Instruction::AddMember { member } => {
            if accounts.len() < 1 {
                return Err(Error::Storage(crate::storage::StorageError::InvalidRecord));
            }
            let multisig_account = accounts[0];
            match crate::multisig::add_member(store, &multisig_account, &member) {
                Ok(()) => Ok(empty_ok),
                Err(e) => Err(e),
            }
        },
        Instruction::RemoveMember { member } => {
            if accounts.len() < 1 {
                return Err(Error::Storage(crate::storage::StorageError::InvalidRecord));
            }
            let multisig_account = accounts[0];
            match crate::multisig::remove_member(store, &multisig_account, &member) {
                Ok(()) => Ok(empty_ok),
                Err(e) => Err(e),
            }
        },
        Instruction::ChangeThreshold { threshold } => {
            if accounts.len() < 1 {
                return Err(Error::Storage(crate::storage::StorageError::InvalidRecord));
            }
            let multisig_account = accounts[0];
            match crate::multisig::set_threshold(store, &multisig_account, threshold) {
                Ok(()) => Ok(empty_ok),
                Err(e) => Err(e),
            }
        },
        Instruction::CreateProposal { id, actions } => {
            if accounts.len() < 3 {
                return Err(Error::Storage(crate::storage::StorageError::InvalidRecord));
            }
            let member = accounts[0];
            let multisig_account = accounts[1].address;
            let proposal_account = accounts[2].address;
            proof {
                let spec_actions = actions@.map_values(|a: crate::proposal::Action| a@);
                assert forall|k: int| 0 <= k < actions@.len() implies crate::codec::action_encodable(
                    #[trigger] actions@[k]@,
                ) by {
                    assert(spec_actions[k] == actions@[k]@);
                }
                assert(crate::proposal::actions_size(spec_actions) + 13
                    == instruction_data@.len());
            }
            match crate::proposal::create(
                store,
                &member,
                &multisig_account,
                &proposal_account,
                id,
                actions,
            ) {
                Ok(()) => Ok(empty_ok),
                Err(e) => Err(e),
            }
        },
        Instruction::Approve { try_execute } => {
            if accounts.len() < 3 {
                return Err(Error::Storage(crate::storage::StorageError::InvalidRecord));
            }
            let member = accounts[0];
            let multisig_account = accounts[1].address;
            let proposal_account = accounts[2].address;
            let stream = operand_tail(accounts, 3);
            crate::proposal::approve(
                store,
                &member,
                &multisig_account,
                &proposal_account,
                try_execute,
                &stream,
            )
        },
        Instruction::ExecuteProposal {  } => {
            if accounts.len() < 2 {
                return Err(Error::Storage(crate::storage::StorageError::InvalidRecord));
            }
            let multisig_account = accounts[0].address;
            let proposal_account = accounts[1].address;
            let stream = operand_tail(accounts, 2);
            crate::proposal::execute(store, &multisig_account, &proposal_account, &stream)
        },
    }
}

/// The addresses of the operand records from position `from` on: the
/// account stream that action dispatch consumes.
fn operand_tail(accounts: &Vec<Operand>, from: usize) -> (r: Vec<crate::storage::Address>)
    requires
        from <= accounts@.len(),
    ensures
        r@ == operand_addrs(accounts@.skip(from as int)),
{
    let mut out: Vec<crate::storage::Address> = Vec::new();
    let mut i: usize = from;
    proof {
        assert(out@ =~= operand_addrs(accounts@.subrange(from as int, from as int)));
    }
    while i < accounts.len()
        invariant
            from <= i <= accounts@.len(),
            out@ == operand_addrs(accounts@.subrange(from as int, i as int)),
        decreases accounts@.len() - i,
    {
        out.push(accounts[i].address);
        proof {
            assert(accounts@.subrange(from as int, i + 1) =~= accounts@.subrange(
                from as int,
                i as int,
            ).push(accounts@[i as int]));
            assert(out@ =~= operand_addrs(accounts@.subrange(from as int, i + 1)));
        }
        i = i + 1;
    }
    proof {
        assert(accounts@.subrange(from as int, accounts@.len() as int) =~= accounts@.skip(
            from as int,
        ));
    }
    out
}

} // verus!
