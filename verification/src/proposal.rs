//! Proposals: a batch of delegated external calls scoped to one group,
//! gathering member approvals until the group's threshold is met, then
//! dispatched in order through the group's derived authority.

use vstd::prelude::*;

use crate::codec::{
    dec_proposal, decode_proposal, enc_proposal, encode_proposal, lemma_dec_enc_proposal,
    lemma_dec_proposal_len, lemma_enc_proposal_len, proposal_encodable, proposal_tag, u64_be,
    u64_be_bytes,
};
use crate::multisig::{group_at, Multisig, MultisigError, MultisigV};
use crate::storage::{
    addr_eq, derive_address, derived, fundable, funded, lemma_addr_view_inj, rec_at, reserve_of,
    store_eq, store_is_upd, store_is_upd2, Address, RecordStore, RecordV, StorageError, StoreV,
};
use crate::{Error, Operand};

verus! {

/// The seed tuple whose derivation addresses a proposal record: the literal
/// bytes of "proposal", the owning group's address, and the proposal id as
/// 8 big-endian bytes.
pub open spec fn proposal_seeds(group: Address, id: u64) -> Seq<Seq<u8>> {
    seq![proposal_tag(), group@, u64_be(id)]
}

/// Builds a proposal's seed tuple.
pub fn proposal_seed_vec(group: &Address, id: u64) -> (r: Vec<Vec<u8>>)
    ensures
        r.deep_view() == proposal_seeds(*group, id),
{
    let mut tag: Vec<u8> = Vec::new();
    tag.push(112);
    tag.push(114);
    tag.push(111);
    tag.push(112);
    tag.push(111);
    tag.push(115);
    tag.push(97);
    tag.push(108);
    let mut group_bytes: Vec<u8> = Vec::new();
    let mut i: usize = 0;
    while i < 32
        invariant
            i <= 32,
            group_bytes@ == group@.take(i as int),
        decreases 32 - i,
    {
        group_bytes.push(group[i]);
        proof {
            assert(group@.take(i + 1) =~= group@.take(i as int).push(group@[i as int]));
        }
        i = i + 1;
    }
    proof {
        assert(group_bytes@ =~= group@);
    }
    let id_bytes = u64_be_bytes(id);
    let mut r: Vec<Vec<u8>> = Vec::new();
    r.push(tag);
    r.push(group_bytes);
    r.push(id_bytes);
    proof {
        assert(r.deep_view() =~~= proposal_seeds(*group, id));
    }
    r
}

/// Proposal lifecycle errors.
#[derive(Clone, Copy, Debug, PartialEq, Eq, Structural)]
pub enum ProposalError {
    /// The approver already approved this proposal.
    AlreadyApproved,
    /// The proposal was already executed.
    AlreadyExecuted,
    /// The approver count has not reached the group's threshold.
    NotEnoughApprovals,
}

/// One parameter of a delegated call: the record it names, and whether the
/// call requires it as an authority and as writable.
#[derive(Clone, Copy, Debug)]
pub struct ActionAccount {
    pub pubkey: Address,
    pub is_signer: bool,
    pub is_writable: bool,
}

/// One delegated external call: the target capability handler, its ordered
/// parameters, and opaque payload bytes for the target.
#[derive(Debug)]
pub struct Action {
    pub program_id: Address,
    pub accounts: Vec<ActionAccount>,
    pub data: Vec<u8>,
}

/// The mathematical image of an action.
pub ghost struct ActionV {
    pub program_id: Address,
    pub accounts: Seq<ActionAccount>,
    pub data: Seq<u8>,
}

impl View for Action {
    type V = ActionV;

    open spec fn view(&self) -> ActionV {
        ActionV { program_id: self.program_id, accounts: self.accounts@, data: self.data@ }
    }
}

/// A batch of actions awaiting threshold approval, scoped to the group at
/// `multisig`. Actions are fixed at creation; `approvers` grows by one per
/// distinct approving member; `executed` moves from false to true once.
#[derive(Debug)]
pub struct Proposal {
    pub id: u64,
    pub actions: Vec<Action>,
    pub approvers: Vec<Address>,
    pub executed: bool,
    pub multisig: Address,
}

/// The mathematical image of a proposal.
pub ghost struct ProposalV {
    pub id: u64,
    pub actions: Seq<ActionV>,
    pub approvers: Seq<Address>,
    pub executed: bool,
    pub multisig: Address,
}

impl View for Proposal {
    type V = ProposalV;

    open spec fn view(&self) -> ProposalV {
        ProposalV {
            id: self.id,
            actions: self.actions@.map_values(|a: Action| a@),
            approvers: self.approvers@,
            executed: self.executed,
            multisig: self.multisig,
        }
    }
}

/// One delegated call, ready for the execution host: the target, the
/// parameter records with their capability flags, the payload, and the
/// group authority the call is issued as.
#[derive(Debug)]
pub struct CallDescriptor {
    pub program_id: Address,
    pub accounts: Vec<ActionAccount>,
    pub data: Vec<u8>,
    pub authority: Address,
}

/// The mathematical image of a call descriptor.
pub ghost struct CallDescriptorV {
    pub program_id: Address,
    pub accounts: Seq<ActionAccount>,
    pub data: Seq<u8>,
    pub authority: Address,
}

impl View for CallDescriptor {
    type V = CallDescriptorV;

    open spec fn view(&self) -> CallDescriptorV {
        CallDescriptorV {
            program_id: self.program_id,
            accounts: self.accounts@,
            data: self.data@,
            authority: self.authority,
        }
    }
}

/// The descriptor that dispatching `a` as authority `auth` produces.
pub open spec fn descriptor_of(a: ActionV, auth: Address) -> CallDescriptorV {
    CallDescriptorV { program_id: a.program_id, accounts: a.accounts, data: a.data, authority: auth }
}

/// The exact serialized size of an action: target, length-prefixed
/// parameter list (one address and two flag bytes each), length-prefixed
/// payload.
pub open spec fn action_size(a: ActionV) -> nat {
    32 + 4 + a.accounts.len() * 34 + 4 + a.data.len()
}

/// The summed exact serialized size of a batch of actions.
pub open spec fn actions_size(s: Seq<ActionV>) -> nat
    decreases s.len(),
{
    if s.len() == 0 {
        0
    } else {
        actions_size(s.drop_last()) + action_size(s.last())
    }
}

/// The exact serialized size of a proposal: an 8-byte type tag, the id, the
/// length-prefixed action batch, the length-prefixed approver list, the
/// executed flag, and the group back-reference.
pub open spec fn proposal_size(p: ProposalV) -> nat {
    8 + 8 + (4 + actions_size(p.actions)) + (4 + p.approvers.len() * 32) + 1 + 32
}

/// Extending a prefix of a batch by one action grows its summed size by
/// exactly that action's size.
pub proof fn lemma_actions_size_take_succ(s: Seq<ActionV>, i: int)
    requires
        0 <= i < s.len(),
    ensures
        actions_size(s.take(i + 1)) == actions_size(s.take(i)) + action_size(s[i]),
{
    let t1 = s.take(i + 1);
    assert(t1.drop_last() =~= s.take(i));
    assert(t1.last() == s[i]);
}

/// A prefix of a batch never outweighs the whole batch.
pub proof fn lemma_actions_size_take_le(s: Seq<ActionV>, i: int)
    requires
        0 <= i <= s.len(),
    ensures
        actions_size(s.take(i)) <= actions_size(s),
    decreases s.len() - i,
{
    if i == s.len() {
        assert(s.take(i) =~= s);
    } else {
        lemma_actions_size_take_succ(s, i);
        lemma_actions_size_take_le(s, i + 1);
    }
}

impl Action {
    /// The exact number of bytes this action occupies inside a proposal
    /// record, a pure function of its parameter count and payload length.
    pub fn size(&self) -> (r: usize)
        requires
            action_size(self@) <= usize::MAX,
        ensures
            r == action_size(self@),
    {
        32 + 4 + self.accounts.len() * 34 + 4 + self.data.len()
    }
}

impl Proposal {
    /// The exact number of bytes this proposal's record occupies.
    pub fn size(&self) -> (r: usize)
        requires
            proposal_size(self@) <= usize::MAX,
        ensures
            r == proposal_size(self@),
    {
        Proposal::static_size(&self.actions, self.approvers.len())
    }

    /// The exact record size of a proposal holding the given action batch
    /// and approver count.
    #[verifier::loop_isolation(false)]
    pub fn static_size(actions: &Vec<Action>, approvers_len: usize) -> (r: usize)
        requires
            8 + 8 + (4 + actions_size(actions@.map_values(|a: Action| a@))) + (4 + approvers_len
                * 32) + 1 + 32 <= usize::MAX,
        ensures
            r == 8 + 8 + (4 + actions_size(actions@.map_values(|a: Action| a@))) + (4
                + approvers_len * 32) + 1 + 32,
    {
        let ghost av = actions@.map_values(|a: Action| a@);
        let mut acc: usize = 0;
        let mut i: usize = 0;
        proof {
            assert(av.take(0) =~= Seq::<ActionV>::empty());
        }
        while i < actions.len()
            invariant
                i <= actions@.len(),
                acc == actions_size(av.take(i as int)),
            decreases actions@.len() - i,
        {
            proof {
                lemma_actions_size_take_succ(av, i as int);
                lemma_actions_size_take_le(av, i + 1);
                assert(av[i as int] == actions@[i as int]@);
            }
            acc = acc + actions[i].size();
            i = i + 1;
        }
        proof {
            assert(av.take(actions@.len() as int) =~= av);
        }
        8 + 8 + 4 + acc + 4 + approvers_len * 32 + 1 + 32
    }

    /// A fresh proposal over a fixed action batch: no approvals yet, not
    /// executed.
    pub fn new(id: u64, actions: Vec<Action>, multisig: Address) -> (p: Proposal)
        ensures
            p@ == (ProposalV {
                id,
                actions: actions@.map_values(|a: Action| a@),
                approvers: Seq::empty(),
                executed: false,
                multisig,
            }),
    {
        let p = Proposal { id, actions, approvers: Vec::new(), executed: false, multisig };
        proof {
            assert(p@.approvers =~= Seq::<Address>::empty());
        }
        p
    }

    /// The zero proposal: empty batch, no approvals, not executed.
    pub fn default() -> (p: Proposal)
        ensures
            p@.id == 0,
            p@.actions =~= Seq::<ActionV>::empty(),
            p@.approvers =~= Seq::<Address>::empty(),
            p@.executed == false,
            p@.multisig@ =~= Seq::new(32, |i: int| 0u8),
    {
        let p = Proposal {
            id: 0,
            actions: Vec::new(),
            approvers: Vec::new(),
            executed: false,
            multisig: [0u8; 32],
        };
        proof {
            assert(p@.actions =~= Seq::<ActionV>::empty());
        }
        p
    }

    /// Whether the address already approved this proposal.
    pub fn has_approved(&self, approver: &Address) -> (r: bool)
        ensures
            r == self@.approvers.contains(*approver),
    {
        let mut i: usize = 0;
        while i < self.approvers.len()
            invariant
                i <= self.approvers@.len(),
                forall|k: int| 0 <= k < i ==> self.approvers@[k] != *approver,
            decreases self.approvers@.len() - i,
        {
            proof {
                lemma_addr_view_inj(self.approvers@[i as int], *approver);
            }
            if addr_eq(&self.approvers[i], approver) {
                assert(self.approvers@[i as int] == *approver);
                return true;
            }
            i = i + 1;
        }
        assert(!self.approvers@.contains(*approver));
        false
    }

    /// Whether the approvals have reached the group's threshold.
    pub fn has_reached_threshold(&self, multisig: &Multisig) -> (r: bool)
        ensures
            r == (self@.approvers.len() >= multisig@.threshold),
    {
        self.approvers.len() as u64 >= multisig.threshold
    }

    /// Fails with `AlreadyExecuted` exactly when the proposal was executed.
    pub fn check_executed(&self) -> (r: Result<(), ProposalError>)
        ensures
            r matches Ok(()) <==> !self@.executed,
            r matches Err(e) ==> e == ProposalError::AlreadyExecuted,
    {
        if self.executed {
            return Err(ProposalError::AlreadyExecuted);
        }
        Ok(())
    }

    /// Fails with `NotEnoughApprovals` exactly when the approvals are below
    /// the group's threshold.
    pub fn check_threshold(&self, multisig: &Multisig) -> (r: Result<(), ProposalError>)
        ensures
            r matches Ok(()) <==> self@.approvers.len() >= multisig@.threshold,
            r matches Err(e) ==> e == ProposalError::NotEnoughApprovals,
    {
        if !self.has_reached_threshold(multisig) {
            return Err(ProposalError::NotEnoughApprovals);
        }
        Ok(())
    }

    /// Records one member's approval. Fails with `NotAMember` when the
    /// approver is not a current group member, with `AlreadyApproved` on a
    /// repeated approval, and with `AlreadyExecuted` on a proposal already
    /// executed — an executed proposal is never mutated again. On failure
    /// the proposal is unchanged; on success the approver list grows by
    /// exactly this approver.
    pub fn approve(&mut self, multisig: &Multisig, approver: &Address) -> (r: Result<
        (),
        crate::Error,
    >)
        ensures
            match r {
                Ok(()) => {
                    &&& multisig@.is_member(*approver)
                    &&& !old(self)@.approvers.contains(*approver)
                    &&& !old(self)@.executed
                    &&& final(self)@ == (ProposalV {
                        approvers: old(self)@.approvers.push(*approver),
                        ..old(self)@
                    })
                },
                Err(e) => {
                    &&& final(self)@ == old(self)@
                    &&& match e {
                        crate::Error::Multisig(m) => m == MultisigError::NotAMember
                            && !multisig@.is_member(*approver),
                        crate::Error::Proposal(p) => {
                            ||| (p == ProposalError::AlreadyApproved && multisig@.is_member(
                                *approver,
                            ) && old(self)@.approvers.contains(*approver))
                            ||| (p == ProposalError::AlreadyExecuted && multisig@.is_member(
                                *approver,
                            ) && !old(self)@.approvers.contains(*approver) && old(self)@.executed)
                        },
                        _ => false,
                    }
                },
            },
    {
        match multisig.check_member(approver) {
            Ok(()) => {},
            Err(e) => {
                return Err(crate::Error::Multisig(e));
            },
        }
        if self.has_approved(approver) {
            return Err(crate::Error::Proposal(ProposalError::AlreadyApproved));
        }
        match self.check_executed() {
            Ok(()) => {},
            Err(e) => {
                return Err(crate::Error::Proposal(e));
            },
        }
        self.approvers.push(*approver);
        Ok(())
    }
}

/// The proposal stored at an address: its record must be held by the
/// engine, decode as a proposal, and sit at the address its own group
/// back-reference and id derive.
pub open spec fn proposal_at(s: StoreV, a: Address) -> Option<ProposalV> {
    match dec_proposal(rec_at(s, a).data) {
        Some(p) => if rec_at(s, a).owner == Some(s.program_id) && (derived(
            s.program_id@,
            proposal_seeds(p.multisig, p.id),
        ) matches Some(q) && q.0 == a@) {
            Some(p)
        } else {
            None
        },
        None => None,
    }
}

/// The operand records that the first `k` actions of a batch consume from
/// the host-supplied account stream.
pub open spec fn consumed(actions: Seq<ActionV>, k: int) -> nat
    decreases k,
{
    if k <= 0 {
        0
    } else {
        consumed(actions, k - 1) + actions[k - 1].accounts.len()
    }
}

/// The stream slice starting at `start` positionally matches the action's
/// declared parameters by address.
pub open spec fn action_match(a: ActionV, accounts: Seq<Address>, start: nat) -> bool {
    &&& start + a.accounts.len() <= accounts.len()
    &&& forall|j: int| 0 <= j < a.accounts.len() ==> accounts[start + j] == a.accounts[j].pubkey
}

/// Every action of the batch finds its declared parameters, in batch
/// order, at its own cursor position of the account stream.
pub open spec fn stream_ok(actions: Seq<ActionV>, accounts: Seq<Address>) -> bool {
    forall|k: int|
        0 <= k < actions.len() ==> action_match(
            #[trigger] actions[k],
            accounts,
            consumed(actions, k),
        )
}

/// The descriptor batch that executing `actions` as authority `auth`
/// hands to the host: one call per action, in batch order.
pub open spec fn descriptors_of(actions: Seq<ActionV>, auth: Address) -> Seq<CallDescriptorV> {
    Seq::new(actions.len(), |k: int| descriptor_of(actions[k], auth))
}

/// The images of a list of call descriptors.
pub open spec fn descriptor_views(ds: Seq<CallDescriptor>) -> Seq<CallDescriptorV> {
    ds.map_values(|d: CallDescriptor| d@)
}

/// `post` is `pre` with the record at `pda` holding `data` at the reserve
/// for `size`, the top-up funded by `payer`: an already-funded or
/// self-paying record keeps its balance, any other payer is debited.
pub open spec fn saved_at(
    pre: StoreV,
    post: StoreV,
    payer: Address,
    pda: Address,
    data: Seq<u8>,
    size: usize,
) -> bool {
    let prerec = rec_at(pre, pda);
    let need = reserve_of(size);
    let self_pay = pda == payer;
    let newrec = RecordV {
        owner: Some(pre.program_id),
        lamports: funded(prerec.lamports, self_pay, need),
        data,
    };
    if prerec.lamports >= need || self_pay {
        store_is_upd(pre, post, pda, newrec)
    } else {
        store_is_upd2(
            pre,
            post,
            payer,
            RecordV {
                lamports: (rec_at(pre, payer).lamports - (need - prerec.lamports)) as u64,
                ..rec_at(pre, payer)
            },
            pda,
            newrec,
        )
    }
}

impl Proposal {
    /// Loads and verifies the proposal stored at an address: the record
    /// must decode as a proposal and sit, engine-held, at the address its
    /// own group back-reference and id derive; anything else fails with
    /// `InvalidRecord` before any state is used.
    pub fn get(store: &RecordStore, account: &Address) -> (r: Result<Proposal, Error>)
        requires
            store.wf(),
        ensures
            match r {
                Ok(p) => {
                    &&& proposal_at(store@, *account) == Some(p@)
                    &&& proposal_size(p@) <= usize::MAX
                    &&& proposal_encodable(p@)
                },
                Err(e) => {
                    &&& e == Error::Storage(StorageError::InvalidRecord)
                    &&& proposal_at(store@, *account) is None
                },
            },
    {
        let (_, _, data) = store.read_record(account);
        let p = match decode_proposal(&data) {
            Some(p) => p,
            None => {
                return Err(Error::Storage(StorageError::InvalidRecord));
            },
        };
        proof {
            lemma_dec_proposal_len(data@, p@);
        }
        let seeds = proposal_seed_vec(&p.multisig, p.id);
        match store.check_pda(&seeds, account) {
            Ok(()) => Ok(p),
            Err(_) => Err(Error::Storage(StorageError::InvalidRecord)),
        }
    }
}

/// What creating a proposal does: exactly when it succeeds, which error
/// comes on which input, and the store it leaves behind.
pub open spec fn create_outcome(
    pre: StoreV,
    post: StoreV,
    member: Operand,
    multisig_account: Address,
    proposal_account: Address,
    id: u64,
    actions: Seq<ActionV>,
    r: Result<(), Error>,
) -> bool {
    let g0 = group_at(pre, multisig_account);
    let d = derived(pre.program_id@, proposal_seeds(multisig_account, id));
    let pv = ProposalV {
        id,
        actions,
        approvers: Seq::empty(),
        executed: false,
        multisig: multisig_account,
    };
    match r {
        Ok(()) => {
            &&& member.is_signer
            &&& g0 matches Some(g) && g.members.contains(member.address)
            &&& d matches Some(q) && q.0 == proposal_account@
            &&& rec_at(pre, proposal_account).owner is None
            &&& fundable(
                pre,
                proposal_account,
                member.address,
                reserve_of(proposal_size(pv) as usize),
            )
            &&& saved_at(
                pre,
                post,
                member.address,
                proposal_account,
                enc_proposal(pv),
                proposal_size(pv) as usize,
            )
            &&& proposal_at(post, proposal_account) == Some(pv)
        },
        Err(e) => {
            &&& store_eq(post, pre)
            &&& match e {
                Error::Storage(StorageError::InvalidRecord) => {
                    ||| !member.is_signer
                    ||| (member.is_signer && g0 is None)
                    ||| (member.is_signer && (g0 matches Some(g) && ({
                        &&& g.members.contains(member.address)
                        &&& !(d matches Some(q) && q.0 == proposal_account@)
                    })))
                },
                Error::Multisig(MultisigError::NotAMember) => {
                    &&& member.is_signer
                    &&& g0 matches Some(g) && !g.members.contains(member.address)
                },
                Error::Storage(StorageError::AlreadyExists) => {
                    &&& member.is_signer
                    &&& g0 matches Some(g) && g.members.contains(member.address)
                    &&& d matches Some(q) && q.0 == proposal_account@
                    &&& rec_at(pre, proposal_account).owner is Some
                },
                Error::Storage(StorageError::InsufficientFunds) => {
                    &&& member.is_signer
                    &&& g0 matches Some(g) && g.members.contains(member.address)
                    &&& d matches Some(q) && q.0 == proposal_account@
                    &&& rec_at(pre, proposal_account).owner is None
                    &&& !fundable(
                        pre,
                        proposal_account,
                        member.address,
                        reserve_of(proposal_size(pv) as usize),
                    )
                },
                _ => false,
            }
        },
    }
}

/// Creates a proposal record over a fixed action batch. The creating
/// principal must sign and be a current group member; the record is
/// derived from the group's address and the proposal id, allocated at its
/// exact size, funded by the creator, and written with no approvals and
/// not executed.
pub fn create(
    store: &mut RecordStore,
    member: &Operand,
    multisig_account: &Address,
    proposal_account: &Address,
    id: u64,
    actions: Vec<Action>,
) -> (r: Result<(), Error>)
    requires
        old(store).wf(),
        actions@.len() <= u32::MAX,
        forall|k: int|
            0 <= k < actions@.len() ==> crate::codec::action_encodable(
                #[trigger] actions@[k]@,
            ),
        57 + actions_size(actions@.map_values(|a: Action| a@)) <= usize::MAX,
    ensures
        final(store).wf(),
        final(store)@.program_id == old(store)@.program_id,
        create_outcome(
            old(store)@,
            final(store)@,
            *member,
            *multisig_account,
            *proposal_account,
            id,
            actions@.map_values(|a: Action| a@),
            r,
        ),
{
    if !member.is_signer {
        return Err(Error::Storage(StorageError::InvalidRecord));
    }
    let g = match Multisig::get(store, multisig_account) {
        Ok(g) => g,
        Err(e) => {
            return Err(e);
        },
    };
    match g.check_member(&member.address) {
        Ok(()) => {},
        Err(e) => {
            return Err(Error::Multisig(e));
        },
    }
    let p = Proposal::new(id, actions, *multisig_account);
    let seeds = proposal_seed_vec(multisig_account, id);
    let (derived_addr, _bump) = match derive_address(&store.program_id, &seeds) {
        Some(q) => q,
        None => {
            return Err(Error::Storage(StorageError::InvalidRecord));
        },
    };
    proof {
        lemma_addr_view_inj(derived_addr, *proposal_account);
    }
    if !addr_eq(&derived_addr, proposal_account) {
        return Err(Error::Storage(StorageError::InvalidRecord));
    }
    let size = p.size();
    match store.create_pda(&member.address, &seeds, size) {
        Ok((created, _)) => {
            proof {
                lemma_addr_view_inj(created, *proposal_account);
            }
            let bytes = encode_proposal(&p);
            proof {
                lemma_enc_proposal_len(p@);
            }
            match store.write_pda(proposal_account, &bytes) {
                Ok(()) => {
                    proof {
                        lemma_dec_enc_proposal(p@);
                    }
                    Ok(())
                },
                Err(e) => Err(Error::Storage(e)),
            }
        },
        Err(e) => {
            proof {
                crate::storage::lemma_addr_of_view(*proposal_account);
            }
            Err(Error::Storage(e))
        },
    }
}

/// What executing a proposal does: exactly when it succeeds, which error
/// comes on which input, the descriptors it hands out, and the store it
/// leaves behind.
pub open spec fn execute_outcome(
    pre: StoreV,
    post: StoreV,
    multisig_account: Address,
    proposal_account: Address,
    accounts: Seq<Address>,
    r: Result<Vec<CallDescriptor>, Error>,
) -> bool {
    let p0 = proposal_at(pre, proposal_account);
    let g0 = group_at(pre, multisig_account);
    match r {
        Ok(ds) => {
            &&& p0 matches Some(p) && (g0 matches Some(g) && ({
                let p2 = ProposalV { executed: true, ..p };
                &&& p.multisig == multisig_account
                &&& !p.executed
                &&& p.approvers.len() >= g.threshold
                &&& stream_ok(p.actions, accounts)
                &&& descriptor_views(ds@) == descriptors_of(
                    p.actions,
                    multisig_account,
                )
                &&& store_is_upd(
                    pre,
                    post,
                    proposal_account,
                    RecordV {
                        owner: Some(pre.program_id),
                        lamports: rec_at(pre, proposal_account).lamports,
                        data: enc_proposal(p2),
                    },
                )
                &&& proposal_at(post, proposal_account) == Some(p2)
            }))
        },
        Err(e) => {
            &&& store_eq(post, pre)
            &&& match e {
                Error::Storage(StorageError::InvalidRecord) => {
                    ||| p0 is None
                    ||| (p0 matches Some(p) && g0 is None)
                    ||| (p0 matches Some(p) && g0 is Some && p.multisig != multisig_account)
                },
                Error::Proposal(ProposalError::AlreadyExecuted) => {
                    &&& p0 matches Some(p) && (g0 is Some && p.multisig == multisig_account
                        && p.executed)
                },
                Error::Proposal(ProposalError::NotEnoughApprovals) => {
                    &&& p0 matches Some(p) && (g0 matches Some(g) && ({
                        &&& p.multisig == multisig_account
                        &&& !p.executed
                        &&& p.approvers.len() < g.threshold
                    }))
                },
                Error::InvalidAccount => {
                    &&& p0 matches Some(p) && (g0 matches Some(g) && ({
                        &&& p.multisig == multisig_account
                        &&& !p.executed
                        &&& p.approvers.len() >= g.threshold
                        &&& !stream_ok(p.actions, accounts)
                    }))
                },
                _ => false,
            }
        },
    }
}

/// Executes a proposal: fails with `AlreadyExecuted` on a proposal already
/// executed and with `NotEnoughApprovals` below the group's threshold;
/// otherwise validates the whole account stream against the action batch —
/// a mismatch at any position aborts, with `InvalidAccount`, before any
/// call is handed out — then marks the proposal executed and returns one
/// call descriptor per action, in batch order, to be issued by the host as
/// the group's derived authority. The executed flag is durable before any
/// descriptor reaches the host, so a re-entrant execution finds it set.
#[verifier::loop_isolation(false)]
pub fn execute(
    store: &mut RecordStore,
    multisig_account: &Address,
    proposal_account: &Address,
    accounts: &Vec<Address>,
) -> (r: Result<Vec<CallDescriptor>, Error>)
    requires
        old(store).wf(),
    ensures
        final(store).wf(),
        final(store)@.program_id == old(store)@.program_id,
        execute_outcome(
            old(store)@,
            final(store)@,
            *multisig_account,
            *proposal_account,
            accounts@,
            r,
        ),
{
    let mut p = match Proposal::get(store, proposal_account) {
        Ok(p) => p,
        Err(e) => {
            return Err(e);
        },
    };
    let g = match Multisig::get(store, multisig_account) {
        Ok(g) => g,
        Err(e) => {
            return Err(e);
        },
    };
    proof {
        lemma_addr_view_inj(p.multisig, *multisig_account);
    }
    if !addr_eq(&p.multisig, multisig_account) {
        return Err(Error::Storage(StorageError::InvalidRecord));
    }
    match p.check_executed() {
        Ok(()) => {},
        Err(e) => {
            return Err(Error::Proposal(e));
        },
    }
    match p.check_threshold(&g) {
        Ok(()) => {},
        Err(e) => {
            return Err(Error::Proposal(e));
        },
    }
    let ghost av = p.actions@.map_values(|a: Action| a@);
    let total = accounts.len();
    let mut descriptors: Vec<CallDescriptor> = Vec::new();
    let mut cursor: usize = 0;
    let mut k: usize = 0;
    while k < p.actions.len()
        invariant
            k <= p.actions@.len(),
            cursor == consumed(av, k as int),
            cursor <= total,
            descriptor_views(descriptors@) == descriptors_of(
                av.take(k as int),
                *multisig_account,
            ),
            forall|j: int| 0 <= j < k ==> action_match(#[trigger] av[j], accounts@, consumed(av, j)),
        decreases p.actions@.len() - k,
    {
        proof {
            assert(descriptors_of(av.take(0), *multisig_account) =~= Seq::<
                CallDescriptorV,
            >::empty());
            assert(av[k as int] == p.actions@[k as int]@);
        }
        let d = match g.execute_action(multisig_account, &p.actions[k], accounts, cursor) {
            Ok(d) => d,
            Err(_) => {
                proof {
                    assert(!action_match(av[k as int], accounts@, consumed(av, k as int)));
                    assert(!stream_ok(av, accounts@));
                }
                return Err(Error::InvalidAccount);
            },
        };
        let ghost pre_map = descriptor_views(descriptors@);
        descriptors.push(d);
        let step = p.actions[k].accounts.len();
        cursor = cursor + step;
        k = k + 1;
        proof {
            let m = descriptor_views(descriptors@);
            let t = descriptors_of(av.take(k as int), *multisig_account);
            assert(m.len() == k);
            assert(t.len() == k);
            assert forall|j: int| 0 <= j < k implies m[j] == t[j] by {
                assert(m[j] == descriptors@[j]@);
                if j < k - 1 {
                    assert(descriptors@[j] == descriptors@.drop_last()[j]);
                    assert(pre_map[j] == descriptors_of(av.take(k - 1), *multisig_account)[j]);
                    assert(av.take(k - 1)[j] == av.take(k as int)[j]);
                } else {
                    assert(descriptors@[j] == d);
                }
            }
            assert(m =~= t);
        }
    }
    proof {
        assert(av.take(p.actions@.len() as int) =~= av);
        lemma_dec_proposal_len(rec_at(store@, *proposal_account).data, p@);
    }
    p.executed = true;
    let bytes = encode_proposal(&p);
    proof {
        lemma_enc_proposal_len(p@);
    }
    match store.write_pda(proposal_account, &bytes) {
        Ok(()) => {
            proof {
                lemma_dec_enc_proposal(p@);
            }
            Ok(descriptors)
        },
        Err(e) => Err(Error::Storage(e)),
    }
}

/// What approving a proposal does: exactly when it succeeds, which error
/// comes on which input, the descriptors a chained execution hands out,
/// and the store it leaves behind.
pub open spec fn approve_outcome(
    pre: StoreV,
    post: StoreV,
    member: Operand,
    multisig_account: Address,
    proposal_account: Address,
    try_execute: bool,
    accounts: Seq<Address>,
    r: Result<Vec<CallDescriptor>, Error>,
) -> bool {
    let g0 = group_at(pre, multisig_account);
    let p0 = proposal_at(pre, proposal_account);
    match r {
        Ok(ds) => {
            &&& member.is_signer
            &&& g0 matches Some(g) && (p0 matches Some(p) && ({
                let exec_now = try_execute && p.approvers.len() + 1 >= g.threshold;
                let p2 = ProposalV {
                    approvers: p.approvers.push(member.address),
                    executed: exec_now,
                    ..p
                };
                let grown = (proposal_size(p) + 32) as usize;
                &&& p.multisig == multisig_account
                &&& g.members.contains(member.address)
                &&& !p.approvers.contains(member.address)
                &&& !p.executed
                &&& p.approvers.len() + 1 <= u32::MAX
                &&& proposal_size(p) + 32 <= usize::MAX
                &&& fundable(pre, proposal_account, member.address, reserve_of(grown))
                &&& (exec_now ==> stream_ok(p.actions, accounts))
                &&& descriptor_views(ds@) == (if exec_now {
                    descriptors_of(p.actions, multisig_account)
                } else {
                    Seq::<CallDescriptorV>::empty()
                })
                &&& saved_at(
                    pre,
                    post,
                    member.address,
                    proposal_account,
                    enc_proposal(p2),
                    grown,
                )
                &&& proposal_at(post, proposal_account) == Some(p2)
            }))
        },
        Err(e) => match e {
            Error::Storage(StorageError::InvalidRecord) => {
                &&& store_eq(post, pre)
                &&& {
                    ||| !member.is_signer
                    ||| (member.is_signer && g0 is None)
                    ||| (member.is_signer && g0 is Some && p0 is None)
                    ||| (member.is_signer && g0 is Some && (p0 matches Some(p) && p.multisig
                        != multisig_account))
                    ||| (member.is_signer && (g0 matches Some(g) && (p0 matches Some(p) && ({
                        &&& p.multisig == multisig_account
                        &&& g.members.contains(member.address)
                        &&& !p.approvers.contains(member.address)
                        &&& !p.executed
                        &&& (p.approvers.len() + 1 > u32::MAX || proposal_size(p) + 32
                            > usize::MAX)
                    }))))
                }
            },
            Error::Multisig(MultisigError::NotAMember) => {
                &&& store_eq(post, pre)
                &&& member.is_signer
                &&& g0 matches Some(g) && (p0 matches Some(p) && ({
                    &&& p.multisig == multisig_account
                    &&& !g.members.contains(member.address)
                }))
            },
            Error::Proposal(ProposalError::AlreadyApproved) => {
                &&& store_eq(post, pre)
                &&& member.is_signer
                &&& g0 matches Some(g) && (p0 matches Some(p) && ({
                    &&& p.multisig == multisig_account
                    &&& g.members.contains(member.address)
                    &&& p.approvers.contains(member.address)
                }))
            },
            Error::Proposal(ProposalError::AlreadyExecuted) => {
                &&& store_eq(post, pre)
                &&& member.is_signer
                &&& g0 matches Some(g) && (p0 matches Some(p) && ({
                    &&& p.multisig == multisig_account
                    &&& g.members.contains(member.address)
                    &&& !p.approvers.contains(member.address)
                    &&& p.executed
                }))
            },
            Error::Storage(StorageError::InsufficientFunds) => {
                &&& store_eq(post, pre)
                &&& member.is_signer
                &&& g0 matches Some(g) && (p0 matches Some(p) && ({
                    &&& p.multisig == multisig_account
                    &&& g.members.contains(member.address)
                    &&& !p.approvers.contains(member.address)
                    &&& !p.executed
                    &&& p.approvers.len() + 1 <= u32::MAX
                    &&& proposal_size(p) + 32 <= usize::MAX
                    &&& !fundable(
                        pre,
                        proposal_account,
                        member.address,
                        reserve_of((proposal_size(p) + 32) as usize),
                    )
                }))
            },
            Error::InvalidAccount => {
                &&& member.is_signer
                &&& g0 matches Some(g) && (p0 matches Some(p) && ({
                    let p1 = ProposalV { approvers: p.approvers.push(member.address), ..p };
                    let grown = (proposal_size(p) + 32) as usize;
                    &&& p.multisig == multisig_account
                    &&& g.members.contains(member.address)
                    &&& !p.approvers.contains(member.address)
                    &&& !p.executed
                    &&& try_execute && p.approvers.len() + 1 >= g.threshold
                    &&& !stream_ok(p.actions, accounts)
                    &&& saved_at(
                        pre,
                        post,
                        member.address,
                        proposal_account,
                        enc_proposal(p1),
                        grown,
                    )
                    &&& proposal_at(post, proposal_account) == Some(p1)
                }))
            },
            _ => false,
        },
    }
}

/// Records one member's approval of a proposal and reconciles the record's
/// storage, the growth funded by the approver. The approver must sign and
/// be a current group member; a repeated approval fails with
/// `AlreadyApproved` and an executed proposal with `AlreadyExecuted`, the
/// stored proposal unchanged. When `try_execute` is set and the new
/// approval meets the group's threshold, execution chains on immediately
/// over the remaining account stream; its descriptors are returned. A
/// failure of that chained execution leaves the approval written — the
/// host's atomicity is relied on to discard the whole invocation.
pub fn approve(
    store: &mut RecordStore,
    member: &Operand,
    multisig_account: &Address,
    proposal_account: &Address,
    try_execute: bool,
    accounts: &Vec<Address>,
) -> (r: Result<Vec<CallDescriptor>, Error>)
    requires
        old(store).wf(),
    ensures
        final(store).wf(),
        final(store)@.program_id == old(store)@.program_id,
        approve_outcome(
            old(store)@,
            final(store)@,
            *member,
            *multisig_account,
            *proposal_account,
            try_execute,
            accounts@,
            r,
        ),
{
    if !member.is_signer {
        return Err(Error::Storage(StorageError::InvalidRecord));
    }
    let g = match Multisig::get(store, multisig_account) {
        Ok(g) => g,
        Err(e) => {
            return Err(e);
        },
    };
    let mut p = match Proposal::get(store, proposal_account) {
        Ok(p) => p,
        Err(e) => {
            return Err(e);
        },
    };
    proof {
        lemma_addr_view_inj(p.multisig, *multisig_account);
    }
    if !addr_eq(&p.multisig, multisig_account) {
        return Err(Error::Storage(StorageError::InvalidRecord));
    }
    let base = p.size();
    let napprovers = p.approvers.len();
    match p.approve(&g, &member.address) {
        Ok(()) => {},
        Err(e) => {
            return Err(e);
        },
    }
    if napprovers >= (u32::MAX as usize) || base > usize::MAX - 32 {
        return Err(Error::Storage(StorageError::InvalidRecord));
    }
    let new_size = base + 32;
    let ghost pre = store@;
    match store.resize_pda(proposal_account, new_size, &member.address) {
        Ok(()) => {},
        Err(e) => {
            return Err(Error::Storage(e));
        },
    }
    let bytes = encode_proposal(&p);
    proof {
        lemma_enc_proposal_len(p@);
    }
    match store.write_pda(proposal_account, &bytes) {
        Ok(()) => {},
        Err(e) => {
            return Err(Error::Storage(e));
        },
    }
    proof {
        lemma_dec_enc_proposal(p@);
    }
    if try_execute && p.has_reached_threshold(&g) {
        proof {
            if *multisig_account == *proposal_account {
                assert(crate::codec::group_tag()[0] != proposal_tag()[0]);
                assert(dec_proposal(rec_at(old(store)@, *proposal_account).data) matches Some(q)
                    ==> rec_at(old(store)@, *proposal_account).data.subrange(0, 8)
                    == proposal_tag());
                assert(false);
            }
        }
        let ghost mid = store@;
        match execute(store, multisig_account, proposal_account, accounts) {
            Ok(ds) => {
                proof {
                    assert(proposal_at(mid, *proposal_account) == Some(p@));
                }
                Ok(ds)
            },
            Err(e) => Err(e),
        }
    } else {
        let ds: Vec<CallDescriptor> = Vec::new();
        proof {
            assert(descriptor_views(ds@) =~= Seq::<CallDescriptorV>::empty());
        }
        Ok(ds)
    }
}

/// An approval appended to the approver list blocks the same approver for
/// good: after a successful approval by `a`, the list contains `a`, so by
/// `approve`'s contract a second call for `a` can only end in
/// `AlreadyApproved`; and the list has grown by exactly one entry.
pub proof fn lemma_approve_twice(pre: ProposalV, post: ProposalV, a: Address)
    requires
        post.approvers == pre.approvers.push(a),
    ensures
        post.approvers.contains(a),
        post.approvers.len() == pre.approvers.len() + 1,
{
    assert(post.approvers[pre.approvers.len() as int] == a);
}

/// A repeated approval always fails: once the stored proposal lists the
/// member among its approvers, any further `approve` call by that member
/// ends in `AlreadyApproved` and leaves every record as it was.
pub proof fn lemma_approve_repeat_rejected(
    s1: StoreV,
    s2: StoreV,
    member: Operand,
    multisig_account: Address,
    proposal_account: Address,
    try_execute: bool,
    accounts: Seq<Address>,
    r: Result<Vec<CallDescriptor>, Error>,
)
    requires
        member.is_signer,
        group_at(s1, multisig_account) matches Some(g) && g.members.contains(member.address),
        proposal_at(s1, proposal_account) matches Some(p) && p.multisig == multisig_account
            && p.approvers.contains(member.address),
        approve_outcome(s1, s2, member, multisig_account, proposal_account, try_execute, accounts, r),
    ensures
        r == Err::<Vec<CallDescriptor>, Error>(Error::Proposal(ProposalError::AlreadyApproved)),
        store_eq(s2, s1),
{
}

/// A proposal executes at most once: once the stored proposal is marked
/// executed, any further `execute` call ends in `AlreadyExecuted`,
/// performs no dispatch, and leaves every record as it was.
pub proof fn lemma_execute_at_most_once(
    s1: StoreV,
    s2: StoreV,
    multisig_account: Address,
    proposal_account: Address,
    accounts: Seq<Address>,
    r: Result<Vec<CallDescriptor>, Error>,
)
    requires
        proposal_at(s1, proposal_account) matches Some(p) && p.multisig == multisig_account
            && p.executed,
        group_at(s1, multisig_account) is Some,
        execute_outcome(s1, s2, multisig_account, proposal_account, accounts, r),
    ensures
        r == Err::<Vec<CallDescriptor>, Error>(Error::Proposal(ProposalError::AlreadyExecuted)),
        store_eq(s2, s1),
{
}

} // verus!
