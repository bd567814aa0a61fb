//! The group: a named set of member addresses and an approval threshold.
//! Membership and threshold mutations keep the group invariant — members
//! non-empty and unique, threshold between one and the member count — and
//! reject any change that would break it, leaving the group untouched.

use vstd::prelude::*;

use crate::codec::{
    dec_multisig, decode_multisig, enc_multisig, encode_multisig, lemma_dec_enc_multisig,
    lemma_dec_multisig_len, lemma_enc_multisig_len, multisig_encodable,
};
use crate::proposal::{descriptor_of, Action, ActionAccount, CallDescriptor};
use crate::storage::{
    addr_eq, derive_address, derived, fundable, funded, lemma_addr_view_inj, rec_at, reserve_of,
    store_eq, store_is_upd, store_is_upd2, Address, RecordStore, RecordV, StorageError, StoreV,
};
use crate::{Error, Operand};

verus! {

/// The member list with later repetitions of an address dropped: what
/// repeated `add_member` calls build out of a caller-supplied list.
pub open spec fn dedup(s: Seq<Address>) -> Seq<Address>
    decreases s.len(),
{
    if s.len() == 0 {
        Seq::empty()
    } else {
        let d = dedup(s.drop_last());
        if d.contains(s.last()) {
            d
        } else {
            d.push(s.last())
        }
    }
}

/// Deduplication keeps exactly the addresses of the original list, free of
/// repetition and no longer than it.
pub proof fn lemma_dedup_props(s: Seq<Address>)
    ensures
        unique_addrs(dedup(s)),
        dedup(s).len() <= s.len(),
        forall|x: Address| dedup(s).contains(x) <==> s.contains(x),
        dedup(s).len() == 0 <==> s.len() == 0,
    decreases s.len(),
{
    if s.len() > 0 {
        let d = dedup(s.drop_last());
        lemma_dedup_props(s.drop_last());
        assert forall|x: Address| dedup(s).contains(x) implies s.contains(x) by {
            if d.contains(x) {
                assert(s.drop_last().contains(x));
                let i = choose|i: int| 0 <= i < s.drop_last().len() && s.drop_last()[i] == x;
                assert(s[i] == x);
                assert(s.contains(x));
            } else {
                let j = choose|j: int| 0 <= j < dedup(s).len() && dedup(s)[j] == x;
                assert(!d.contains(s.last()));
                assert(j == d.len());
                assert(x == s.last());
                assert(s[s.len() - 1] == x);
                assert(s.contains(x));
            }
        }
        assert forall|x: Address| s.contains(x) implies dedup(s).contains(x) by {
            let i = choose|i: int| 0 <= i < s.len() && s[i] == x;
            if i < s.len() - 1 {
                assert(s.drop_last()[i] == x);
                assert(s.drop_last().contains(x));
                assert(d.contains(x));
                let j = choose|j: int| 0 <= j < d.len() && d[j] == x;
                if !d.contains(s.last()) {
                    assert(dedup(s)[j] == x);
                } else {
                    assert(dedup(s) == d);
                }
            } else {
                if d.contains(s.last()) {
                    assert(dedup(s) == d);
                    assert(d.contains(x));
                } else {
                    assert(dedup(s).last() == x);
                }
            }
            assert(dedup(s).contains(x));
        }
        if !d.contains(s.last()) {
            assert forall|i: int, j: int| 0 <= i < j < dedup(s).len() implies dedup(s)[i]
                != dedup(s)[j] by {
                if j == dedup(s).len() - 1 {
                    assert(d[i] == dedup(s)[i]);
                    assert(d.contains(d[i]));
                }
            }
        }
    }
}

/// One step of deduplicating a growing prefix.
pub proof fn lemma_dedup_take_succ(s: Seq<Address>, i: int)
    requires
        0 <= i < s.len(),
    ensures
        dedup(s.take(i + 1)) == ({
            let d = dedup(s.take(i));
            if d.contains(s[i]) {
                d
            } else {
                d.push(s[i])
            }
        }),
{
    let t1 = s.take(i + 1);
    assert(t1.drop_last() =~= s.take(i));
    assert(t1.last() == s[i]);
}

/// The seed tuple whose derivation addresses a group record: the literal
/// bytes of "group", then the group's name.
pub open spec fn group_seeds(name: Seq<u8>) -> Seq<Seq<u8>> {
    seq![seq![103u8, 114u8, 111u8, 117u8, 112u8], name]
}

/// Builds a group's seed tuple.
pub fn group_seed_vec(name: &Vec<u8>) -> (r: Vec<Vec<u8>>)
    ensures
        r.deep_view() == group_seeds(name@),
{
    let mut tag: Vec<u8> = Vec::new();
    tag.push(103);
    tag.push(114);
    tag.push(111);
    tag.push(117);
    tag.push(112);
    let mut r: Vec<Vec<u8>> = Vec::new();
    r.push(tag);
    r.push(name.clone());
    proof {
        assert(r.deep_view() =~~= group_seeds(name@));
    }
    r
}

/// The group stored at an address: its record must be held by the engine,
/// decode as a group, and sit at the address its own name derives.
pub open spec fn group_at(s: StoreV, a: Address) -> Option<MultisigV> {
    match dec_multisig(rec_at(s, a).data) {
        Some(m) => if rec_at(s, a).owner == Some(s.program_id) && (derived(
            s.program_id@,
            group_seeds(m.name),
        ) matches Some(p) && p.0 == a@) {
            Some(m)
        } else {
            None
        },
        None => None,
    }
}

/// The exact serialized size of a group record: an 8-byte type tag, the
/// length-prefixed name, the length-prefixed member list, the threshold,
/// and the derivation proof byte.
pub open spec fn multisig_size(m: MultisigV) -> nat {
    8 + (4 + m.name.len()) + (4 + m.members.len() * 32) + 8 + 1
}

/// Membership and threshold errors.
#[derive(Clone, Copy, Debug, PartialEq, Eq, Structural)]
pub enum MultisigError {
    /// The named address is not a member of the group.
    NotAMember,
    /// The threshold would exceed the member count.
    ThresholdTooHigh,
    /// The threshold would drop below one.
    ThresholdTooLow,
    /// The member set would become empty.
    NoMembers,
    /// The named address is already a member.
    AlreadyMember,
}

/// A group of members holding delegated execution authority behind an
/// approval threshold. `name` seeds the group's derived record address and
/// `bump` is the derivation's disambiguating proof.
pub struct Multisig {
    pub name: Vec<u8>,
    pub members: Vec<Address>,
    pub threshold: u64,
    pub bump: u8,
}

/// The mathematical image of a group.
pub ghost struct MultisigV {
    pub name: Seq<u8>,
    pub members: Seq<Address>,
    pub threshold: u64,
    pub bump: u8,
}

impl View for Multisig {
    type V = MultisigV;

    open spec fn view(&self) -> MultisigV {
        MultisigV {
            name: self.name@,
            members: self.members@,
            threshold: self.threshold,
            bump: self.bump,
        }
    }
}

/// No address occurs twice.
pub open spec fn unique_addrs(s: Seq<Address>) -> bool {
    forall|i: int, j: int| 0 <= i < j < s.len() ==> s[i] != s[j]
}

/// The member list with every occurrence of one address removed.
pub open spec fn remaining_members(s: Seq<Address>, m: Address) -> Seq<Address>
    decreases s.len(),
{
    if s.len() == 0 {
        Seq::empty()
    } else {
        let rest = remaining_members(s.drop_last(), m);
        if s.last() == m {
            rest
        } else {
            rest.push(s.last())
        }
    }
}

/// Removal keeps exactly the other addresses, keeps them unique if they
/// were, and never lengthens the list.
pub proof fn lemma_remaining_props(s: Seq<Address>, m: Address)
    ensures
        remaining_members(s, m).len() <= s.len(),
        forall|x: Address| remaining_members(s, m).contains(x) <==> s.contains(x) && x != m,
        unique_addrs(s) ==> unique_addrs(remaining_members(s, m)),
    decreases s.len(),
{
    if s.len() > 0 {
        let rest = remaining_members(s.drop_last(), m);
        lemma_remaining_props(s.drop_last(), m);
        assert forall|x: Address| remaining_members(s, m).contains(x) implies s.contains(x) && x
            != m by {
            if rest.contains(x) {
                assert(s.drop_last().contains(x));
                let i = choose|i: int| 0 <= i < s.drop_last().len() && s.drop_last()[i] == x;
                assert(s[i] == x);
            } else {
                let j = choose|j: int|
                    0 <= j < remaining_members(s, m).len() && remaining_members(s, m)[j] == x;
                assert(s.last() != m);
                assert(j == rest.len());
                assert(x == s.last());
                assert(s[s.len() - 1] == x);
            }
        }
        assert forall|x: Address| s.contains(x) && x != m implies remaining_members(
            s,
            m,
        ).contains(x) by {
            let i = choose|i: int| 0 <= i < s.len() && s[i] == x;
            if i < s.len() - 1 {
                assert(s.drop_last()[i] == x);
                assert(s.drop_last().contains(x));
                assert(rest.contains(x));
                let j = choose|j: int| 0 <= j < rest.len() && rest[j] == x;
                if s.last() != m {
                    assert(remaining_members(s, m)[j] == x);
                }
            } else {
                assert(s.last() == x);
                assert(remaining_members(s, m).last() == x);
            }
            assert(remaining_members(s, m).contains(x));
        }
        if unique_addrs(s) {
            assert(unique_addrs(s.drop_last()));
            if s.last() != m {
                assert forall|i: int, j: int| 0 <= i < j < remaining_members(s, m).len() implies
                    remaining_members(s, m)[i] != remaining_members(s, m)[j] by {
                    if j == rest.len() {
                        assert(rest.contains(rest[i]));
                        assert(s.drop_last().contains(rest[i]));
                        let k = choose|k: int|
                            0 <= k < s.drop_last().len() && s.drop_last()[k] == rest[i];
                        assert(s[k] == rest[i]);
                        assert(s[k] != s[s.len() - 1]);
                    }
                }
            }
        }
    }
}

/// One step of removal over a growing prefix.
pub proof fn lemma_remaining_take_succ(s: Seq<Address>, m: Address, i: int)
    requires
        0 <= i < s.len(),
    ensures
        remaining_members(s.take(i + 1), m) == (if s[i] == m {
            remaining_members(s.take(i), m)
        } else {
            remaining_members(s.take(i), m).push(s[i])
        }),
{
    let t1 = s.take(i + 1);
    assert(t1.drop_last() =~= s.take(i));
    assert(t1.last() == s[i]);
}

impl MultisigV {
    /// The group invariant: members non-empty and unique, threshold between
    /// one and the member count.
    pub open spec fn wf(self) -> bool {
        &&& self.members.len() > 0
        &&& 1 <= self.threshold <= self.members.len()
        &&& unique_addrs(self.members)
    }

    /// Pure membership test.
    pub open spec fn is_member(self, a: Address) -> bool {
        self.members.contains(a)
    }
}

impl Multisig {
    /// A fresh group value; the derivation proof starts at zero and is set
    /// when the group's record address is derived.
    pub fn new(name: Vec<u8>, members: Vec<Address>, threshold: u64) -> (m: Multisig)
        ensures
            m@ == (MultisigV { name: name@, members: members@, threshold, bump: 0u8 }),
    {
        Multisig { name, members, threshold, bump: 0 }
    }

    /// Pure membership test.
    pub fn is_member(&self, member: &Address) -> (r: bool)
        ensures
            r == self@.is_member(*member),
    {
        let mut i: usize = 0;
        while i < self.members.len()
            invariant
                i <= self.members@.len(),
                forall|k: int| 0 <= k < i ==> self.members@[k] != *member,
            decreases self.members@.len() - i,
        {
            proof {
                lemma_addr_view_inj(self.members@[i as int], *member);
            }
            if addr_eq(&self.members[i], member) {
                assert(self.members@[i as int] == *member);
                return true;
            }
            i = i + 1;
        }
        assert(!self.members@.contains(*member));
        false
    }

    /// Fails with `NotAMember` exactly when the address is not a member.
    pub fn check_member(&self, member: &Address) -> (r: Result<(), MultisigError>)
        ensures
            r matches Ok(()) <==> self@.is_member(*member),
            r matches Err(e) ==> e == MultisigError::NotAMember,
    {
        if !self.is_member(member) {
            return Err(MultisigError::NotAMember);
        }
        Ok(())
    }

    /// Appends a new member; fails with `AlreadyMember` if present, leaving
    /// the group unchanged. Keeps the group invariant.
    pub fn add_member(&mut self, member: Address) -> (r: Result<(), MultisigError>)
        ensures
            match r {
                Ok(()) => {
                    &&& !old(self)@.is_member(member)
                    &&& final(self)@ == (MultisigV {
                        members: old(self)@.members.push(member),
                        ..old(self)@
                    })
                },
                Err(e) => {
                    &&& e == MultisigError::AlreadyMember
                    &&& old(self)@.is_member(member)
                    &&& final(self)@ == old(self)@
                },
            },
            old(self)@.wf() && r is Ok ==> final(self)@.wf(),
    {
        if self.is_member(&member) {
            return Err(MultisigError::AlreadyMember);
        }
        self.members.push(member);
        Ok(())
    }

    /// Removes a member. Fails with `NotAMember` if absent; with
    /// `ThresholdTooHigh` if the remaining count would fall below the
    /// threshold; with `NoMembers` if the removal would empty the set
    /// (checked after the threshold check). On failure the group is
    /// unchanged. Keeps the group invariant.
    #[verifier::loop_isolation(false)]
    pub fn remove_member(&mut self, member: Address) -> (r: Result<(), MultisigError>)
        ensures
            ({
                let remaining = remaining_members(old(self)@.members, member);
                match r {
                    Ok(()) => {
                        &&& old(self)@.is_member(member)
                        &&& remaining.len() >= old(self)@.threshold
                        &&& remaining.len() > 0
                        &&& final(self)@ == (MultisigV { members: remaining, ..old(self)@ })
                    },
                    Err(e) => {
                        &&& final(self)@ == old(self)@
                        &&& match e {
                            MultisigError::NotAMember => !old(self)@.is_member(member),
                            MultisigError::ThresholdTooHigh => old(self)@.is_member(member)
                                && remaining.len() < old(self)@.threshold,
                            MultisigError::NoMembers => old(self)@.is_member(member)
                                && remaining.len() >= old(self)@.threshold && remaining.len() == 0,
                            _ => false,
                        }
                    },
                }
            }),
            old(self)@.wf() && r is Ok ==> final(self)@.wf(),
    {
        if !self.is_member(&member) {
            return Err(MultisigError::NotAMember);
        }
        let mut kept: Vec<Address> = Vec::new();
        let mut i: usize = 0;
        while i < self.members.len()
            invariant
                i <= self.members@.len(),
                kept@ == remaining_members(self.members@.take(i as int), member),
            decreases self.members@.len() - i,
        {
            proof {
                lemma_remaining_take_succ(self.members@, member, i as int);
                lemma_addr_view_inj(self.members@[i as int], member);
            }
            if !addr_eq(&self.members[i], &member) {
                kept.push(self.members[i]);
            }
            i = i + 1;
        }
        proof {
            assert(self.members@.take(self.members@.len() as int) =~= self.members@);
        }
        if kept.len() < 1 || (self.threshold > kept.len() as u64) {
            if self.threshold > kept.len() as u64 {
                return Err(MultisigError::ThresholdTooHigh);
            }
            return Err(MultisigError::NoMembers);
        }
        proof {
            if old(self)@.wf() {
                lemma_remaining_props(old(self).members@, member);
            }
        }
        self.members = kept;
        Ok(())
    }

    /// Replaces the whole member list. Fails with `NoMembers` on an empty
    /// list, with `ThresholdTooHigh` when the list is shorter than the
    /// current threshold, and with `AlreadyMember` on a duplicate entry; on
    /// failure the group is unchanged.
    #[verifier::loop_isolation(false)]
    pub fn update_members(&mut self, new_members: Vec<Address>) -> (r: Result<(), MultisigError>)
        ensures
            match r {
                Ok(()) => {
                    &&& new_members@.len() > 0
                    &&& new_members@.len() >= old(self)@.threshold
                    &&& unique_addrs(new_members@)
                    &&& final(self)@ == (MultisigV { members: new_members@, ..old(self)@ })
                },
                Err(e) => {
                    &&& final(self)@ == old(self)@
                    &&& match e {
                        MultisigError::NoMembers => new_members@.len() == 0,
                        MultisigError::ThresholdTooHigh => new_members@.len() > 0
                            && new_members@.len() < old(self)@.threshold,
                        MultisigError::AlreadyMember => new_members@.len() > 0
                            && new_members@.len() >= old(self)@.threshold && !unique_addrs(
                            new_members@,
                        ),
                        _ => false,
                    }
                },
            },
    {
        if new_members.len() == 0 {
            return Err(MultisigError::NoMembers);
        }
        if (new_members.len() as u64) < self.threshold {
            return Err(MultisigError::ThresholdTooHigh);
        }
        let mut i: usize = 0;
        while i < new_members.len()
            invariant
                i <= new_members@.len(),
                forall|j: int, k: int| 0 <= j < k < i ==> new_members@[j] != new_members@[k],
            decreases new_members@.len() - i,
        {
            let mut j: usize = 0;
            while j < i
                invariant
                    j <= i,
                    i < new_members@.len(),
                    forall|k: int| 0 <= k < j ==> new_members@[k] != new_members@[i as int],
                decreases i - j,
            {
                proof {
                    lemma_addr_view_inj(new_members@[j as int], new_members@[i as int]);
                }
                if addr_eq(&new_members[j], &new_members[i]) {
                    proof {
                        assert(new_members@[j as int] == new_members@[i as int]);
                        assert(!unique_addrs(new_members@));
                    }
                    return Err(MultisigError::AlreadyMember);
                }
                j = j + 1;
            }
            i = i + 1;
        }
        self.members = new_members;
        Ok(())
    }

    /// Sets the approval threshold. Fails with `ThresholdTooHigh` when it
    /// would exceed the member count and with `ThresholdTooLow` when it
    /// would drop below one; on failure the group is unchanged.
    pub fn update_threshold(&mut self, new_threshold: u64) -> (r: Result<(), MultisigError>)
        ensures
            match r {
                Ok(()) => {
                    &&& 1 <= new_threshold <= old(self)@.members.len()
                    &&& final(self)@ == (MultisigV { threshold: new_threshold, ..old(self)@ })
                },
                Err(e) => {
                    &&& final(self)@ == old(self)@
                    &&& match e {
                        MultisigError::ThresholdTooHigh => new_threshold
                            > old(self)@.members.len(),
                        MultisigError::ThresholdTooLow => new_threshold
                            <= old(self)@.members.len() && new_threshold < 1,
                        _ => false,
                    }
                },
            },
            old(self)@.members.len() > 0 && unique_addrs(old(self)@.members) && r is Ok
                ==> final(self)@.wf(),
    {
        if new_threshold > self.members.len() as u64 {
            return Err(MultisigError::ThresholdTooHigh);
        }
        if new_threshold < 1 {
            return Err(MultisigError::ThresholdTooLow);
        }
        self.threshold = new_threshold;
        Ok(())
    }

    /// The exact number of bytes this group's record occupies.
    pub fn size(&self) -> (r: usize)
        requires
            multisig_size(self@) <= usize::MAX,
        ensures
            r == multisig_size(self@),
    {
        Multisig::static_size(self.name.len(), self.members.len())
    }

    /// The exact record size of a group with the given name length and
    /// member count.
    pub fn static_size(name_len: usize, members_len: usize) -> (r: usize)
        requires
            8 + (4 + name_len) + (4 + members_len * 32) + 8 + 1 <= usize::MAX,
        ensures
            r == 8 + (4 + name_len) + (4 + members_len * 32) + 8 + 1,
    {
        8 + 4 + name_len + 4 + members_len * 32 + 8 + 1
    }

    /// Builds the delegated call for one action, to be issued as this
    /// group's derived authority at `self_addr`. The supplied operand
    /// records, starting at `start`, must positionally match the action's
    /// declared parameters by address; any mismatch or shortage fails with
    /// `InvalidAccount` before the call is issued.
    #[verifier::loop_isolation(false)]
    pub fn execute_action(
        &self,
        self_addr: &Address,
        action: &Action,
        accounts: &Vec<Address>,
        start: usize,
    ) -> (r: Result<CallDescriptor, Error>)
        ensures
            match r {
                Ok(d) => {
                    &&& start + action@.accounts.len() <= accounts@.len()
                    &&& forall|k: int|
                        0 <= k < action@.accounts.len() ==> accounts@[start + k]
                            == action@.accounts[k].pubkey
                    &&& d@ == descriptor_of(action@, *self_addr)
                },
                Err(e) => {
                    &&& e == Error::InvalidAccount
                    &&& !(start + action@.accounts.len() <= accounts@.len() && forall|k: int|
                        0 <= k < action@.accounts.len() ==> accounts@[start + k]
                            == action@.accounts[k].pubkey)
                },
            },
    {
        if accounts.len() < start || accounts.len() - start < action.accounts.len() {
            return Err(Error::InvalidAccount);
        }
        let mut metas: Vec<ActionAccount> = Vec::new();
        let mut i: usize = 0;
        while i < action.accounts.len()
            invariant
                i <= action@.accounts.len(),
                metas@ == action@.accounts.take(i as int),
                forall|k: int|
                    0 <= k < i ==> accounts@[start + k] == action@.accounts[k].pubkey,
            decreases action@.accounts.len() - i,
        {
            proof {
                lemma_addr_view_inj(accounts@[start + i], action@.accounts[i as int].pubkey);
            }
            if !addr_eq(&accounts[start + i], &action.accounts[i].pubkey) {
                return Err(Error::InvalidAccount);
            }
            metas.push(action.accounts[i]);
            proof {
                assert(metas@ =~= action@.accounts.take(i + 1));
            }
            i = i + 1;
        }
        proof {
            assert(metas@ =~= action@.accounts);
        }
        let descriptor = CallDescriptor {
            program_id: action.program_id,
            accounts: metas,
            data: action.data.clone(),
            authority: *self_addr,
        };
        Ok(descriptor)
    }

    /// Loads and verifies the group stored at an address: the record must
    /// decode as a group and sit, engine-held, at the address its own name
    /// derives; anything else fails with `InvalidRecord` before any state
    /// is used.
    pub fn get(store: &RecordStore, account: &Address) -> (r: Result<Multisig, Error>)
        requires
            store.wf(),
        ensures
            match r {
                Ok(m) => {
                    &&& group_at(store@, *account) == Some(m@)
                    &&& multisig_size(m@) <= usize::MAX
                    &&& multisig_encodable(m@)
                },
                Err(e) => {
                    &&& e == Error::Storage(StorageError::InvalidRecord)
                    &&& group_at(store@, *account) is None
                },
            },
    {
        let (_, _, data) = store.read_record(account);
        let m = match decode_multisig(&data) {
            Some(m) => m,
            None => {
                return Err(Error::Storage(StorageError::InvalidRecord));
            },
        };
        proof {
            lemma_dec_multisig_len(data@, m@);
        }
        let seeds = group_seed_vec(&m.name);
        match store.check_pda(&seeds, account) {
            Ok(()) => Ok(m),
            Err(_) => Err(Error::Storage(StorageError::InvalidRecord)),
        }
    }
}

/// Reconciles the engine-held record at `addr` with the group's exact size
/// and writes the group's encoding, funding growth from `payer`.
fn save_multisig(store: &mut RecordStore, addr: &Address, payer: &Address, g: &Multisig) -> (r:
    Result<(), StorageError>)
    requires
        old(store).wf(),
        multisig_encodable(g@),
        multisig_size(g@) <= usize::MAX,
        rec_at(old(store)@, *addr).owner == Some(old(store)@.program_id),
    ensures
        final(store).wf(),
        final(store)@.program_id == old(store)@.program_id,
        match r {
            Ok(()) => {
                let pre = rec_at(old(store)@, *addr);
                let need = reserve_of(multisig_size(g@) as usize);
                let self_pay = *addr == *payer;
                let newrec = RecordV {
                    owner: Some(old(store)@.program_id),
                    lamports: funded(pre.lamports, self_pay, need),
                    data: enc_multisig(g@),
                };
                &&& fundable(old(store)@, *addr, *payer, need)
                &&& if pre.lamports >= need || self_pay {
                    store_is_upd(old(store)@, final(store)@, *addr, newrec)
                } else {
                    store_is_upd2(
                        old(store)@,
                        final(store)@,
                        *payer,
                        RecordV {
                            lamports: (rec_at(old(store)@, *payer).lamports - (need
                                - pre.lamports)) as u64,
                            ..rec_at(old(store)@, *payer)
                        },
                        *addr,
                        newrec,
                    )
                }
            },
            Err(e) => {
                &&& e == StorageError::InsufficientFunds
                &&& !fundable(old(store)@, *addr, *payer, reserve_of(multisig_size(g@) as usize))
                &&& store_eq(final(store)@, old(store)@)
            },
        },
{
    let size = g.size();
    match store.resize_pda(addr, size, payer) {
        Ok(()) => {},
        Err(e) => {
            return Err(e);
        },
    }
    let bytes = encode_multisig(g);
    proof {
        lemma_enc_multisig_len(g@);
    }
    match store.write_pda(addr, &bytes) {
        Ok(()) => Ok(()),
        Err(e) => Err(e),
    }
}

/// What adding a member does: exactly when it succeeds, which error comes
/// on which input, and the store it leaves behind.
pub open spec fn add_member_outcome(
    pre: StoreV,
    post: StoreV,
    multisig_account: Operand,
    new_member: Address,
    r: Result<(), Error>,
) -> bool {
    let a = multisig_account.address;
    let g0 = group_at(pre, a);
    match r {
        Ok(()) => {
            &&& multisig_account.is_signer
            &&& g0 matches Some(g) && ({
                let gv = MultisigV { members: g.members.push(new_member), ..g };
                &&& !g.members.contains(new_member)
                &&& fundable(pre, a, a, reserve_of(multisig_size(gv) as usize))
                &&& group_at(post, a) == Some(gv)
                &&& (g.wf() ==> gv.wf())
                &&& store_is_upd(
                    pre,
                    post,
                    a,
                    RecordV {
                        owner: Some(pre.program_id),
                        lamports: rec_at(pre, a).lamports,
                        data: enc_multisig(gv),
                    },
                )
            })
        },
        Err(e) => {
            &&& store_eq(post, pre)
            &&& match e {
                Error::Storage(StorageError::InvalidRecord) => {
                    ||| !multisig_account.is_signer
                    ||| (multisig_account.is_signer && g0 is None)
                    ||| (multisig_account.is_signer && (g0 matches Some(g) && ({
                        &&& !g.members.contains(new_member)
                        &&& (g.members.len() + 1 > u32::MAX || multisig_size(g) + 32 > usize::MAX)
                    })))
                },
                Error::Multisig(MultisigError::AlreadyMember) => {
                    &&& multisig_account.is_signer
                    &&& g0 matches Some(g) && g.members.contains(new_member)
                },
                Error::Storage(StorageError::InsufficientFunds) => {
                    &&& multisig_account.is_signer
                    &&& g0 matches Some(g) && ({
                        let gv = MultisigV { members: g.members.push(new_member), ..g };
                        &&& !g.members.contains(new_member)
                        &&& g.members.len() + 1 <= u32::MAX
                        &&& multisig_size(g) + 32 <= usize::MAX
                        &&& !fundable(pre, a, a, reserve_of(multisig_size(gv) as usize))
                    })
                },
                _ => false,
            }
        },
    }
}

/// Adds a member to a group record. The group record itself must sign the
/// call — mutating a group is self-authorized. Fails with `AlreadyMember`
/// on a present address; on failure the stored group is unchanged. A group
/// that could not be regrown within the machine's limits reads as an
/// invalid record.
pub fn add_member(store: &mut RecordStore, multisig_account: &Operand, new_member: &Address) -> (r:
    Result<(), Error>)
    requires
        old(store).wf(),
    ensures
        final(store).wf(),
        final(store)@.program_id == old(store)@.program_id,
        add_member_outcome(old(store)@, final(store)@, *multisig_account, *new_member, r),
{
    if !multisig_account.is_signer {
        return Err(Error::Storage(StorageError::InvalidRecord));
    }
    let a = multisig_account.address;
    let mut g = match Multisig::get(store, &a) {
        Ok(g) => g,
        Err(e) => {
            return Err(e);
        },
    };
    let base = g.size();
    match g.add_member(*new_member) {
        Ok(()) => {},
        Err(e) => {
            return Err(Error::Multisig(e));
        },
    }
    if g.members.len() > (u32::MAX as usize) || base > usize::MAX - 32 {
        return Err(Error::Storage(StorageError::InvalidRecord));
    }
    match save_multisig(store, &a, &a, &g) {
        Ok(()) => {
            proof {
                lemma_dec_enc_multisig(g@);
            }
            Ok(())
        },
        Err(e) => Err(Error::Storage(e)),
    }
}

/// What removing a member does: exactly when it succeeds, which error
/// comes on which input, and the store it leaves behind.
pub open spec fn remove_member_outcome(
    pre: StoreV,
    post: StoreV,
    multisig_account: Operand,
    member_to_remove: Address,
    r: Result<(), Error>,
) -> bool {
    let a = multisig_account.address;
    let g0 = group_at(pre, a);
    match r {
        Ok(()) => {
            &&& multisig_account.is_signer
            &&& g0 matches Some(g) && ({
                let remaining = remaining_members(g.members, member_to_remove);
                let gv = MultisigV { members: remaining, ..g };
                &&& g.members.contains(member_to_remove)
                &&& remaining.len() >= g.threshold
                &&& remaining.len() > 0
                &&& fundable(pre, a, a, reserve_of(multisig_size(gv) as usize))
                &&& group_at(post, a) == Some(gv)
                &&& (g.wf() ==> gv.wf())
                &&& store_is_upd(
                    pre,
                    post,
                    a,
                    RecordV {
                        owner: Some(pre.program_id),
                        lamports: rec_at(pre, a).lamports,
                        data: enc_multisig(gv),
                    },
                )
            })
        },
        Err(e) => {
            &&& store_eq(post, pre)
            &&& match e {
                Error::Storage(StorageError::InvalidRecord) => {
                    ||| !multisig_account.is_signer
                    ||| (multisig_account.is_signer && g0 is None)
                },
                Error::Multisig(m) => {
                    &&& multisig_account.is_signer
                    &&& g0 matches Some(g) && ({
                        let remaining = remaining_members(g.members, member_to_remove);
                        match m {
                            MultisigError::NotAMember => !g.members.contains(member_to_remove),
                            MultisigError::ThresholdTooHigh => g.members.contains(member_to_remove)
                                && remaining.len() < g.threshold,
                            MultisigError::NoMembers => g.members.contains(member_to_remove)
                                && remaining.len() >= g.threshold && remaining.len() == 0,
                            _ => false,
                        }
                    })
                },
                Error::Storage(StorageError::InsufficientFunds) => {
                    &&& multisig_account.is_signer
                    &&& g0 matches Some(g) && ({
                        let remaining = remaining_members(g.members, member_to_remove);
                        let gv = MultisigV { members: remaining, ..g };
                        &&& g.members.contains(member_to_remove)
                        &&& remaining.len() >= g.threshold
                        &&& remaining.len() > 0
                        &&& !fundable(pre, a, a, reserve_of(multisig_size(gv) as usize))
                    })
                },
                _ => false,
            }
        },
    }
}

/// Removes a member from a group record. The group record itself must sign
/// the call. Fails with `NotAMember` on an absent address, with
/// `ThresholdTooHigh` when the remaining count would fall below the
/// threshold, and with `NoMembers` when the set would empty (in that
/// order); on failure the stored group is unchanged.
pub fn remove_member(
    store: &mut RecordStore,
    multisig_account: &Operand,
    member_to_remove: &Address,
) -> (r: Result<(), Error>)
    requires
        old(store).wf(),
    ensures
        final(store).wf(),
        final(store)@.program_id == old(store)@.program_id,
        remove_member_outcome(old(store)@, final(store)@, *multisig_account, *member_to_remove, r),
{
    if !multisig_account.is_signer {
        return Err(Error::Storage(StorageError::InvalidRecord));
    }
    let a = multisig_account.address;
    let mut g = match Multisig::get(store, &a) {
        Ok(g) => g,
        Err(e) => {
            return Err(e);
        },
    };
    match g.remove_member(*member_to_remove) {
        Ok(()) => {},
        Err(e) => {
            return Err(Error::Multisig(e));
        },
    }
    proof {
        lemma_remaining_props(group_at(old(store)@, a).unwrap().members, *member_to_remove);
    }
    match save_multisig(store, &a, &a, &g) {
        Ok(()) => {
            proof {
                lemma_dec_enc_multisig(g@);
            }
            Ok(())
        },
        Err(e) => Err(Error::Storage(e)),
    }
}

/// What setting the threshold does: exactly when it succeeds, which error
/// comes on which input, and the store it leaves behind.
pub open spec fn set_threshold_outcome(
    pre: StoreV,
    post: StoreV,
    multisig_account: Operand,
    new_threshold: u64,
    r: Result<(), Error>,
) -> bool {
    let a = multisig_account.address;
    let g0 = group_at(pre, a);
    match r {
        Ok(()) => {
            &&& multisig_account.is_signer
            &&& g0 matches Some(g) && ({
                let gv = MultisigV { threshold: new_threshold, ..g };
                &&& 1 <= new_threshold <= g.members.len()
                &&& group_at(post, a) == Some(gv)
                &&& (g.wf() ==> gv.wf())
                &&& store_is_upd(
                    pre,
                    post,
                    a,
                    RecordV {
                        owner: Some(pre.program_id),
                        lamports: rec_at(pre, a).lamports,
                        data: enc_multisig(gv),
                    },
                )
            })
        },
        Err(e) => {
            &&& store_eq(post, pre)
            &&& match e {
                Error::Storage(StorageError::InvalidRecord) => {
                    ||| !multisig_account.is_signer
                    ||| (multisig_account.is_signer && g0 is None)
                },
                Error::Multisig(MultisigError::ThresholdTooHigh) => {
                    &&& multisig_account.is_signer
                    &&& g0 matches Some(g) && new_threshold > g.members.len()
                },
                Error::Multisig(MultisigError::ThresholdTooLow) => {
                    &&& multisig_account.is_signer
                    &&& g0 matches Some(g) && new_threshold <= g.members.len() && new_threshold < 1
                },
                _ => false,
            }
        },
    }
}

/// Sets a group record's approval threshold. The group record itself must
/// sign the call. Fails with `ThresholdTooHigh` or `ThresholdTooLow` when
/// the new value falls outside one to the member count; on failure the
/// stored group is unchanged. The record's size and funding do not change.
pub fn set_threshold(store: &mut RecordStore, multisig_account: &Operand, new_threshold: u64) -> (r:
    Result<(), Error>)
    requires
        old(store).wf(),
    ensures
        final(store).wf(),
        final(store)@.program_id == old(store)@.program_id,
        set_threshold_outcome(old(store)@, final(store)@, *multisig_account, new_threshold, r),
{
    if !multisig_account.is_signer {
        return Err(Error::Storage(StorageError::InvalidRecord));
    }
    let a = multisig_account.address;
    let mut g = match Multisig::get(store, &a) {
        Ok(g) => g,
        Err(e) => {
            return Err(e);
        },
    };
    proof {
        lemma_dec_multisig_len(rec_at(store@, a).data, g@);
    }
    match g.update_threshold(new_threshold) {
        Ok(()) => {},
        Err(e) => {
            return Err(Error::Multisig(e));
        },
    }
    let bytes = encode_multisig(&g);
    proof {
        lemma_enc_multisig_len(g@);
    }
    match store.write_pda(&a, &bytes) {
        Ok(()) => {
            proof {
                lemma_dec_enc_multisig(g@);
            }
            Ok(())
        },
        Err(e) => Err(Error::Storage(e)),
    }
}

/// What creating a group does: exactly when it succeeds, which error comes
/// on which input, and the store it leaves behind.
pub open spec fn create_outcome(
    pre_store: StoreV,
    post: StoreV,
    payer: Address,
    multisig_account: Address,
    name: Seq<u8>,
    members: Seq<Address>,
    threshold: u64,
    r: Result<(), Error>,
) -> bool {
    let dm = dedup(members);
    let d = derived(pre_store.program_id@, group_seeds(name));
    match r {
        Ok(()) => {
            &&& dm.len() > 0
            &&& 1 <= threshold <= dm.len()
            &&& d matches Some(p) && p.0 == multisig_account@ && ({
                let gv = MultisigV { name, members: dm, threshold, bump: p.1 };
                let need = reserve_of(multisig_size(gv) as usize);
                let pre = rec_at(pre_store, multisig_account);
                let newrec = RecordV {
                    owner: Some(pre_store.program_id),
                    lamports: funded(pre.lamports, multisig_account == payer, need),
                    data: enc_multisig(gv),
                };
                &&& pre.owner is None
                &&& fundable(pre_store, multisig_account, payer, need)
                &&& group_at(post, multisig_account) == Some(gv)
                &&& gv.wf()
                &&& if pre.lamports >= need || multisig_account == payer {
                    store_is_upd(pre_store, post, multisig_account, newrec)
                } else {
                    store_is_upd2(
                        pre_store,
                        post,
                        payer,
                        RecordV {
                            lamports: (rec_at(pre_store, payer).lamports - (need
                                - pre.lamports)) as u64,
                            ..rec_at(pre_store, payer)
                        },
                        multisig_account,
                        newrec,
                    )
                }
            })
        },
        Err(e) => {
            &&& store_eq(post, pre_store)
            &&& match e {
                Error::Multisig(MultisigError::NoMembers) => dm.len() == 0,
                Error::Multisig(MultisigError::ThresholdTooHigh) => dm.len() > 0 && threshold
                    > dm.len(),
                Error::Multisig(MultisigError::ThresholdTooLow) => dm.len() > 0 && threshold
                    <= dm.len() && threshold < 1,
                Error::Storage(StorageError::InvalidRecord) => {
                    &&& dm.len() > 0 && 1 <= threshold <= dm.len()
                    &&& !(d matches Some(p) && p.0 == multisig_account@)
                },
                Error::Storage(StorageError::AlreadyExists) => {
                    &&& dm.len() > 0 && 1 <= threshold <= dm.len()
                    &&& d matches Some(p) && p.0 == multisig_account@
                    &&& rec_at(pre_store, multisig_account).owner is Some
                },
                Error::Storage(StorageError::InsufficientFunds) => {
                    &&& dm.len() > 0 && 1 <= threshold <= dm.len()
                    &&& d matches Some(p) && p.0 == multisig_account@ && ({
                        let gv = MultisigV { name, members: dm, threshold, bump: p.1 };
                        &&& rec_at(pre_store, multisig_account).owner is None
                        &&& !fundable(
                            pre_store,
                            multisig_account,
                            payer,
                            reserve_of(multisig_size(gv) as usize),
                        )
                    })
                },
                _ => false,
            }
        },
    }
}

/// Creates a group record: deduplicates the member list, validates the
/// group invariant, derives and checks the record address from the group's
/// name, allocates and funds the record from `payer`, and writes the
/// group. The record carries the derivation's bump as its proof.
#[verifier::loop_isolation(false)]
pub fn create(
    store: &mut RecordStore,
    payer: &Address,
    multisig_account: &Address,
    name: Vec<u8>,
    members: &Vec<Address>,
    threshold: u64,
) -> (r: Result<(), Error>)
    requires
        old(store).wf(),
        name@.len() <= u32::MAX,
        members@.len() <= u32::MAX,
        25 + name@.len() + 32 * members@.len() <= usize::MAX,
    ensures
        final(store).wf(),
        final(store)@.program_id == old(store)@.program_id,
        create_outcome(
            old(store)@,
            final(store)@,
            *payer,
            *multisig_account,
            name@,
            members@,
            threshold,
            r,
        ),
{
    let ghost name_view = name@;
    let mut g = Multisig::new(name, Vec::new(), threshold);
    proof {
        lemma_dedup_props(members@);
        assert(dedup(members@.take(0)) =~= Seq::<Address>::empty());
        assert(g@.members =~= dedup(members@.take(0)));
    }
    let mut i: usize = 0;
    while i < members.len()
        invariant
            i <= members@.len(),
            g@.members == dedup(members@.take(i as int)),
            g@.name == name_view,
            g@.threshold == threshold,
            g@.bump == 0u8,
        decreases members@.len() - i,
    {
        proof {
            lemma_dedup_take_succ(members@, i as int);
            lemma_dedup_props(members@.take(i as int));
        }
        if !g.is_member(&members[i]) {
            g.members.push(members[i]);
        }
        i = i + 1;
    }
    proof {
        assert(members@.take(members@.len() as int) =~= members@);
        lemma_dedup_props(members@);
    }
    if g.members.len() == 0 {
        return Err(Error::Multisig(MultisigError::NoMembers));
    }
    match g.update_threshold(threshold) {
        Ok(()) => {},
        Err(e) => {
            return Err(Error::Multisig(e));
        },
    }
    let seeds = group_seed_vec(&g.name);
    let (derived_addr, bump) = match derive_address(&store.program_id, &seeds) {
        Some(p) => p,
        None => {
            return Err(Error::Storage(StorageError::InvalidRecord));
        },
    };
    proof {
        lemma_addr_view_inj(derived_addr, *multisig_account);
    }
    if !addr_eq(&derived_addr, multisig_account) {
        return Err(Error::Storage(StorageError::InvalidRecord));
    }
    g.bump = bump;
    let size = g.size();
    let ghost pre_store = store@;
    match store.create_pda(payer, &seeds, size) {
        Ok((created, _)) => {
            proof {
                lemma_addr_view_inj(created, *multisig_account);
            }
            let bytes = encode_multisig(&g);
            proof {
                lemma_enc_multisig_len(g@);
            }
            match store.write_pda(multisig_account, &bytes) {
                Ok(()) => {
                    proof {
                        lemma_dec_enc_multisig(g@);
                        lemma_addr_view_inj(store.program_id, old(store).program_id);
                    }
                    Ok(())
                },
                Err(e) => Err(Error::Storage(e)),
            }
        },
        Err(e) => {
            proof {
                crate::storage::lemma_addr_of_view(*multisig_account);
            }
            Err(Error::Storage(e))
        },
    }
}

} // verus!
