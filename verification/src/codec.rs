//! The byte layout of the engine's records and instructions: a
//! length-prefixed sequential encoding of each entity's fields in
//! declaration order, with an 8-byte type tag preceding group and proposal
//! payloads. The layout is exact: a value's computed size equals its
//! encoded length, decoding an encoding reproduces the value, and a decoded
//! value's size equals the bytes consumed.

use vstd::bytes::{
    lemma_auto_spec_u32_to_from_le_bytes, lemma_auto_spec_u64_to_from_le_bytes,
    spec_u32_from_le_bytes, spec_u32_to_le_bytes, spec_u64_from_le_bytes, spec_u64_to_le_bytes,
    u32_from_le_bytes, u32_to_le_bytes, u64_from_le_bytes, u64_to_le_bytes,
};
use vstd::prelude::*;

use crate::multisig::{multisig_size, Multisig, MultisigV};
use crate::proposal::{
    action_size, actions_size, proposal_size, Action, ActionAccount, ActionV, Proposal, ProposalV,
};
use crate::storage::{addr_of, lemma_addr_of_view, Address};
use crate::{Instruction, InstructionV};

verus! {

/// The 4-byte little-endian length or count prefix.
pub open spec fn enc_u32(x: u32) -> Seq<u8> {
    spec_u32_to_le_bytes(x)
}

/// An 8-byte little-endian integer field.
pub open spec fn enc_u64(x: u64) -> Seq<u8> {
    spec_u64_to_le_bytes(x)
}

/// A boolean field: one byte, one for true and zero for false.
pub open spec fn enc_bool(b: bool) -> Seq<u8> {
    seq![if b { 1u8 } else { 0u8 }]
}

/// A length-prefixed byte string.
pub open spec fn enc_bytes(s: Seq<u8>) -> Seq<u8> {
    enc_u32(s.len() as u32) + s
}

/// The concatenated fixed-width addresses of a list.
pub open spec fn cat_addrs(s: Seq<Address>) -> Seq<u8>
    decreases s.len(),
{
    if s.len() == 0 {
        Seq::empty()
    } else {
        s[0]@ + cat_addrs(s.drop_first())
    }
}

/// A count-prefixed address list.
pub open spec fn enc_addrs(s: Seq<Address>) -> Seq<u8> {
    enc_u32(s.len() as u32) + cat_addrs(s)
}

/// The 8-byte type tag of a group record, the bytes of "multisig".
pub open spec fn group_tag() -> Seq<u8> {
    seq![109u8, 117u8, 108u8, 116u8, 105u8, 115u8, 105u8, 103u8]
}

/// The 8-byte type tag of a proposal record, the bytes of "proposal".
pub open spec fn proposal_tag() -> Seq<u8> {
    seq![112u8, 114u8, 111u8, 112u8, 111u8, 115u8, 97u8, 108u8]
}

/// The encoding of a group record: tag, name, members, threshold,
/// derivation proof.
pub open spec fn enc_multisig(m: MultisigV) -> Seq<u8> {
    group_tag() + enc_bytes(m.name) + enc_addrs(m.members) + enc_u64(m.threshold) + seq![m.bump]
}

/// The machine limits the layout imposes on a group: length prefixes are
/// 32-bit.
pub open spec fn multisig_encodable(m: MultisigV) -> bool {
    &&& m.name.len() <= u32::MAX
    &&& m.members.len() <= u32::MAX
}

/// Concatenated addresses occupy exactly 32 bytes each.
pub proof fn lemma_cat_addrs_len(s: Seq<Address>)
    ensures
        cat_addrs(s).len() == s.len() * 32,
    decreases s.len(),
{
    if s.len() > 0 {
        lemma_cat_addrs_len(s.drop_first());
    }
}

/// Appending one address to a list appends its 32 bytes to the
/// concatenation.
pub proof fn lemma_cat_addrs_push(s: Seq<Address>, a: Address)
    ensures
        cat_addrs(s.push(a)) == cat_addrs(s) + a@,
    decreases s.len(),
{
    let p = s.push(a);
    if s.len() == 0 {
        assert(p.drop_first() =~= Seq::<Address>::empty());
        assert(cat_addrs(p.drop_first()) == Seq::<u8>::empty());
        assert(cat_addrs(p) == p[0]@ + Seq::<u8>::empty());
        assert(p[0] == a);
        assert(a@ + Seq::<u8>::empty() =~= Seq::<u8>::empty() + a@);
        assert(cat_addrs(s) == Seq::<u8>::empty());
    } else {
        assert(p.drop_first() =~= s.drop_first().push(a));
        lemma_cat_addrs_push(s.drop_first(), a);
        assert(p[0] == s[0]);
        assert(cat_addrs(p) == s[0]@ + (cat_addrs(s.drop_first()) + a@));
        assert(s[0]@ + (cat_addrs(s.drop_first()) + a@) =~= (s[0]@ + cat_addrs(s.drop_first()))
            + a@);
    }
}

/// A group's encoded length is exactly its computed record size.
pub proof fn lemma_enc_multisig_len(m: MultisigV)
    ensures
        enc_multisig(m).len() == multisig_size(m),
{
    lemma_auto_spec_u32_to_from_le_bytes();
    lemma_auto_spec_u64_to_from_le_bytes();
    lemma_cat_addrs_len(m.members);
}

/// The encoding of one action parameter: its address and two flag bytes.
pub open spec fn enc_account(a: ActionAccount) -> Seq<u8> {
    a.pubkey@ + enc_bool(a.is_signer) + enc_bool(a.is_writable)
}

/// The concatenated encodings of an action's parameters.
pub open spec fn cat_accounts(s: Seq<ActionAccount>) -> Seq<u8>
    decreases s.len(),
{
    if s.len() == 0 {
        Seq::empty()
    } else {
        enc_account(s[0]) + cat_accounts(s.drop_first())
    }
}

/// A count-prefixed parameter list.
pub open spec fn enc_accounts(s: Seq<ActionAccount>) -> Seq<u8> {
    enc_u32(s.len() as u32) + cat_accounts(s)
}

/// The encoding of an action: target, parameters, payload.
pub open spec fn enc_action(a: ActionV) -> Seq<u8> {
    a.program_id@ + enc_accounts(a.accounts) + enc_bytes(a.data)
}

/// The machine limits the layout imposes on an action.
pub open spec fn action_encodable(a: ActionV) -> bool {
    &&& a.accounts.len() <= u32::MAX
    &&& a.data.len() <= u32::MAX
}

/// The concatenated encodings of a proposal's actions.
pub open spec fn cat_actions(s: Seq<ActionV>) -> Seq<u8>
    decreases s.len(),
{
    if s.len() == 0 {
        Seq::empty()
    } else {
        enc_action(s[0]) + cat_actions(s.drop_first())
    }
}

/// A count-prefixed action batch.
pub open spec fn enc_actions(s: Seq<ActionV>) -> Seq<u8> {
    enc_u32(s.len() as u32) + cat_actions(s)
}

/// The encoding of a proposal record: tag, id, actions, approvers,
/// executed flag, group back-reference.
pub open spec fn enc_proposal(p: ProposalV) -> Seq<u8> {
    proposal_tag() + enc_u64(p.id) + enc_actions(p.actions) + enc_addrs(p.approvers) + enc_bool(
        p.executed,
    ) + p.multisig@
}

/// The machine limits the layout imposes on a proposal.
pub open spec fn proposal_encodable(p: ProposalV) -> bool {
    &&& p.actions.len() <= u32::MAX
    &&& p.approvers.len() <= u32::MAX
    &&& forall|i: int| 0 <= i < p.actions.len() ==> action_encodable(#[trigger] p.actions[i])
}

/// One parameter encodes to exactly 34 bytes.
pub proof fn lemma_enc_account_len(a: ActionAccount)
    ensures
        enc_account(a).len() == 34,
{
}

/// Concatenated parameters occupy exactly 34 bytes each.
pub proof fn lemma_cat_accounts_len(s: Seq<ActionAccount>)
    ensures
        cat_accounts(s).len() == s.len() * 34,
    decreases s.len(),
{
    if s.len() > 0 {
        lemma_cat_accounts_len(s.drop_first());
    }
}

/// An action's encoded length is exactly its computed size.
pub proof fn lemma_enc_action_len(a: ActionV)
    ensures
        enc_action(a).len() == action_size(a),
{
    lemma_auto_spec_u32_to_from_le_bytes();
    assert(enc_u32(a.accounts.len() as u32).len() == 4);
    assert(enc_u32(a.data.len() as u32).len() == 4);
    lemma_cat_accounts_len(a.accounts);
}

/// A batch's summed size decomposes at its first action.
pub proof fn lemma_actions_size_first(s: Seq<ActionV>)
    requires
        s.len() > 0,
    ensures
        actions_size(s) == action_size(s[0]) + actions_size(s.drop_first()),
    decreases s.len(),
{
    if s.len() == 1 {
        assert(s.drop_first() =~= Seq::<ActionV>::empty());
        assert(s.drop_last() =~= Seq::<ActionV>::empty());
    } else {
        let dl = s.drop_last();
        lemma_actions_size_first(dl);
        assert(s.drop_first().drop_last() =~= dl.drop_first());
        assert(actions_size(s) == actions_size(dl) + action_size(s.last()));
        assert(actions_size(s.drop_first()) == actions_size(dl.drop_first()) + action_size(
            s.drop_first().last(),
        ));
        assert(s.drop_first().last() == s.last());
        assert(dl[0] == s[0]);
    }
}

/// Concatenated actions occupy exactly the batch's summed size.
pub proof fn lemma_cat_actions_len(s: Seq<ActionV>)
    ensures
        cat_actions(s).len() == actions_size(s),
    decreases s.len(),
{
    if s.len() > 0 {
        lemma_actions_size_first(s);
        lemma_enc_action_len(s[0]);
        lemma_cat_actions_len(s.drop_first());
    }
}

/// Appending one parameter appends its encoding to the concatenation.
pub proof fn lemma_cat_accounts_push(s: Seq<ActionAccount>, a: ActionAccount)
    ensures
        cat_accounts(s.push(a)) == cat_accounts(s) + enc_account(a),
    decreases s.len(),
{
    let p = s.push(a);
    if s.len() == 0 {
        assert(p.drop_first() =~= Seq::<ActionAccount>::empty());
        assert(cat_accounts(p.drop_first()) == Seq::<u8>::empty());
        assert(cat_accounts(p) == enc_account(p[0]) + Seq::<u8>::empty());
        assert(p[0] == a);
        assert(enc_account(a) + Seq::<u8>::empty() =~= Seq::<u8>::empty() + enc_account(a));
        assert(cat_accounts(s) == Seq::<u8>::empty());
    } else {
        assert(p.drop_first() =~= s.drop_first().push(a));
        lemma_cat_accounts_push(s.drop_first(), a);
        assert(p[0] == s[0]);
        assert(cat_accounts(p) == enc_account(s[0]) + (cat_accounts(s.drop_first()) + enc_account(
            a,
        )));
        assert(enc_account(s[0]) + (cat_accounts(s.drop_first()) + enc_account(a)) =~= (enc_account(
            s[0],
        ) + cat_accounts(s.drop_first())) + enc_account(a));
    }
}

/// Appending one action appends its encoding to the concatenation.
pub proof fn lemma_cat_actions_push(s: Seq<ActionV>, a: ActionV)
    ensures
        cat_actions(s.push(a)) == cat_actions(s) + enc_action(a),
    decreases s.len(),
{
    let p = s.push(a);
    if s.len() == 0 {
        assert(p.drop_first() =~= Seq::<ActionV>::empty());
        assert(cat_actions(p.drop_first()) == Seq::<u8>::empty());
        assert(cat_actions(p) == enc_action(p[0]) + Seq::<u8>::empty());
        assert(p[0] == a);
        assert(enc_action(a) + Seq::<u8>::empty() =~= Seq::<u8>::empty() + enc_action(a));
        assert(cat_actions(s) == Seq::<u8>::empty());
    } else {
        assert(p.drop_first() =~= s.drop_first().push(a));
        lemma_cat_actions_push(s.drop_first(), a);
        assert(p[0] == s[0]);
        assert(cat_actions(p) == enc_action(s[0]) + (cat_actions(s.drop_first()) + enc_action(a)));
        assert(enc_action(s[0]) + (cat_actions(s.drop_first()) + enc_action(a)) =~= (enc_action(
            s[0],
        ) + cat_actions(s.drop_first())) + enc_action(a));
    }
}

/// A proposal's encoded length is exactly its computed record size.
pub proof fn lemma_enc_proposal_len(p: ProposalV)
    ensures
        enc_proposal(p).len() == proposal_size(p),
{
    lemma_auto_spec_u32_to_from_le_bytes();
    lemma_auto_spec_u64_to_from_le_bytes();
    assert(enc_u32(p.actions.len() as u32).len() == 4);
    assert(enc_u32(p.approvers.len() as u32).len() == 4);
    lemma_cat_actions_len(p.actions);
    lemma_cat_addrs_len(p.approvers);
}

/// Reads the 4-byte little-endian integer at `i`.
pub open spec fn dec_u32(s: Seq<u8>, i: int) -> Option<(u32, int)> {
    if 0 <= i && i + 4 <= s.len() {
        Some((spec_u32_from_le_bytes(s.subrange(i, i + 4)), i + 4))
    } else {
        None
    }
}

/// Reads the 8-byte little-endian integer at `i`.
pub open spec fn dec_u64(s: Seq<u8>, i: int) -> Option<(u64, int)> {
    if 0 <= i && i + 8 <= s.len() {
        Some((spec_u64_from_le_bytes(s.subrange(i, i + 8)), i + 8))
    } else {
        None
    }
}

/// Reads the boolean byte at `i`; only one and zero are encodings.
pub open spec fn dec_bool(s: Seq<u8>, i: int) -> Option<(bool, int)> {
    if 0 <= i && i + 1 <= s.len() && (s[i] == 0u8 || s[i] == 1u8) {
        Some((s[i] == 1u8, i + 1))
    } else {
        None
    }
}

/// Reads the 32-byte address at `i`.
pub open spec fn dec_addr(s: Seq<u8>, i: int) -> Option<(Address, int)> {
    if 0 <= i && i + 32 <= s.len() {
        Some((addr_of(s.subrange(i, i + 32)), i + 32))
    } else {
        None
    }
}

/// Reads the length-prefixed byte string at `i`.
pub open spec fn dec_bytes(s: Seq<u8>, i: int) -> Option<(Seq<u8>, int)> {
    match dec_u32(s, i) {
        None => None,
        Some((n, j)) => if j + n <= s.len() {
            Some((s.subrange(j, j + n), j + n))
        } else {
            None
        },
    }
}

/// Reads exactly `n` addresses at `i`.
pub open spec fn dec_addrs_n(s: Seq<u8>, i: int, n: nat) -> Option<(Seq<Address>, int)>
    decreases n,
{
    if n == 0 {
        Some((Seq::empty(), i))
    } else {
        match dec_addr(s, i) {
            None => None,
            Some((a, j)) => match dec_addrs_n(s, j, (n - 1) as nat) {
                None => None,
                Some((rest, k)) => Some((seq![a] + rest, k)),
            },
        }
    }
}

/// Reads the count-prefixed address list at `i`.
pub open spec fn dec_addrs(s: Seq<u8>, i: int) -> Option<(Seq<Address>, int)> {
    match dec_u32(s, i) {
        None => None,
        Some((n, j)) => dec_addrs_n(s, j, n as nat),
    }
}

/// Reads one action parameter at `i`.
pub open spec fn dec_account(s: Seq<u8>, i: int) -> Option<(ActionAccount, int)> {
    match dec_addr(s, i) {
        None => None,
        Some((pubkey, j)) => match dec_bool(s, j) {
            None => None,
            Some((is_signer, k)) => match dec_bool(s, k) {
                None => None,
                Some((is_writable, l)) => Some(
                    (ActionAccount { pubkey, is_signer, is_writable }, l),
                ),
            },
        },
    }
}

/// Reads exactly `n` action parameters at `i`.
pub open spec fn dec_accounts_n(s: Seq<u8>, i: int, n: nat) -> Option<(Seq<ActionAccount>, int)>
    decreases n,
{
    if n == 0 {
        Some((Seq::empty(), i))
    } else {
        match dec_account(s, i) {
            None => None,
            Some((a, j)) => match dec_accounts_n(s, j, (n - 1) as nat) {
                None => None,
                Some((rest, k)) => Some((seq![a] + rest, k)),
            },
        }
    }
}

/// Reads the count-prefixed parameter list at `i`.
pub open spec fn dec_accounts(s: Seq<u8>, i: int) -> Option<(Seq<ActionAccount>, int)> {
    match dec_u32(s, i) {
        None => None,
        Some((n, j)) => dec_accounts_n(s, j, n as nat),
    }
}

/// Reads one action at `i`.
pub open spec fn dec_action(s: Seq<u8>, i: int) -> Option<(ActionV, int)> {
    match dec_addr(s, i) {
        None => None,
        Some((program_id, j)) => match dec_accounts(s, j) {
            None => None,
            Some((accounts, k)) => match dec_bytes(s, k) {
                None => None,
                Some((data, l)) => Some((ActionV { program_id, accounts, data }, l)),
            },
        },
    }
}

/// Reads exactly `n` actions at `i`.
pub open spec fn dec_actions_n(s: Seq<u8>, i: int, n: nat) -> Option<(Seq<ActionV>, int)>
    decreases n,
{
    if n == 0 {
        Some((Seq::empty(), i))
    } else {
        match dec_action(s, i) {
            None => None,
            Some((a, j)) => match dec_actions_n(s, j, (n - 1) as nat) {
                None => None,
                Some((rest, k)) => Some((seq![a] + rest, k)),
            },
        }
    }
}

/// Reads the count-prefixed action batch at `i`.
pub open spec fn dec_actions(s: Seq<u8>, i: int) -> Option<(Seq<ActionV>, int)> {
    match dec_u32(s, i) {
        None => None,
        Some((n, j)) => dec_actions_n(s, j, n as nat),
    }
}

/// Decodes a whole proposal record; the bytes must carry the proposal tag
/// and be consumed exactly.
pub open spec fn dec_proposal(s: Seq<u8>) -> Option<ProposalV> {
    if s.len() >= 8 && s.subrange(0, 8) == proposal_tag() {
        match dec_u64(s, 8) {
            None => None,
            Some((id, i)) => match dec_actions(s, i) {
                None => None,
                Some((actions, j)) => match dec_addrs(s, j) {
                    None => None,
                    Some((approvers, k)) => match dec_bool(s, k) {
                        None => None,
                        Some((executed, l)) => match dec_addr(s, l) {
                            None => None,
                            Some((multisig, m)) => if m == s.len() {
                                Some(ProposalV { id, actions, approvers, executed, multisig })
                            } else {
                                None
                            },
                        },
                    },
                },
            },
        }
    } else {
        None
    }
}

/// Decodes a whole group record; the bytes must carry the group tag and be
/// consumed exactly.
pub open spec fn dec_multisig(s: Seq<u8>) -> Option<MultisigV> {
    if s.len() >= 8 && s.subrange(0, 8) == group_tag() {
        match dec_bytes(s, 8) {
            None => None,
            Some((name, i)) => match dec_addrs(s, i) {
                None => None,
                Some((members, j)) => match dec_u64(s, j) {
                    None => None,
                    Some((threshold, k)) => if k + 1 == s.len() {
                        Some(MultisigV { name, members, threshold, bump: s[k] })
                    } else {
                        None
                    },
                },
            },
        }
    } else {
        None
    }
}

/// A 4-byte integer decodes from wherever its encoding was laid down.
pub proof fn lemma_dec_u32_at(s: Seq<u8>, i: int, x: u32)
    requires
        0 <= i,
        i + 4 <= s.len(),
        s.subrange(i, i + 4) == enc_u32(x),
    ensures
        dec_u32(s, i) == Some((x, i + 4)),
{
    lemma_auto_spec_u32_to_from_le_bytes();
    assert(spec_u32_to_le_bytes(x).len() == 4);
    assert(spec_u32_from_le_bytes(s.subrange(i, i + 4)) == x);
}

/// An 8-byte integer decodes from wherever its encoding was laid down.
pub proof fn lemma_dec_u64_at(s: Seq<u8>, i: int, x: u64)
    requires
        0 <= i,
        i + 8 <= s.len(),
        s.subrange(i, i + 8) == enc_u64(x),
    ensures
        dec_u64(s, i) == Some((x, i + 8)),
{
    lemma_auto_spec_u64_to_from_le_bytes();
    assert(spec_u64_to_le_bytes(x).len() == 8);
    assert(spec_u64_from_le_bytes(s.subrange(i, i + 8)) == x);
}

/// An address decodes from wherever its 32 bytes were laid down.
pub proof fn lemma_dec_addr_at(s: Seq<u8>, i: int, a: Address)
    requires
        0 <= i,
        i + 32 <= s.len(),
        s.subrange(i, i + 32) == a@,
    ensures
        dec_addr(s, i) == Some((a, i + 32)),
{
    lemma_addr_of_view(a);
}

/// A byte string decodes from wherever its length-prefixed encoding was
/// laid down.
pub proof fn lemma_dec_bytes_at(s: Seq<u8>, i: int, b: Seq<u8>)
    requires
        0 <= i,
        b.len() <= u32::MAX,
        i + 4 + b.len() <= s.len(),
        s.subrange(i, i + 4 + b.len()) == enc_bytes(b),
    ensures
        dec_bytes(s, i) == Some((b, i + 4 + b.len())),
{
    lemma_auto_spec_u32_to_from_le_bytes();
    let e = enc_bytes(b);
    assert(s.subrange(i, i + 4) =~= e.subrange(0, 4));
    assert(e.subrange(0, 4) =~= enc_u32(b.len() as u32));
    lemma_dec_u32_at(s, i, b.len() as u32);
    assert(s.subrange(i + 4, i + 4 + b.len()) =~= e.subrange(4, 4 + b.len() as int));
    assert(e.subrange(4, 4 + b.len() as int) =~= b);
}

/// An address list decodes element by element from wherever its
/// concatenation was laid down.
pub proof fn lemma_dec_addrs_n_at(s: Seq<u8>, i: int, xs: Seq<Address>)
    requires
        0 <= i,
        i + 32 * xs.len() <= s.len(),
        s.subrange(i, i + 32 * xs.len()) == cat_addrs(xs),
    ensures
        dec_addrs_n(s, i, xs.len()) == Some((xs, i + 32 * xs.len())),
    decreases xs.len(),
{
    if xs.len() == 0 {
        assert(dec_addrs_n(s, i, 0) == Some((Seq::<Address>::empty(), i)));
        assert(xs =~= Seq::<Address>::empty());
    } else {
        let c = cat_addrs(xs);
        lemma_cat_addrs_len(xs.drop_first());
        assert(c == xs[0]@ + cat_addrs(xs.drop_first()));
        assert(s.subrange(i, i + 32) =~= c.subrange(0, 32));
        assert(c.subrange(0, 32) =~= xs[0]@);
        lemma_dec_addr_at(s, i, xs[0]);
        assert(s.subrange(i + 32, i + 32 + 32 * xs.drop_first().len() as int) =~= c.subrange(
            32,
            32 + 32 * xs.drop_first().len() as int,
        ));
        assert(c.subrange(32, 32 + 32 * xs.drop_first().len() as int) =~= cat_addrs(
            xs.drop_first(),
        ));
        lemma_dec_addrs_n_at(s, i + 32, xs.drop_first());
        assert(seq![xs[0]] + xs.drop_first() =~= xs);
    }
}

/// A boolean decodes from wherever its encoding was laid down.
pub proof fn lemma_dec_bool_at(s: Seq<u8>, i: int, b: bool)
    requires
        0 <= i,
        i + 1 <= s.len(),
        s.subrange(i, i + 1) == enc_bool(b),
    ensures
        dec_bool(s, i) == Some((b, i + 1)),
{
    assert(s[i] == enc_bool(b)[0]);
}

/// One parameter decodes from wherever its encoding was laid down.
pub proof fn lemma_dec_account_at(s: Seq<u8>, i: int, a: ActionAccount)
    requires
        0 <= i,
        i + 34 <= s.len(),
        s.subrange(i, i + 34) == enc_account(a),
    ensures
        dec_account(s, i) == Some((a, i + 34)),
{
    let e = enc_account(a);
    assert(s.subrange(i, i + 32) =~= e.subrange(0, 32));
    assert(e.subrange(0, 32) =~= a.pubkey@);
    lemma_dec_addr_at(s, i, a.pubkey);
    assert(s.subrange(i + 32, i + 33) =~= e.subrange(32, 33));
    assert(e.subrange(32, 33) =~= enc_bool(a.is_signer));
    lemma_dec_bool_at(s, i + 32, a.is_signer);
    assert(s.subrange(i + 33, i + 34) =~= e.subrange(33, 34));
    assert(e.subrange(33, 34) =~= enc_bool(a.is_writable));
    lemma_dec_bool_at(s, i + 33, a.is_writable);
}

/// A parameter list decodes element by element from wherever its
/// concatenation was laid down.
pub proof fn lemma_dec_accounts_n_at(s: Seq<u8>, i: int, xs: Seq<ActionAccount>)
    requires
        0 <= i,
        i + 34 * xs.len() <= s.len(),
        s.subrange(i, i + 34 * xs.len()) == cat_accounts(xs),
    ensures
        dec_accounts_n(s, i, xs.len()) == Some((xs, i + 34 * xs.len())),
    decreases xs.len(),
{
    if xs.len() == 0 {
        assert(xs =~= Seq::<ActionAccount>::empty());
    } else {
        let c = cat_accounts(xs);
        lemma_cat_accounts_len(xs.drop_first());
        assert(c == enc_account(xs[0]) + cat_accounts(xs.drop_first()));
        assert(s.subrange(i, i + 34) =~= c.subrange(0, 34));
        assert(c.subrange(0, 34) =~= enc_account(xs[0]));
        lemma_dec_account_at(s, i, xs[0]);
        assert(s.subrange(i + 34, i + 34 + 34 * xs.drop_first().len() as int) =~= c.subrange(
            34,
            34 + 34 * xs.drop_first().len() as int,
        ));
        assert(c.subrange(34, 34 + 34 * xs.drop_first().len() as int) =~= cat_accounts(
            xs.drop_first(),
        ));
        lemma_dec_accounts_n_at(s, i + 34, xs.drop_first());
        assert(seq![xs[0]] + xs.drop_first() =~= xs);
    }
}

/// An action decodes from wherever its encoding was laid down.
pub proof fn lemma_dec_action_at(s: Seq<u8>, i: int, a: ActionV)
    requires
        0 <= i,
        action_encodable(a),
        i + action_size(a) <= s.len(),
        s.subrange(i, i + action_size(a)) == enc_action(a),
    ensures
        dec_action(s, i) == Some((a, i + action_size(a))),
{
    lemma_auto_spec_u32_to_from_le_bytes();
    assert(enc_u32(a.accounts.len() as u32).len() == 4);
    assert(enc_u32(a.data.len() as u32).len() == 4);
    lemma_cat_accounts_len(a.accounts);
    let e = enc_action(a);
    lemma_enc_action_len(a);
    let accounts_end = i + 32 + 4 + 34 * a.accounts.len() as int;
    assert(s.subrange(i, i + 32) =~= e.subrange(0, 32));
    assert(e.subrange(0, 32) =~= a.program_id@);
    lemma_dec_addr_at(s, i, a.program_id);
    assert(s.subrange(i + 32, i + 36) =~= e.subrange(32, 36));
    assert(e.subrange(32, 36) =~= enc_u32(a.accounts.len() as u32));
    lemma_dec_u32_at(s, i + 32, a.accounts.len() as u32);
    assert(s.subrange(i + 36, accounts_end) =~= e.subrange(36, 36 + 34 * a.accounts.len() as int));
    assert(e.subrange(36, 36 + 34 * a.accounts.len() as int) =~= cat_accounts(a.accounts));
    lemma_dec_accounts_n_at(s, i + 36, a.accounts);
    assert(s.subrange(accounts_end, accounts_end + 4 + a.data.len() as int) =~= e.subrange(
        36 + 34 * a.accounts.len() as int,
        36 + 34 * a.accounts.len() as int + 4 + a.data.len() as int,
    ));
    assert(e.subrange(
        36 + 34 * a.accounts.len() as int,
        36 + 34 * a.accounts.len() as int + 4 + a.data.len() as int,
    ) =~= enc_bytes(a.data));
    lemma_dec_bytes_at(s, accounts_end, a.data);
}

/// An action batch decodes element by element from wherever its
/// concatenation was laid down.
pub proof fn lemma_dec_actions_n_at(s: Seq<u8>, i: int, xs: Seq<ActionV>)
    requires
        0 <= i,
        forall|k: int| 0 <= k < xs.len() ==> action_encodable(#[trigger] xs[k]),
        i + actions_size(xs) <= s.len(),
        s.subrange(i, i + actions_size(xs)) == cat_actions(xs),
    ensures
        dec_actions_n(s, i, xs.len()) == Some((xs, i + actions_size(xs))),
    decreases xs.len(),
{
    if xs.len() == 0 {
        assert(xs =~= Seq::<ActionV>::empty());
    } else {
        let c = cat_actions(xs);
        lemma_actions_size_first(xs);
        lemma_enc_action_len(xs[0]);
        lemma_cat_actions_len(xs.drop_first());
        let head = action_size(xs[0]) as int;
        let rest = actions_size(xs.drop_first()) as int;
        assert(c == enc_action(xs[0]) + cat_actions(xs.drop_first()));
        assert(s.subrange(i, i + head) =~= c.subrange(0, head));
        assert(c.subrange(0, head) =~= enc_action(xs[0]));
        lemma_dec_action_at(s, i, xs[0]);
        assert(s.subrange(i + head, i + head + rest) =~= c.subrange(head, head + rest));
        assert(c.subrange(head, head + rest) =~= cat_actions(xs.drop_first()));
        lemma_dec_actions_n_at(s, i + head, xs.drop_first());
        assert(seq![xs[0]] + xs.drop_first() =~= xs);
    }
}

/// Decoding a proposal's encoding gives back the proposal: the record
/// layout round-trips.
pub proof fn lemma_dec_enc_proposal(p: ProposalV)
    requires
        proposal_encodable(p),
    ensures
        dec_proposal(enc_proposal(p)) == Some(p),
{
    lemma_auto_spec_u32_to_from_le_bytes();
    lemma_auto_spec_u64_to_from_le_bytes();
    assert(enc_u32(p.actions.len() as u32).len() == 4);
    assert(enc_u32(p.approvers.len() as u32).len() == 4);
    lemma_cat_actions_len(p.actions);
    lemma_cat_addrs_len(p.approvers);
    let s = enc_proposal(p);
    lemma_enc_proposal_len(p);
    let actions_end = 8 + 8 + 4 + actions_size(p.actions) as int;
    let approvers_end = actions_end + 4 + 32 * p.approvers.len() as int;
    assert(s.subrange(0, 8) =~= proposal_tag());
    assert(s.subrange(8, 16) =~= enc_u64(p.id));
    lemma_dec_u64_at(s, 8, p.id);
    assert(s.subrange(16, 20) =~= enc_u32(p.actions.len() as u32));
    lemma_dec_u32_at(s, 16, p.actions.len() as u32);
    assert(s.subrange(20, actions_end) =~= cat_actions(p.actions));
    lemma_dec_actions_n_at(s, 20, p.actions);
    assert(s.subrange(actions_end, actions_end + 4) =~= enc_u32(p.approvers.len() as u32));
    lemma_dec_u32_at(s, actions_end, p.approvers.len() as u32);
    assert(s.subrange(actions_end + 4, approvers_end) =~= cat_addrs(p.approvers));
    lemma_dec_addrs_n_at(s, actions_end + 4, p.approvers);
    assert(s.subrange(approvers_end, approvers_end + 1) =~= enc_bool(p.executed));
    lemma_dec_bool_at(s, approvers_end, p.executed);
    assert(s.subrange(approvers_end + 1, approvers_end + 33) =~= p.multisig@);
    lemma_dec_addr_at(s, approvers_end + 1, p.multisig);
    assert(approvers_end + 33 == s.len());
}

/// Decoding `n` parameters consumes exactly `34 * n` bytes.
pub proof fn lemma_dec_accounts_n_len(s: Seq<u8>, i: int, n: nat)
    ensures
        match dec_accounts_n(s, i, n) {
            Some((xs, j)) => xs.len() == n && j == i + 34 * n,
            None => true,
        },
    decreases n,
{
    if n > 0 {
        match dec_account(s, i) {
            None => {},
            Some((a, j)) => {
                lemma_dec_accounts_n_len(s, j, (n - 1) as nat);
            },
        }
    }
}

/// Whatever an action decodes from spans exactly the action's size, and
/// the action observes the layout's machine limits.
pub proof fn lemma_dec_action_len(s: Seq<u8>, i: int)
    ensures
        match dec_action(s, i) {
            Some((a, j)) => j == i + action_size(a) && action_encodable(a),
            None => true,
        },
{
    match dec_addr(s, i) {
        None => {},
        Some((_, j0)) => {
            match dec_u32(s, j0) {
                None => {},
                Some((n, j1)) => {
                    lemma_dec_accounts_n_len(s, j1, n as nat);
                },
            }
        },
    }
}

/// Decoding `n` actions consumes exactly the batch's summed size, and
/// every decoded action observes the layout's machine limits.
pub proof fn lemma_dec_actions_n_len(s: Seq<u8>, i: int, n: nat)
    ensures
        match dec_actions_n(s, i, n) {
            Some((xs, j)) => {
                &&& xs.len() == n
                &&& j == i + actions_size(xs)
                &&& forall|k: int| 0 <= k < xs.len() ==> action_encodable(#[trigger] xs[k])
            },
            None => true,
        },
    decreases n,
{
    if n > 0 {
        match dec_action(s, i) {
            None => {},
            Some((a, j)) => {
                lemma_dec_action_len(s, i);
                lemma_dec_actions_n_len(s, j, (n - 1) as nat);
                match dec_actions_n(s, j, (n - 1) as nat) {
                    None => {},
                    Some((rest, k)) => {
                        let xs = seq![a] + rest;
                        assert(xs.drop_first() =~= rest);
                        lemma_actions_size_first(xs);
                    },
                }
            },
        }
    }
}

/// Whatever a proposal decodes from has exactly the proposal's record
/// size, and the proposal observes the layout's machine limits.
pub proof fn lemma_dec_proposal_len(s: Seq<u8>, p: ProposalV)
    requires
        dec_proposal(s) == Some(p),
    ensures
        s.len() == proposal_size(p),
        proposal_encodable(p),
{
    let (id, i) = dec_u64(s, 8).unwrap();
    let (na, j0) = dec_u32(s, i).unwrap();
    lemma_dec_actions_n_len(s, j0, na as nat);
    let (actions, j) = dec_actions_n(s, j0, na as nat).unwrap();
    let (nr, k0) = dec_u32(s, j).unwrap();
    lemma_dec_addrs_n_len(s, k0, nr as nat);
}

/// Decoding a group's encoding gives back the group: the record layout
/// round-trips.
pub proof fn lemma_dec_enc_multisig(m: MultisigV)
    requires
        multisig_encodable(m),
    ensures
        dec_multisig(enc_multisig(m)) == Some(m),
{
    lemma_auto_spec_u32_to_from_le_bytes();
    lemma_auto_spec_u64_to_from_le_bytes();
    lemma_cat_addrs_len(m.members);
    let s = enc_multisig(m);
    let name_end = 8 + 4 + m.name.len() as int;
    let members_end = name_end + 4 + 32 * m.members.len() as int;
    lemma_enc_multisig_len(m);
    assert(s.subrange(0, 8) =~= group_tag());
    assert(s.subrange(8, name_end) =~= enc_bytes(m.name));
    lemma_dec_bytes_at(s, 8, m.name);
    assert(s.subrange(name_end, name_end + 4) =~= enc_u32(m.members.len() as u32));
    lemma_dec_u32_at(s, name_end, m.members.len() as u32);
    assert(s.subrange(name_end + 4, members_end) =~= cat_addrs(m.members));
    lemma_dec_addrs_n_at(s, name_end + 4, m.members);
    assert(s.subrange(members_end, members_end + 8) =~= enc_u64(m.threshold));
    lemma_dec_u64_at(s, members_end, m.threshold);
    assert(s[members_end + 8] == m.bump);
    assert(members_end + 8 + 1 == s.len());
}

/// Whatever a group decodes from has exactly the group's record size, and
/// the group observes the layout's machine limits.
pub proof fn lemma_dec_multisig_len(s: Seq<u8>, m: MultisigV)
    requires
        dec_multisig(s) == Some(m),
    ensures
        s.len() == multisig_size(m),
        multisig_encodable(m),
{
    let (name, i) = dec_bytes(s, 8).unwrap();
    let (count, j0) = dec_u32(s, i).unwrap();
    lemma_dec_addrs_n_len(s, j0, count as nat);
}

/// Decoding `n` addresses consumes exactly `32 * n` bytes and yields `n`
/// addresses.
pub proof fn lemma_dec_addrs_n_len(s: Seq<u8>, i: int, n: nat)
    ensures
        match dec_addrs_n(s, i, n) {
            Some((xs, j)) => xs.len() == n && j == i + 32 * n,
            None => true,
        },
    decreases n,
{
    if n > 0 {
        match dec_addr(s, i) {
            None => {},
            Some((a, j)) => {
                lemma_dec_addrs_n_len(s, j, (n - 1) as nat);
            },
        }
    }
}

/// The 8 big-endian bytes of an integer, the form an id takes inside a
/// derivation seed.
pub open spec fn u64_be(x: u64) -> Seq<u8> {
    Seq::new(8, |i: int| spec_u64_to_le_bytes(x)[7 - i])
}

/// Writes an integer as its 8 big-endian bytes.
pub fn u64_be_bytes(x: u64) -> (r: Vec<u8>)
    ensures
        r@ == u64_be(x),
{
    proof {
        lemma_auto_spec_u64_to_from_le_bytes();
        assert(spec_u64_to_le_bytes(x).len() == 8);
    }
    let le = u64_to_le_bytes(x);
    let mut out: Vec<u8> = Vec::new();
    let mut i: usize = 0;
    while i < 8
        invariant
            i <= 8,
            le@ == spec_u64_to_le_bytes(x),
            le@.len() == 8,
            out@.len() == i,
            forall|k: int| 0 <= k < i ==> out@[k] == le@[7 - k],
        decreases 8 - i,
    {
        out.push(le[7 - i]);
        i = i + 1;
    }
    proof {
        assert(out@ =~= u64_be(x));
    }
    out
}

fn push_u32(out: &mut Vec<u8>, x: u32)
    ensures
        final(out)@ == old(out)@ + enc_u32(x),
{
    let mut b = u32_to_le_bytes(x);
    out.append(&mut b);
}

fn push_u64(out: &mut Vec<u8>, x: u64)
    ensures
        final(out)@ == old(out)@ + enc_u64(x),
{
    let mut b = u64_to_le_bytes(x);
    out.append(&mut b);
}

fn push_bool(out: &mut Vec<u8>, b: bool)
    ensures
        final(out)@ == old(out)@ + enc_bool(b),
{
    out.push(if b { 1 } else { 0 });
    proof {
        assert(out@ =~= old(out)@ + enc_bool(b));
    }
}

fn push_addr(out: &mut Vec<u8>, a: &Address)
    ensures
        final(out)@ == old(out)@ + a@,
{
    let mut i: usize = 0;
    while i < 32
        invariant
            i <= 32,
            out@ == old(out)@ + a@.take(i as int),
        decreases 32 - i,
    {
        out.push(a[i]);
        proof {
            assert(a@.take(i + 1) =~= a@.take(i as int).push(a@[i as int]));
            assert(out@ =~= old(out)@ + a@.take(i + 1));
        }
        i = i + 1;
    }
    proof {
        assert(a@.take(32) =~= a@);
    }
}

fn push_bytes(out: &mut Vec<u8>, b: &Vec<u8>)
    requires
        b@.len() <= u32::MAX,
    ensures
        final(out)@ == old(out)@ + enc_bytes(b@),
{
    push_u32(out, b.len() as u32);
    let ghost mid = out@;
    out.extend_from_slice(b.as_slice());
    proof {
        assert(out@ =~= old(out)@ + enc_bytes(b@));
    }
}

fn push_group_tag(out: &mut Vec<u8>)
    ensures
        final(out)@ == old(out)@ + group_tag(),
{
    out.push(109);
    out.push(117);
    out.push(108);
    out.push(116);
    out.push(105);
    out.push(115);
    out.push(105);
    out.push(103);
    proof {
        assert(out@ =~= old(out)@ + group_tag());
    }
}

fn push_proposal_tag(out: &mut Vec<u8>)
    ensures
        final(out)@ == old(out)@ + proposal_tag(),
{
    out.push(112);
    out.push(114);
    out.push(111);
    out.push(112);
    out.push(111);
    out.push(115);
    out.push(97);
    out.push(108);
    proof {
        assert(out@ =~= old(out)@ + proposal_tag());
    }
}

/// Encodes a group record.
#[verifier::loop_isolation(false)]
pub fn encode_multisig(m: &Multisig) -> (r: Vec<u8>)
    requires
        multisig_encodable(m@),
    ensures
        r@ == enc_multisig(m@),
{
    let mut out: Vec<u8> = Vec::new();
    proof {
        assert(out@ + group_tag() =~= group_tag());
    }
    push_group_tag(&mut out);
    push_bytes(&mut out, &m.name);
    push_u32(&mut out, m.members.len() as u32);
    let ghost pre = out@;
    let mut i: usize = 0;
    proof {
        assert(m.members@.take(0) =~= Seq::<Address>::empty());
        assert(pre + cat_addrs(m.members@.take(0)) =~= pre);
    }
    while i < m.members.len()
        invariant
            i <= m.members@.len(),
            out@ == pre + cat_addrs(m.members@.take(i as int)),
        decreases m.members@.len() - i,
    {
        push_addr(&mut out, &m.members[i]);
        proof {
            assert(m.members@.take(i + 1) =~= m.members@.take(i as int).push(
                m.members@[i as int],
            ));
            lemma_cat_addrs_push(m.members@.take(i as int), m.members@[i as int]);
            assert(out@ =~= pre + cat_addrs(m.members@.take(i + 1)));
        }
        i = i + 1;
    }
    proof {
        assert(m.members@.take(m.members@.len() as int) =~= m.members@);
    }
    push_u64(&mut out, m.threshold);
    out.push(m.bump);
    proof {
        assert(out@ =~= enc_multisig(m@));
    }
    out
}


fn read_u32(bytes: &Vec<u8>, pos: usize) -> (r: Option<(u32, usize)>)
    ensures
        match r {
            Some((x, j)) => dec_u32(bytes@, pos as int) == Some((x, j as int)),
            None => dec_u32(bytes@, pos as int) is None,
        },
{
    if pos > bytes.len() || bytes.len() - pos < 4 {
        return None;
    }
    let sl = &bytes.as_slice()[pos..pos + 4];
    Some((u32_from_le_bytes(sl), pos + 4))
}

fn read_u64(bytes: &Vec<u8>, pos: usize) -> (r: Option<(u64, usize)>)
    ensures
        match r {
            Some((x, j)) => dec_u64(bytes@, pos as int) == Some((x, j as int)),
            None => dec_u64(bytes@, pos as int) is None,
        },
{
    if pos > bytes.len() || bytes.len() - pos < 8 {
        return None;
    }
    let sl = &bytes.as_slice()[pos..pos + 8];
    Some((u64_from_le_bytes(sl), pos + 8))
}

fn read_bool(bytes: &Vec<u8>, pos: usize) -> (r: Option<(bool, usize)>)
    ensures
        match r {
            Some((b, j)) => dec_bool(bytes@, pos as int) == Some((b, j as int)),
            None => dec_bool(bytes@, pos as int) is None,
        },
{
    if pos >= bytes.len() {
        return None;
    }
    let b = bytes[pos];
    if b == 0 {
        Some((false, pos + 1))
    } else if b == 1 {
        Some((true, pos + 1))
    } else {
        None
    }
}

fn read_addr(bytes: &Vec<u8>, pos: usize) -> (r: Option<(Address, usize)>)
    ensures
        match r {
            Some((a, j)) => dec_addr(bytes@, pos as int) == Some((a, j as int)),
            None => dec_addr(bytes@, pos as int) is None,
        },
{
    if pos > bytes.len() || bytes.len() - pos < 32 {
        return None;
    }
    let end = pos + 32;
    let mut a: Address = [0u8; 32];
    let mut i: usize = 0;
    while i < 32
        invariant
            i <= 32,
            end == pos + 32,
            end <= bytes@.len(),
            forall|k: int| 0 <= k < i ==> a@[k] == bytes@[pos + k],
        decreases 32 - i,
    {
        a[i] = bytes[pos + i];
        i = i + 1;
    }
    proof {
        assert(a@ =~= bytes@.subrange(pos as int, pos + 32));
        lemma_addr_of_view(a);
    }
    Some((a, pos + 32))
}

fn read_bytes(bytes: &Vec<u8>, pos: usize) -> (r: Option<(Vec<u8>, usize)>)
    ensures
        match r {
            Some((b, j)) => dec_bytes(bytes@, pos as int) == Some((b@, j as int)),
            None => dec_bytes(bytes@, pos as int) is None,
        },
{
    let (n, j) = match read_u32(bytes, pos) {
        Some(p) => p,
        None => {
            return None;
        },
    };
    if n as usize > bytes.len() - j || j > bytes.len() {
        return None;
    }
    let end = j + n as usize;
    let mut out: Vec<u8> = Vec::new();
    let mut i: usize = j;
    while i < end
        invariant
            j <= i <= end,
            end <= bytes@.len(),
            out@ == bytes@.subrange(j as int, i as int),
        decreases end - i,
    {
        out.push(bytes[i]);
        proof {
            assert(bytes@.subrange(j as int, i + 1) =~= bytes@.subrange(j as int, i as int).push(
                bytes@[i as int],
            ));
        }
        i = i + 1;
    }
    Some((out, end))
}

#[verifier::loop_isolation(false)]
fn read_addrs(bytes: &Vec<u8>, pos: usize) -> (r: Option<(Vec<Address>, usize)>)
    ensures
        match r {
            Some((xs, j)) => dec_addrs(bytes@, pos as int) == Some((xs@, j as int)),
            None => dec_addrs(bytes@, pos as int) is None,
        },
{
    let (n, start) = match read_u32(bytes, pos) {
        Some(p) => p,
        None => {
            return None;
        },
    };
    let mut out: Vec<Address> = Vec::new();
    let mut k: u32 = 0;
    let mut cur: usize = start;
    while k < n
        invariant
            k <= n,
            dec_addrs_n(bytes@, start as int, n as nat) == (match dec_addrs_n(
                bytes@,
                cur as int,
                (n - k) as nat,
            ) {
                Some((rest, e)) => Some((out@ + rest, e)),
                None => None::<(Seq<Address>, int)>,
            }),
        decreases n - k,
    {
        let (a, next) = match read_addr(bytes, cur) {
            Some(p) => p,
            None => {
                return None;
            },
        };
        proof {
            let rec = dec_addrs_n(bytes@, next as int, (n - k - 1) as nat);
            match rec {
                Some((rest, e)) => {
                    assert(out@ + (seq![a] + rest) =~= (out@ + seq![a]) + rest);
                    assert(out@.push(a) =~= out@ + seq![a]);
                },
                None => {},
            }
        }
        out.push(a);
        cur = next;
        k = k + 1;
    }
    proof {
        assert(dec_addrs_n(bytes@, cur as int, 0) == Some((Seq::<Address>::empty(), cur as int)));
        assert(out@ + Seq::<Address>::empty() =~= out@);
    }
    Some((out, cur))
}

/// Decodes a group record; gives nothing back unless the bytes carry the
/// group tag and are consumed exactly.
pub fn decode_multisig(bytes: &Vec<u8>) -> (r: Option<Multisig>)
    ensures
        match r {
            Some(m) => dec_multisig(bytes@) == Some(m@),
            None => dec_multisig(bytes@) is None,
        },
{
    if bytes.len() < 8 {
        return None;
    }
    if !(bytes[0] == 109 && bytes[1] == 117 && bytes[2] == 108 && bytes[3] == 116 && bytes[4]
        == 105 && bytes[5] == 115 && bytes[6] == 105 && bytes[7] == 103) {
        proof {
            assert(bytes@.subrange(0, 8) != group_tag());
        }
        return None;
    }
    proof {
        assert(bytes@.subrange(0, 8) =~= group_tag());
    }
    let (name, i) = match read_bytes(bytes, 8) {
        Some(p) => p,
        None => {
            return None;
        },
    };
    let (members, j) = match read_addrs(bytes, i) {
        Some(p) => p,
        None => {
            return None;
        },
    };
    let (threshold, k) = match read_u64(bytes, j) {
        Some(p) => p,
        None => {
            return None;
        },
    };
    if k != bytes.len() - 1 {
        return None;
    }
    let bump = bytes[k];
    Some(Multisig { name, members, threshold, bump })
}

fn push_account(out: &mut Vec<u8>, acc: &ActionAccount)
    ensures
        final(out)@ == old(out)@ + enc_account(*acc),
{
    push_addr(out, &acc.pubkey);
    push_bool(out, acc.is_signer);
    push_bool(out, acc.is_writable);
    proof {
        assert(out@ =~= old(out)@ + enc_account(*acc));
    }
}

#[verifier::loop_isolation(false)]
fn push_action(out: &mut Vec<u8>, a: &Action)
    requires
        action_encodable(a@),
    ensures
        final(out)@ == old(out)@ + enc_action(a@),
{
    push_addr(out, &a.program_id);
    push_u32(out, a.accounts.len() as u32);
    let ghost pre = out@;
    let mut i: usize = 0;
    proof {
        assert(a.accounts@.take(0) =~= Seq::<ActionAccount>::empty());
        assert(pre + cat_accounts(a.accounts@.take(0)) =~= pre);
    }
    while i < a.accounts.len()
        invariant
            i <= a.accounts@.len(),
            out@ == pre + cat_accounts(a.accounts@.take(i as int)),
        decreases a.accounts@.len() - i,
    {
        push_account(out, &a.accounts[i]);
        proof {
            assert(a.accounts@.take(i + 1) =~= a.accounts@.take(i as int).push(
                a.accounts@[i as int],
            ));
            lemma_cat_accounts_push(a.accounts@.take(i as int), a.accounts@[i as int]);
            assert(out@ =~= pre + cat_accounts(a.accounts@.take(i + 1)));
        }
        i = i + 1;
    }
    proof {
        assert(a.accounts@.take(a.accounts@.len() as int) =~= a.accounts@);
    }
    push_bytes(out, &a.data);
    proof {
        assert(out@ =~= old(out)@ + enc_action(a@));
    }
}

/// Encodes one action.
pub fn encode_action(a: &Action) -> (r: Vec<u8>)
    requires
        action_encodable(a@),
    ensures
        r@ == enc_action(a@),
{
    let mut out: Vec<u8> = Vec::new();
    push_action(&mut out, a);
    proof {
        assert(out@ =~= enc_action(a@));
    }
    out
}

/// Encodes a proposal record.
#[verifier::loop_isolation(false)]
pub fn encode_proposal(p: &Proposal) -> (r: Vec<u8>)
    requires
        proposal_encodable(p@),
    ensures
        r@ == enc_proposal(p@),
{
    let ghost av = p.actions@.map_values(|a: Action| a@);
    let mut out: Vec<u8> = Vec::new();
    proof {
        assert(out@ + proposal_tag() =~= proposal_tag());
    }
    push_proposal_tag(&mut out);
    push_u64(&mut out, p.id);
    push_u32(&mut out, p.actions.len() as u32);
    let ghost pre = out@;
    let mut i: usize = 0;
    proof {
        assert(av.take(0) =~= Seq::<ActionV>::empty());
        assert(pre + cat_actions(av.take(0)) =~= pre);
    }
    while i < p.actions.len()
        invariant
            i <= p.actions@.len(),
            out@ == pre + cat_actions(av.take(i as int)),
        decreases p.actions@.len() - i,
    {
        proof {
            assert(av[i as int] == p.actions@[i as int]@);
        }
        push_action(&mut out, &p.actions[i]);
        proof {
            assert(av.take(i + 1) =~= av.take(i as int).push(av[i as int]));
            lemma_cat_actions_push(av.take(i as int), av[i as int]);
            assert(out@ =~= pre + cat_actions(av.take(i + 1)));
        }
        i = i + 1;
    }
    proof {
        assert(av.take(p.actions@.len() as int) =~= av);
    }
    push_u32(&mut out, p.approvers.len() as u32);
    let ghost pre2 = out@;
    let mut j: usize = 0;
    proof {
        assert(p.approvers@.take(0) =~= Seq::<Address>::empty());
        assert(pre2 + cat_addrs(p.approvers@.take(0)) =~= pre2);
    }
    while j < p.approvers.len()
        invariant
            j <= p.approvers@.len(),
            out@ == pre2 + cat_addrs(p.approvers@.take(j as int)),
        decreases p.approvers@.len() - j,
    {
        push_addr(&mut out, &p.approvers[j]);
        proof {
            assert(p.approvers@.take(j + 1) =~= p.approvers@.take(j as int).push(
                p.approvers@[j as int],
            ));
            lemma_cat_addrs_push(p.approvers@.take(j as int), p.approvers@[j as int]);
            assert(out@ =~= pre2 + cat_addrs(p.approvers@.take(j + 1)));
        }
        j = j + 1;
    }
    proof {
        assert(p.approvers@.take(p.approvers@.len() as int) =~= p.approvers@);
    }
    push_bool(&mut out, p.executed);
    push_addr(&mut out, &p.multisig);
    proof {
        assert(out@ =~= enc_proposal(p@));
    }
    out
}

fn read_account(bytes: &Vec<u8>, pos: usize) -> (r: Option<(ActionAccount, usize)>)
    ensures
        match r {
            Some((a, j)) => dec_account(bytes@, pos as int) == Some((a, j as int)),
            None => dec_account(bytes@, pos as int) is None,
        },
{
    let (pubkey, i) = match read_addr(bytes, pos) {
        Some(p) => p,
        None => {
            return None;
        },
    };
    let (is_signer, j) = match read_bool(bytes, i) {
        Some(p) => p,
        None => {
            return None;
        },
    };
    let (is_writable, k) = match read_bool(bytes, j) {
        Some(p) => p,
        None => {
            return None;
        },
    };
    Some((ActionAccount { pubkey, is_signer, is_writable }, k))
}

#[verifier::loop_isolation(false)]
fn read_accounts(bytes: &Vec<u8>, pos: usize) -> (r: Option<(Vec<ActionAccount>, usize)>)
    ensures
        match r {
            Some((xs, j)) => dec_accounts(bytes@, pos as int) == Some((xs@, j as int)),
            None => dec_accounts(bytes@, pos as int) is None,
        },
{
    let (n, start) = match read_u32(bytes, pos) {
        Some(p) => p,
        None => {
            return None;
        },
    };
    let mut out: Vec<ActionAccount> = Vec::new();
    let mut k: u32 = 0;
    let mut cur: usize = start;
    while k < n
        invariant
            k <= n,
            dec_accounts_n(bytes@, start as int, n as nat) == (match dec_accounts_n(
                bytes@,
                cur as int,
                (n - k) as nat,
            ) {
                Some((rest, e)) => Some((out@ + rest, e)),
                None => None::<(Seq<ActionAccount>, int)>,
            }),
        decreases n - k,
    {
        let (a, next) = match read_account(bytes, cur) {
            Some(p) => p,
            None => {
                return None;
            },
        };
        proof {
            let rec = dec_accounts_n(bytes@, next as int, (n - k - 1) as nat);
            match rec {
                Some((rest, e)) => {
                    assert(out@ + (seq![a] + rest) =~= (out@ + seq![a]) + rest);
                    assert(out@.push(a) =~= out@ + seq![a]);
                },
                None => {},
            }
        }
        out.push(a);
        cur = next;
        k = k + 1;
    }
    proof {
        assert(dec_accounts_n(bytes@, cur as int, 0) == Some(
            (Seq::<ActionAccount>::empty(), cur as int),
        ));
        assert(out@ + Seq::<ActionAccount>::empty() =~= out@);
    }
    Some((out, cur))
}

fn read_action(bytes: &Vec<u8>, pos: usize) -> (r: Option<(Action, usize)>)
    ensures
        match r {
            Some((a, j)) => dec_action(bytes@, pos as int) == Some((a@, j as int)),
            None => dec_action(bytes@, pos as int) is None,
        },
{
    let (program_id, i) = match read_addr(bytes, pos) {
        Some(p) => p,
        None => {
            return None;
        },
    };
    let (accounts, j) = match read_accounts(bytes, i) {
        Some(p) => p,
        None => {
            return None;
        },
    };
    let (data, k) = match read_bytes(bytes, j) {
        Some(p) => p,
        None => {
            return None;
        },
    };
    Some((Action { program_id, accounts, data }, k))
}

#[verifier::loop_isolation(false)]
fn read_actions(bytes: &Vec<u8>, pos: usize) -> (r: Option<(Vec<Action>, usize)>)
    ensures
        match r {
            Some((xs, j)) => dec_actions(bytes@, pos as int) == Some(
                (xs@.map_values(|a: Action| a@), j as int),
            ),
            None => dec_actions(bytes@, pos as int) is None,
        },
{
    let (n, start) = match read_u32(bytes, pos) {
        Some(p) => p,
        None => {
            return None;
        },
    };
    let mut out: Vec<Action> = Vec::new();
    let mut k: u32 = 0;
    let mut cur: usize = start;
    while k < n
        invariant
            k <= n,
            dec_actions_n(bytes@, start as int, n as nat) == (match dec_actions_n(
                bytes@,
                cur as int,
                (n - k) as nat,
            ) {
                Some((rest, e)) => Some((out@.map_values(|a: Action| a@) + rest, e)),
                None => None::<(Seq<ActionV>, int)>,
            }),
        decreases n - k,
    {
        let (a, next) = match read_action(bytes, cur) {
            Some(p) => p,
            None => {
                return None;
            },
        };
        proof {
            let ov = out@.map_values(|x: Action| x@);
            let rec = dec_actions_n(bytes@, next as int, (n - k - 1) as nat);
            match rec {
                Some((rest, e)) => {
                    assert(ov + (seq![a@] + rest) =~= (ov + seq![a@]) + rest);
                    assert(out@.push(a).map_values(|x: Action| x@) =~= ov + seq![a@]);
                },
                None => {},
            }
        }
        out.push(a);
        cur = next;
        k = k + 1;
    }
    proof {
        assert(dec_actions_n(bytes@, cur as int, 0) == Some((Seq::<ActionV>::empty(), cur as int)));
        assert(out@.map_values(|x: Action| x@) + Seq::<ActionV>::empty() =~= out@.map_values(
            |x: Action| x@,
        ));
    }
    Some((out, cur))
}

/// Decodes a proposal record; gives nothing back unless the bytes carry
/// the proposal tag and are consumed exactly.
pub fn decode_proposal(bytes: &Vec<u8>) -> (r: Option<Proposal>)
    ensures
        match r {
            Some(p) => dec_proposal(bytes@) == Some(p@),
            None => dec_proposal(bytes@) is None,
        },
{
    if bytes.len() < 8 {
        return None;
    }
    if !(bytes[0] == 112 && bytes[1] == 114 && bytes[2] == 111 && bytes[3] == 112 && bytes[4]
        == 111 && bytes[5] == 115 && bytes[6] == 97 && bytes[7] == 108) {
        proof {
            assert(bytes@.subrange(0, 8) != proposal_tag());
        }
        return None;
    }
    proof {
        assert(bytes@.subrange(0, 8) =~= proposal_tag());
    }
    let (id, i) = match read_u64(bytes, 8) {
        Some(p) => p,
        None => {
            return None;
        },
    };
    let (actions, j) = match read_actions(bytes, i) {
        Some(p) => p,
        None => {
            return None;
        },
    };
    let (approvers, k) = match read_addrs(bytes, j) {
        Some(p) => p,
        None => {
            return None;
        },
    };
    let (executed, l) = match read_bool(bytes, k) {
        Some(p) => p,
        None => {
            return None;
        },
    };
    let (multisig, m) = match read_addr(bytes, l) {
        Some(p) => p,
        None => {
            return None;
        },
    };
    if m != bytes.len() {
        return None;
    }
    Some(Proposal { id, actions, approvers, executed, multisig })
}

/// The encoding of an instruction: an operation selector byte followed by
/// the operation's fixed-format arguments.
pub open spec fn enc_instruction(i: InstructionV) -> Seq<u8> {
    match i {
        InstructionV::Create { name, members, threshold } => seq![0u8] + enc_bytes(name)
            + enc_addrs(members) + enc_u64(threshold),
        InstructionV::AddMember { member } => seq![1u8] + member@,
        InstructionV::RemoveMember { member } => seq![2u8] + member@,
        InstructionV::Approve { try_execute } => seq![3u8] + enc_bool(try_execute),
        InstructionV::CreateProposal { id, actions } => seq![4u8] + enc_u64(id) + enc_actions(
            actions,
        ),
        InstructionV::ExecuteProposal {  } => seq![5u8],
        InstructionV::ChangeThreshold { threshold } => seq![6u8] + enc_u64(threshold),
    }
}

/// The machine limits the layout imposes on an instruction.
pub open spec fn instruction_encodable(i: InstructionV) -> bool {
    match i {
        InstructionV::Create { name, members, .. } => name.len() <= u32::MAX && members.len()
            <= u32::MAX,
        InstructionV::CreateProposal { actions, .. } => actions.len() <= u32::MAX && forall|k: int|
            0 <= k < actions.len() ==> action_encodable(#[trigger] actions[k]),
        _ => true,
    }
}

/// Decodes a whole instruction; the bytes must be consumed exactly.
pub open spec fn dec_instruction(s: Seq<u8>) -> Option<InstructionV> {
    if s.len() < 1 {
        None
    } else if s[0] == 0u8 {
        match dec_bytes(s, 1) {
            None => None,
            Some((name, i)) => match dec_addrs(s, i) {
                None => None,
                Some((members, j)) => match dec_u64(s, j) {
                    None => None,
                    Some((threshold, k)) => if k == s.len() {
                        Some(InstructionV::Create { name, members, threshold })
                    } else {
                        None
                    },
                },
            },
        }
    } else if s[0] == 1u8 {
        match dec_addr(s, 1) {
            None => None,
            Some((member, i)) => if i == s.len() {
                Some(InstructionV::AddMember { member })
            } else {
                None
            },
        }
    } else if s[0] == 2u8 {
        match dec_addr(s, 1) {
            None => None,
            Some((member, i)) => if i == s.len() {
                Some(InstructionV::RemoveMember { member })
            } else {
                None
            },
        }
    } else if s[0] == 3u8 {
        match dec_bool(s, 1) {
            None => None,
            Some((try_execute, i)) => if i == s.len() {
                Some(InstructionV::Approve { try_execute })
            } else {
                None
            },
        }
    } else if s[0] == 4u8 {
        match dec_u64(s, 1) {
            None => None,
            Some((id, i)) => match dec_actions(s, i) {
                None => None,
                Some((actions, j)) => if j == s.len() {
                    Some(InstructionV::CreateProposal { id, actions })
                } else {
                    None
                },
            },
        }
    } else if s[0] == 5u8 {
        if s.len() == 1 {
            Some(InstructionV::ExecuteProposal {  })
        } else {
            None
        }
    } else if s[0] == 6u8 {
        match dec_u64(s, 1) {
            None => None,
            Some((threshold, i)) => if i == s.len() {
                Some(InstructionV::ChangeThreshold { threshold })
            } else {
                None
            },
        }
    } else {
        None
    }
}

/// Decoding an instruction's encoding gives back the instruction.
pub proof fn lemma_dec_enc_instruction(ins: InstructionV)
    requires
        instruction_encodable(ins),
    ensures
        dec_instruction(enc_instruction(ins)) == Some(ins),
{
    lemma_auto_spec_u32_to_from_le_bytes();
    lemma_auto_spec_u64_to_from_le_bytes();
    let s = enc_instruction(ins);
    match ins {
        InstructionV::Create { name, members, threshold } => {
            assert(enc_u32(name.len() as u32).len() == 4);
            assert(enc_u32(members.len() as u32).len() == 4);
            lemma_cat_addrs_len(members);
            let name_end = 1 + 4 + name.len() as int;
            let members_end = name_end + 4 + 32 * members.len() as int;
            assert(s[0] == 0u8);
            assert(s.subrange(1, name_end) =~= enc_bytes(name));
            lemma_dec_bytes_at(s, 1, name);
            assert(s.subrange(name_end, name_end + 4) =~= enc_u32(members.len() as u32));
            lemma_dec_u32_at(s, name_end, members.len() as u32);
            assert(s.subrange(name_end + 4, members_end) =~= cat_addrs(members));
            lemma_dec_addrs_n_at(s, name_end + 4, members);
            assert(s.subrange(members_end, members_end + 8) =~= enc_u64(threshold));
            lemma_dec_u64_at(s, members_end, threshold);
            assert(members_end + 8 == s.len());
        },
        InstructionV::AddMember { member } => {
            assert(s[0] == 1u8);
            assert(s.subrange(1, 33) =~= member@);
            lemma_dec_addr_at(s, 1, member);
        },
        InstructionV::RemoveMember { member } => {
            assert(s[0] == 2u8);
            assert(s.subrange(1, 33) =~= member@);
            lemma_dec_addr_at(s, 1, member);
        },
        InstructionV::Approve { try_execute } => {
            assert(s[0] == 3u8);
            assert(s.subrange(1, 2) =~= enc_bool(try_execute));
            lemma_dec_bool_at(s, 1, try_execute);
        },
        InstructionV::CreateProposal { id, actions } => {
            assert(enc_u32(actions.len() as u32).len() == 4);
            lemma_cat_actions_len(actions);
            let actions_end = 13 + actions_size(actions) as int;
            assert(s[0] == 4u8);
            assert(s.subrange(1, 9) =~= enc_u64(id));
            lemma_dec_u64_at(s, 1, id);
            assert(s.subrange(9, 13) =~= enc_u32(actions.len() as u32));
            lemma_dec_u32_at(s, 9, actions.len() as u32);
            assert(s.subrange(13, actions_end) =~= cat_actions(actions));
            lemma_dec_actions_n_at(s, 13, actions);
            assert(actions_end == s.len());
        },
        InstructionV::ExecuteProposal {  } => {
            assert(s[0] == 5u8);
            assert(s.len() == 1);
        },
        InstructionV::ChangeThreshold { threshold } => {
            assert(s[0] == 6u8);
            assert(s.subrange(1, 9) =~= enc_u64(threshold));
            lemma_dec_u64_at(s, 1, threshold);
        },
    }
}

/// Whatever an instruction decodes from bounds its variable-length fields:
/// counts fit their 32-bit prefixes and the payload sizes are accounted
/// for, byte for byte, by the encoding the instruction was read from.
pub proof fn lemma_dec_instruction_bounds(s: Seq<u8>)
    ensures
        match dec_instruction(s) {
            Some(ins) => match ins {
                InstructionV::Create { name, members, threshold } => {
                    &&& name.len() <= u32::MAX
                    &&& members.len() <= u32::MAX
                    &&& 17 + name.len() + 32 * members.len() == s.len()
                },
                InstructionV::CreateProposal { id, actions } => {
                    &&& actions.len() <= u32::MAX
                    &&& forall|k: int|
                        0 <= k < actions.len() ==> action_encodable(#[trigger] actions[k])
                    &&& 13 + actions_size(actions) == s.len()
                },
                _ => true,
            },
            None => true,
        },
{
    if s.len() >= 1 && s[0] == 0u8 {
        match dec_bytes(s, 1) {
            None => {},
            Some((name, i)) => {
                match dec_u32(s, i) {
                    None => {},
                    Some((n, j)) => {
                        lemma_dec_addrs_n_len(s, j, n as nat);
                    },
                }
            },
        }
    }
    if s.len() >= 1 && s[0] == 4u8 {
        match dec_u64(s, 1) {
            None => {},
            Some((id, i)) => {
                match dec_u32(s, i) {
                    None => {},
                    Some((n, j)) => {
                        lemma_dec_actions_n_len(s, j, n as nat);
                    },
                }
            },
        }
    }
}

/// Encodes an instruction for the engine's outer entrypoint.
pub fn encode_instruction(ins: &Instruction) -> (r: Vec<u8>)
    requires
        instruction_encodable(ins@),
    ensures
        r@ == enc_instruction(ins@),
{
    let mut out: Vec<u8> = Vec::new();
    match ins {
        Instruction::Create { name, members, threshold } => {
            out.push(0);
            proof {
                assert(out@ =~= seq![0u8]);
            }
            push_bytes(&mut out, name);
            push_u32(&mut out, members.len() as u32);
            let ghost pre = out@;
            let mut i: usize = 0;
            proof {
                assert(members@.take(0) =~= Seq::<Address>::empty());
                assert(pre + cat_addrs(members@.take(0)) =~= pre);
            }
            while i < members.len()
                invariant
                    i <= members@.len(),
                    out@ == pre + cat_addrs(members@.take(i as int)),
                decreases members@.len() - i,
            {
                push_addr(&mut out, &members[i]);
                proof {
                    assert(members@.take(i + 1) =~= members@.take(i as int).push(
                        members@[i as int],
                    ));
                    lemma_cat_addrs_push(members@.take(i as int), members@[i as int]);
                    assert(out@ =~= pre + cat_addrs(members@.take(i + 1)));
                }
                i = i + 1;
            }
            proof {
                assert(members@.take(members@.len() as int) =~= members@);
            }
            push_u64(&mut out, *threshold);
            proof {
                assert(out@ =~= enc_instruction(ins@));
            }
        },
        Instruction::AddMember { member } => {
            out.push(1);
            push_addr(&mut out, member);
            proof {
                assert(out@ =~= enc_instruction(ins@));
            }
        },
        Instruction::RemoveMember { member } => {
            out.push(2);
            push_addr(&mut out, member);
            proof {
                assert(out@ =~= enc_instruction(ins@));
            }
        },
        Instruction::Approve { try_execute } => {
            out.push(3);
            push_bool(&mut out, *try_execute);
            proof {
                assert(out@ =~= enc_instruction(ins@));
            }
        },
        Instruction::CreateProposal { id, actions } => {
            let ghost av = actions@.map_values(|a: Action| a@);
            out.push(4);
            push_u64(&mut out, *id);
            push_u32(&mut out, actions.len() as u32);
            let ghost pre = out@;
            let mut i: usize = 0;
            proof {
                assert(av.take(0) =~= Seq::<ActionV>::empty());
                assert(pre + cat_actions(av.take(0)) =~= pre);
            }
            while i < actions.len()
                invariant
                    i <= actions@.len(),
                    av == actions@.map_values(|a: Action| a@),
                    forall|k: int| 0 <= k < av.len() ==> action_encodable(#[trigger] av[k]),
                    out@ == pre + cat_actions(av.take(i as int)),
                decreases actions@.len() - i,
            {
                proof {
                    assert(av[i as int] == actions@[i as int]@);
                }
                push_action(&mut out, &actions[i]);
                proof {
                    assert(av.take(i + 1) =~= av.take(i as int).push(av[i as int]));
                    lemma_cat_actions_push(av.take(i as int), av[i as int]);
                    assert(out@ =~= pre + cat_actions(av.take(i + 1)));
                }
                i = i + 1;
            }
            proof {
                assert(av.take(actions@.len() as int) =~= av);
                assert(out@ =~= enc_instruction(ins@));
            }
        },
        Instruction::ExecuteProposal {  } => {
            out.push(5);
            proof {
                assert(out@ =~= enc_instruction(ins@));
            }
        },
        Instruction::ChangeThreshold { threshold } => {
            out.push(6);
            push_u64(&mut out, *threshold);
            proof {
                assert(out@ =~= enc_instruction(ins@));
            }
        },
    }
    out
}

/// Decodes an instruction arriving at the engine's outer entrypoint; gives
/// nothing back unless the bytes are consumed exactly.
pub fn decode_instruction(bytes: &Vec<u8>) -> (r: Option<Instruction>)
    ensures
        match r {
            Some(ins) => dec_instruction(bytes@) == Some(ins@),
            None => dec_instruction(bytes@) is None,
        },
{
    if bytes.len() < 1 {
        return None;
    }
    let selector = bytes[0];
    if selector == 0 {
        let (name, i) = match read_bytes(bytes, 1) {
            Some(p) => p,
            None => {
                return None;
            },
        };
        let (members, j) = match read_addrs(bytes, i) {
            Some(p) => p,
            None => {
                return None;
            },
        };
        let (threshold, k) = match read_u64(bytes, j) {
            Some(p) => p,
            None => {
                return None;
            },
        };
        if k != bytes.len() {
            return None;
        }
        Some(Instruction::Create { name, members, threshold })
    } else if selector == 1 {
        let (member, i) = match read_addr(bytes, 1) {
            Some(p) => p,
            None => {
                return None;
            },
        };
        if i != bytes.len() {
            return None;
        }
        Some(Instruction::AddMember { member })
    } else if selector == 2 {
        let (member, i) = match read_addr(bytes, 1) {
            Some(p) => p,
            None => {
                return None;
            },
        };
        if i != bytes.len() {
            return None;
        }
        Some(Instruction::RemoveMember { member })
    } else if selector == 3 {
        let (try_execute, i) = match read_bool(bytes, 1) {
            Some(p) => p,
            None => {
                return None;
            },
        };
        if i != bytes.len() {
            return None;
        }
        Some(Instruction::Approve { try_execute })
    } else if selector == 4 {
        let (id, i) = match read_u64(bytes, 1) {
            Some(p) => p,
            None => {
                return None;
            },
        };
        let (actions, j) = match read_actions(bytes, i) {
            Some(p) => p,
            None => {
                return None;
            },
        };
        if j != bytes.len() {
            return None;
        }
        Some(Instruction::CreateProposal { id, actions })
    } else if selector == 5 {
        if bytes.len() != 1 {
            return None;
        }
        Some(Instruction::ExecuteProposal {  })
    } else if selector == 6 {
        let (threshold, i) = match read_u64(bytes, 1) {
            Some(p) => p,
            None => {
                return None;
            },
        };
        if i != bytes.len() {
            return None;
        }
        Some(Instruction::ChangeThreshold { threshold })
    } else {
        None
    }
}

} // verus!
