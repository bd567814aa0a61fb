//! Persistent, size-exact byte records addressed by deterministically derived
//! addresses. Records live in an arena keyed by address; creation and resizing
//! are explicit, auditable operations that fund the record's minimum
//! storage-cost reserve from a payer record.

use vstd::prelude::*;

verus! {

/// A 32-byte record address.
pub type Address = [u8; 32];

/// Errors of the record store.
#[derive(Clone, Copy, Debug, PartialEq, Eq, Structural)]
pub enum StorageError {
    /// The record's address does not match its expected derived address, or
    /// the record is not controlled by this subsystem.
    InvalidRecord,
    /// A create targeted an address that is already allocated.
    AlreadyExists,
    /// A storage-cost top-up could not be funded.
    InsufficientFunds,
}

/// The address and disambiguating bump of the record that a seed tuple
/// resolves to under a given program identity, or nothing when no viable
/// bump exists or a seed is over-long. The derivation is a pure function of
/// the program identity and the seeds.
pub uninterp spec fn derived(program_id: Seq<u8>, seeds: Seq<Seq<u8>>) -> Option<(Seq<u8>, u8)>;

/// Relies on solana_program's Pubkey::try_find_program_address: the derived
/// address and bump seed are a function of the seed tuple and the program
/// identity alone, and `None` comes only when no viable bump exists or a
/// seed violates the derivation's length limits.
#[verifier::external_body]
pub(crate) fn derive_address(program_id: &Address, seeds: &Vec<Vec<u8>>) -> (r: Option<(Address, u8)>)
    ensures
        (match r {
            Some(p) => Some((p.0@, p.1)),
            None => None,
        }) == derived(program_id@, seeds.deep_view()),
{
    let pid = solana_program::pubkey::Pubkey::new_from_array(*program_id);
    let seed_slices: Vec<&[u8]> = seeds.iter().map(|s| s.as_slice()).collect();
    solana_program::pubkey::Pubkey::try_find_program_address(&seed_slices, &pid)
        .map(|(key, bump)| (key.to_bytes(), bump))
}

/// The minimum storage-cost reserve owed by a record of the given size.
pub uninterp spec fn reserve_of(size: usize) -> u64;

/// Relies on solana_program's Rent::minimum_balance with the default rent
/// parameters: the minimum reserve is a function of the data size alone.
#[verifier::external_body]
pub(crate) fn min_reserve(size: usize) -> (r: u64)
    ensures
        r == reserve_of(size),
{
    solana_program::rent::Rent::default().minimum_balance(size)
}

/// One persistent record: its address, the subsystem controlling it (`None`
/// for unallocated, system-held storage), its funding balance, and its bytes.
pub struct Record {
    pub address: Address,
    pub owner: Option<Address>,
    pub lamports: u64,
    pub data: Vec<u8>,
}

/// The mathematical image of a record: everything but its address.
pub ghost struct RecordV {
    pub owner: Option<Address>,
    pub lamports: u64,
    pub data: Seq<u8>,
}

impl View for Record {
    type V = RecordV;

    open spec fn view(&self) -> RecordV {
        RecordV { owner: self.owner, lamports: self.lamports, data: self.data@ }
    }
}

/// The image of a record that was never touched: unallocated and empty.
pub open spec fn blank_record() -> RecordV {
    RecordV { owner: None, lamports: 0, data: Seq::empty() }
}

/// The arena of records, keyed by address, together with the program
/// identity whose derived addresses it serves.
pub struct RecordStore {
    pub program_id: Address,
    pub records: Vec<Record>,
}

/// The mathematical image of the arena: a map from address to record image.
pub ghost struct StoreV {
    pub program_id: Address,
    pub recs: Map<Address, RecordV>,
}

/// The map image of a sequence of records; later entries shadow earlier
/// ones, which the store's well-formedness rules out.
pub open spec fn recs_of(s: Seq<Record>) -> Map<Address, RecordV>
    decreases s.len(),
{
    if s.len() == 0 {
        Map::empty()
    } else {
        recs_of(s.drop_last()).insert(s.last().address, s.last()@)
    }
}

impl View for RecordStore {
    type V = StoreV;

    open spec fn view(&self) -> StoreV {
        StoreV { program_id: self.program_id, recs: recs_of(self.records@) }
    }
}

/// The image of the record at an address; an address never touched reads as
/// a blank record.
pub open spec fn rec_at(s: StoreV, a: Address) -> RecordV {
    if s.recs.contains_key(a) {
        s.recs[a]
    } else {
        blank_record()
    }
}

/// The store after the record at one address is replaced.
pub open spec fn store_upd(s: StoreV, a: Address, r: RecordV) -> StoreV {
    StoreV { program_id: s.program_id, recs: s.recs.insert(a, r) }
}

/// Two stores hold the same records at every address.
pub open spec fn store_eq(s1: StoreV, s2: StoreV) -> bool {
    s1.program_id == s2.program_id && forall|a: Address| rec_at(s1, a) == rec_at(s2, a)
}

proof fn lemma_recs_of_contains(s: Seq<Record>, a: Address)
    ensures
        recs_of(s).contains_key(a) <==> exists|i: int| 0 <= i < s.len() && s[i].address == a,
    decreases s.len(),
{
    if s.len() > 0 {
        lemma_recs_of_contains(s.drop_last(), a);
        if s.last().address == a {
            assert(s[s.len() - 1].address == a);
        } else if recs_of(s).contains_key(a) {
            let i = choose|i: int| 0 <= i < s.drop_last().len() && s.drop_last()[i].address == a;
            assert(s[i].address == a);
        } else if exists|i: int| 0 <= i < s.len() && s[i].address == a {
            let i = choose|i: int| 0 <= i < s.len() && s[i].address == a;
            assert(s.drop_last()[i].address == a);
        }
    }
}

proof fn lemma_recs_of_index(s: Seq<Record>, i: int)
    requires
        0 <= i < s.len(),
        forall|j: int, k: int| 0 <= j < k < s.len() ==> s[j].address != s[k].address,
    ensures
        recs_of(s).contains_key(s[i].address),
        recs_of(s)[s[i].address] == s[i]@,
    decreases s.len(),
{
    lemma_recs_of_contains(s, s[i].address);
    if i < s.len() - 1 {
        assert(s.drop_last()[i] == s[i]);
        lemma_recs_of_index(s.drop_last(), i);
        assert(s.last().address != s[i].address);
    }
}

proof fn lemma_recs_of_update(s: Seq<Record>, i: int, r: Record)
    requires
        0 <= i < s.len(),
        r.address == s[i].address,
        forall|j: int, k: int| 0 <= j < k < s.len() ==> s[j].address != s[k].address,
    ensures
        recs_of(s.update(i, r)) =~= recs_of(s).insert(r.address, r@),
    decreases s.len(),
{
    let su = s.update(i, r);
    assert(su.len() == s.len());
    assert forall|a: Address| #[trigger] recs_of(su).contains_key(a)
        <==> recs_of(s).insert(r.address, r@).contains_key(a) by {
        lemma_recs_of_contains(su, a);
        lemma_recs_of_contains(s, a);
        if recs_of(su).contains_key(a) {
            let j = choose|j: int| 0 <= j < su.len() && su[j].address == a;
            assert(s[j].address == a || a == r.address);
        }
        if recs_of(s).insert(r.address, r@).contains_key(a) {
            if a == r.address {
                assert(su[i].address == a);
            } else {
                let j = choose|j: int| 0 <= j < s.len() && s[j].address == a;
                assert(su[j].address == a);
            }
        }
    }
    assert forall|a: Address| recs_of(su).contains_key(a) implies #[trigger] recs_of(su)[a]
        == recs_of(s).insert(r.address, r@)[a] by {
        assert(forall|j: int, k: int| 0 <= j < k < su.len() ==> su[j].address != su[k].address);
        lemma_recs_of_contains(su, a);
        let j = choose|j: int| 0 <= j < su.len() && su[j].address == a;
        lemma_recs_of_index(su, j);
        if a == r.address {
            assert(su[j].address == su[i].address);
            assert(j == i);
            assert(su[j]@ == r@);
        } else {
            assert(j != i);
            assert(s[j] == su[j]);
            lemma_recs_of_index(s, j);
        }
    }
}

proof fn lemma_recs_of_push(s: Seq<Record>, r: Record)
    ensures
        recs_of(s.push(r)) == recs_of(s).insert(r.address, r@),
{
    assert(s.push(r).drop_last() =~= s);
    assert(s.push(r).last() == r);
}

impl RecordStore {
    /// Unique addresses: each address names at most one arena slot.
    pub open spec fn wf(&self) -> bool {
        forall|j: int, k: int|
            0 <= j < k < self.records@.len() ==> self.records@[j].address != self.records@[k].address
    }

    /// An empty arena serving one program identity.
    pub fn new(program_id: Address) -> (r: RecordStore)
        ensures
            r.wf(),
            r@.program_id == program_id,
            forall|a: Address| rec_at(r@, a) == blank_record(),
    {
        let r = RecordStore { program_id, records: Vec::new() };
        proof {
            assert forall|a: Address| rec_at(r@, a) == blank_record() by {
                lemma_recs_of_contains(r.records@, a);
            }
        }
        r
    }

    fn find_index(&self, addr: &Address) -> (r: Option<usize>)
        requires
            self.wf(),
        ensures
            match r {
                Some(i) => i < self.records@.len() && self.records@[i as int].address@ == addr@,
                None => forall|i: int|
                    0 <= i < self.records@.len() ==> self.records@[i].address@ != addr@,
            },
    {
        let mut i: usize = 0;
        while i < self.records.len()
            invariant
                i <= self.records@.len(),
                forall|k: int| 0 <= k < i ==> self.records@[k].address@ != addr@,
            decreases self.records@.len() - i,
        {
            if addr_eq(&self.records[i].address, addr) {
                return Some(i);
            }
            i = i + 1;
        }
        None
    }

    /// The record image at an address, as exec data: controlling subsystem,
    /// funding balance, and a copy of the bytes.
    pub fn read_record(&self, addr: &Address) -> (r: (Option<Address>, u64, Vec<u8>))
        requires
            self.wf(),
        ensures
            r.0 == rec_at(self@, *addr).owner,
            r.1 == rec_at(self@, *addr).lamports,
            r.2@ == rec_at(self@, *addr).data,
    {
        match self.find_index(addr) {
            Some(i) => {
                proof {
                    lemma_recs_of_index(self.records@, i as int);
                    lemma_addr_view_inj(self.records@[i as int].address, *addr);
                }
                let rec = &self.records[i];
                (rec.owner, rec.lamports, rec.data.clone())
            },
            None => {
                proof {
                    lemma_recs_of_contains(self.records@, *addr);
                    assert forall|i: int| 0 <= i < self.records@.len()
                        implies self.records@[i].address != *addr by {
                        lemma_addr_view_inj(self.records@[i].address, *addr);
                    }
                }
                (None, 0, Vec::new())
            },
        }
    }

    /// Index of the record at an address, adding a blank slot when the
    /// address was never touched. The store's image is unchanged up to
    /// blank records.
    fn ensure_index(&mut self, addr: &Address) -> (r: usize)
        requires
            old(self).wf(),
        ensures
            final(self).wf(),
            r < final(self).records@.len(),
            final(self).records@[r as int].address == *addr,
            final(self).records@[r as int]@ == rec_at(old(self)@, *addr),
            store_eq(final(self)@, old(self)@),
            final(self)@.recs.contains_key(*addr),
            old(self).records@.len() <= final(self).records@.len(),
            forall|i: int| 0 <= i < old(self).records@.len()
                ==> final(self).records@[i] == old(self).records@[i],
    {
        match self.find_index(addr) {
            Some(i) => {
                proof {
                    lemma_addr_view_inj(self.records@[i as int].address, *addr);
                    lemma_recs_of_index(self.records@, i as int);
                    assert forall|a: Address| rec_at(self@, a) == rec_at(self@, a) by {}
                }
                i
            },
            None => {
                proof {
                    lemma_recs_of_contains(self.records@, *addr);
                    assert forall|i: int| 0 <= i < self.records@.len()
                        implies self.records@[i].address != *addr by {
                        lemma_addr_view_inj(self.records@[i].address, *addr);
                    }
                }
                let i = self.records.len();
                let blank = Record { address: *addr, owner: None, lamports: 0, data: Vec::new() };
                proof {
                    lemma_recs_of_push(self.records@, blank);
                }
                self.records.push(blank);
                proof {
                    assert(self.records@[i as int]@ =~= blank_record());
                    assert(rec_at(old(self)@, *addr) == blank_record());
                    assert forall|a: Address| rec_at(self@, a) == rec_at(old(self)@, a) by {
                        if a != *addr {
                            assert(self@.recs == recs_of(old(self).records@).insert(*addr, blank@));
                        } else {
                            assert(blank@ =~= blank_record());
                        }
                    }
                }
                i
            },
        }
    }
}

/// A sequence of `n` zero bytes, the contents of freshly allocated storage.
pub open spec fn zeros(n: nat) -> Seq<u8> {
    Seq::new(n, |i: int| 0u8)
}

/// `post` is `pre` with exactly the record at `a` replaced by `r`.
pub open spec fn store_is_upd(pre: StoreV, post: StoreV, a: Address, r: RecordV) -> bool {
    &&& post.program_id == pre.program_id
    &&& rec_at(post, a) == r
    &&& forall|x: Address| x != a ==> rec_at(post, x) == rec_at(pre, x)
}

/// `post` is `pre` with exactly the records at `a1` and `a2` replaced.
pub open spec fn store_is_upd2(
    pre: StoreV,
    post: StoreV,
    a1: Address,
    r1: RecordV,
    a2: Address,
    r2: RecordV,
) -> bool {
    &&& post.program_id == pre.program_id
    &&& a1 != a2
    &&& rec_at(post, a1) == r1
    &&& rec_at(post, a2) == r2
    &&& forall|x: Address| x != a1 && x != a2 ==> rec_at(post, x) == rec_at(pre, x)
}

impl RecordStore {
    /// Replaces the arena slot `i` with `rec`, which must keep its address.
    fn put(&mut self, i: usize, rec: Record) -> (r: ())
        requires
            old(self).wf(),
            i < old(self).records@.len(),
            rec.address == old(self).records@[i as int].address,
        ensures
            final(self).wf(),
            store_is_upd(old(self)@, final(self)@, rec.address, rec@),
            final(self).records@ == old(self).records@.update(i as int, rec),
    {
        proof {
            lemma_recs_of_update(self.records@, i as int, rec);
            lemma_recs_of_contains(self.records@, rec.address);
        }
        let ghost pre = self@;
        self.records.set(i, rec);
        proof {
            assert(self@.recs == pre.recs.insert(rec.address, rec@));
            assert(rec_at(self@, rec.address) == rec@);
            assert forall|x: Address| x != rec.address
                implies rec_at(self@, x) == rec_at(pre, x) by {}
        }
    }

    /// Restores a record to a captured pre-image: the host-side rollback
    /// primitive for environments that must unwind a failed invocation
    /// themselves.
    pub fn put_record(
        &mut self,
        addr: &Address,
        owner: Option<Address>,
        lamports: u64,
        data: Vec<u8>,
    ) -> (r: ())
        requires
            old(self).wf(),
        ensures
            final(self).wf(),
            store_is_upd(
                old(self)@,
                final(self)@,
                *addr,
                RecordV { owner, lamports, data: data@ },
            ),
    {
        let i = self.ensure_index(addr);
        let ghost dv = data@;
        let rec = Record { address: *addr, owner, lamports, data };
        proof {
            assert(rec@ =~= RecordV { owner, lamports, data: dv });
        }
        self.put(i, rec);
    }

    /// Endows a record with extra funding out of thin air; the arena
    /// counterpart of an external deposit into the system.
    pub fn credit(&mut self, addr: &Address, amount: u64) -> (r: Result<(), StorageError>)
        requires
            old(self).wf(),
        ensures
            final(self).wf(),
            final(self)@.program_id == old(self)@.program_id,
            match r {
                Ok(()) => {
                    &&& rec_at(old(self)@, *addr).lamports + amount <= u64::MAX
                    &&& store_is_upd(
                        old(self)@,
                        final(self)@,
                        *addr,
                        RecordV {
                            lamports: (rec_at(old(self)@, *addr).lamports + amount) as u64,
                            ..rec_at(old(self)@, *addr)
                        },
                    )
                },
                Err(e) => {
                    &&& e == StorageError::InsufficientFunds
                    &&& rec_at(old(self)@, *addr).lamports + amount > u64::MAX
                    &&& store_eq(final(self)@, old(self)@)
                },
            },
    {
        let i = self.ensure_index(addr);
        let cur = self.records[i].lamports;
        if cur > u64::MAX - amount {
            return Err(StorageError::InsufficientFunds);
        }
        let rec = Record {
            address: self.records[i].address,
            owner: self.records[i].owner,
            lamports: cur + amount,
            data: self.records[i].data.clone(),
        };
        proof {
            assert(rec@ =~= RecordV { lamports: rec.lamports, ..rec_at(old(self)@, *addr) });
        }
        self.put(i, rec);
        Ok(())
    }

    /// Moves funding from one record to another. A record may be named as
    /// its own payer: the move is then checked against its balance but
    /// leaves it unchanged, so a self-funded top-up never adds funds.
    pub fn transfer(&mut self, from: &Address, to: &Address, amount: u64) -> (r: Result<
        (),
        StorageError,
    >)
        requires
            old(self).wf(),
        ensures
            final(self).wf(),
            final(self)@.program_id == old(self)@.program_id,
            match r {
                Ok(()) => {
                    &&& rec_at(old(self)@, *from).lamports >= amount
                    &&& if *from == *to {
                        store_eq(final(self)@, old(self)@)
                    } else {
                        &&& rec_at(old(self)@, *to).lamports + amount <= u64::MAX
                        &&& store_is_upd2(
                            old(self)@,
                            final(self)@,
                            *from,
                            RecordV {
                                lamports: (rec_at(old(self)@, *from).lamports - amount) as u64,
                                ..rec_at(old(self)@, *from)
                            },
                            *to,
                            RecordV {
                                lamports: (rec_at(old(self)@, *to).lamports + amount) as u64,
                                ..rec_at(old(self)@, *to)
                            },
                        )
                    }
                },
                Err(e) => {
                    &&& e == StorageError::InsufficientFunds
                    &&& store_eq(final(self)@, old(self)@)
                    &&& (rec_at(old(self)@, *from).lamports < amount || (*from != *to && rec_at(
                        old(self)@,
                        *to,
                    ).lamports + amount > u64::MAX))
                },
            },
    {
        proof {
            lemma_addr_view_inj(*from, *to);
        }
        let fi = self.ensure_index(from);
        let from_lamports = self.records[fi].lamports;
        if from_lamports < amount {
            return Err(StorageError::InsufficientFunds);
        }
        if addr_eq(from, to) {
            return Ok(());
        }
        let ghost pre = self@;
        let ti = self.ensure_index(to);
        let to_lamports = self.records[ti].lamports;
        if to_lamports > u64::MAX - amount {
            return Err(StorageError::InsufficientFunds);
        }
        let from_rec = Record {
            address: self.records[fi].address,
            owner: self.records[fi].owner,
            lamports: from_lamports - amount,
            data: self.records[fi].data.clone(),
        };
        proof {
            assert(from_rec@ =~= RecordV {
                lamports: from_rec.lamports,
                ..rec_at(old(self)@, *from)
            });
        }
        self.put(fi, from_rec);
        let to_rec = Record {
            address: self.records[ti].address,
            owner: self.records[ti].owner,
            lamports: to_lamports + amount,
            data: self.records[ti].data.clone(),
        };
        proof {
            assert(to_rec@ =~= RecordV { lamports: to_rec.lamports, ..rec_at(old(self)@, *to) });
        }
        self.put(ti, to_rec);
        Ok(())
    }

    /// Verifies that a record is held by this subsystem at the address its
    /// seed tuple derives to: the record-ownership check that every
    /// operation performs before reading state.
    pub fn check_pda(&self, seeds: &Vec<Vec<u8>>, pda: &Address) -> (r: Result<(), StorageError>)
        requires
            self.wf(),
        ensures
            match r {
                Ok(()) => {
                    &&& derived(self@.program_id@, seeds.deep_view()) matches Some(p) && p.0
                        == pda@
                    &&& rec_at(self@, *pda).owner == Some(self@.program_id)
                },
                Err(e) => {
                    &&& e == StorageError::InvalidRecord
                    &&& !({
                        &&& derived(self@.program_id@, seeds.deep_view()) matches Some(p) && p.0
                            == pda@
                        &&& rec_at(self@, *pda).owner == Some(self@.program_id)
                    })
                },
            },
    {
        let derived_key = derive_address(&self.program_id, seeds);
        match derived_key {
            Some((key, _bump)) => {
                if !addr_eq(&key, pda) {
                    return Err(StorageError::InvalidRecord);
                }
                let (owner, _, _) = self.read_record(pda);
                match owner {
                    Some(o) => {
                        if addr_eq(&o, &self.program_id) {
                            proof {
                                lemma_addr_view_inj(o, self.program_id);
                                lemma_addr_view_inj(key, *pda);
                            }
                            Ok(())
                        } else {
                            proof {
                                lemma_addr_view_inj(o, self.program_id);
                            }
                            Err(StorageError::InvalidRecord)
                        }
                    },
                    None => Err(StorageError::InvalidRecord),
                }
            },
            None => Err(StorageError::InvalidRecord),
        }
    }
}

/// A record's data after a resize to `n` bytes: contents are preserved up to
/// the smaller of the two sizes, and growth is zero-filled.
pub open spec fn resized(d: Seq<u8>, n: nat) -> Seq<u8> {
    if d.len() >= n {
        d.take(n as int)
    } else {
        d + zeros((n - d.len()) as nat)
    }
}

/// The funding balance a record ends up with after its reserve for `need`
/// was reconciled: an already-funded record and a self-paying record keep
/// their balance, any other is topped up to exactly the reserve.
pub open spec fn funded(pre: u64, self_pay: bool, need: u64) -> u64 {
    if pre >= need || self_pay {
        pre
    } else {
        need
    }
}

/// The reserve top-up for `need` succeeds: the record is already funded, or
/// its payer can cover the missing part (a self-paying record must cover it
/// out of the balance it already has, so the check can still fail).
pub open spec fn fundable(pre: StoreV, pda: Address, payer: Address, need: u64) -> bool {
    ||| rec_at(pre, pda).lamports >= need
    ||| rec_at(pre, payer).lamports >= need - rec_at(pre, pda).lamports
}

impl RecordStore {
    /// Allocates the record that `seeds` derives to: exactly `size` zeroed
    /// bytes, funded to the minimum reserve from `payer`, held by this
    /// subsystem. Unallocated placeholder storage at the address is topped
    /// up and claimed rather than rejected; storage already allocated is.
    pub fn create_pda(&mut self, payer: &Address, seeds: &Vec<Vec<u8>>, size: usize) -> (r: Result<
        (Address, u8),
        StorageError,
    >)
        requires
            old(self).wf(),
        ensures
            final(self).wf(),
            final(self)@.program_id == old(self)@.program_id,
            match r {
                Ok((addr, bump)) => {
                    let pre = rec_at(old(self)@, addr);
                    let need = reserve_of(size);
                    let self_pay = addr == *payer;
                    let newrec = RecordV {
                        owner: Some(old(self)@.program_id),
                        lamports: funded(pre.lamports, self_pay, need),
                        data: zeros(size as nat),
                    };
                    &&& derived(old(self)@.program_id@, seeds.deep_view()) == Some((addr@, bump))
                    &&& pre.owner is None
                    &&& fundable(old(self)@, addr, *payer, need)
                    &&& if pre.lamports >= need || self_pay {
                        store_is_upd(old(self)@, final(self)@, addr, newrec)
                    } else {
                        store_is_upd2(
                            old(self)@,
                            final(self)@,
                            *payer,
                            RecordV {
                                lamports: (rec_at(old(self)@, *payer).lamports - (need
                                    - pre.lamports)) as u64,
                                ..rec_at(old(self)@, *payer)
                            },
                            addr,
                            newrec,
                        )
                    }
                },
                Err(e) => {
                    &&& store_eq(final(self)@, old(self)@)
                    &&& match e {
                        StorageError::InvalidRecord => derived(
                            old(self)@.program_id@,
                            seeds.deep_view(),
                        ) is None,
                        StorageError::AlreadyExists => {
                            &&& derived(old(self)@.program_id@, seeds.deep_view()) matches Some(p)
                                && rec_at(old(self)@, addr_of(p.0)).owner is Some
                        },
                        StorageError::InsufficientFunds => {
                            &&& derived(old(self)@.program_id@, seeds.deep_view()) matches Some(p)
                                && rec_at(old(self)@, addr_of(p.0)).owner is None && !fundable(
                                old(self)@,
                                addr_of(p.0),
                                *payer,
                                reserve_of(size),
                            )
                        },
                    }
                },
            },
    {
        let derived_key = derive_address(&self.program_id, seeds);
        let (addr, bump) = match derived_key {
            Some(p) => p,
            None => {
                return Err(StorageError::InvalidRecord);
            },
        };
        proof {
            lemma_addr_of_view(addr);
        }
        let (owner, lamports, _) = self.read_record(&addr);
        if owner.is_some() {
            return Err(StorageError::AlreadyExists);
        }
        let need = min_reserve(size);
        let ghost pre = self@;
        if lamports < need {
            proof {
                lemma_addr_view_inj(*payer, addr);
            }
            match self.transfer(payer, &addr, need - lamports) {
                Ok(()) => {},
                Err(e) => {
                    return Err(e);
                },
            }
        }
        let i = self.ensure_index(&addr);
        let mut data: Vec<u8> = Vec::new();
        data.resize(size, 0u8);
        proof {
            assert(data@ =~= zeros(size as nat));
        }
        let rec = Record {
            address: addr,
            owner: Some(self.program_id),
            lamports: self.records[i].lamports,
            data,
        };
        self.put(i, rec);
        proof {
            assert(rec@ =~= RecordV {
                owner: Some(old(self)@.program_id),
                lamports: funded(
                    rec_at(old(self)@, addr).lamports,
                    addr == *payer,
                    reserve_of(size),
                ),
                data: zeros(size as nat),
            });
        }
        Ok((addr, bump))
    }

    /// Changes a record's backing allocation to exactly `new_size` bytes,
    /// preserving contents up to the smaller size, after topping up the
    /// reserve for the new size from `payer`. Shrinking never returns the
    /// funding surplus.
    pub fn resize_pda(&mut self, pda: &Address, new_size: usize, payer: &Address) -> (r: Result<
        (),
        StorageError,
    >)
        requires
            old(self).wf(),
        ensures
            final(self).wf(),
            final(self)@.program_id == old(self)@.program_id,
            match r {
                Ok(()) => {
                    let pre = rec_at(old(self)@, *pda);
                    let need = reserve_of(new_size);
                    let self_pay = *pda == *payer;
                    let newrec = RecordV {
                        owner: Some(old(self)@.program_id),
                        lamports: funded(pre.lamports, self_pay, need),
                        data: resized(pre.data, new_size as nat),
                    };
                    &&& pre.owner == Some(old(self)@.program_id)
                    &&& fundable(old(self)@, *pda, *payer, need)
                    &&& if pre.lamports >= need || self_pay {
                        store_is_upd(old(self)@, final(self)@, *pda, newrec)
                    } else {
                        store_is_upd2(
                            old(self)@,
                            final(self)@,
                            *payer,
                            RecordV {
                                lamports: (rec_at(old(self)@, *payer).lamports - (need
                                    - pre.lamports)) as u64,
                                ..rec_at(old(self)@, *payer)
                            },
                            *pda,
                            newrec,
                        )
                    }
                },
                Err(e) => {
                    &&& store_eq(final(self)@, old(self)@)
                    &&& match e {
                        StorageError::InvalidRecord => rec_at(old(self)@, *pda).owner != Some(
                            old(self)@.program_id,
                        ),
                        StorageError::InsufficientFunds => {
                            &&& rec_at(old(self)@, *pda).owner == Some(old(self)@.program_id)
                            &&& !fundable(old(self)@, *pda, *payer, reserve_of(new_size))
                        },
                        StorageError::AlreadyExists => false,
                    }
                },
            },
    {
        let (owner, lamports, _) = self.read_record(pda);
        let owned = match owner {
            Some(o) => addr_eq(&o, &self.program_id),
            None => false,
        };
        if !owned {
            return Err(StorageError::InvalidRecord);
        }
        proof {
            lemma_addr_view_inj(owner.unwrap(), self.program_id);
        }
        let need = min_reserve(new_size);
        if lamports < need {
            proof {
                lemma_addr_view_inj(*payer, *pda);
            }
            match self.transfer(payer, pda, need - lamports) {
                Ok(()) => {},
                Err(e) => {
                    return Err(e);
                },
            }
        }
        let i = self.ensure_index(pda);
        let mut data = self.records[i].data.clone();
        if data.len() >= new_size {
            data.truncate(new_size);
        } else {
            data.resize(new_size, 0u8);
        }
        proof {
            assert(data@ =~= resized(rec_at(old(self)@, *pda).data, new_size as nat));
        }
        let rec = Record {
            address: *pda,
            owner: Some(self.program_id),
            lamports: self.records[i].lamports,
            data,
        };
        self.put(i, rec);
        proof {
            assert(rec@ =~= RecordV {
                owner: Some(old(self)@.program_id),
                lamports: funded(
                    rec_at(old(self)@, *pda).lamports,
                    *pda == *payer,
                    reserve_of(new_size),
                ),
                data: resized(rec_at(old(self)@, *pda).data, new_size as nat),
            });
        }
        Ok(())
    }

    /// Overwrites the whole contents of a record held by this subsystem.
    /// The backing size must already equal the written length: writers
    /// resize first, then write.
    pub fn write_pda(&mut self, pda: &Address, bytes: &Vec<u8>) -> (r: Result<(), StorageError>)
        requires
            old(self).wf(),
        ensures
            final(self).wf(),
            final(self)@.program_id == old(self)@.program_id,
            match r {
                Ok(()) => {
                    &&& rec_at(old(self)@, *pda).owner == Some(old(self)@.program_id)
                    &&& rec_at(old(self)@, *pda).data.len() == bytes@.len()
                    &&& store_is_upd(
                        old(self)@,
                        final(self)@,
                        *pda,
                        RecordV { data: bytes@, ..rec_at(old(self)@, *pda) },
                    )
                },
                Err(e) => {
                    &&& e == StorageError::InvalidRecord
                    &&& store_eq(final(self)@, old(self)@)
                    &&& !(rec_at(old(self)@, *pda).owner == Some(old(self)@.program_id) && rec_at(
                        old(self)@,
                        *pda,
                    ).data.len() == bytes@.len())
                },
            },
    {
        let (owner, _, _) = self.read_record(pda);
        let owned = match owner {
            Some(o) => addr_eq(&o, &self.program_id),
            None => false,
        };
        if !owned {
            return Err(StorageError::InvalidRecord);
        }
        proof {
            lemma_addr_view_inj(owner.unwrap(), self.program_id);
        }
        let i = self.ensure_index(pda);
        if self.records[i].data.len() != bytes.len() {
            return Err(StorageError::InvalidRecord);
        }
        let mut data = self.records[i].data.clone();
        write_to_pda(&mut data, bytes);
        proof {
            assert(data@ =~= bytes@);
        }
        let rec = Record {
            address: *pda,
            owner: Some(self.program_id),
            lamports: self.records[i].lamports,
            data,
        };
        self.put(i, rec);
        proof {
            assert(rec@ =~= RecordV { data: bytes@, ..rec_at(old(self)@, *pda) });
        }
        Ok(())
    }
}

/// The unique address whose byte view is `s`; meaningful when such an
/// address exists, in particular for any 32-byte view of an address.
pub open spec fn addr_of(s: Seq<u8>) -> Address {
    choose|a: Address| a@ == s
}

/// Every address is the address of its own view.
pub proof fn lemma_addr_of_view(a: Address)
    ensures
        addr_of(a@) == a,
{
    assert(exists|x: Address| x@ == a@) by {
        assert(a@ == a@);
    }
    let x = choose|x: Address| x@ == a@;
    lemma_addr_view_inj(x, a);
}

/// Two addresses are equal exactly when their byte views are.
pub proof fn lemma_addr_view_inj(a: Address, b: Address)
    ensures
        (a@ == b@) <==> (a == b),
{
    if a@ == b@ {
        assert(forall|i: int| 0 <= i < 32 ==> a[i] == b[i]);
        assert(a =~= b);
    }
}


/// Compares two addresses byte for byte.
pub fn addr_eq(a: &Address, b: &Address) -> (r: bool)
    ensures
        r == (a@ == b@),
{
    let mut i: usize = 0;
    while i < 32
        invariant
            i <= 32,
            forall|k: int| 0 <= k < i ==> a@[k] == b@[k],
        decreases 32 - i,
    {
        if a[i] != b[i] {
            return false;
        }
        i = i + 1;
    }
    proof {
        assert(a@ =~= b@);
    }
    true
}

/// Overwrites the leading `data.len()` bytes of a record's storage.
/// The backing size must already hold the written length: size is always
/// reconciled by a resize before a write, never after.
pub fn write_to_pda(pda_data: &mut Vec<u8>, data: &Vec<u8>)
    requires
        data@.len() <= old(pda_data)@.len(),
    ensures
        final(pda_data)@ == data@ + old(pda_data)@.skip(data@.len() as int),
{
    let mut i: usize = 0;
    while i < data.len()
        invariant
            i <= data@.len(),
            data@.len() <= pda_data@.len(),
            pda_data@.len() == old(pda_data)@.len(),
            forall|k: int| 0 <= k < i ==> pda_data@[k] == data@[k],
            forall|k: int| i <= k < pda_data@.len() ==> pda_data@[k] == old(pda_data)@[k],
        decreases data@.len() - i,
    {
        let b = data[i];
        pda_data.set(i, b);
        i = i + 1;
    }
    proof {
        assert(pda_data@ =~= data@ + old(pda_data)@.skip(data@.len() as int));
    }
}

} // verus!
