//! A bounded, versioned store of one connection's ratchets. Versions are
//! consecutive modulo 2^32; a new ratchet always takes the version after the
//! most recent, and the oldest leaves only by an explicit deregistration.
use crate::error::{CryptError, ToolsetError};
use crate::bytes::{le_bytes, lemma_le_bytes_injective, lemma_le_bytes_len, lemma_pow256_eight, pow256, read_le, write_le};
use crate::ratchet::StackedRatchet;
use vstd::prelude::*;

verus! {

/// Ratchets kept in memory before the toolset asks for synchronisation.
pub const MAX_HYPER_RATCHETS_IN_MEMORY: usize = 6;

/// The version `i` places after `v`, modulo 2^32.
pub open spec fn version_after(v: u32, i: int) -> u32 {
    ((v as int + i) % 0x1_0000_0000) as u32
}

/// The persisted forms of `rs`, one after another.
pub open spec fn concat_encodings(rs: Seq<StackedRatchet>) -> Seq<u8>
    decreases rs.len(),
{
    if rs.len() == 0 {
        Seq::empty()
    } else {
        concat_encodings(rs.drop_last()) + rs.last().encoding()
    }
}

/// Bytes that a toolset's persisted form takes before its ratchets.
pub const TOOLSET_PREFIX_LEN: usize = 20;

/// The persisted form of a toolset: connection id (8 bytes), oldest
/// version (4) and ratchet count (8), little-endian, then each ratchet's
/// persisted form, oldest first.
pub open spec fn toolset_encoding(cid: u64, oldest: u32, entries: Seq<StackedRatchet>) -> Seq<u8> {
    le_bytes(cid as nat, 8) + le_bytes(oldest as nat, 4) + le_bytes(entries.len(), 8) + concat_encodings(entries)
}

/// Entries that a toolset may hold: at least one, each well formed, with
/// versions running on from `oldest`.
pub open spec fn valid_entries(oldest: u32, entries: Seq<StackedRatchet>) -> bool {
    &&& entries.len() >= 1
    &&& forall|i: int|
        0 <= i < entries.len() ==> (#[trigger] entries[i]).wf() && entries[i].spec_version() == version_after(oldest, i)
}

/// Two ratchets hold the same identity, version, algorithms and keys.
pub open spec fn same_ratchet(a: StackedRatchet, b: StackedRatchet) -> bool {
    &&& a.spec_cid() == b.spec_cid()
    &&& a.spec_version() == b.spec_version()
    &&& a.spec_params() == b.spec_params()
    &&& a.keys() == b.keys()
}

proof fn lemma_concat_encodings_step(rs: Seq<StackedRatchet>, i: int)
    requires
        0 <= i < rs.len(),
    ensures
        concat_encodings(rs.take(i + 1)) == concat_encodings(rs.take(i)) + rs[i].encoding(),
{
    assert(rs.take(i + 1).drop_last() =~= rs.take(i));
}

proof fn lemma_concat_encodings_prefix(rs: Seq<StackedRatchet>, i: int)
    requires
        0 <= i <= rs.len(),
    ensures
        concat_encodings(rs.take(i)).len() <= concat_encodings(rs).len(),
        concat_encodings(rs).take(concat_encodings(rs.take(i)).len() as int) == concat_encodings(rs.take(i)),
    decreases rs.len() - i,
{
    if i == rs.len() {
        assert(rs.take(i) =~= rs);
        assert(concat_encodings(rs).take(concat_encodings(rs).len() as int) =~= concat_encodings(rs));
    } else {
        lemma_concat_encodings_prefix(rs, i + 1);
        lemma_concat_encodings_step(rs, i);
        let a = concat_encodings(rs.take(i));
        let b = concat_encodings(rs.take(i + 1));
        assert(concat_encodings(rs).take(a.len() as int) =~= b.take(a.len() as int));
        assert(b.take(a.len() as int) =~= a);
    }
}

proof fn lemma_concat_encodings_len(rs: Seq<StackedRatchet>)
    ensures
        concat_encodings(rs).len() >= rs.len(),
    decreases rs.len(),
{
    if rs.len() > 0 {
        lemma_concat_encodings_len(rs.drop_last());
        let r = rs.last();
        lemma_le_bytes_len(r.spec_cid() as nat, 8);
    }
}

/// Outcome of inserting a ratchet.
#[derive(Clone, Copy, Debug, PartialEq, Eq, Structural)]
pub enum UpdateStatus {
    /// Inserted; the toolset is within its bound.
    Committed { new_version: u32 },
    /// Inserted; the toolset is over its bound, and `old_version` should be
    /// deregistered once the peer confirms it no longer needs it.
    CommittedNeedsSynchronization { new_version: u32, old_version: u32 },
}

/// The ratchets of one connection, oldest first.
pub struct Toolset {
    cid: u64,
    map: Vec<StackedRatchet>,
    oldest_hyper_ratchet_version: u32,
    most_recent_hyper_ratchet_version: u32,
}

impl Toolset {
    pub closed spec fn spec_cid(&self) -> u64 {
        self.cid
    }

    /// The held ratchets, oldest first.
    pub closed spec fn entries(&self) -> Seq<StackedRatchet> {
        self.map@
    }

    pub closed spec fn oldest(&self) -> u32 {
        self.oldest_hyper_ratchet_version
    }

    pub closed spec fn most_recent(&self) -> u32 {
        self.most_recent_hyper_ratchet_version
    }

    /// Never empty; the entries' versions run from the oldest to the most
    /// recent, each one after the last modulo 2^32.
    pub closed spec fn wf(&self) -> bool {
        &&& self.map@.len() >= 1
        &&& forall|i: int|
            0 <= i < self.map@.len() ==> (#[trigger] self.map@[i]).spec_version() == version_after(
                self.oldest_hyper_ratchet_version,
                i,
            ) && self.map@[i].wf()
        &&& self.most_recent_hyper_ratchet_version == version_after(
            self.oldest_hyper_ratchet_version,
            self.map@.len() - 1,
        )
    }

    /// The window of versions of a toolset: its most recent version lies
    /// `len() - 1` places after its oldest, modulo 2^32, and the entries hold
    /// each version between, in order.
    pub proof fn lemma_version_window(&self)
        requires
            self.wf(),
        ensures
            self.entries().len() >= 1,
            self.most_recent() == version_after(self.oldest(), self.entries().len() - 1),
            self.entries()[0].spec_version() == self.oldest(),
            self.entries().last().spec_version() == self.most_recent(),
            forall|i: int|
                0 <= i < self.entries().len() ==> (#[trigger] self.entries()[i]).spec_version() == version_after(
                    self.oldest(),
                    i,
                ),
    {
        assert(self.map@[0].spec_version() == version_after(self.oldest_hyper_ratchet_version, 0));
        assert(self.map@[self.map@.len() - 1].spec_version() == version_after(
            self.oldest_hyper_ratchet_version,
            self.map@.len() - 1,
        ));
    }

    /// A toolset holding one ratchet.
    pub fn new(cid: u64, ratchet: StackedRatchet) -> (r: Toolset)
        requires
            ratchet.wf(),
        ensures
            r.wf(),
            r.spec_cid() == cid,
            r.entries() == seq![ratchet],
            r.oldest() == ratchet.spec_version(),
            r.most_recent() == ratchet.spec_version(),
    {
        let v = ratchet.version();
        let mut map: Vec<StackedRatchet> = Vec::new();
        map.push(ratchet);
        let r = Toolset { cid, map, oldest_hyper_ratchet_version: v, most_recent_hyper_ratchet_version: v };
        assert(r.map@ =~= seq![ratchet]);
        r
    }

    /// Inserts a ratchet whose version follows the most recent one. Past
    /// the in-memory bound the insertion still happens and reports that the
    /// oldest entry awaits deregistration; nothing is evicted here.
    pub fn update_from(&mut self, new_hyper_ratchet: StackedRatchet) -> (r: Result<UpdateStatus, CryptError>)
        requires
            old(self).wf(),
            new_hyper_ratchet.wf(),
        ensures
            final(self).wf(),
            final(self).spec_cid() == old(self).spec_cid(),
            new_hyper_ratchet.spec_cid() != old(self).spec_cid() ==> r == Err::<UpdateStatus, CryptError>(
                CryptError::Toolset(ToolsetError::WrongConnection),
            ),
            new_hyper_ratchet.spec_cid() == old(self).spec_cid() && new_hyper_ratchet.spec_version() != version_after(
                old(self).most_recent(),
                1,
            ) ==> r == Err::<UpdateStatus, CryptError>(CryptError::Toolset(ToolsetError::VersionNotNext)),
            new_hyper_ratchet.spec_cid() == old(self).spec_cid() && new_hyper_ratchet.spec_version() == version_after(
                old(self).most_recent(),
                1,
            ) ==> r is Ok,
            r is Err ==> *final(self) == *old(self),
            r is Ok ==> new_hyper_ratchet.spec_cid() == old(self).spec_cid() && new_hyper_ratchet.spec_version()
                == version_after(old(self).most_recent(), 1),
            r is Ok ==> final(self).entries() == old(self).entries().push(new_hyper_ratchet),
            r is Ok ==> final(self).oldest() == old(self).oldest(),
            r is Ok ==> final(self).most_recent() == new_hyper_ratchet.spec_version(),
            r is Ok && final(self).entries().len() <= MAX_HYPER_RATCHETS_IN_MEMORY ==> r->Ok_0
                == (UpdateStatus::Committed { new_version: new_hyper_ratchet.spec_version() }),
            r is Ok && final(self).entries().len() > MAX_HYPER_RATCHETS_IN_MEMORY ==> r->Ok_0
                == (UpdateStatus::CommittedNeedsSynchronization {
                    new_version: new_hyper_ratchet.spec_version(),
                    old_version: old(self).oldest(),
                }),
    {
        if new_hyper_ratchet.get_cid() != self.cid {
            return Err(CryptError::Toolset(ToolsetError::WrongConnection));
        }
        let cur_version = new_hyper_ratchet.version();
        if cur_version != self.most_recent_hyper_ratchet_version.wrapping_add(1) {
            return Err(CryptError::Toolset(ToolsetError::VersionNotNext));
        }
        let ghost old_len = self.map@.len();
        let ghost o = self.oldest_hyper_ratchet_version;
        self.map.push(new_hyper_ratchet);
        self.most_recent_hyper_ratchet_version = cur_version;
        proof {
            assert(version_after(version_after(o, old_len - 1), 1) == version_after(o, old_len as int));
            assert forall|i: int| 0 <= i < self.map@.len() implies (#[trigger] self.map@[i]).spec_version()
                == version_after(o, i) && self.map@[i].wf() by {
                if i < old_len {
                    assert(self.map@[i] == old(self).map@[i]);
                }
            }
        }
        if self.map.len() > MAX_HYPER_RATCHETS_IN_MEMORY {
            Ok(UpdateStatus::CommittedNeedsSynchronization {
                new_version: cur_version,
                old_version: self.oldest_hyper_ratchet_version,
            })
        } else {
            Ok(UpdateStatus::Committed { new_version: cur_version })
        }
    }

    /// Removes the oldest ratchet, provided its version is
    /// `expected_oldest_version` and the toolset holds more than its bound.
    /// The oldest version then advances by one. On error nothing changes.
    pub fn deregister_oldest_hyper_ratchet(&mut self, expected_oldest_version: u32) -> (r: Result<(), CryptError>)
        requires
            old(self).wf(),
        ensures
            final(self).wf(),
            final(self).spec_cid() == old(self).spec_cid(),
            expected_oldest_version != old(self).oldest() ==> r == Err::<(), CryptError>(
                CryptError::Toolset(ToolsetError::OldestMismatch),
            ),
            expected_oldest_version == old(self).oldest() && old(self).entries().len() <= MAX_HYPER_RATCHETS_IN_MEMORY
                ==> r == Err::<(), CryptError>(CryptError::Toolset(ToolsetError::AtCapacityFloor)),
            expected_oldest_version == old(self).oldest() && old(self).entries().len() > MAX_HYPER_RATCHETS_IN_MEMORY
                ==> r is Ok,
            r is Err ==> *final(self) == *old(self),
            r is Ok ==> final(self).entries() == old(self).entries().drop_first(),
            r is Ok ==> final(self).oldest() == version_after(old(self).oldest(), 1),
            r is Ok ==> final(self).most_recent() == old(self).most_recent(),
    {
        if expected_oldest_version != self.oldest_hyper_ratchet_version {
            return Err(CryptError::Toolset(ToolsetError::OldestMismatch));
        }
        if self.map.len() <= MAX_HYPER_RATCHETS_IN_MEMORY {
            return Err(CryptError::Toolset(ToolsetError::AtCapacityFloor));
        }
        let ghost o = self.oldest_hyper_ratchet_version;
        let ghost old_map = self.map@;
        let _removed = self.map.remove(0);
        self.oldest_hyper_ratchet_version = self.oldest_hyper_ratchet_version.wrapping_add(1);
        proof {
            assert(self.map@ =~= old_map.drop_first());
            assert forall|i: int| 0 <= i < self.map@.len() implies (#[trigger] self.map@[i]).spec_version()
                == version_after(version_after(o, 1), i) && self.map@[i].wf() by {
                assert(self.map@[i] == old_map[i + 1]);
                assert(version_after(version_after(o, 1), i) == version_after(o, i + 1));
            }
            assert(version_after(version_after(o, 1), self.map@.len() - 1) == version_after(o, old_map.len() - 1));
        }
        Ok(())
    }

    /// Where `version` would stand among the entries.
    pub open spec fn index_of(&self, version: u32) -> int {
        ((version as int - self.oldest() as int) + 0x1_0000_0000) % 0x1_0000_0000
    }

    /// A ratchet of `version` is held.
    pub open spec fn holds(&self, version: u32) -> bool {
        self.index_of(version) < self.entries().len()
    }

    /// The ratchet held for `version`.
    pub open spec fn ratchet_of(&self, version: u32) -> StackedRatchet {
        self.entries()[self.index_of(version)]
    }

    /// The ratchet of `version`; a not-found error where none is held.
    pub fn get_hyper_ratchet(&self, version: u32) -> (r: Result<&StackedRatchet, CryptError>)
        requires
            self.wf(),
        ensures
            r is Ok <==> exists|i: int| 0 <= i < self.entries().len() && (#[trigger] self.entries()[i]).spec_version() == version,
            r is Ok ==> r->Ok_0.spec_version() == version && r->Ok_0.wf(),
            r is Ok ==> self.entries().contains(*r->Ok_0),
            r is Ok <==> self.holds(version),
            r is Ok ==> *r->Ok_0 == self.ratchet_of(version),
            r is Err ==> r->Err_0 == CryptError::Toolset(ToolsetError::NotFound),
    {
        let idx = version.wrapping_sub(self.oldest_hyper_ratchet_version) as usize;
        if idx < self.map.len() {
            let r = &self.map[idx];
            proof {
                assert(version_after(self.oldest_hyper_ratchet_version, idx as int) == version);
                assert(self.entries()[idx as int] == *r);
            }
            Ok(r)
        } else {
            proof {
                assert forall|i: int| 0 <= i < self.entries().len() implies (#[trigger] self.entries()[i]).spec_version()
                    != version by {
                    assert(self.map@[i].spec_version() == version_after(self.oldest_hyper_ratchet_version, i));
                }
            }
            Err(CryptError::Toolset(ToolsetError::NotFound))
        }
    }

    /// The oldest held ratchet.
    pub fn get_oldest_hyper_ratchet(&self) -> (r: Option<&StackedRatchet>)
        requires
            self.wf(),
        ensures
            r is Some,
            *r->Some_0 == self.entries()[0],
            r->Some_0.spec_version() == self.oldest(),
    {
        proof {
            self.lemma_version_window();
        }
        Some(&self.map[0])
    }

    /// The most recent ratchet.
    pub fn get_most_recent_hyper_ratchet(&self) -> (r: Option<&StackedRatchet>)
        requires
            self.wf(),
        ensures
            r is Some,
            *r->Some_0 == self.entries().last(),
            r->Some_0.spec_version() == self.most_recent(),
    {
        proof {
            self.lemma_version_window();
        }
        Some(&self.map[self.map.len() - 1])
    }

    /// The toolset's persisted form.
    pub open spec fn encoding(&self) -> Seq<u8> {
        toolset_encoding(self.spec_cid(), self.oldest(), self.entries())
    }

    /// A well-formed toolset's persisted form is read back by
    /// `deserialize`: its entries are valid and the form is complete, so
    /// the result holds the same identity, versions and key material.
    pub proof fn lemma_persisted_form_reads_back(&self)
        requires
            self.wf(),
        ensures
            valid_entries(self.oldest(), self.entries()),
            self.encoding().take(self.encoding().len() as int) == self.encoding(),
    {
        assert(self.encoding().take(self.encoding().len() as int) =~= self.encoding());
    }

    /// The toolset's persisted form.
    pub fn serialize(&self) -> (r: Vec<u8>)
        requires
            self.wf(),
        ensures
            r@ == self.encoding(),
    {
        let mut out: Vec<u8> = Vec::new();
        write_le(&mut out, self.cid, 8);
        write_le(&mut out, self.oldest_hyper_ratchet_version as u64, 4);
        write_le(&mut out, self.map.len() as u64, 8);
        let ghost head = out@;
        let mut i: usize = 0;
        while i < self.map.len()
            invariant
                self.wf(),
                i <= self.map@.len(),
                out@ == head + concat_encodings(self.map@.take(i as int)),
            decreases self.map@.len() - i,
        {
            assert(self.map@[i as int].wf());
            self.map[i].serialize_into(&mut out);
            proof {
                lemma_concat_encodings_step(self.map@, i as int);
                assert(out@ =~= head + concat_encodings(self.map@.take(i + 1)));
            }
            i += 1;
        }
        proof {
            assert(self.map@.take(self.map@.len() as int) =~= self.map@);
            assert(out@ =~= self.encoding());
        }
        out
    }

    /// Reads a toolset back from its persisted form; bytes after it are
    /// ignored. Fails on a truncated or corrupt form, and where the
    /// ratchets' versions do not run on from the oldest.
    pub fn deserialize(bytes: &[u8]) -> (r: Result<Toolset, CryptError>)
        ensures
            r is Ok ==> r->Ok_0.wf(),
            r is Ok ==> r->Ok_0.encoding().len() <= bytes@.len() && bytes@.take(r->Ok_0.encoding().len() as int)
                == r->Ok_0.encoding(),
            r is Err ==> r->Err_0 == CryptError::Serialization,
            forall|cid: u64, oldest: u32, entries: Seq<StackedRatchet>|
                valid_entries(oldest, entries) && toolset_encoding(cid, oldest, entries).len() <= bytes@.len()
                    && bytes@.take(toolset_encoding(cid, oldest, entries).len() as int) == #[trigger] toolset_encoding(
                    cid,
                    oldest,
                    entries,
                ) ==> {
                    &&& r is Ok
                    &&& r->Ok_0.spec_cid() == cid
                    &&& r->Ok_0.oldest() == oldest
                    &&& r->Ok_0.entries().len() == entries.len()
                    &&& forall|i: int|
                        0 <= i < entries.len() ==> same_ratchet(#[trigger] r->Ok_0.entries()[i], entries[i])
                },
    {
        let len = bytes.len();
        if len < TOOLSET_PREFIX_LEN {
            proof {
                assert forall|cid: u64, oldest: u32, entries: Seq<StackedRatchet>|
                    valid_entries(oldest, entries) && toolset_encoding(cid, oldest, entries).len() <= bytes@.len()
                        && bytes@.take(toolset_encoding(cid, oldest, entries).len() as int)
                        == #[trigger] toolset_encoding(cid, oldest, entries) implies false by {
                    lemma_le_bytes_len(cid as nat, 8);
                    lemma_le_bytes_len(oldest as nat, 4);
                    lemma_le_bytes_len(entries.len(), 8);
                }
            }
            return Err(CryptError::Serialization);
        }
        let cid = read_le(bytes, 0, 8);
        let oldest64 = read_le(bytes, 8, 4);
        let count = read_le(bytes, 12, 8);
        assert(pow256(4) == 0x1_0000_0000) by {
            reveal_with_fuel(pow256, 5);
        }
        let oldest = oldest64 as u32;
        proof {
            assert forall|cid2: u64, oldest2: u32, entries: Seq<StackedRatchet>|
                valid_entries(oldest2, entries) && toolset_encoding(cid2, oldest2, entries).len() <= bytes@.len()
                    && bytes@.take(toolset_encoding(cid2, oldest2, entries).len() as int) == #[trigger] toolset_encoding(
                    cid2,
                    oldest2,
                    entries,
                ) implies cid2 == cid && oldest2 == oldest && count == entries.len() && bytes@.subrange(
                TOOLSET_PREFIX_LEN as int,
                TOOLSET_PREFIX_LEN + concat_encodings(entries).len(),
            ) == concat_encodings(entries) by {
                lemma_encoding_fields(bytes@, cid2, oldest2, entries);
                lemma_pow256_eight();
                lemma_le_bytes_injective(cid as nat, cid2 as nat, 8);
                lemma_le_bytes_injective(oldest64 as nat, oldest2 as nat, 4);
                lemma_le_bytes_injective(count as nat, entries.len(), 8);
            }
        }
        if count == 0 {
            return Err(CryptError::Serialization);
        }
        let mut map: Vec<StackedRatchet> = Vec::new();
        let mut pos: usize = TOOLSET_PREFIX_LEN;
        let mut expected: u32 = oldest;
        let mut i: u64 = 0;
        while i < count
            invariant
                len == bytes@.len(),
                TOOLSET_PREFIX_LEN <= pos <= len,
                i <= count,
                map@.len() == i,
                expected == version_after(oldest, i as int),
                forall|j: int|
                    0 <= j < i ==> (#[trigger] map@[j]).wf() && map@[j].spec_version() == version_after(oldest, j),
                bytes@.subrange(TOOLSET_PREFIX_LEN as int, pos as int) == concat_encodings(map@),
                forall|cid2: u64, oldest2: u32, entries: Seq<StackedRatchet>|
                    valid_entries(oldest2, entries) && toolset_encoding(cid2, oldest2, entries).len() <= bytes@.len()
                        && bytes@.take(toolset_encoding(cid2, oldest2, entries).len() as int)
                        == #[trigger] toolset_encoding(cid2, oldest2, entries) ==> {
                        &&& cid2 == cid && oldest2 == oldest && count == entries.len()
                        &&& bytes@.subrange(TOOLSET_PREFIX_LEN as int, TOOLSET_PREFIX_LEN + concat_encodings(entries).len())
                            == concat_encodings(entries)
                        &&& forall|j: int| 0 <= j < i ==> same_ratchet(#[trigger] map@[j], entries[j])
                        &&& concat_encodings(map@) == concat_encodings(entries.take(i as int))
                    },
            decreases count - i,
        {
            let ghost before = map@;
            let (ratchet, end) = match StackedRatchet::deserialize_at(bytes, pos) {
                Ok(x) => x,
                Err(e) => {
                    proof {
                        assert forall|cid2: u64, oldest2: u32, entries: Seq<StackedRatchet>|
                            valid_entries(oldest2, entries) && toolset_encoding(cid2, oldest2, entries).len()
                                <= bytes@.len() && bytes@.take(toolset_encoding(cid2, oldest2, entries).len() as int)
                                == #[trigger] toolset_encoding(cid2, oldest2, entries) implies false by {
                            lemma_encoding_fields(bytes@, cid2, oldest2, entries);
                            lemma_entry_at(bytes@, pos as int, entries, map@, i as int);
                            entries[i as int].lemma_wf_has_bank();
                        }
                    }
                    return Err(e);
                },
            };
            if ratchet.version() != expected {
                proof {
                    assert forall|cid2: u64, oldest2: u32, entries: Seq<StackedRatchet>|
                        valid_entries(oldest2, entries) && toolset_encoding(cid2, oldest2, entries).len()
                            <= bytes@.len() && bytes@.take(toolset_encoding(cid2, oldest2, entries).len() as int)
                            == #[trigger] toolset_encoding(cid2, oldest2, entries) implies false by {
                        lemma_encoding_fields(bytes@, cid2, oldest2, entries);
                        lemma_entry_at(bytes@, pos as int, entries, map@, i as int);
                        entries[i as int].lemma_wf_has_bank();
                        assert(entries[i as int].spec_version() == version_after(oldest, i as int));
                    }
                }
                return Err(CryptError::Serialization);
            }
            map.push(ratchet);
            proof {
                assert(map@.drop_last() =~= before);
                assert(bytes@.subrange(TOOLSET_PREFIX_LEN as int, end as int) =~= bytes@.subrange(
                    TOOLSET_PREFIX_LEN as int,
                    pos as int,
                ) + bytes@.subrange(pos as int, end as int));
                assert forall|cid2: u64, oldest2: u32, entries: Seq<StackedRatchet>|
                    valid_entries(oldest2, entries) && toolset_encoding(cid2, oldest2, entries).len() <= bytes@.len()
                        && bytes@.take(toolset_encoding(cid2, oldest2, entries).len() as int)
                        == #[trigger] toolset_encoding(cid2, oldest2, entries) implies {
                    &&& forall|j: int| 0 <= j < i + 1 ==> same_ratchet(#[trigger] map@[j], entries[j])
                    &&& concat_encodings(map@) == concat_encodings(entries.take(i + 1))
                } by {
                    lemma_encoding_fields(bytes@, cid2, oldest2, entries);
                    lemma_entry_at(bytes@, pos as int, entries, before, i as int);
                    entries[i as int].lemma_wf_has_bank();
                    lemma_concat_encodings_step(entries, i as int);
                    assert forall|j: int| 0 <= j < i + 1 implies same_ratchet(#[trigger] map@[j], entries[j]) by {
                        if j < i {
                            assert(map@[j] == before[j]);
                        }
                    }
                }
            }
            pos = end;
            expected = expected.wrapping_add(1);
            i = i + 1;
        }
        let t = Toolset {
            cid,
            map,
            oldest_hyper_ratchet_version: oldest,
            most_recent_hyper_ratchet_version: expected.wrapping_sub(1),
        };
        proof {
            assert(version_after(version_after(oldest, count as int), -1) == version_after(oldest, count - 1));
            assert(t.wf());
            lemma_le_bytes_len(cid as nat, 8);
            lemma_le_bytes_len(oldest as nat, 4);
            lemma_le_bytes_len(count as nat, 8);
            assert(bytes@.take(pos as int) =~= bytes@.subrange(0, 8) + bytes@.subrange(8, 12) + bytes@.subrange(12, 20)
                + bytes@.subrange(20, pos as int));
            assert((oldest as nat) == oldest64 as nat);
            assert(bytes@.take(pos as int) =~= t.encoding());
        }
        Ok(t)
    }

    pub fn get_oldest_hyper_ratchet_version(&self) -> (r: u32)
        ensures
            r == self.oldest(),
    {
        self.oldest_hyper_ratchet_version
    }

    pub fn get_most_recent_hyper_ratchet_version(&self) -> (r: u32)
        ensures
            r == self.most_recent(),
    {
        self.most_recent_hyper_ratchet_version
    }

    pub fn len(&self) -> (r: usize)
        ensures
            r == self.entries().len(),
    {
        self.map.len()
    }

    pub fn get_cid(&self) -> (r: u64)
        ensures
            r == self.spec_cid(),
    {
        self.cid
    }
}

proof fn lemma_encoding_fields(bytes: Seq<u8>, cid: u64, oldest: u32, entries: Seq<StackedRatchet>)
    requires
        bytes.len() <= usize::MAX,
        toolset_encoding(cid, oldest, entries).len() <= bytes.len(),
        bytes.take(toolset_encoding(cid, oldest, entries).len() as int) == toolset_encoding(cid, oldest, entries),
    ensures
        bytes.subrange(0, 8) == le_bytes(cid as nat, 8),
        bytes.subrange(8, 12) == le_bytes(oldest as nat, 4),
        bytes.subrange(12, 20) == le_bytes(entries.len(), 8),
        bytes.subrange(20, 20 + concat_encodings(entries).len() as int) == concat_encodings(entries),
        toolset_encoding(cid, oldest, entries).len() == 20 + concat_encodings(entries).len(),
        (entries.len() as int) < pow256(8),
{
    lemma_le_bytes_len(cid as nat, 8);
    lemma_le_bytes_len(oldest as nat, 4);
    lemma_le_bytes_len(entries.len(), 8);
    let e = toolset_encoding(cid, oldest, entries);
    assert(bytes.subrange(0, 8) =~= e.subrange(0, 8));
    assert(e.subrange(0, 8) =~= le_bytes(cid as nat, 8));
    assert(bytes.subrange(8, 12) =~= e.subrange(8, 12));
    assert(e.subrange(8, 12) =~= le_bytes(oldest as nat, 4));
    assert(bytes.subrange(12, 20) =~= e.subrange(12, 20));
    assert(e.subrange(12, 20) =~= le_bytes(entries.len(), 8));
    assert(bytes.subrange(20, 20 + concat_encodings(entries).len() as int) =~= e.subrange(20, e.len() as int));
    assert(e.subrange(20, e.len() as int) =~= concat_encodings(entries));
    lemma_concat_encodings_len(entries);
    lemma_pow256_eight();
}

/// Where the first `i` entries were read back as `decoded`, ending at `pos`,
/// entry `i`'s persisted form starts at `pos`.
proof fn lemma_entry_at(bytes: Seq<u8>, pos: int, entries: Seq<StackedRatchet>, decoded: Seq<StackedRatchet>, i: int)
    requires
        0 <= i < entries.len(),
        bytes.subrange(20, 20 + concat_encodings(entries).len() as int) == concat_encodings(entries),
        20 + concat_encodings(entries).len() <= bytes.len(),
        bytes.subrange(20, pos) == concat_encodings(decoded),
        20 <= pos <= bytes.len(),
        concat_encodings(decoded) == concat_encodings(entries.take(i)),
    ensures
        pos + entries[i].encoding().len() <= bytes.len(),
        bytes.subrange(pos, pos + entries[i].encoding().len()) == entries[i].encoding(),
{
    lemma_concat_encodings_step(entries, i);
    lemma_concat_encodings_prefix(entries, i + 1);
    let c = concat_encodings(entries);
    let a = concat_encodings(entries.take(i));
    let b = concat_encodings(entries.take(i + 1));
    assert(pos == 20 + a.len());
    assert(bytes.subrange(pos, pos + entries[i].encoding().len()) =~= c.subrange(a.len() as int, b.len() as int));
    assert(c.subrange(a.len() as int, b.len() as int) =~= b.subrange(a.len() as int, b.len() as int));
    assert(b.subrange(a.len() as int, b.len() as int) =~= entries[i].encoding());
}

} // verus!
