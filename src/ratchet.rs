//! The ratchet: an immutable, versioned bundle of entropy banks. An operation
//! at a security level cascades the payload through the first `level + 1`
//! banks, each layer an AEAD seal with its own nonce appended; every layer
//! authenticates the caller's associated data bound to the ratchet's
//! connection id and version.
use crate::bytes::{le_bytes, lemma_le_bytes_injective, lemma_le_bytes_len, lemma_pow256_eight, pow256, read_le, write_le};
use crate::error::CryptError;
use crate::provider::{aead_open, aead_seal, random_nonce, sealed, KEY_LEN, MAX_SEAL_LEN, NONCE_LEN};
use crate::security_level::SecurityLevel;
use vstd::prelude::*;
use vstd::slice::{slice_subrange, slice_to_vec};

verus! {

/// Bytes that one cascade layer adds: the tag and the nonce.
pub const LAYER_OVERHEAD: usize = 40;

/// Key-encapsulation algorithms on offer.
#[derive(Clone, Copy, Debug, PartialEq, Eq, Structural)]
pub enum KemAlgorithm {
    Kyber,
}

/// Symmetric AEAD algorithms on offer.
#[derive(Clone, Copy, Debug, PartialEq, Eq, Structural)]
pub enum EncryptionAlgorithm {
    Xchacha20Poly1305,
}

/// Signature algorithms on offer.
#[derive(Clone, Copy, Debug, PartialEq, Eq, Structural)]
pub enum SigAlgorithm {
    Unsigned,
}

/// The algorithms that both sides of a handshake agree on.
#[derive(Clone, Copy, Debug, PartialEq, Eq, Structural)]
pub struct CryptoParameters {
    pub kem_algorithm: KemAlgorithm,
    pub encryption_algorithm: EncryptionAlgorithm,
    pub sig_algorithm: SigAlgorithm,
}

impl CryptoParameters {
    pub fn new(
        kem_algorithm: KemAlgorithm,
        encryption_algorithm: EncryptionAlgorithm,
        sig_algorithm: SigAlgorithm,
    ) -> (r: CryptoParameters)
        ensures
            r.kem_algorithm == kem_algorithm,
            r.encryption_algorithm == encryption_algorithm,
            r.sig_algorithm == sig_algorithm,
    {
        CryptoParameters { kem_algorithm, encryption_algorithm, sig_algorithm }
    }

    pub open spec fn default_params_spec() -> CryptoParameters {
        CryptoParameters {
            kem_algorithm: KemAlgorithm::Kyber,
            encryption_algorithm: EncryptionAlgorithm::Xchacha20Poly1305,
            sig_algorithm: SigAlgorithm::Unsigned,
        }
    }

    /// The parameters used where none are given.
    pub fn default_params() -> (r: CryptoParameters)
        ensures
            r.kem_algorithm == KemAlgorithm::Kyber,
            r.encryption_algorithm == EncryptionAlgorithm::Xchacha20Poly1305,
            r.sig_algorithm == SigAlgorithm::Unsigned,
            r == Self::default_params_spec(),
    {
        CryptoParameters {
            kem_algorithm: KemAlgorithm::Kyber,
            encryption_algorithm: EncryptionAlgorithm::Xchacha20Poly1305,
            sig_algorithm: SigAlgorithm::Unsigned,
        }
    }
}

/// Number of banks that an operation at `level` cascades through.
pub open spec fn level_banks(level: Option<SecurityLevel>) -> nat {
    SecurityLevel::spec_or_default(level).bank_count()
}

/// `nonces` holds a nonce of the right length for each of the first `n` layers.
pub open spec fn nonces_fit(nonces: Seq<Seq<u8>>, n: nat) -> bool {
    &&& nonces.len() >= n
    &&& forall|j: int| 0 <= j < n ==> (#[trigger] nonces[j]).len() == NONCE_LEN
}

/// The cascade of `pt` through the banks `keys`, the first innermost: each
/// layer seals the previous one with associated data `ad` and the layer's
/// nonce, and appends that nonce.
pub open spec fn seal_layers(keys: Seq<Seq<u8>>, nonces: Seq<Seq<u8>>, ad: Seq<u8>, pt: Seq<u8>) -> Seq<u8>
    decreases keys.len(),
{
    if keys.len() == 0 {
        pt
    } else {
        let i = keys.len() - 1;
        sealed(keys[i], nonces[i], ad, seal_layers(keys.drop_last(), nonces, ad, pt)) + nonces[i]
    }
}

/// `ct` is the cascade of `pt` through `keys` for some choice of nonces.
pub open spec fn protected_as(keys: Seq<Seq<u8>>, ad: Seq<u8>, pt: Seq<u8>, ct: Seq<u8>) -> bool {
    exists|nonces: Seq<Seq<u8>>| nonces_fit(nonces, keys.len()) && ct == #[trigger] seal_layers(keys, nonces, ad, pt)
}

/// `ct` opens to `pt` when its layers are peeled from the outermost bank
/// inwards, each layer's nonce read from its last bytes.
pub open spec fn opens_to(keys: Seq<Seq<u8>>, ad: Seq<u8>, ct: Seq<u8>, pt: Seq<u8>) -> bool
    decreases keys.len(),
{
    if keys.len() == 0 {
        ct == pt
    } else {
        &&& ct.len() >= NONCE_LEN
        &&& exists|inner: Seq<u8>|
            ct.subrange(0, ct.len() - NONCE_LEN) == #[trigger] sealed(
                keys.last(),
                ct.subrange(ct.len() - NONCE_LEN, ct.len() as int),
                ad,
                inner,
            ) && opens_to(keys.drop_last(), ad, inner, pt)
    }
}

/// Every cascade opens back to the payload it was made from.
pub proof fn lemma_sealed_layers_open(keys: Seq<Seq<u8>>, nonces: Seq<Seq<u8>>, ad: Seq<u8>, pt: Seq<u8>)
    requires
        nonces_fit(nonces, keys.len()),
    ensures
        opens_to(keys, ad, seal_layers(keys, nonces, ad, pt), pt),
    decreases keys.len(),
{
    if keys.len() > 0 {
        let i = keys.len() - 1;
        let inner = seal_layers(keys.drop_last(), nonces, ad, pt);
        let ct = seal_layers(keys, nonces, ad, pt);
        let s = sealed(keys[i], nonces[i], ad, inner);
        assert(nonces[i].len() == NONCE_LEN);
        lemma_sealed_layers_open(keys.drop_last(), nonces, ad, pt);
        assert(ct.subrange(0, ct.len() - NONCE_LEN) =~= s);
        assert(ct.subrange(ct.len() - NONCE_LEN, ct.len() as int) =~= nonces[i]);
        assert(ct.subrange(0, ct.len() - NONCE_LEN) == sealed(
            keys.last(),
            ct.subrange(ct.len() - NONCE_LEN, ct.len() as int),
            ad,
            inner,
        ));
    }
}

/// A packet that a ratchet protected at some level is opened by a ratchet
/// holding the same key material at that level, which recovers the payload.
pub proof fn lemma_protect_validate_round_trip(keys: Seq<Seq<u8>>, header: Seq<u8>, payload: Seq<u8>, ct: Seq<u8>)
    requires
        protected_as(keys, header, payload, ct),
    ensures
        opens_to(keys, header, ct, payload),
{
    let nonces = choose|nonces: Seq<Seq<u8>>| nonces_fit(nonces, keys.len()) && ct == #[trigger] seal_layers(keys, nonces, header, payload);
    lemma_sealed_layers_open(keys, nonces, header, payload);
}

/// The keys, one after another.
pub open spec fn concat_keys(keys: Seq<Seq<u8>>) -> Seq<u8>
    decreases keys.len(),
{
    if keys.len() == 0 {
        Seq::empty()
    } else {
        concat_keys(keys.drop_last()) + keys.last()
    }
}

/// The one-byte codes of the negotiated algorithms.
pub open spec fn param_codes(p: CryptoParameters) -> Seq<u8> {
    seq![
        match p.kem_algorithm {
            KemAlgorithm::Kyber => 0u8,
        },
        match p.encryption_algorithm {
            EncryptionAlgorithm::Xchacha20Poly1305 => 0u8,
        },
        match p.sig_algorithm {
            SigAlgorithm::Unsigned => 0u8,
        },
    ]
}

/// Bytes that a ratchet's persisted form takes before its keys.
pub const RATCHET_PREFIX_LEN: usize = 23;

/// The persisted form of a ratchet: connection id (8 bytes), version (4),
/// algorithm codes (3) and bank count (8), little-endian, then each key.
pub open spec fn ratchet_encoding(cid: u64, version: u32, params: CryptoParameters, keys: Seq<Seq<u8>>) -> Seq<u8> {
    le_bytes(cid as nat, 8) + le_bytes(version as nat, 4) + param_codes(params) + le_bytes(keys.len(), 8)
        + concat_keys(keys)
}

/// Keys of full length lie end to end in their concatenation.
pub proof fn lemma_concat_keys(keys: Seq<Seq<u8>>)
    requires
        forall|i: int| 0 <= i < keys.len() ==> (#[trigger] keys[i]).len() == KEY_LEN,
    ensures
        concat_keys(keys).len() == KEY_LEN * keys.len(),
        forall|i: int|
            0 <= i < keys.len() ==> concat_keys(keys).subrange(KEY_LEN * i, KEY_LEN * i + KEY_LEN) == #[trigger] keys[i],
    decreases keys.len(),
{
    if keys.len() > 0 {
        let rest = keys.drop_last();
        lemma_concat_keys(rest);
        let c = concat_keys(keys);
        assert forall|i: int| 0 <= i < keys.len() implies c.subrange(KEY_LEN * i, KEY_LEN * i + KEY_LEN)
            == #[trigger] keys[i] by {
            if i < keys.len() - 1 {
                assert(rest[i] == keys[i]);
                assert(c.subrange(KEY_LEN * i, KEY_LEN * i + KEY_LEN) =~= concat_keys(rest).subrange(
                    KEY_LEN * i,
                    KEY_LEN * i + KEY_LEN,
                ));
            } else {
                assert(c.subrange(KEY_LEN * i, KEY_LEN * i + KEY_LEN) =~= keys.last());
            }
        }
    }
}

/// The associated data that every layer authenticates: the caller's,
/// then the ratchet's connection id (8 bytes) and version (4),
/// little-endian. A layer thus opens only under the identity and version
/// of the ratchet that sealed it.
pub open spec fn bound_ad(ad: Seq<u8>, cid: u64, version: u32) -> Seq<u8> {
    ad + le_bytes(cid as nat, 8) + le_bytes(version as nat, 4)
}

/// Symmetric key material of one bank.
pub struct EntropyBank {
    key: Vec<u8>,
}

impl EntropyBank {
    pub closed spec fn key_view(&self) -> Seq<u8> {
        self.key@
    }

    /// A bank holding `key`; `None` where `key` is not a full key.
    pub fn from_key(key: Vec<u8>) -> (r: Option<EntropyBank>)
        ensures
            key@.len() == KEY_LEN <==> r is Some,
            r is Some ==> r->Some_0.key_view() == key@,
    {
        if key.len() == KEY_LEN {
            Some(EntropyBank { key })
        } else {
            None
        }
    }

    pub fn clone_bank(&self) -> (r: EntropyBank)
        ensures
            r.key_view() == self.key_view(),
    {
        EntropyBank { key: slice_to_vec(self.key.as_slice()) }
    }
}

/// A versioned bundle of entropy banks for one connection. Never changed
/// after construction.
pub struct StackedRatchet {
    cid: u64,
    version: u32,
    banks: Vec<EntropyBank>,
    params: CryptoParameters,
}

impl StackedRatchet {
    pub closed spec fn spec_cid(&self) -> u64 {
        self.cid
    }

    pub closed spec fn spec_version(&self) -> u32 {
        self.version
    }

    pub closed spec fn spec_params(&self) -> CryptoParameters {
        self.params
    }

    /// The banks' keys, in order.
    pub closed spec fn keys(&self) -> Seq<Seq<u8>> {
        self.banks@.map_values(|b: EntropyBank| b.key_view())
    }

    /// At least one bank, every key full length.
    pub closed spec fn wf(&self) -> bool {
        &&& self.banks@.len() >= 1
        &&& forall|i: int| 0 <= i < self.banks@.len() ==> (#[trigger] self.banks@[i]).key_view().len() == KEY_LEN
    }

    /// A well-formed ratchet holds at least one bank, so the default level
    /// is always supported, and every key is full length.
    pub proof fn lemma_wf_has_bank(&self)
        requires
            self.wf(),
        ensures
            self.keys().len() >= 1,
            self.supports(None),
            forall|i: int| 0 <= i < self.keys().len() ==> (#[trigger] self.keys()[i]).len() == KEY_LEN,
    {
    }

    /// Whether the ratchet holds the banks that `level` cascades through.
    pub open spec fn supports(&self, level: Option<SecurityLevel>) -> bool {
        level_banks(level) <= self.keys().len()
    }

    /// A ratchet from agreed banks; `None` where there is none.
    pub fn from_banks(cid: u64, version: u32, banks: Vec<EntropyBank>, params: CryptoParameters) -> (r: Option<StackedRatchet>)
        requires
            forall|i: int| 0 <= i < banks@.len() ==> (#[trigger] banks@[i]).key_view().len() == KEY_LEN,
        ensures
            r is Some <==> banks@.len() >= 1,
            r is Some ==> r->Some_0.wf(),
            r is Some ==> r->Some_0.spec_cid() == cid && r->Some_0.spec_version() == version,
            r is Some ==> r->Some_0.spec_params() == params,
            r is Some ==> r->Some_0.keys() == banks@.map_values(|b: EntropyBank| b.key_view()),
    {
        if banks.len() == 0 {
            None
        } else {
            Some(StackedRatchet { cid, version, banks, params })
        }
    }

    pub fn version(&self) -> (r: u32)
        ensures
            r == self.spec_version(),
    {
        self.version
    }

    pub fn get_cid(&self) -> (r: u64)
        ensures
            r == self.spec_cid(),
    {
        self.cid
    }

    pub fn params(&self) -> (r: CryptoParameters)
        ensures
            r == self.spec_params(),
    {
        self.params
    }

    pub fn bank_count(&self) -> (r: usize)
        ensures
            r == self.keys().len(),
    {
        self.banks.len()
    }

    /// A copy holding the same version, identity and key material.
    pub fn clone_ratchet(&self) -> (r: StackedRatchet)
        requires
            self.wf(),
        ensures
            r.wf(),
            r.spec_cid() == self.spec_cid(),
            r.spec_version() == self.spec_version(),
            r.spec_params() == self.spec_params(),
            r.keys() == self.keys(),
    {
        let mut banks: Vec<EntropyBank> = Vec::new();
        let mut i: usize = 0;
        while i < self.banks.len()
            invariant
                i <= self.banks@.len(),
                banks@.len() == i,
                forall|j: int| 0 <= j < i ==> (#[trigger] banks@[j]).key_view() == self.banks@[j].key_view(),
            decreases self.banks@.len() - i,
        {
            banks.push(self.banks[i].clone_bank());
            i += 1;
        }
        let r = StackedRatchet { cid: self.cid, version: self.version, banks, params: self.params };
        assert(r.keys() =~= self.keys());
        r
    }

    /// `ad` bound to this ratchet's identity and version.
    pub open spec fn bind(&self, ad: Seq<u8>) -> Seq<u8> {
        bound_ad(ad, self.spec_cid(), self.spec_version())
    }

    fn bind_ad(&self, ad: &[u8]) -> (r: Vec<u8>)
        ensures
            r@ == self.bind(ad@),
    {
        let mut out = slice_to_vec(ad);
        write_le(&mut out, self.cid, 8);
        write_le(&mut out, self.version as u64, 4);
        out
    }

    /// Confirms that the ratchet holds the banks that `level` asks for.
    pub fn verify_level(&self, level: Option<SecurityLevel>) -> (r: Result<usize, CryptError>)
        ensures
            self.supports(level) <==> r is Ok,
            r is Ok ==> r->Ok_0 == level_banks(level),
            r is Err ==> r->Err_0 == CryptError::LevelInsufficient,
    {
        let n = SecurityLevel::or_default(level).value() as usize + 1;
        if n <= self.banks.len() {
            Ok(n)
        } else {
            Err(CryptError::LevelInsufficient)
        }
    }

    /// Cascades `pt` through the first `n` banks with the given nonces.
    fn seal_cascade(&self, n: usize, ad: &[u8], pt: Vec<u8>, nonces: &Vec<Vec<u8>>) -> (r: Result<Vec<u8>, CryptError>)
        requires
            self.wf(),
            n <= self.keys().len(),
            nonces_fit(nonces@.map_values(|v: Vec<u8>| v@), n as nat),
        ensures
            r is Ok ==> r->Ok_0@ == seal_layers(self.keys().take(n as int), nonces@.map_values(|v: Vec<u8>| v@), ad@, pt@),
            r is Ok ==> r->Ok_0@.len() == pt@.len() + LAYER_OVERHEAD * n,
            pt@.len() + LAYER_OVERHEAD * n <= MAX_SEAL_LEN ==> r is Ok,
            r is Err ==> r->Err_0 == CryptError::Encryption,
    {
        let ghost ns = nonces@.map_values(|v: Vec<u8>| v@);
        let ghost keys = self.keys();
        let mut cur = pt;
        let mut i: usize = 0;
        while i < n
            invariant
                self.wf(),
                n <= self.banks@.len(),
                nonces_fit(ns, n as nat),
                ns == nonces@.map_values(|v: Vec<u8>| v@),
                keys == self.keys(),
                i <= n,
                cur@ == seal_layers(keys.take(i as int), ns, ad@, pt@),
                cur@.len() == pt@.len() + LAYER_OVERHEAD * i,
                pt@.len() + LAYER_OVERHEAD * n <= MAX_SEAL_LEN ==> cur@.len() + LAYER_OVERHEAD * (n - i) <= MAX_SEAL_LEN,
            decreases n - i,
        {
            assert(ns[i as int] == nonces@[i as int]@);
            assert(ns[i as int].len() == NONCE_LEN);
            assert(self.banks@[i as int].key_view().len() == KEY_LEN);
            let sealed_res = aead_seal(self.banks[i].key.as_slice(), nonces[i].as_slice(), ad, cur.as_slice());
            match sealed_res {
                Ok(c) => {
                    let mut c = c;
                    c.extend_from_slice(nonces[i].as_slice());
                    proof {
                        assert(keys.take(i + 1).drop_last() =~= keys.take(i as int));
                        assert(keys.take(i + 1)[i as int] == keys[i as int]);
                        assert(keys[i as int] == self.banks@[i as int].key_view());
                    }
                    cur = c;
                },
                Err(_) => {
                    return Err(CryptError::Encryption);
                },
            }
            i += 1;
        }
        Ok(cur)
    }

    /// Peels the first `n` banks' layers off `ct`, the outermost first.
    fn open_cascade(&self, n: usize, ad: &[u8], ct: &[u8]) -> (r: Result<Vec<u8>, CryptError>)
        requires
            self.wf(),
            n <= self.keys().len(),
        ensures
            r is Ok ==> opens_to(self.keys().take(n as int), ad@, ct@, r->Ok_0@),
            forall|pt: Seq<u8>|
                ct@.len() <= MAX_SEAL_LEN && #[trigger] opens_to(self.keys().take(n as int), ad@, ct@, pt) ==> (r is Ok
                    && r->Ok_0@ == pt),
            r is Err ==> r->Err_0 == CryptError::Validation,
    {
        let ghost keys = self.keys();
        let mut cur = slice_to_vec(ct);
        let mut i: usize = n;
        while i > 0
            invariant
                self.wf(),
                n <= self.banks@.len(),
                keys == self.keys(),
                i <= n,
                cur@.len() <= ct@.len(),
                forall|pt: Seq<u8>|
                    #[trigger] opens_to(keys.take(i as int), ad@, cur@, pt) ==> opens_to(keys.take(n as int), ad@, ct@, pt),
                forall|pt: Seq<u8>|
                    ct@.len() <= MAX_SEAL_LEN && #[trigger] opens_to(keys.take(n as int), ad@, ct@, pt) ==> opens_to(
                        keys.take(i as int),
                        ad@,
                        cur@,
                        pt,
                    ),
            decreases i,
        {
            let ghost before = cur@;
            let ghost ks = keys.take(i as int);
            proof {
                assert(ks.drop_last() =~= keys.take(i - 1));
                assert(ks.last() == keys[i - 1]);
                assert(keys[i - 1] == self.banks@[i - 1].key_view());
            }
            if cur.len() < NONCE_LEN {
                return Err(CryptError::Validation);
            }
            let at = cur.len() - NONCE_LEN;
            let nonce = cur.split_off(at);
            assert(self.banks@[i - 1].key_view().len() == KEY_LEN);
            let opened = aead_open(self.banks[i - 1].key.as_slice(), nonce.as_slice(), ad, cur.as_slice());
            match opened {
                Ok(p) => {
                    proof {
                        assert forall|pt: Seq<u8>| #[trigger] opens_to(keys.take(i - 1), ad@, p@, pt) implies opens_to(
                            keys.take(n as int),
                            ad@,
                            ct@,
                            pt,
                        ) by {
                            assert(before.subrange(0, before.len() - NONCE_LEN) == cur@);
                            assert(before.subrange(before.len() - NONCE_LEN, before.len() as int) == nonce@);
                            assert(cur@ == sealed(ks.last(), nonce@, ad@, p@));
                            assert(opens_to(ks, ad@, before, pt));
                        }
                        assert forall|pt: Seq<u8>|
                            ct@.len() <= MAX_SEAL_LEN && #[trigger] opens_to(keys.take(n as int), ad@, ct@, pt) implies opens_to(
                            keys.take(i - 1),
                            ad@,
                            p@,
                            pt,
                        ) by {
                            assert(opens_to(ks, ad@, before, pt));
                            let inner = choose|inner: Seq<u8>|
                                before.subrange(0, before.len() - NONCE_LEN) == #[trigger] sealed(
                                    ks.last(),
                                    before.subrange(before.len() - NONCE_LEN, before.len() as int),
                                    ad@,
                                    inner,
                                ) && opens_to(ks.drop_last(), ad@, inner, pt);
                            assert(cur@ == sealed(ks.last(), nonce@, ad@, inner));
                        }
                    }
                    cur = p;
                },
                Err(_) => {
                    proof {
                        assert forall|pt: Seq<u8>|
                            ct@.len() <= MAX_SEAL_LEN && #[trigger] opens_to(keys.take(n as int), ad@, ct@, pt) implies false by {
                            assert(opens_to(ks, ad@, before, pt));
                            let inner = choose|inner: Seq<u8>|
                                before.subrange(0, before.len() - NONCE_LEN) == #[trigger] sealed(
                                    ks.last(),
                                    before.subrange(before.len() - NONCE_LEN, before.len() as int),
                                    ad@,
                                    inner,
                                ) && opens_to(ks.drop_last(), ad@, inner, pt);
                            assert(cur@ == sealed(ks.last(), nonce@, ad@, inner));
                        }
                    }
                    return Err(CryptError::Validation);
                },
            }
            i -= 1;
        }
        proof {
            assert(opens_to(keys.take(0), ad@, cur@, cur@));
        }
        Ok(cur)
    }

    /// The ratchet's persisted form.
    pub open spec fn encoding(&self) -> Seq<u8> {
        ratchet_encoding(self.spec_cid(), self.spec_version(), self.spec_params(), self.keys())
    }

    /// A well-formed ratchet's persisted form is read back by
    /// `deserialize_at`, with the same identity, version, algorithms and keys.
    pub proof fn lemma_persisted_form_reads_back(&self)
        requires
            self.wf(),
        ensures
            1 <= self.keys().len(),
            forall|i: int| 0 <= i < self.keys().len() ==> (#[trigger] self.keys()[i]).len() == KEY_LEN,
            self.encoding().subrange(0, self.encoding().len() as int) == self.encoding(),
    {
        assert(self.encoding().subrange(0, self.encoding().len() as int) =~= self.encoding());
    }

    /// Appends the ratchet's persisted form to `out`.
    pub fn serialize_into(&self, out: &mut Vec<u8>)
        requires
            self.wf(),
        ensures
            final(out)@ == old(out)@ + self.encoding(),
    {
        write_le(out, self.cid, 8);
        write_le(out, self.version as u64, 4);
        out.push(0u8);
        out.push(0u8);
        out.push(0u8);
        write_le(out, self.banks.len() as u64, 8);
        let ghost head = out@;
        let mut i: usize = 0;
        while i < self.banks.len()
            invariant
                i <= self.banks@.len(),
                out@ == head + concat_keys(self.keys().take(i as int)),
            decreases self.banks@.len() - i,
        {
            out.extend_from_slice(self.banks[i].key.as_slice());
            proof {
                assert(self.keys().take(i + 1).drop_last() =~= self.keys().take(i as int));
                assert(self.keys().take(i + 1).last() == self.banks@[i as int].key_view());
            }
            i += 1;
        }
        proof {
            assert(self.keys().take(self.banks@.len() as int) =~= self.keys());
            assert(param_codes(self.params) =~= seq![0u8, 0u8, 0u8]);
            assert(out@ =~= old(out)@ + self.encoding());
        }
    }

    /// The ratchet's persisted form.
    pub fn serialize(&self) -> (r: Vec<u8>)
        requires
            self.wf(),
        ensures
            r@ == self.encoding(),
    {
        let mut out: Vec<u8> = Vec::new();
        self.serialize_into(&mut out);
        assert(out@ =~= self.encoding());
        out
    }

    /// Reads a ratchet's persisted form starting at `at`; returns the
    /// ratchet and where its form ends. Fails on a truncated form, an
    /// unknown algorithm code, or a ratchet with no bank.
    pub fn deserialize_at(bytes: &[u8], at: usize) -> (r: Result<(StackedRatchet, usize), CryptError>)
        ensures
            r is Ok ==> r->Ok_0.0.wf(),
            r is Ok ==> at <= r->Ok_0.1 <= bytes@.len() && bytes@.subrange(at as int, r->Ok_0.1 as int)
                == r->Ok_0.0.encoding(),
            r is Err ==> r->Err_0 == CryptError::Serialization,
            forall|cid: u64, version: u32, params: CryptoParameters, keys: Seq<Seq<u8>>|
                1 <= keys.len() && (forall|i: int| 0 <= i < keys.len() ==> (#[trigger] keys[i]).len() == KEY_LEN) && at
                    + ratchet_encoding(cid, version, params, keys).len() <= bytes@.len() && bytes@.subrange(
                    at as int,
                    at + ratchet_encoding(cid, version, params, keys).len(),
                ) == #[trigger] ratchet_encoding(cid, version, params, keys) ==> {
                    &&& r is Ok
                    &&& r->Ok_0.0.spec_cid() == cid
                    &&& r->Ok_0.0.spec_version() == version
                    &&& r->Ok_0.0.spec_params() == params
                    &&& r->Ok_0.0.keys() == keys
                    &&& r->Ok_0.1 == at + ratchet_encoding(cid, version, params, keys).len()
                },
    {
        let len = bytes.len();
        proof {
            lemma_le_bytes_len(0, 8);
            lemma_le_bytes_len(0, 4);
            assert forall|cid: u64, version: u32, params: CryptoParameters, keys: Seq<Seq<u8>>|
                #[trigger] ratchet_encoding(cid, version, params, keys).len() >= RATCHET_PREFIX_LEN by {
                lemma_le_bytes_len(cid as nat, 8);
                lemma_le_bytes_len(version as nat, 4);
                lemma_le_bytes_len(keys.len(), 8);
            }
        }
        if at > len || len - at < RATCHET_PREFIX_LEN {
            return Err(CryptError::Serialization);
        }
        let cid = read_le(bytes, at, 8);
        let version64 = read_le(bytes, at + 8, 4);
        let codes_ok = bytes[at + 12] == 0 && bytes[at + 13] == 0 && bytes[at + 14] == 0;
        if !codes_ok {
            proof {
                assert forall|cid: u64, version: u32, params: CryptoParameters, keys: Seq<Seq<u8>>|
                    1 <= keys.len() && at + ratchet_encoding(cid, version, params, keys).len() <= bytes@.len()
                        && bytes@.subrange(at as int, at + ratchet_encoding(cid, version, params, keys).len())
                        == #[trigger] ratchet_encoding(cid, version, params, keys) implies false by {
                    lemma_le_bytes_len(cid as nat, 8);
                    lemma_le_bytes_len(version as nat, 4);
                    let e = ratchet_encoding(cid, version, params, keys);
                    assert(e[12] == bytes@[at + 12]);
                    assert(e[13] == bytes@[at + 13]);
                    assert(e[14] == bytes@[at + 14]);
                }
            }
            return Err(CryptError::Serialization);
        }
        let count = read_le(bytes, at + 15, 8);
        let base = at + RATCHET_PREFIX_LEN;
        if count == 0 || count > ((len - base) / KEY_LEN) as u64 {
            proof {
                assert forall|cid: u64, version: u32, params: CryptoParameters, keys: Seq<Seq<u8>>|
                    1 <= keys.len() && (forall|i: int| 0 <= i < keys.len() ==> (#[trigger] keys[i]).len() == KEY_LEN) && at
                        + ratchet_encoding(cid, version, params, keys).len() <= bytes@.len() && bytes@.subrange(
                        at as int,
                        at + ratchet_encoding(cid, version, params, keys).len(),
                    ) == #[trigger] ratchet_encoding(cid, version, params, keys) implies false by {
                    lemma_encoding_fields(bytes@, at as int, cid, version, params, keys);
                    lemma_pow256_eight();
                    lemma_le_bytes_injective(count as nat, keys.len(), 8);
                    lemma_concat_keys(keys);
                    assert(count as int == keys.len());
                    assert(KEY_LEN * keys.len() <= len - base);
                    assert(count <= ((len - base) / KEY_LEN as int)) by (nonlinear_arith)
                        requires
                            KEY_LEN * count <= len - base,
                            KEY_LEN == 32,
                    ;
                }
            }
            return Err(CryptError::Serialization);
        }
        let n = count as usize;
        let mut banks: Vec<EntropyBank> = Vec::new();
        let mut i: usize = 0;
        while i < n
            invariant
                len == bytes@.len(),
                base + KEY_LEN * n <= len,
                i <= n,
                banks@.len() == i,
                forall|j: int| 0 <= j < i ==> (#[trigger] banks@[j]).key_view().len() == KEY_LEN,
                forall|j: int|
                    0 <= j < i ==> (#[trigger] banks@[j]).key_view() == bytes@.subrange(
                        base + KEY_LEN * j,
                        base + KEY_LEN * j + KEY_LEN,
                    ),
                bytes@.subrange(base as int, base + KEY_LEN * i) == concat_keys(
                    banks@.map_values(|b: EntropyBank| b.key_view()),
                ),
            decreases n - i,
        {
            let start = base + KEY_LEN * i;
            let key = slice_to_vec(slice_subrange(bytes, start, start + KEY_LEN));
            let ghost before = banks@;
            banks.push(EntropyBank { key });
            proof {
                assert(banks@.map_values(|b: EntropyBank| b.key_view()).drop_last() =~= before.map_values(
                    |b: EntropyBank| b.key_view(),
                ));
                assert(bytes@.subrange(base as int, base + KEY_LEN * (i + 1)) =~= bytes@.subrange(
                    base as int,
                    base + KEY_LEN * i,
                ) + bytes@.subrange(start as int, start + KEY_LEN));
                assert forall|j: int| 0 <= j < i + 1 implies (#[trigger] banks@[j]).key_view()
                    == bytes@.subrange(base + KEY_LEN * j, base + KEY_LEN * j + KEY_LEN) by {
                    if j < i {
                        assert(banks@[j] == before[j]);
                    }
                }
            }
            i += 1;
        }
        let end = base + KEY_LEN * n;
        assert(pow256(4) == 0x1_0000_0000) by {
            reveal_with_fuel(pow256, 5);
        }
        let r = StackedRatchet {
            cid,
            version: version64 as u32,
            banks,
            params: CryptoParameters::default_params(),
        };
        proof {
            assert(r.keys() == banks@.map_values(|b: EntropyBank| b.key_view()));
            assert(bytes@.subrange(at as int, end as int) =~= bytes@.subrange(at as int, at + 8) + bytes@.subrange(
                at + 8,
                at + 12,
            ) + bytes@.subrange(at + 12, at + 15) + bytes@.subrange(at + 15, at + 23) + bytes@.subrange(
                base as int,
                end as int,
            ));
            assert(bytes@.subrange(at + 12, at + 15) =~= param_codes(r.params));
            assert(pow256(4) == 0x1_0000_0000) by {
                reveal_with_fuel(pow256, 5);
            }
            assert((version64 as u32) as nat == version64 as nat);
            assert(r.keys().len() == n);
            assert(bytes@.subrange(at as int, end as int) =~= r.encoding());
            assert forall|cid2: u64, version2: u32, params2: CryptoParameters, keys2: Seq<Seq<u8>>|
                1 <= keys2.len() && (forall|j: int| 0 <= j < keys2.len() ==> (#[trigger] keys2[j]).len() == KEY_LEN) && at
                    + ratchet_encoding(cid2, version2, params2, keys2).len() <= bytes@.len() && bytes@.subrange(
                    at as int,
                    at + ratchet_encoding(cid2, version2, params2, keys2).len(),
                ) == #[trigger] ratchet_encoding(cid2, version2, params2, keys2) implies {
                &&& r.spec_cid() == cid2
                &&& r.spec_version() == version2
                &&& r.spec_params() == params2
                &&& r.keys() == keys2
                &&& end == at + ratchet_encoding(cid2, version2, params2, keys2).len()
            } by {
                lemma_encoding_fields(bytes@, at as int, cid2, version2, params2, keys2);
                lemma_pow256_eight();
                lemma_le_bytes_injective(cid as nat, cid2 as nat, 8);
                lemma_le_bytes_injective(version64 as nat, version2 as nat, 4);
                lemma_le_bytes_injective(count as nat, keys2.len(), 8);
                lemma_concat_keys(keys2);
                let e = ratchet_encoding(cid2, version2, params2, keys2);
                assert forall|j: int| 0 <= j < keys2.len() implies r.keys()[j] == #[trigger] keys2[j] by {
                    assert(r.keys()[j] == banks@[j].key_view());
                    assert(bytes@.subrange(base + KEY_LEN * j, base + KEY_LEN * j + KEY_LEN) =~= e.subrange(
                        RATCHET_PREFIX_LEN + KEY_LEN * j,
                        RATCHET_PREFIX_LEN + KEY_LEN * j + KEY_LEN,
                    ));
                    assert(e.subrange(RATCHET_PREFIX_LEN + KEY_LEN * j, RATCHET_PREFIX_LEN + KEY_LEN * j + KEY_LEN)
                        =~= concat_keys(keys2).subrange(KEY_LEN * j, KEY_LEN * j + KEY_LEN));
                }
                assert(r.keys() =~= keys2);
                assert(params2 == CryptoParameters::default_params_spec()) by {
                    match params2.kem_algorithm {
                        KemAlgorithm::Kyber => {},
                    }
                    match params2.encryption_algorithm {
                        EncryptionAlgorithm::Xchacha20Poly1305 => {},
                    }
                    match params2.sig_algorithm {
                        SigAlgorithm::Unsigned => {},
                    }
                }
            }
        }
        Ok((r, end))
    }

    /// Protects `packet`, laid out as `header_len` header bytes then the
    /// payload: the payload is replaced by its cascade through the banks
    /// that `level` asks for, with the header as associated data, and the
    /// given nonces, one for each layer.
    pub fn protect_with_nonces(
        &self,
        level: Option<SecurityLevel>,
        header_len: usize,
        packet: &mut Vec<u8>,
        nonces: &Vec<Vec<u8>>,
    ) -> (r: Result<(), CryptError>)
        requires
            self.wf(),
            self.supports(level) ==> nonces_fit(nonces@.map_values(|v: Vec<u8>| v@), level_banks(level)),
        ensures
            !self.supports(level) <==> r == Err::<(), CryptError>(CryptError::LevelInsufficient),
            self.supports(level) && header_len > old(packet)@.len() <==> r == Err::<(), CryptError>(CryptError::Validation),
            r is Err ==> final(packet)@ == old(packet)@,
            r is Ok ==> final(packet)@ == old(packet)@.take(header_len as int) + seal_layers(
                self.keys().take(level_banks(level) as int),
                nonces@.map_values(|v: Vec<u8>| v@),
                self.bind(old(packet)@.take(header_len as int)),
                old(packet)@.skip(header_len as int),
            ),
            self.supports(level) && header_len <= old(packet)@.len() && old(packet)@.len() - header_len
                + LAYER_OVERHEAD * level_banks(level) <= MAX_SEAL_LEN ==> r is Ok,
            r is Ok ==> final(packet)@.len() == old(packet)@.len() + LAYER_OVERHEAD * level_banks(level),
            r is Err ==> r->Err_0 == CryptError::LevelInsufficient || r->Err_0 == CryptError::Validation || r->Err_0
                == CryptError::Encryption,
    {
        let n = match self.verify_level(level) {
            Ok(n) => n,
            Err(e) => {
                return Err(e);
            },
        };
        if header_len > packet.len() {
            return Err(CryptError::Validation);
        }
        let len = packet.len();
        let header = slice_to_vec(slice_subrange(packet.as_slice(), 0, header_len));
        let payload = slice_to_vec(slice_subrange(packet.as_slice(), header_len, len));
        proof {
            assert(header@ =~= old(packet)@.take(header_len as int));
            assert(payload@ =~= old(packet)@.skip(header_len as int));
        }
        let ad = self.bind_ad(header.as_slice());
        match self.seal_cascade(n, ad.as_slice(), payload, nonces) {
            Ok(c) => {
                let mut c = c;
                let mut out = header;
                out.append(&mut c);
                *packet = out;
                Ok(())
            },
            Err(e) => Err(e),
        }
    }

    /// Protects `packet` (header bytes, then payload) at `level` with fresh
    /// nonces from the operating system's random source.
    pub fn protect_message_packet(&self, level: Option<SecurityLevel>, header_len: usize, packet: &mut Vec<u8>) -> (r:
        Result<(), CryptError>)
        requires
            self.wf(),
        ensures
            !self.supports(level) <==> r == Err::<(), CryptError>(CryptError::LevelInsufficient),
            self.supports(level) && header_len > old(packet)@.len() <==> r == Err::<(), CryptError>(CryptError::Validation),
            r is Err ==> final(packet)@ == old(packet)@,
            r is Ok ==> final(packet)@.take(header_len as int) == old(packet)@.take(header_len as int),
            r is Ok ==> protected_as(
                self.keys().take(level_banks(level) as int),
                self.bind(old(packet)@.take(header_len as int)),
                old(packet)@.skip(header_len as int),
                final(packet)@.skip(header_len as int),
            ),
            r is Err && r->Err_0 == CryptError::Encryption ==> old(packet)@.len() - header_len + LAYER_OVERHEAD
                * level_banks(level) > MAX_SEAL_LEN,
            r is Ok ==> final(packet)@.len() == old(packet)@.len() + LAYER_OVERHEAD * level_banks(level),
            r is Err ==> r->Err_0 == CryptError::LevelInsufficient || r->Err_0 == CryptError::Validation || r->Err_0
                == CryptError::Encryption || r->Err_0 == CryptError::RandomSource,
    {
        let n = match self.verify_level(level) {
            Ok(n) => n,
            Err(e) => {
                return Err(e);
            },
        };
        if header_len > packet.len() {
            return Err(CryptError::Validation);
        }
        let nonces = match draw_nonces(n) {
            Ok(v) => v,
            Err(e) => {
                return Err(e);
            },
        };
        let ghost ns = nonces@.map_values(|v: Vec<u8>| v@);
        let ghost old_packet = packet@;
        let r = self.protect_with_nonces(level, header_len, packet, &nonces);
        proof {
            if r is Ok {
                let ks = self.keys().take(level_banks(level) as int);
                let h = old_packet.take(header_len as int);
                let ct = seal_layers(ks, ns, self.bind(h), old_packet.skip(header_len as int));
                assert(packet@ == h + ct);
                assert(packet@.take(header_len as int) =~= h);
                assert(packet@.skip(header_len as int) =~= ct);
                assert(nonces_fit(ns, ks.len()));
            }
        }
        r
    }

    /// Validates a packet whose header was split off: every layer that
    /// `level` asks for must authenticate against `header`; then `packet`
    /// holds the payload. Fails closed: on any error `packet` is unchanged.
    pub fn validate_message_packet(&self, level: Option<SecurityLevel>, header: &[u8], packet: &mut Vec<u8>) -> (r:
        Result<(), CryptError>)
        requires
            self.wf(),
        ensures
            !self.supports(level) <==> r == Err::<(), CryptError>(CryptError::LevelInsufficient),
            r is Err ==> final(packet)@ == old(packet)@,
            r is Err && self.supports(level) ==> r->Err_0 == CryptError::Validation,
            r is Ok ==> opens_to(
                self.keys().take(level_banks(level) as int),
                self.bind(header@),
                old(packet)@,
                final(packet)@,
            ),
            forall|pt: Seq<u8>|
                self.supports(level) && old(packet)@.len() <= MAX_SEAL_LEN && #[trigger] opens_to(
                    self.keys().take(level_banks(level) as int),
                    self.bind(header@),
                    old(packet)@,
                    pt,
                ) ==> r is Ok && final(packet)@ == pt,
    {
        let n = match self.verify_level(level) {
            Ok(n) => n,
            Err(e) => {
                return Err(e);
            },
        };
        let ad = self.bind_ad(header);
        match self.open_cascade(n, ad.as_slice(), packet.as_slice()) {
            Ok(p) => {
                *packet = p;
                Ok(())
            },
            Err(e) => Err(e),
        }
    }

    /// Encrypts a whole buffer at `level`, with no header.
    pub fn encrypt(&self, level: Option<SecurityLevel>, data: &[u8]) -> (r: Result<Vec<u8>, CryptError>)
        requires
            self.wf(),
        ensures
            !self.supports(level) <==> r == Err::<Vec<u8>, CryptError>(CryptError::LevelInsufficient),
            r is Ok ==> protected_as(self.keys().take(level_banks(level) as int), self.bind(Seq::empty()), data@, r->Ok_0@),
            r is Ok ==> r->Ok_0@.len() == data@.len() + LAYER_OVERHEAD * level_banks(level),
            r is Err && r->Err_0 == CryptError::Encryption ==> data@.len() + LAYER_OVERHEAD * level_banks(level)
                > MAX_SEAL_LEN,
            r is Err ==> r->Err_0 == CryptError::LevelInsufficient || r->Err_0 == CryptError::Encryption || r->Err_0
                == CryptError::RandomSource,
    {
        let mut packet = slice_to_vec(data);
        match self.protect_message_packet(level, 0, &mut packet) {
            Ok(()) => {
                proof {
                    assert(data@.take(0) =~= Seq::<u8>::empty());
                    assert(data@.skip(0) =~= data@);
                    assert(packet@.skip(0) =~= packet@);
                }
                Ok(packet)
            },
            Err(e) => Err(e),
        }
    }

    /// Encrypts a whole buffer at `level`, with no header, using the given
    /// nonces, one for each layer.
    pub fn encrypt_with_nonces(&self, level: Option<SecurityLevel>, data: &[u8], nonces: &Vec<Vec<u8>>) -> (r: Result<
        Vec<u8>,
        CryptError,
    >)
        requires
            self.wf(),
            self.supports(level) ==> nonces_fit(nonces@.map_values(|v: Vec<u8>| v@), level_banks(level)),
        ensures
            !self.supports(level) <==> r == Err::<Vec<u8>, CryptError>(CryptError::LevelInsufficient),
            r is Ok ==> r->Ok_0@ == seal_layers(
                self.keys().take(level_banks(level) as int),
                nonces@.map_values(|v: Vec<u8>| v@),
                self.bind(Seq::empty()),
                data@,
            ),
            r is Ok ==> r->Ok_0@.len() == data@.len() + LAYER_OVERHEAD * level_banks(level),
            self.supports(level) && data@.len() + LAYER_OVERHEAD * level_banks(level) <= MAX_SEAL_LEN ==> r is Ok,
            r is Err ==> r->Err_0 == CryptError::LevelInsufficient || r->Err_0 == CryptError::Encryption,
    {
        let mut packet = slice_to_vec(data);
        match self.protect_with_nonces(level, 0, &mut packet, nonces) {
            Ok(()) => {
                proof {
                    assert(data@.take(0) =~= Seq::<u8>::empty());
                    assert(data@.skip(0) =~= data@);
                    assert(packet@ =~= Seq::<u8>::empty() + seal_layers(
                        self.keys().take(level_banks(level) as int),
                        nonces@.map_values(|v: Vec<u8>| v@),
                        self.bind(Seq::empty()),
                        data@,
                    ));
                }
                Ok(packet)
            },
            Err(e) => Err(e),
        }
    }

    /// Decrypts a buffer made by `encrypt` at `level`.
    pub fn decrypt(&self, level: Option<SecurityLevel>, data: &[u8]) -> (r: Result<Vec<u8>, CryptError>)
        requires
            self.wf(),
        ensures
            !self.supports(level) <==> r == Err::<Vec<u8>, CryptError>(CryptError::LevelInsufficient),
            r is Err && self.supports(level) ==> r->Err_0 == CryptError::Validation,
            r is Ok ==> opens_to(self.keys().take(level_banks(level) as int), self.bind(Seq::empty()), data@, r->Ok_0@),
            forall|pt: Seq<u8>|
                self.supports(level) && data@.len() <= MAX_SEAL_LEN && #[trigger] opens_to(
                    self.keys().take(level_banks(level) as int),
                    self.bind(Seq::empty()),
                    data@,
                    pt,
                ) ==> r is Ok && r->Ok_0@ == pt,
    {
        let mut packet = slice_to_vec(data);
        let empty: Vec<u8> = Vec::new();
        proof {
            assert(empty@ =~= Seq::<u8>::empty());
        }
        match self.validate_message_packet(level, empty.as_slice(), &mut packet) {
            Ok(()) => Ok(packet),
            Err(e) => Err(e),
        }
    }
}

/// Draws `n` fresh nonces.
pub(crate) fn draw_nonces(n: usize) -> (r: Result<Vec<Vec<u8>>, CryptError>)
    ensures
        r is Ok ==> nonces_fit(r->Ok_0@.map_values(|v: Vec<u8>| v@), n as nat),
        r is Err ==> r->Err_0 == CryptError::RandomSource,
{
    let mut out: Vec<Vec<u8>> = Vec::new();
    let mut i: usize = 0;
    while i < n
        invariant
            i <= n,
            out@.len() == i,
            forall|j: int| 0 <= j < i ==> (#[trigger] out@[j])@.len() == NONCE_LEN,
        decreases n - i,
    {
        match random_nonce() {
            Ok(v) => out.push(v),
            Err(_) => {
                return Err(CryptError::RandomSource);
            },
        }
        i += 1;
    }
    Ok(out)
}

/// The fields of a persisted ratchet lie at their fixed offsets.
proof fn lemma_encoding_fields(bytes: Seq<u8>, at: int, cid: u64, version: u32, params: CryptoParameters, keys: Seq<Seq<u8>>)
    requires
        0 <= at,
        bytes.len() <= usize::MAX,
        forall|i: int| 0 <= i < keys.len() ==> (#[trigger] keys[i]).len() == KEY_LEN,
        at + ratchet_encoding(cid, version, params, keys).len() <= bytes.len(),
        bytes.subrange(at, at + ratchet_encoding(cid, version, params, keys).len()) == ratchet_encoding(
            cid,
            version,
            params,
            keys,
        ),
    ensures
        bytes.subrange(at, at + 8) == le_bytes(cid as nat, 8),
        bytes.subrange(at + 8, at + 12) == le_bytes(version as nat, 4),
        bytes.subrange(at + 15, at + 23) == le_bytes(keys.len(), 8),
        bytes.subrange(at + 23, at + ratchet_encoding(cid, version, params, keys).len()) == concat_keys(keys),
        ratchet_encoding(cid, version, params, keys).len() == RATCHET_PREFIX_LEN + concat_keys(keys).len(),
        (keys.len() as int) < pow256(8),
{
    lemma_le_bytes_len(cid as nat, 8);
    lemma_le_bytes_len(version as nat, 4);
    lemma_le_bytes_len(keys.len(), 8);
    let e = ratchet_encoding(cid, version, params, keys);
    assert(bytes.subrange(at, at + 8) =~= e.subrange(0, 8));
    assert(e.subrange(0, 8) =~= le_bytes(cid as nat, 8));
    assert(bytes.subrange(at + 8, at + 12) =~= e.subrange(8, 12));
    assert(e.subrange(8, 12) =~= le_bytes(version as nat, 4));
    assert(bytes.subrange(at + 15, at + 23) =~= e.subrange(15, 23));
    assert(e.subrange(15, 23) =~= le_bytes(keys.len(), 8));
    assert(bytes.subrange(at + 23, at + e.len()) =~= e.subrange(23, e.len() as int));
    assert(e.subrange(23, e.len() as int) =~= concat_keys(keys));
    lemma_concat_keys(keys);
    lemma_pow256_eight();
}

} // verus!
