//! The two-message handshake that gives both parties a ratchet: the
//! initiator ("Alice") sends a Kyber public key per bank, the responder
//! ("Bob") encapsulates a shared secret to each and returns the ciphertexts,
//! and the initiator decapsulates them. Each bank's key is its shared secret.
use crate::error::{CryptError, HandshakeError};
use crate::provider::{
    decapsulated, kem_decapsulate, kem_encapsulate, kem_keypair, KEM_CIPHERTEXT_LEN, KEM_PUBLIC_KEY_LEN,
    KEM_SECRET_KEY_LEN, KEY_LEN,
};
use crate::ratchet::{level_banks, CryptoParameters, EntropyBank, StackedRatchet};
use crate::security_level::SecurityLevel;
use vstd::prelude::*;
use vstd::slice::slice_to_vec;

verus! {

/// Options for one entropy bank of a handshake.
#[derive(Clone, Copy, Debug, PartialEq, Eq, Structural)]
pub struct ConstructorOpts {
    pub params: CryptoParameters,
}

impl ConstructorOpts {
    /// Options with the given parameters, or the defaults.
    pub fn new_init(params: Option<CryptoParameters>) -> (r: ConstructorOpts)
        ensures
            params is Some ==> r.params == params->Some_0,
            params is None ==> r.params == CryptoParameters::default_params_spec(),
    {
        match params {
            Some(p) => ConstructorOpts { params: p },
            None => ConstructorOpts { params: CryptoParameters::default_params() },
        }
    }

    /// `count` identical options: one for each bank.
    pub fn new_vec_init(params: Option<CryptoParameters>, count: usize) -> (r: Vec<ConstructorOpts>)
        ensures
            r@.len() == count,
            forall|i: int| 0 <= i < count ==> (#[trigger] r@[i]) == ConstructorOpts::spec_new_init(params),
    {
        let mut out: Vec<ConstructorOpts> = Vec::new();
        let mut i: usize = 0;
        while i < count
            invariant
                i <= count,
                out@.len() == i,
                forall|j: int| 0 <= j < i ==> (#[trigger] out@[j]) == ConstructorOpts::spec_new_init(params),
            decreases count - i,
        {
            out.push(ConstructorOpts::new_init(params));
            i += 1;
        }
        out
    }

    pub open spec fn spec_new_init(params: Option<CryptoParameters>) -> ConstructorOpts {
        match params {
            Some(p) => ConstructorOpts { params: p },
            None => ConstructorOpts { params: CryptoParameters::default_params_spec() },
        }
    }
}

/// The initiator's message: the algorithms it chose and a public key per bank.
pub struct AliceToBobTransfer {
    pub cid: u64,
    pub version: u32,
    pub params: Vec<CryptoParameters>,
    pub public_keys: Vec<Vec<u8>>,
}

/// The responder's message: a ciphertext per bank.
pub struct BobToAliceTransfer {
    pub cid: u64,
    pub version: u32,
    pub ciphertexts: Vec<Vec<u8>>,
}

/// Where a constructor stands in the handshake.
#[derive(Clone, Copy, Debug, PartialEq, Eq, Structural)]
pub enum ConstructorStage {
    /// The initiator holds its key pairs and has not sent them yet.
    AliceInit,
    /// The initiator has sent its public keys.
    AliceAwaitingBob,
    /// The initiator has agreed every bank.
    AliceComplete,
    /// The responder has agreed every bank.
    BobComplete,
}

/// One side of a handshake in progress.
pub struct StackedRatchetConstructor {
    cid: u64,
    version: u32,
    opts: Vec<ConstructorOpts>,
    public_keys: Vec<Vec<u8>>,
    secret_keys: Vec<Vec<u8>>,
    ciphertexts: Vec<Vec<u8>>,
    shared: Vec<Vec<u8>>,
    stage: ConstructorStage,
}

/// Every entry of `v` is `len` bytes long.
pub open spec fn all_len(v: Seq<Vec<u8>>, len: nat) -> bool {
    forall|i: int| 0 <= i < v.len() ==> (#[trigger] v[i])@.len() == len
}

/// The options agree with the parameters, bank by bank.
pub open spec fn opts_match(opts: Seq<ConstructorOpts>, params: Seq<CryptoParameters>) -> bool {
    &&& opts.len() == params.len()
    &&& forall|i: int| 0 <= i < opts.len() ==> (#[trigger] opts[i]).params == params[i]
}

impl StackedRatchetConstructor {
    pub closed spec fn spec_cid(&self) -> u64 {
        self.cid
    }

    pub closed spec fn spec_version(&self) -> u32 {
        self.version
    }

    pub closed spec fn stage(&self) -> ConstructorStage {
        self.stage
    }

    /// Number of banks being agreed.
    pub closed spec fn banks(&self) -> nat {
        self.opts@.len()
    }

    /// The algorithms that the options name, bank by bank.
    pub closed spec fn opt_params(&self) -> Seq<CryptoParameters> {
        self.opts@.map_values(|o: ConstructorOpts| o.params)
    }

    /// The initiator's public keys, bank by bank.
    pub closed spec fn public_keys(&self) -> Seq<Seq<u8>> {
        self.public_keys@.map_values(|v: Vec<u8>| v@)
    }

    /// The initiator's secret keys, bank by bank.
    pub closed spec fn secret_keys(&self) -> Seq<Seq<u8>> {
        self.secret_keys@.map_values(|v: Vec<u8>| v@)
    }

    /// The responder's ciphertexts, bank by bank.
    pub closed spec fn ciphertexts(&self) -> Seq<Seq<u8>> {
        self.ciphertexts@.map_values(|v: Vec<u8>| v@)
    }

    /// The agreed keys, once the side is complete.
    pub closed spec fn agreed_keys(&self) -> Seq<Seq<u8>> {
        self.shared@.map_values(|v: Vec<u8>| v@)
    }

    pub closed spec fn wf(&self) -> bool {
        &&& self.opts@.len() >= 1
        &&& (self.stage == ConstructorStage::AliceInit || self.stage == ConstructorStage::AliceAwaitingBob) ==> {
            &&& self.public_keys@.len() == self.opts@.len()
            &&& self.secret_keys@.len() == self.opts@.len()
            &&& all_len(self.public_keys@, KEM_PUBLIC_KEY_LEN as nat)
            &&& all_len(self.secret_keys@, KEM_SECRET_KEY_LEN as nat)
        }
        &&& (self.stage == ConstructorStage::AliceComplete || self.stage == ConstructorStage::BobComplete) ==> {
            &&& self.shared@.len() == self.opts@.len()
            &&& all_len(self.shared@, KEY_LEN as nat)
        }
        &&& self.stage == ConstructorStage::BobComplete ==> self.ciphertexts@.len() == self.opts@.len()
    }

    /// Starts a handshake as initiator: one Kyber key pair for each bank
    /// that `opts` names. The options must cover the banks that
    /// `security_level` cascades through.
    pub fn new_alice(opts: Vec<ConstructorOpts>, cid: u64, version: u32, security_level: Option<SecurityLevel>) -> (r:
        Result<StackedRatchetConstructor, CryptError>)
        ensures
            (opts@.len() == 0 || opts@.len() < level_banks(security_level)) <==> r
                == Err::<StackedRatchetConstructor, CryptError>(CryptError::Handshake(HandshakeError::BadOptions)),
            r is Err ==> r->Err_0 == CryptError::Handshake(HandshakeError::BadOptions) || r->Err_0
                == CryptError::Handshake(HandshakeError::KeyExchange),
            r is Ok ==> r->Ok_0.wf() && r->Ok_0.stage() == ConstructorStage::AliceInit,
            r is Ok ==> r->Ok_0.spec_cid() == cid && r->Ok_0.spec_version() == version,
            r is Ok ==> r->Ok_0.banks() == opts@.len(),
    {
        let need = SecurityLevel::or_default(security_level).value() as usize + 1;
        if opts.len() == 0 || opts.len() < need {
            return Err(CryptError::Handshake(HandshakeError::BadOptions));
        }
        let mut public_keys: Vec<Vec<u8>> = Vec::new();
        let mut secret_keys: Vec<Vec<u8>> = Vec::new();
        let mut i: usize = 0;
        while i < opts.len()
            invariant
                i <= opts@.len(),
                opts@.len() >= 1,
                opts@.len() >= level_banks(security_level),
                public_keys@.len() == i,
                secret_keys@.len() == i,
                all_len(public_keys@, KEM_PUBLIC_KEY_LEN as nat),
                all_len(secret_keys@, KEM_SECRET_KEY_LEN as nat),
            decreases opts@.len() - i,
        {
            match kem_keypair() {
                Ok((pk, sk)) => {
                    public_keys.push(pk);
                    secret_keys.push(sk);
                },
                Err(_) => {
                    return Err(CryptError::Handshake(HandshakeError::KeyExchange));
                },
            }
            i += 1;
        }
        Ok(StackedRatchetConstructor {
            cid,
            version,
            opts,
            public_keys,
            secret_keys,
            ciphertexts: Vec::new(),
            shared: Vec::new(),
            stage: ConstructorStage::AliceInit,
        })
    }

    /// The initiator's message; moves it to awaiting the responder.
    pub fn stage0_alice(&mut self) -> (r: Result<AliceToBobTransfer, CryptError>)
        requires
            old(self).wf(),
        ensures
            final(self).wf(),
            final(self).spec_cid() == old(self).spec_cid(),
            final(self).spec_version() == old(self).spec_version(),
            final(self).banks() == old(self).banks(),
            (old(self).stage() == ConstructorStage::AliceInit) <==> r is Ok,
            r is Ok ==> final(self).stage() == ConstructorStage::AliceAwaitingBob,
            r is Ok ==> r->Ok_0.cid == old(self).spec_cid() && r->Ok_0.version == old(self).spec_version(),
            r is Ok ==> r->Ok_0.params@ == old(self).opt_params(),
            r is Ok ==> r->Ok_0.public_keys@.map_values(|v: Vec<u8>| v@) == old(self).public_keys(),
            r is Ok ==> final(self).secret_keys() == old(self).secret_keys(),
            r is Ok ==> final(self).public_keys() == old(self).public_keys(),
            r is Err ==> *final(self) == *old(self) && r->Err_0 == CryptError::Handshake(HandshakeError::WrongStage),
    {
        if self.stage != ConstructorStage::AliceInit {
            return Err(CryptError::Handshake(HandshakeError::WrongStage));
        }
        let mut params: Vec<CryptoParameters> = Vec::new();
        let mut public_keys: Vec<Vec<u8>> = Vec::new();
        let mut i: usize = 0;
        while i < self.opts.len()
            invariant
                self.wf(),
                self.stage == ConstructorStage::AliceInit,
                i <= self.opts@.len(),
                params@.len() == i,
                public_keys@.len() == i,
                forall|j: int| 0 <= j < i ==> (#[trigger] params@[j]) == self.opts@[j].params,
                forall|j: int| 0 <= j < i ==> (#[trigger] public_keys@[j])@ == self.public_keys@[j]@,
            decreases self.opts@.len() - i,
        {
            params.push(self.opts[i].params);
            public_keys.push(slice_to_vec(self.public_keys[i].as_slice()));
            i += 1;
        }
        self.stage = ConstructorStage::AliceAwaitingBob;
        proof {
            assert(params@ =~= old(self).opt_params());
            assert(public_keys@.map_values(|v: Vec<u8>| v@) =~= old(self).public_keys());
        }
        Ok(AliceToBobTransfer { cid: self.cid, version: self.version, params, public_keys })
    }

    /// Answers an initiator's message as responder: checks that it is for
    /// this connection and version and that its algorithms are the ones
    /// `opts` names, then encapsulates a shared secret to each public key.
    pub fn new_bob(cid: u64, version: u32, opts: Vec<ConstructorOpts>, transfer: AliceToBobTransfer) -> (r: Result<
        StackedRatchetConstructor,
        CryptError,
    >)
        ensures
            opts@.len() == 0 ==> r == Err::<StackedRatchetConstructor, CryptError>(
                CryptError::Handshake(HandshakeError::BadOptions),
            ),
            opts@.len() != 0 && (transfer.cid != cid || transfer.version != version || transfer.public_keys@.len()
                != opts@.len() || transfer.params@.len() != opts@.len()) ==> r == Err::<StackedRatchetConstructor, CryptError>(
                CryptError::Handshake(HandshakeError::MalformedTransfer),
            ),
            opts@.len() != 0 && transfer.cid == cid && transfer.version == version && transfer.public_keys@.len()
                == opts@.len() && transfer.params@.len() == opts@.len() && !opts_match(opts@, transfer.params@) ==> r
                == Err::<StackedRatchetConstructor, CryptError>(CryptError::Handshake(HandshakeError::AlgorithmMismatch)),
            r == Err::<StackedRatchetConstructor, CryptError>(CryptError::Handshake(HandshakeError::BadOptions)) ==> opts@.len()
                == 0,
            r == Err::<StackedRatchetConstructor, CryptError>(CryptError::Handshake(HandshakeError::MalformedTransfer))
                ==> opts@.len() != 0 && (transfer.cid != cid || transfer.version != version || transfer.public_keys@.len()
                != opts@.len() || transfer.params@.len() != opts@.len()),
            r == Err::<StackedRatchetConstructor, CryptError>(CryptError::Handshake(HandshakeError::AlgorithmMismatch))
                ==> !opts_match(opts@, transfer.params@),
            r is Err ==> r->Err_0 == CryptError::Handshake(HandshakeError::BadOptions) || r->Err_0 == CryptError::Handshake(
                HandshakeError::MalformedTransfer,
            ) || r->Err_0 == CryptError::Handshake(HandshakeError::AlgorithmMismatch) || r->Err_0 == CryptError::Handshake(
                HandshakeError::KeyExchange,
            ),
            r is Ok ==> opts@.len() != 0 && transfer.cid == cid && transfer.version == version && opts_match(
                opts@,
                transfer.params@,
            ),
            r is Ok ==> r->Ok_0.wf() && r->Ok_0.stage() == ConstructorStage::BobComplete,
            r is Ok ==> r->Ok_0.spec_cid() == cid && r->Ok_0.spec_version() == version,
            r is Ok ==> r->Ok_0.banks() == opts@.len(),
    {
        if opts.len() == 0 {
            return Err(CryptError::Handshake(HandshakeError::BadOptions));
        }
        if transfer.cid != cid || transfer.version != version || transfer.public_keys.len() != opts.len()
            || transfer.params.len() != opts.len() {
            return Err(CryptError::Handshake(HandshakeError::MalformedTransfer));
        }
        let mut k: usize = 0;
        while k < opts.len()
            invariant
                k <= opts@.len(),
                opts@.len() == transfer.params@.len(),
                forall|j: int| 0 <= j < k ==> (#[trigger] opts@[j]).params == transfer.params@[j],
            decreases opts@.len() - k,
        {
            if opts[k].params != transfer.params[k] {
                return Err(CryptError::Handshake(HandshakeError::AlgorithmMismatch));
            }
            k += 1;
        }
        let mut ciphertexts: Vec<Vec<u8>> = Vec::new();
        let mut shared: Vec<Vec<u8>> = Vec::new();
        let mut i: usize = 0;
        while i < opts.len()
            invariant
                i <= opts@.len(),
                opts@.len() == transfer.public_keys@.len(),
                ciphertexts@.len() == i,
                shared@.len() == i,
                all_len(shared@, KEY_LEN as nat),
                opts_match(opts@, transfer.params@),
                opts@.len() != 0,
                transfer.cid == cid && transfer.version == version,
                transfer.params@.len() == opts@.len(),
            decreases opts@.len() - i,
        {
            match kem_encapsulate(transfer.public_keys[i].as_slice()) {
                Ok((ct, ss)) => {
                    ciphertexts.push(ct);
                    shared.push(ss);
                },
                Err(_) => {
                    return Err(CryptError::Handshake(HandshakeError::KeyExchange));
                },
            }
            i += 1;
        }
        Ok(StackedRatchetConstructor {
            cid,
            version,
            opts,
            public_keys: Vec::new(),
            secret_keys: Vec::new(),
            ciphertexts,
            shared,
            stage: ConstructorStage::BobComplete,
        })
    }

    /// The responder's message.
    pub fn stage0_bob(&self) -> (r: Result<BobToAliceTransfer, CryptError>)
        requires
            self.wf(),
        ensures
            (self.stage() == ConstructorStage::BobComplete) <==> r is Ok,
            r is Ok ==> r->Ok_0.cid == self.spec_cid() && r->Ok_0.version == self.spec_version(),
            r is Ok ==> r->Ok_0.ciphertexts@.len() == self.banks(),
            r is Ok ==> r->Ok_0.ciphertexts@.map_values(|v: Vec<u8>| v@) == self.ciphertexts(),
            r is Err ==> r->Err_0 == CryptError::Handshake(HandshakeError::WrongStage),
    {
        if self.stage != ConstructorStage::BobComplete {
            return Err(CryptError::Handshake(HandshakeError::WrongStage));
        }
        let mut ciphertexts: Vec<Vec<u8>> = Vec::new();
        let mut i: usize = 0;
        while i < self.ciphertexts.len()
            invariant
                i <= self.ciphertexts@.len(),
                ciphertexts@.len() == i,
                forall|j: int| 0 <= j < i ==> (#[trigger] ciphertexts@[j])@ == self.ciphertexts@[j]@,
            decreases self.ciphertexts@.len() - i,
        {
            ciphertexts.push(slice_to_vec(self.ciphertexts[i].as_slice()));
            i += 1;
        }
        assert(ciphertexts@.map_values(|v: Vec<u8>| v@) =~= self.ciphertexts());
        Ok(BobToAliceTransfer { cid: self.cid, version: self.version, ciphertexts })
    }

    /// Completes the initiator's side: decapsulates each ciphertext of the
    /// responder's message. On any error the constructor is unchanged.
    pub fn stage1_alice(&mut self, transfer: BobToAliceTransfer) -> (r: Result<(), CryptError>)
        requires
            old(self).wf(),
        ensures
            final(self).wf(),
            final(self).spec_cid() == old(self).spec_cid(),
            final(self).spec_version() == old(self).spec_version(),
            final(self).banks() == old(self).banks(),
            old(self).stage() != ConstructorStage::AliceAwaitingBob ==> r == Err::<(), CryptError>(
                CryptError::Handshake(HandshakeError::WrongStage),
            ),
            old(self).stage() == ConstructorStage::AliceAwaitingBob && (transfer.cid != old(self).spec_cid()
                || transfer.version != old(self).spec_version() || transfer.ciphertexts@.len() != old(self).banks())
                ==> r == Err::<(), CryptError>(CryptError::Handshake(HandshakeError::MalformedTransfer)),
            old(self).stage() == ConstructorStage::AliceAwaitingBob && transfer.cid == old(self).spec_cid()
                && transfer.version == old(self).spec_version() && transfer.ciphertexts@.len() == old(self).banks()
                && all_len(transfer.ciphertexts@, KEM_CIPHERTEXT_LEN as nat) ==> r is Ok,
            r is Ok ==> final(self).stage() == ConstructorStage::AliceComplete,
            r is Ok ==> final(self).agreed_keys().len() == old(self).banks(),
            r is Ok ==> forall|i: int|
                0 <= i < old(self).banks() ==> #[trigger] final(self).agreed_keys()[i] == decapsulated(
                    transfer.ciphertexts@[i]@,
                    old(self).secret_keys()[i],
                ),
            r is Err ==> *final(self) == *old(self),
    {
        if self.stage != ConstructorStage::AliceAwaitingBob {
            return Err(CryptError::Handshake(HandshakeError::WrongStage));
        }
        if transfer.cid != self.cid || transfer.version != self.version || transfer.ciphertexts.len() != self.opts.len() {
            return Err(CryptError::Handshake(HandshakeError::MalformedTransfer));
        }
        let mut shared: Vec<Vec<u8>> = Vec::new();
        let mut i: usize = 0;
        while i < self.opts.len()
            invariant
                self.wf(),
                self.stage == ConstructorStage::AliceAwaitingBob,
                transfer.ciphertexts@.len() == self.opts@.len(),
                transfer.cid == self.cid && transfer.version == self.version,
                i <= self.opts@.len(),
                shared@.len() == i,
                all_len(shared@, KEY_LEN as nat),
                *self == *old(self),
                forall|j: int|
                    0 <= j < i ==> (#[trigger] shared@[j])@ == decapsulated(
                        transfer.ciphertexts@[j]@,
                        self.secret_keys@[j]@,
                    ),
            decreases self.opts@.len() - i,
        {
            match kem_decapsulate(transfer.ciphertexts[i].as_slice(), self.secret_keys[i].as_slice()) {
                Ok(ss) => shared.push(ss),
                Err(_) => {
                    return Err(CryptError::Handshake(HandshakeError::KeyExchange));
                },
            }
            i += 1;
        }
        self.shared = shared;
        self.stage = ConstructorStage::AliceComplete;
        proof {
            assert forall|j: int| 0 <= j < old(self).banks() implies #[trigger] self.agreed_keys()[j] == decapsulated(
                transfer.ciphertexts@[j]@,
                old(self).secret_keys()[j],
            ) by {
                assert(self.shared@[j]@ == decapsulated(transfer.ciphertexts@[j]@, old(self).secret_keys@[j]@));
            }
        }
        Ok(())
    }

    /// The ratchet that a completed side agreed on: one bank per shared
    /// secret, in order. Fails while any bank is not agreed.
    pub fn finish(self) -> (r: Result<StackedRatchet, CryptError>)
        requires
            self.wf(),
        ensures
            (self.stage() == ConstructorStage::AliceComplete || self.stage() == ConstructorStage::BobComplete) <==> r is Ok,
            r is Err ==> r->Err_0 == CryptError::Handshake(HandshakeError::Incomplete),
            r is Ok ==> r->Ok_0.wf(),
            r is Ok ==> r->Ok_0.spec_cid() == self.spec_cid() && r->Ok_0.spec_version() == self.spec_version(),
            r is Ok ==> r->Ok_0.keys() == self.agreed_keys(),
            r is Ok ==> r->Ok_0.keys().len() == self.banks(),
    {
        if self.stage != ConstructorStage::AliceComplete && self.stage != ConstructorStage::BobComplete {
            return Err(CryptError::Handshake(HandshakeError::Incomplete));
        }
        let params = self.opts[0].params;
        let mut banks: Vec<EntropyBank> = Vec::new();
        let mut i: usize = 0;
        while i < self.shared.len()
            invariant
                self.wf(),
                self.stage == ConstructorStage::AliceComplete || self.stage == ConstructorStage::BobComplete,
                i <= self.shared@.len(),
                banks@.len() == i,
                forall|j: int| 0 <= j < i ==> (#[trigger] banks@[j]).key_view() == self.shared@[j]@,
            decreases self.shared@.len() - i,
        {
            assert(self.shared@[i as int]@.len() == KEY_LEN);
            match EntropyBank::from_key(slice_to_vec(self.shared[i].as_slice())) {
                Some(b) => banks.push(b),
                None => {
                    return Err(CryptError::Handshake(HandshakeError::Incomplete));
                },
            }
            i += 1;
        }
        let cid = self.cid;
        let version = self.version;
        proof {
            assert(banks@.map_values(|b: EntropyBank| b.key_view()) =~= self.agreed_keys());
        }
        match StackedRatchet::from_banks(cid, version, banks, params) {
            Some(r) => Ok(r),
            None => Err(CryptError::Handshake(HandshakeError::Incomplete)),
        }
    }
}

} // verus!
