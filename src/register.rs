//! The registration exchange between a new client (Alice) and a server
//! (Bob): which registration packet a session may take in its current state,
//! and the handshake steps that each side performs on it.
use crate::constructor::{
    all_len, AliceToBobTransfer, BobToAliceTransfer, ConstructorOpts, ConstructorStage, StackedRatchetConstructor,
};
use crate::error::{CryptError, HandshakeError};
use crate::provider::{decapsulated, KEM_CIPHERTEXT_LEN};
use crate::ratchet::StackedRatchet;
use vstd::prelude::*;

verus! {

/// Auxiliary command of the first registration packet (Alice's keys).
pub const REGISTER_STAGE0: u8 = 0;

/// Auxiliary command of Bob's answer (his ciphertexts).
pub const REGISTER_STAGE1: u8 = 1;

/// Auxiliary command of Alice's proposed credentials.
pub const REGISTER_STAGE2: u8 = 2;

/// Auxiliary command of Bob's confirmation.
pub const REGISTER_SUCCESS: u8 = 3;

/// Auxiliary command of a refusal, at any stage after the first.
pub const REGISTER_FAILURE: u8 = 4;

/// Where a session stands.
#[derive(Clone, Copy, Debug, PartialEq, Eq, Structural)]
pub enum SessionState {
    SocketJustOpened,
    NeedsRegister,
    NeedsConnect,
    Connected,
    Disconnected,
}

/// What a session does with a registration packet.
#[derive(Clone, Copy, Debug, PartialEq, Eq, Structural)]
pub enum RegisterAction {
    /// Ignore the packet.
    Drop,
    /// As Bob: answer Alice's keys and keep the new ratchet.
    AnswerStage0,
    /// As Bob: refuse a passwordless registration that this node does not
    /// allow, replying with a failure.
    RefusePasswordless,
    /// As Alice: complete the handshake and send the credentials.
    CompleteStage1,
    /// As Bob: check the credentials and register the account.
    RegisterAccount,
    /// As Alice: store the account that Bob confirmed.
    FinishRegistration,
    /// End the exchange with the peer's reason.
    EndOnFailure,
}

/// The session is in a state that takes registration packets.
pub open spec fn registering(state: SessionState) -> bool {
    state == SessionState::NeedsRegister || state == SessionState::SocketJustOpened || state
        == SessionState::NeedsConnect
}

/// Decides what a session does with a registration packet: a packet is
/// taken only in a state that is registering, and only when it is the
/// packet that follows the stage last reached. `passwordless` says whether
/// a first packet asks for a passwordless account, and
/// `allow_passwordless` whether this node accepts such accounts.
pub fn process(
    state: SessionState,
    last_stage: u8,
    cmd_aux: u8,
    passwordless: bool,
    allow_passwordless: bool,
) -> (r: RegisterAction)
    ensures
        (r == RegisterAction::AnswerStage0) <==> registering(state) && cmd_aux == REGISTER_STAGE0 && last_stage
            == REGISTER_STAGE0 && (allow_passwordless || !passwordless),
        (r == RegisterAction::RefusePasswordless) <==> registering(state) && cmd_aux == REGISTER_STAGE0 && last_stage
            == REGISTER_STAGE0 && passwordless && !allow_passwordless,
        (r == RegisterAction::CompleteStage1) <==> registering(state) && cmd_aux == REGISTER_STAGE1 && last_stage
            == REGISTER_STAGE0,
        (r == RegisterAction::RegisterAccount) <==> registering(state) && cmd_aux == REGISTER_STAGE2 && last_stage
            == REGISTER_STAGE1,
        (r == RegisterAction::FinishRegistration) <==> registering(state) && cmd_aux == REGISTER_SUCCESS
            && last_stage == REGISTER_STAGE2,
        (r == RegisterAction::EndOnFailure) <==> registering(state) && cmd_aux == REGISTER_FAILURE && last_stage
            > REGISTER_STAGE0,
{
    if state != SessionState::NeedsRegister && state != SessionState::SocketJustOpened && state
        != SessionState::NeedsConnect {
        return RegisterAction::Drop;
    }
    if cmd_aux == REGISTER_STAGE0 {
        if last_stage == REGISTER_STAGE0 && passwordless && !allow_passwordless {
            RegisterAction::RefusePasswordless
        } else if last_stage == REGISTER_STAGE0 {
            RegisterAction::AnswerStage0
        } else {
            RegisterAction::Drop
        }
    } else if cmd_aux == REGISTER_STAGE1 {
        if last_stage == REGISTER_STAGE0 {
            RegisterAction::CompleteStage1
        } else {
            RegisterAction::Drop
        }
    } else if cmd_aux == REGISTER_STAGE2 {
        if last_stage == REGISTER_STAGE1 {
            RegisterAction::RegisterAccount
        } else {
            RegisterAction::Drop
        }
    } else if cmd_aux == REGISTER_SUCCESS {
        if last_stage == REGISTER_STAGE2 {
            RegisterAction::FinishRegistration
        } else {
            RegisterAction::Drop
        }
    } else if cmd_aux == REGISTER_FAILURE {
        if last_stage > REGISTER_STAGE0 {
            RegisterAction::EndOnFailure
        } else {
            RegisterAction::Drop
        }
    } else {
        RegisterAction::Drop
    }
}

/// Bob's side of a registration: answers Alice's keys for connection
/// `cid` with one bank per key, under the algorithms she proposed, and
/// returns the answer to send together with the new ratchet (version 0).
pub fn answer_stage0(cid: u64, transfer: AliceToBobTransfer) -> (r: Result<(BobToAliceTransfer, StackedRatchet), CryptError>)
    ensures
        transfer.params@.len() == 0 <==> r == Err::<(BobToAliceTransfer, StackedRatchet), CryptError>(
            CryptError::Handshake(HandshakeError::BadOptions),
        ),
        transfer.params@.len() != 0 && (transfer.cid != cid || transfer.version != 0 || transfer.public_keys@.len()
            != transfer.params@.len()) <==> r == Err::<(BobToAliceTransfer, StackedRatchet), CryptError>(
            CryptError::Handshake(HandshakeError::MalformedTransfer),
        ),
        transfer.params@.len() != 0 && transfer.cid == cid && transfer.version == 0 && transfer.public_keys@.len()
            == transfer.params@.len() && (exists|i: int|
            0 <= i < transfer.params@.len() && #[trigger] transfer.params@[i] != transfer.params@[0]) <==> r == Err::<
            (BobToAliceTransfer, StackedRatchet),
            CryptError,
        >(CryptError::Handshake(HandshakeError::AlgorithmMismatch)),
        r is Err ==> r->Err_0 == CryptError::Handshake(HandshakeError::BadOptions) || r->Err_0 == CryptError::Handshake(
            HandshakeError::MalformedTransfer,
        ) || r->Err_0 == CryptError::Handshake(HandshakeError::AlgorithmMismatch) || r->Err_0 == CryptError::Handshake(
            HandshakeError::KeyExchange,
        ),
        r is Ok ==> r->Ok_0.1.wf(),
        r is Ok ==> r->Ok_0.1.spec_cid() == cid && r->Ok_0.1.spec_version() == 0,
        r is Ok ==> r->Ok_0.1.keys().len() == transfer.params@.len(),
        r is Ok ==> r->Ok_0.0.cid == cid && r->Ok_0.0.version == 0,
        r is Ok ==> r->Ok_0.0.ciphertexts@.len() == transfer.params@.len(),
{
    if transfer.params.len() == 0 {
        return Err(CryptError::Handshake(HandshakeError::BadOptions));
    }
    let opts = ConstructorOpts::new_vec_init(Some(transfer.params[0]), transfer.params.len());
    let ghost params = transfer.params@;
    proof {
        if exists|i: int| 0 <= i < params.len() && #[trigger] params[i] != params[0] {
            let i = choose|i: int| 0 <= i < params.len() && #[trigger] params[i] != params[0];
            assert(opts@[i].params != params[i]);
        }
        if !crate::constructor::opts_match(opts@, params) {
            assert(exists|i: int| 0 <= i < params.len() && #[trigger] params[i] != params[0]);
        }
    }
    let bob = match StackedRatchetConstructor::new_bob(cid, 0, opts, transfer) {
        Ok(b) => b,
        Err(e) => {
            return Err(e);
        },
    };
    let answer = match bob.stage0_bob() {
        Ok(a) => a,
        Err(e) => {
            return Err(e);
        },
    };
    match bob.finish() {
        Ok(ratchet) => Ok((answer, ratchet)),
        Err(e) => Err(e),
    }
}

/// Alice's side: completes her handshake with Bob's answer and returns
/// the agreed ratchet.
pub fn complete_stage1(alice: StackedRatchetConstructor, transfer: BobToAliceTransfer) -> (r: Result<
    StackedRatchet,
    CryptError,
>)
    requires
        alice.wf(),
    ensures
        alice.stage() != ConstructorStage::AliceAwaitingBob ==> r == Err::<StackedRatchet, CryptError>(
            CryptError::Handshake(HandshakeError::WrongStage),
        ),
        r is Ok ==> r->Ok_0.wf(),
        r is Ok ==> r->Ok_0.spec_cid() == alice.spec_cid() && r->Ok_0.spec_version() == alice.spec_version(),
        r is Ok ==> r->Ok_0.keys().len() == alice.banks(),
        alice.stage() == ConstructorStage::AliceAwaitingBob && transfer.cid == alice.spec_cid() && transfer.version
            == alice.spec_version() && transfer.ciphertexts@.len() == alice.banks() && all_len(
            transfer.ciphertexts@,
            KEM_CIPHERTEXT_LEN as nat,
        ) ==> r is Ok,
        r is Ok ==> forall|i: int|
            0 <= i < alice.banks() ==> #[trigger] r->Ok_0.keys()[i] == decapsulated(
                transfer.ciphertexts@[i]@,
                alice.secret_keys()[i],
            ),
{
    let mut alice = alice;
    match alice.stage1_alice(transfer) {
        Ok(()) => {},
        Err(e) => {
            return Err(e);
        },
    }
    alice.finish()
}

} // verus!
