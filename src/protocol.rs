//! Values that the surrounding session layer exchanges with this core:
//! request tickets, key-exchange messages, push-message records, stream
//! identifiers, and the decision taken on an inbound hole-punch packet.
use crate::error::CryptError;
use crate::ratchet::{level_banks, opens_to};
use crate::bytes::{le_bytes, read_le};
use crate::security_level::SecurityLevel;
use crate::toolset::Toolset;
use vstd::prelude::*;

verus! {

/// Key-exchange stage codes on the wire.
pub const KEP_STAGE0: u8 = 0;

pub const KEP_STAGE1: u8 = 1;

pub const KEP_INIT_REKEY: u8 = 2;

pub const KEP_ACCEPT_REKEY: u8 = 3;

/// Identifies a request made through the server, and its answers.
#[derive(Clone, Copy, Debug, PartialEq, Eq, Hash, Structural)]
pub struct Ticket(pub u64);

impl Ticket {
    pub fn value(&self) -> (r: u64)
        ensures
            r == self.0,
    {
        self.0
    }
}

impl From<u64> for Ticket {
    fn from(n: u64) -> (r: Ticket) {
        Ticket(n)
    }
}

impl vstd::std_specs::convert::FromSpecImpl<u64> for Ticket {
    open spec fn obeys_from_spec() -> bool {
        true
    }

    open spec fn from_spec(n: u64) -> Ticket {
        Ticket(n)
    }
}

impl From<usize> for Ticket {
    fn from(n: usize) -> (r: Ticket) {
        Ticket(n as u64)
    }
}

impl vstd::std_specs::convert::FromSpecImpl<usize> for Ticket {
    open spec fn obeys_from_spec() -> bool {
        true
    }

    open spec fn from_spec(n: usize) -> Ticket {
        Ticket(n as u64)
    }
}

/// How strictly a session keeps forward secrecy.
#[derive(Clone, Copy, Debug, PartialEq, Eq, Structural)]
pub enum SecrecyMode {
    /// Every message waits for a fresh ratchet.
    Perfect,
    /// Messages may reuse the latest ratchet while a new one is agreed.
    BestEffort,
}

/// The security settings that a session negotiates.
#[derive(Clone, Copy, Debug, PartialEq, Eq, Structural)]
pub struct SessionSecuritySettings {
    pub security_level: SecurityLevel,
    pub secrecy_mode: SecrecyMode,
}

/// Messages of the peer-to-peer key exchange and hole punch.
#[derive(Clone, Debug)]
pub enum KeyExchangeProcess {
    /// Alice sends her public key material.
    Stage0(Vec<u8>, SessionSecuritySettings),
    /// Bob sends his ciphertext, and his address if known.
    Stage1(Vec<u8>, Option<String>),
    /// Alice sends a synchronisation time.
    Stage2(i64, Option<String>),
    /// A connection was established; the other side must still prove who it is.
    HolePunchEstablished,
    /// The other side proved itself; whether the connection was upgraded.
    HolePunchEstablishedVerified(bool),
    /// The hole punch failed.
    HolePunchFailed,
}

/// Identifies a push-message exchange between two clients.
#[derive(Clone, Copy, Debug, PartialEq, Eq, Structural)]
pub struct FcmTicket {
    pub source_cid: u64,
    pub target_cid: u64,
    pub ticket: u64,
}

/// A push message received.
#[derive(Clone, Debug)]
pub struct FcmMessage {
    pub fcm_ticket: FcmTicket,
    pub message: Vec<u8>,
}

/// A push message was sent.
#[derive(Clone, Copy, Debug)]
pub struct FcmMessageSent {
    pub fcm_ticket: FcmTicket,
}

/// A push message was received by its peer.
#[derive(Clone, Copy, Debug)]
pub struct FcmMessageReceived {
    pub fcm_ticket: FcmTicket,
}

/// Makes identifiers of one kind from a container of state.
pub trait IDGen<Key>: Sized {
    type Container;

    fn generate_container() -> Self::Container;

    /// A fresh identifier; advances the container.
    fn generate_next(container: &mut Self::Container) -> Self;

    /// The identifier that `generate_next` would give now.
    fn get_proposed_next(container: &Self::Container) -> Key;
}

/// Identifies a multiplexed stream on both ends of a connection.
#[derive(Clone, Copy, Debug, PartialEq, Eq, Hash, Structural)]
pub struct SymmetricConvID(pub u64);

impl IDGen<SymmetricConvID> for SymmetricConvID {
    type Container = u64;

    fn generate_container() -> (r: u64)
        ensures
            r == 0,
    {
        0
    }

    fn generate_next(container: &mut u64) -> (r: SymmetricConvID)
        ensures
            *final(container) == (*old(container)).wrapping_add(1),
            r.0 == *final(container),
    {
        *container = container.wrapping_add(1);
        SymmetricConvID(*container)
    }

    fn get_proposed_next(container: &u64) -> (r: SymmetricConvID)
        ensures
            r.0 == (*container).wrapping_add(1),
    {
        SymmetricConvID(container.wrapping_add(1))
    }
}

/// An inbound hole-punch packet that authenticated, and the peer whose
/// hole puncher should receive its payload.
pub struct HolePunchForward {
    pub peer_cid: u64,
    pub payload: Vec<u8>,
}

/// Handles an inbound hole-punch packet: finds the ratchet of `hr_version`,
/// validates the payload at the default level with the header (bound to
/// the ratchet) as associated data, and reads the target peer from the header's first
/// eight bytes (little-endian). The caller forwards the payload to that
/// peer's hole puncher.
pub fn process(toolset: &Toolset, hr_version: u32, header: &[u8], payload: Vec<u8>) -> (r: Result<
    HolePunchForward,
    CryptError,
>)
    requires
        toolset.wf(),
    ensures
        !toolset.holds(hr_version) ==> r == Err::<HolePunchForward, CryptError>(
            CryptError::Toolset(crate::error::ToolsetError::NotFound),
        ),
        r is Ok ==> toolset.holds(hr_version) && opens_to(
            toolset.ratchet_of(hr_version).keys().take(level_banks(None) as int),
            toolset.ratchet_of(hr_version).bind(header@),
            payload@,
            r->Ok_0.payload@,
        ),
        r is Ok ==> header@.len() >= 8 && le_bytes(r->Ok_0.peer_cid as nat, 8) == header@.take(8),
        header@.len() < 8 ==> r is Err,
        forall|pt: Seq<u8>|
            toolset.holds(hr_version) && header@.len() >= 8 && payload@.len() <= crate::provider::MAX_SEAL_LEN
                && #[trigger] opens_to(
                toolset.ratchet_of(hr_version).keys().take(level_banks(None) as int),
                toolset.ratchet_of(hr_version).bind(header@),
                payload@,
                pt,
            )
                ==> r is Ok && r->Ok_0.payload@ == pt,
{
    let ratchet = match toolset.get_hyper_ratchet(hr_version) {
        Ok(r) => r,
        Err(e) => {
            return Err(e);
        },
    };
    if header.len() < 8 {
        return Err(CryptError::Validation);
    }
    let mut payload = payload;
    proof {
        ratchet.lemma_wf_has_bank();
    }
    match ratchet.validate_message_packet(None, header, &mut payload) {
        Ok(()) => {},
        Err(e) => {
            return Err(e);
        },
    }
    let peer_cid = read_le(header, 0, 8);
    proof {
        assert(header@.subrange(0, 8) =~= header@.take(8));
    }
    Ok(HolePunchForward { peer_cid, payload })
}

} // verus!
