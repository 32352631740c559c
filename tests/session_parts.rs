use citadel_crypt::constructor::{ConstructorOpts, StackedRatchetConstructor};
use citadel_crypt::error::{CryptError, HandshakeError, ToolsetError};
use citadel_crypt::ffi::{load_and_execute_ffi_static, FFI_ALREADY_LOADED, FFI_STARTED};
use citadel_crypt::ordered_channel::OrderedChannel;
use citadel_crypt::protocol::{process, IDGen, SymmetricConvID, Ticket};
use citadel_crypt::ratchet::{CryptoParameters, StackedRatchet};
use citadel_crypt::register::{
    answer_stage0, complete_stage1, process as register_process, RegisterAction, SessionState, REGISTER_FAILURE,
    REGISTER_STAGE0, REGISTER_STAGE1, REGISTER_STAGE2, REGISTER_SUCCESS,
};
use citadel_crypt::secure_buffer::{SecBuffer, SecString};
use citadel_crypt::security_level::SecurityLevel;
use citadel_crypt::toolset::Toolset;

fn gen(cid: u64, version: u32, sec: SecurityLevel) -> (StackedRatchet, StackedRatchet) {
    let count = sec.value() as usize + 1;
    let params = CryptoParameters::default_params();
    let mut alice =
        StackedRatchetConstructor::new_alice(ConstructorOpts::new_vec_init(Some(params), count), cid, version, Some(sec))
            .unwrap();
    let bob = StackedRatchetConstructor::new_bob(
        cid,
        version,
        ConstructorOpts::new_vec_init(Some(params), count),
        alice.stage0_alice().unwrap(),
    )
    .unwrap();
    let stage0_bob = bob.stage0_bob().unwrap();
    alice.stage1_alice(stage0_bob).unwrap();
    (alice.finish().unwrap(), bob.finish().unwrap())
}

const DATA: &[u8] = b"Hello, world!";

#[test]
fn test_drill_encrypt_decrypt_basic() {
    let (alice, bob) = gen(0, 0, SecurityLevel::High);
    let encrypted = alice.encrypt(None, DATA).unwrap();
    assert_ne!(&encrypted[..DATA.len()], DATA);
    assert_eq!(encrypted.len(), DATA.len() + 40);
    let decrypted = bob.decrypt(None, &encrypted).unwrap();
    assert_eq!(decrypted, DATA);
    let encrypted = alice.encrypt(Some(SecurityLevel::High), DATA).unwrap();
    assert_eq!(encrypted.len(), DATA.len() + 3 * 40);
    assert_eq!(bob.decrypt(Some(SecurityLevel::High), &encrypted).unwrap(), DATA);
    assert_eq!(bob.decrypt(Some(SecurityLevel::Reinforced), &encrypted).err(), Some(CryptError::Validation));
}

#[test]
fn levels_above_capacity_are_refused() {
    for sec in 0..4u8 {
        let (alice, bob) = gen(0, 0, SecurityLevel::for_value(sec));
        assert_eq!(alice.bank_count(), sec as usize + 1);
        for level in 0..=255u8 {
            let mut packet: Vec<u8> = (0..60u8).collect();
            let untouched = packet.clone();
            let r = alice.protect_message_packet(Some(level.into()), 10, &mut packet);
            if level <= sec {
                assert!(r.is_ok());
                let mut payload = packet.split_off(10);
                assert_eq!(bob.validate_message_packet(Some(level.into()), &packet, &mut payload), Ok(()));
                packet.extend_from_slice(&payload);
                assert_eq!(packet, untouched);
            } else {
                assert_eq!(r, Err(CryptError::LevelInsufficient));
                assert_eq!(packet, untouched);
                let mut payload = packet.split_off(10);
                assert_eq!(
                    bob.validate_message_packet(Some(level.into()), &packet, &mut payload),
                    Err(CryptError::LevelInsufficient)
                );
            }
        }
    }
}

#[test]
fn tampered_header_fails_validation() {
    let (alice, bob) = gen(0, 0, SecurityLevel::Reinforced);
    let mut packet: Vec<u8> = (0..40u8).collect();
    alice.protect_message_packet(Some(SecurityLevel::Reinforced), 16, &mut packet).unwrap();
    let mut payload = packet.split_off(16);
    let before = payload.clone();
    packet[0] ^= 0xff;
    assert_eq!(
        bob.validate_message_packet(Some(SecurityLevel::Reinforced), &packet, &mut payload),
        Err(CryptError::Validation)
    );
    assert_eq!(payload, before);
    let mut short: Vec<u8> = vec![1, 2, 3];
    assert_eq!(alice.protect_message_packet(None, 4, &mut short), Err(CryptError::Validation));
}

#[test]
fn sec_buffer_binary_form() {
    let buf = SecBuffer::from_bytes(&[7, 8, 9]);
    let bytes = buf.serialize();
    assert_eq!(bytes, vec![3, 0, 0, 0, 0, 0, 0, 0, 7, 8, 9]);
    assert_eq!(bytes, bincode2::serialize(&vec![7u8, 8, 9]).unwrap());
    let mut longer = bytes.clone();
    longer.push(42);
    assert_eq!(SecBuffer::deserialize(&longer).unwrap().as_ref(), &[7, 8, 9]);
    assert_eq!(SecBuffer::deserialize(&bytes[..10]).err(), Some(CryptError::Serialization));
    assert_eq!(SecBuffer::deserialize(&[]).err(), Some(CryptError::Serialization));
    let empty = SecBuffer::new();
    assert_eq!(SecBuffer::deserialize(&empty.serialize()).unwrap().len(), 0);
}

#[test]
fn sec_string_binary_form() {
    let s = SecString::from_text("h\u{e9}y");
    assert_eq!(s.len(), 4);
    let bytes = s.serialize();
    assert_eq!(bytes, vec![4, 0, 0, 0, 0, 0, 0, 0, b'h', 0xc3, 0xa9, b'y']);
    assert_eq!(SecString::deserialize(&bytes).unwrap().as_str(), "h\u{e9}y");
    let bad = vec![1, 0, 0, 0, 0, 0, 0, 0, 0xff];
    assert_eq!(SecString::deserialize(&bad).err(), Some(CryptError::Serialization));
    let copy = s.clone();
    let mut other = copy.clone();
    other.push('!');
    assert_eq!(copy.as_str(), "h\u{e9}y");
    assert_eq!(other.as_str(), "h\u{e9}y!");
    assert_eq!(SecBuffer::from_text("h\u{e9}").as_ref(), &[b'h', 0xc3, 0xa9]);
}

#[test]
fn smoke_ordered() {
    let mut channel = OrderedChannel::new();
    let mut received: Vec<Vec<u8>> = Vec::new();
    for id in 0..100u64 {
        let out = channel.on_packet_received(id, id.to_le_bytes().to_vec());
        assert_eq!(out.len(), 1);
        received.extend(out);
    }
    let expected: Vec<Vec<u8>> = (0..100u64).map(|id| id.to_le_bytes().to_vec()).collect();
    assert_eq!(received, expected);
}

#[test]
fn smoke_unordered() {
    let mut channel = OrderedChannel::new();
    let mut received: Vec<Vec<u8>> = Vec::new();
    let n = 1000u64;
    for i in 0..n {
        let id = (i * 617 + 11) % n;
        received.extend(channel.on_packet_received(id, id.to_le_bytes().to_vec()));
    }
    let expected: Vec<Vec<u8>> = (0..n).map(|id| id.to_le_bytes().to_vec()).collect();
    assert_eq!(received, expected);
}

#[test]
fn ordered_channel_releases_runs() {
    let mut channel = OrderedChannel::new();
    assert!(channel.on_packet_received(2, vec![2]).is_empty());
    assert!(channel.on_packet_received(1, vec![1]).is_empty());
    assert!(channel.on_packet_received(4, vec![4]).is_empty());
    assert_eq!(channel.on_packet_received(0, vec![0]), vec![vec![0], vec![1], vec![2]]);
    assert_eq!(channel.on_packet_received(3, vec![3]), vec![vec![3], vec![4]]);
    assert_eq!(channel.on_packet_received(5, vec![5]), vec![vec![5]]);
}

#[test]
fn hole_punch_packet_is_forwarded() {
    let (alice, bob) = gen(5, 3, SecurityLevel::Standard);
    let toolset = Toolset::new(5, bob);
    let mut packet: Vec<u8> = 0x0102_0304_0506_0708u64.to_le_bytes().to_vec();
    packet.extend_from_slice(b"punch");
    alice.protect_message_packet(None, 8, &mut packet).unwrap();
    let payload = packet.split_off(8);
    let forward = process(&toolset, 3, &packet, payload.clone()).unwrap();
    assert_eq!(forward.peer_cid, 0x0102_0304_0506_0708);
    assert_eq!(forward.payload, b"punch");
    assert_eq!(process(&toolset, 4, &packet, payload.clone()).err(), Some(CryptError::Toolset(ToolsetError::NotFound)));
    assert_eq!(process(&toolset, 3, &packet[..4], payload).err(), Some(CryptError::Validation));
}

#[test]
fn ffi_kernel_is_started_once() {
    let mut slot: Option<i64> = None;
    assert_eq!(load_and_execute_ffi_static(&mut slot, 17), FFI_STARTED);
    assert_eq!(slot, Some(17));
    assert_eq!(load_and_execute_ffi_static(&mut slot, 18), FFI_ALREADY_LOADED);
    assert_eq!(slot, Some(18));
}

#[test]
fn tickets_and_stream_ids() {
    let t: Ticket = 42u64.into();
    assert_eq!(t, Ticket(42));
    let t: Ticket = 7usize.into();
    assert_eq!(t.value(), 7);
    let mut container = SymmetricConvID::generate_container();
    assert_eq!(SymmetricConvID::get_proposed_next(&container), SymmetricConvID(1));
    assert_eq!(SymmetricConvID::generate_next(&mut container), SymmetricConvID(1));
    assert_eq!(SymmetricConvID::generate_next(&mut container), SymmetricConvID(2));
    assert_eq!(SymmetricConvID::get_proposed_next(&container), SymmetricConvID(3));
}

#[test]
fn security_level_values() {
    assert_eq!(SecurityLevel::Standard.value(), 0);
    assert_eq!(SecurityLevel::Extreme.value(), 4);
    assert_eq!(SecurityLevel::from(3u8), SecurityLevel::Ultra);
    assert_eq!(SecurityLevel::from(9u8), SecurityLevel::Custom(9));
    assert_eq!(SecurityLevel::Custom(255).value(), 255);
    assert_eq!(SecurityLevel::or_default(None), SecurityLevel::Standard);
}

#[test]
fn registration_gating() {
    let s = SessionState::NeedsRegister;
    assert_eq!(register_process(s, REGISTER_STAGE0, REGISTER_STAGE0, false, true), RegisterAction::AnswerStage0);
    assert_eq!(register_process(s, REGISTER_STAGE0, REGISTER_STAGE1, false, true), RegisterAction::CompleteStage1);
    assert_eq!(register_process(s, REGISTER_STAGE1, REGISTER_STAGE2, false, true), RegisterAction::RegisterAccount);
    assert_eq!(register_process(s, REGISTER_STAGE2, REGISTER_SUCCESS, false, true), RegisterAction::FinishRegistration);
    assert_eq!(register_process(s, REGISTER_STAGE1, REGISTER_FAILURE, false, true), RegisterAction::EndOnFailure);
    assert_eq!(register_process(s, REGISTER_STAGE0, REGISTER_FAILURE, false, true), RegisterAction::Drop);
    assert_eq!(register_process(s, REGISTER_STAGE1, REGISTER_STAGE1, false, true), RegisterAction::Drop);
    assert_eq!(register_process(s, REGISTER_STAGE0, 9, false, true), RegisterAction::Drop);
    assert_eq!(
        register_process(SessionState::Connected, REGISTER_STAGE0, REGISTER_STAGE0, false, true),
        RegisterAction::Drop
    );
    assert_eq!(register_process(s, REGISTER_STAGE0, REGISTER_STAGE0, true, true), RegisterAction::AnswerStage0);
    assert_eq!(
        register_process(s, REGISTER_STAGE0, REGISTER_STAGE0, true, false),
        RegisterAction::RefusePasswordless
    );
    assert_eq!(register_process(s, REGISTER_STAGE1, REGISTER_STAGE2, true, false), RegisterAction::RegisterAccount);
}

#[test]
fn registration_refusals() {
    let params = CryptoParameters::default_params();
    let mut alice =
        StackedRatchetConstructor::new_alice(ConstructorOpts::new_vec_init(Some(params), 2), 77, 0, None).unwrap();
    let transfer = alice.stage0_alice().unwrap();
    assert_eq!(transfer.public_keys.len(), 2);
    assert_eq!(transfer.params, vec![params, params]);
    assert_eq!(answer_stage0(78, transfer).err(), Some(CryptError::Handshake(HandshakeError::MalformedTransfer)));
    let mut alice =
        StackedRatchetConstructor::new_alice(ConstructorOpts::new_vec_init(Some(params), 1), 77, 0, None).unwrap();
    let mut transfer = alice.stage0_alice().unwrap();
    transfer.params.clear();
    transfer.public_keys.clear();
    assert_eq!(answer_stage0(77, transfer).err(), Some(CryptError::Handshake(HandshakeError::BadOptions)));
    let mut alice =
        StackedRatchetConstructor::new_alice(ConstructorOpts::new_vec_init(Some(params), 2), 77, 0, None).unwrap();
    let transfer = alice.stage0_alice().unwrap();
    let (mut answer, _) = answer_stage0(77, transfer).unwrap();
    answer.ciphertexts[1].pop();
    assert_eq!(
        complete_stage1(alice, answer).err(),
        Some(CryptError::Handshake(HandshakeError::KeyExchange))
    );
}

#[test]
fn ordered_channel_duplicates_change_nothing() {
    let mut channel = OrderedChannel::new();
    assert!(channel.on_packet_received(2, vec![2]).is_empty());
    assert!(channel.on_packet_received(2, vec![2]).is_empty());
    assert_eq!(channel.on_packet_received(0, vec![0]), vec![vec![0]]);
    assert!(channel.on_packet_received(0, vec![0]).is_empty());
    assert_eq!(channel.on_packet_received(1, vec![1]), vec![vec![1], vec![2]]);
    assert_eq!(channel.on_packet_received(3, vec![3]), vec![vec![3]]);
}

#[test]
fn registration_handshake() {
    let params = CryptoParameters::default_params();
    let mut alice =
        StackedRatchetConstructor::new_alice(ConstructorOpts::new_vec_init(Some(params), 2), 77, 0, None).unwrap();
    let transfer = alice.stage0_alice().unwrap();
    let (answer, bob_ratchet) = answer_stage0(77, transfer).unwrap();
    assert_eq!(bob_ratchet.get_cid(), 77);
    assert_eq!(bob_ratchet.bank_count(), 2);
    let alice_ratchet = complete_stage1(alice, answer).unwrap();
    assert_eq!(alice_ratchet.version(), 0);
    let sealed = alice_ratchet.encrypt(Some(SecurityLevel::Reinforced), b"credentials").unwrap();
    assert_eq!(bob_ratchet.decrypt(Some(SecurityLevel::Reinforced), &sealed).unwrap(), b"credentials");
}
