use citadel_crypt::constructor::{ConstructorOpts, StackedRatchetConstructor};
use citadel_crypt::error::{CryptError, HandshakeError, ToolsetError};
use citadel_crypt::group::{
    par_scramble_encrypt_group, scramble_encrypt_group_with_nonces, GroupPacket, GroupReceiver, GroupReceiverConfig, GroupReceiverStatus, PacketVector,
    MAX_PACKETS_PER_WAVE, MAX_PLAINTEXT_PER_PACKET,
};
use citadel_crypt::ratchet::{CryptoParameters, StackedRatchet};
use citadel_crypt::security_level::SecurityLevel;
use citadel_crypt::toolset::{Toolset, UpdateStatus, MAX_HYPER_RATCHETS_IN_MEMORY};

fn gen(cid: u64, version: u32, sec: SecurityLevel) -> (StackedRatchet, StackedRatchet) {
    let count = sec.value() as usize + 1;
    let params = CryptoParameters::default_params();
    let mut alice =
        StackedRatchetConstructor::new_alice(ConstructorOpts::new_vec_init(Some(params), count), cid, version, Some(sec))
            .unwrap();
    let bob = StackedRatchetConstructor::new_bob(
        cid,
        version,
        ConstructorOpts::new_vec_init(Some(params), count),
        alice.stage0_alice().unwrap(),
    )
    .unwrap();
    let stage0_bob = bob.stage0_bob().unwrap();
    alice.stage1_alice(stage0_bob).unwrap();
    (alice.finish().unwrap(), bob.finish().unwrap())
}

fn header_inscriber(_v: &PacketVector, _cid: u64, _oid: u64) -> Vec<u8> {
    (0..44u8).collect()
}

#[test]
fn toolsets() {
    const COUNT: u32 = 100;
    let security_level = SecurityLevel::Standard;
    let (alice, _bob) = gen(0, 0, security_level);
    let mut toolset = Toolset::new(0, alice);

    for x in 1..COUNT {
        let res = toolset.update_from(gen(0, x, security_level).0).unwrap();
        match res {
            UpdateStatus::Committed { .. } => {
                assert!(x < MAX_HYPER_RATCHETS_IN_MEMORY as u32);
                assert_eq!(0, toolset.get_oldest_hyper_ratchet_version());
                assert_eq!(x, toolset.get_most_recent_hyper_ratchet_version());
            }
            UpdateStatus::CommittedNeedsSynchronization { old_version, .. } => {
                assert_eq!(old_version, 0);
                assert!(x + 1 > MAX_HYPER_RATCHETS_IN_MEMORY as u32);
                assert_eq!(0, toolset.get_oldest_hyper_ratchet_version());
                assert_eq!(x, toolset.get_most_recent_hyper_ratchet_version());
            }
        }
    }

    for x in 0..COUNT {
        if toolset.deregister_oldest_hyper_ratchet(x).is_ok() {
            assert_eq!(x + 1, toolset.get_oldest_hyper_ratchet_version());
        } else {
            assert_eq!(toolset.len(), MAX_HYPER_RATCHETS_IN_MEMORY);
            assert_eq!(toolset.get_oldest_hyper_ratchet_version(), COUNT - MAX_HYPER_RATCHETS_IN_MEMORY as u32);
        }
    }

    let _res = toolset.update_from(gen(0, COUNT, security_level).0).unwrap();
    assert_eq!(toolset.len(), MAX_HYPER_RATCHETS_IN_MEMORY + 1);
    assert_eq!(
        toolset.get_oldest_hyper_ratchet_version(),
        toolset.get_most_recent_hyper_ratchet_version() - MAX_HYPER_RATCHETS_IN_MEMORY as u32
    );

    toolset
        .deregister_oldest_hyper_ratchet(
            toolset.get_most_recent_hyper_ratchet_version() - MAX_HYPER_RATCHETS_IN_MEMORY as u32,
        )
        .unwrap();
    assert_eq!(toolset.len(), MAX_HYPER_RATCHETS_IN_MEMORY);
}

#[test]
fn toolset_wrapping_versions() {
    let vers = u32::MAX - 1;
    let cid = 10;
    let (hr, _) = gen(cid, vers, SecurityLevel::Standard);
    let mut toolset = Toolset::new(cid, hr);
    assert_eq!(toolset.get_hyper_ratchet(vers).unwrap().version(), vers);

    const COUNT: usize = 20;
    let mut cur_vers = vers.wrapping_add(1);
    for _ in 0..COUNT {
        toolset.update_from(gen(cid, cur_vers, SecurityLevel::Standard).0).unwrap();
        assert_eq!(toolset.get_hyper_ratchet(cur_vers).unwrap().version(), cur_vers);
        cur_vers = cur_vers.wrapping_add(1);
    }

    assert_eq!(toolset.get_oldest_hyper_ratchet().unwrap().version(), vers);
    let mut amt_culled = 0;
    for _ in 0..COUNT {
        if toolset.len() == MAX_HYPER_RATCHETS_IN_MEMORY {
            continue;
        }
        toolset.deregister_oldest_hyper_ratchet(vers.wrapping_add(amt_culled)).unwrap();
        amt_culled += 1;
        assert_eq!(toolset.get_oldest_hyper_ratchet().unwrap().version(), vers.wrapping_add(amt_culled));
    }
    assert_eq!(toolset.len(), MAX_HYPER_RATCHETS_IN_MEMORY);
    assert_eq!(
        toolset.get_oldest_hyper_ratchet_version(),
        toolset.get_most_recent_hyper_ratchet_version().wrapping_sub(MAX_HYPER_RATCHETS_IN_MEMORY as u32 - 1)
    );
    assert_eq!(
        toolset.deregister_oldest_hyper_ratchet(toolset.get_oldest_hyper_ratchet_version()),
        Err(CryptError::Toolset(ToolsetError::AtCapacityFloor))
    );
}

#[test]
fn toolset_refusals() {
    let (hr, _) = gen(3, 7, SecurityLevel::Standard);
    let mut toolset = Toolset::new(3, hr);
    assert_eq!(
        toolset.update_from(gen(3, 9, SecurityLevel::Standard).0).err(),
        Some(CryptError::Toolset(ToolsetError::VersionNotNext))
    );
    assert_eq!(
        toolset.update_from(gen(4, 8, SecurityLevel::Standard).0).err(),
        Some(CryptError::Toolset(ToolsetError::WrongConnection))
    );
    assert_eq!(toolset.get_hyper_ratchet(8).err(), Some(CryptError::Toolset(ToolsetError::NotFound)));
    assert_eq!(
        toolset.deregister_oldest_hyper_ratchet(6),
        Err(CryptError::Toolset(ToolsetError::OldestMismatch))
    );
    assert_eq!(toolset.len(), 1);
    assert_eq!(toolset.get_most_recent_hyper_ratchet().unwrap().version(), 7);
}

fn transmit(data: &[u8], alice: &StackedRatchet, bob: &StackedRatchet, order: &dyn Fn(usize) -> Vec<usize>) -> Vec<u8> {
    let mut transmitter = par_scramble_encrypt_group(data, SecurityLevel::Standard, alice, 44, 0, 0, 0, header_inscriber)
        .unwrap();
    let config = transmitter.get_receiver_config();
    let mut packets: Vec<GroupPacket> = Vec::new();
    while let Some(packet) = transmitter.get_next_packet() {
        packets.push(packet);
    }
    assert_eq!(packets.len(), config.packets_needed);
    let mut receiver = GroupReceiver::new(config, 0, 0);
    let n = packets.len();
    let mut last = GroupReceiverStatus::INVALID_PACKET;
    for idx in order(n) {
        let mut packet = packets[idx].packet.clone();
        assert_eq!(&packet[..44], &header_inscriber(&packets[idx].vector, 0, 0)[..]);
        let payload = packet.split_off(44);
        last = receiver.on_packet_received(
            0,
            packets[idx].vector.true_sequence,
            packets[idx].vector.wave_id,
            bob,
            payload,
        );
        assert_ne!(last, GroupReceiverStatus::DECRYPTION_FAILURE);
    }
    assert_eq!(last, GroupReceiverStatus::GROUP_COMPLETE(0));
    assert!(receiver.has_finished());
    receiver.finalize()
}

#[test]
fn scrambler_transmission() {
    let (alice, bob) = gen(10, 0, SecurityLevel::Standard);
    let mut data: Vec<u8> = Vec::new();
    for x in 0..1500usize {
        let got = transmit(&data, &alice, &bob, &|n| (0..n).collect());
        assert_eq!(got, data);
        data.push((x % 256) as u8);
    }
}

#[test]
fn scrambler_transmission_out_of_order() {
    let (alice, bob) = gen(10, 0, SecurityLevel::Standard);
    let mut data: Vec<u8> = Vec::new();
    for x in 0..1500usize {
        let reversed = transmit(&data, &alice, &bob, &|n| (0..n).rev().collect());
        assert_eq!(reversed, data);
        let shuffled = transmit(&data, &alice, &bob, &|n| {
            let mut v: Vec<usize> = (0..n).collect();
            for i in 0..n {
                v.swap(i, (i * 7 + 3) % n);
            }
            v
        });
        assert_eq!(shuffled, data);
        data.push((x * 31 % 256) as u8);
    }
}

#[test]
fn duplicate_packet_is_idempotent() {
    let (alice, bob) = gen(1, 0, SecurityLevel::Standard);
    let data: Vec<u8> = (0..1100u32).map(|i| (i % 251) as u8).collect();
    let mut transmitter =
        par_scramble_encrypt_group(&data, SecurityLevel::Standard, &alice, 44, 0, 0, 5, header_inscriber).unwrap();
    let config = transmitter.get_receiver_config();
    assert_eq!(config.packets_needed, 5);
    assert_eq!(config.wave_count, 2);
    let mut receiver = GroupReceiver::new(config, 0, 5);
    let mut packets: Vec<GroupPacket> = Vec::new();
    while let Some(p) = transmitter.get_next_packet() {
        packets.push(p);
    }
    let payload = |i: usize| packets[i].packet[44..].to_vec();
    assert_eq!(receiver.on_packet_received(5, 0, 0, &bob, payload(0)), GroupReceiverStatus::PACKET_ACCEPTED);
    assert_eq!(receiver.on_packet_received(5, 0, 0, &bob, payload(0)), GroupReceiverStatus::ALREADY_RECEIVED);
    assert_eq!(receiver.on_packet_received(5, 1, 0, &bob, payload(1)), GroupReceiverStatus::PACKET_ACCEPTED);
    assert_eq!(receiver.on_packet_received(5, 2, 0, &bob, payload(2)), GroupReceiverStatus::PACKET_ACCEPTED);
    assert_eq!(receiver.on_packet_received(5, 3, 0, &bob, payload(3)), GroupReceiverStatus::WAVE_COMPLETE(0));
    assert_eq!(receiver.on_packet_received(5, 3, 0, &bob, payload(3)), GroupReceiverStatus::ALREADY_RECEIVED);
    assert!(!receiver.has_finished());
    assert_eq!(receiver.on_packet_received(5, 4, 1, &bob, payload(4)), GroupReceiverStatus::GROUP_COMPLETE(5));
    assert_eq!(receiver.on_packet_received(5, 4, 1, &bob, payload(4)), GroupReceiverStatus::ALREADY_RECEIVED);
    assert_eq!(receiver.finalize(), data);
}

#[test]
fn receiver_refusals() {
    let (alice, bob) = gen(1, 0, SecurityLevel::Standard);
    let (other, _) = gen(1, 0, SecurityLevel::Standard);
    let data: Vec<u8> = vec![9u8; 300];
    let mut transmitter =
        par_scramble_encrypt_group(&data, SecurityLevel::Standard, &alice, 44, 0, 0, 2, header_inscriber).unwrap();
    let config = transmitter.get_receiver_config();
    let mut receiver = GroupReceiver::new(config, 0, 2);
    let first = transmitter.get_next_packet().unwrap();
    let payload = first.packet[44..].to_vec();
    assert_eq!(receiver.on_packet_received(3, 0, 0, &bob, payload.clone()), GroupReceiverStatus::INVALID_PACKET);
    assert_eq!(receiver.on_packet_received(2, 7, 1, &bob, payload.clone()), GroupReceiverStatus::INVALID_PACKET);
    assert_eq!(receiver.on_packet_received(2, 0, 1, &bob, payload.clone()), GroupReceiverStatus::INVALID_PACKET);
    assert_eq!(
        receiver.on_packet_received(2, 0, 0, &other, payload.clone()),
        GroupReceiverStatus::DECRYPTION_FAILURE
    );
    let mut tampered = payload.clone();
    tampered[3] ^= 1;
    assert_eq!(receiver.on_packet_received(2, 0, 0, &bob, tampered), GroupReceiverStatus::DECRYPTION_FAILURE);
    assert_eq!(receiver.on_packet_received(2, 0, 0, &bob, payload), GroupReceiverStatus::PACKET_ACCEPTED);
}

#[test]
fn group_config_values() {
    let c = GroupReceiverConfig::new(1, 2, 0, SecurityLevel::Standard, 44).unwrap();
    assert_eq!((c.packets_needed, c.wave_count, c.last_packet_plaintext_length, c.packets_in_last_wave), (1, 1, 0, 1));
    let c = GroupReceiverConfig::new(1, 2, 1500, SecurityLevel::High, 44).unwrap();
    assert_eq!(c.packets_needed, 6);
    assert_eq!(c.wave_count, 2);
    assert_eq!(c.last_packet_plaintext_length, 1500 - 5 * MAX_PLAINTEXT_PER_PACKET);
    assert_eq!(c.packets_in_last_wave, 6 - MAX_PACKETS_PER_WAVE);
    let c = GroupReceiverConfig::new(1, 2, 256, SecurityLevel::Standard, 44).unwrap();
    assert_eq!((c.packets_needed, c.last_packet_plaintext_length), (1, 256));
    let c = GroupReceiverConfig::new(1, 2, 257, SecurityLevel::Standard, 44).unwrap();
    assert_eq!((c.packets_needed, c.last_packet_plaintext_length), (2, 1));
    assert!(GroupReceiverConfig::new(1, 2, 16_777_217, SecurityLevel::Standard, 44).is_none());
}

#[test]
fn scrambler_refusals() {
    let (alice, _) = gen(1, 0, SecurityLevel::Standard);
    let data = vec![1u8; 10];
    assert_eq!(
        par_scramble_encrypt_group(&data, SecurityLevel::High, &alice, 44, 0, 0, 0, header_inscriber).err(),
        Some(CryptError::LevelInsufficient)
    );
    assert_eq!(
        par_scramble_encrypt_group(&data, SecurityLevel::Standard, &alice, 10, 0, 0, 0, header_inscriber).err(),
        Some(CryptError::BadHeader)
    );
}

#[test]
fn handshake_refusals() {
    let params = CryptoParameters::default_params();
    assert_eq!(
        StackedRatchetConstructor::new_alice(ConstructorOpts::new_vec_init(Some(params), 1), 0, 0, Some(SecurityLevel::High))
            .err(),
        Some(CryptError::Handshake(HandshakeError::BadOptions))
    );
    let mut alice =
        StackedRatchetConstructor::new_alice(ConstructorOpts::new_vec_init(Some(params), 2), 0, 0, None).unwrap();
    let transfer = alice.stage0_alice().unwrap();
    assert_eq!(
        StackedRatchetConstructor::new_bob(1, 0, ConstructorOpts::new_vec_init(Some(params), 2), transfer).err(),
        Some(CryptError::Handshake(HandshakeError::MalformedTransfer))
    );
    assert_eq!(alice.stage0_alice().err(), Some(CryptError::Handshake(HandshakeError::WrongStage)));
    assert_eq!(alice.finish().err(), Some(CryptError::Handshake(HandshakeError::Incomplete)));
}

#[test]
fn group_with_given_nonces_is_deterministic() {
    let (alice, bob) = gen(2, 0, SecurityLevel::Reinforced);
    let data: Vec<u8> = (0..700u32).map(|i| (i * 13 % 256) as u8).collect();
    let nonces: Vec<Vec<Vec<u8>>> = (0..3u8).map(|k| vec![vec![k; 24], vec![k + 100; 24]]).collect();
    let run = || {
        let mut dev = scramble_encrypt_group_with_nonces(
            &data,
            SecurityLevel::Reinforced,
            &alice,
            44,
            0,
            0,
            1,
            header_inscriber,
            &nonces,
        )
        .unwrap();
        let mut out: Vec<Vec<u8>> = Vec::new();
        while let Some(p) = dev.get_next_packet() {
            out.push(p.packet);
        }
        out
    };
    let first = run();
    let second = run();
    assert_eq!(first, second);
    assert_eq!(first.len(), 3);
    for p in &first {
        assert_eq!(&p[p.len() - 24..], &[p[p.len() - 24]; 24][..]);
    }
    assert_eq!(first[0].len(), 44 + 256 + 2 * 40);
    assert_eq!(first[2].len(), 44 + (700 - 512) + 2 * 40);
    let config = GroupReceiverConfig::new(1, 0, data.len(), SecurityLevel::Reinforced, 44).unwrap();
    assert!(config.is_valid());
    let mut receiver = GroupReceiver::new(config, 0, 1);
    for (k, p) in first.iter().enumerate().rev() {
        receiver.on_packet_received(1, k, k / MAX_PACKETS_PER_WAVE, &bob, p[44..].to_vec());
    }
    assert!(receiver.has_finished());
    assert_eq!(receiver.finalize(), data);
}

#[test]
fn config_validity() {
    let (alice, _) = gen(2, 0, SecurityLevel::Standard);
    let dev = par_scramble_encrypt_group(&[5u8; 600], SecurityLevel::Standard, &alice, 44, 0, 0, 0, header_inscriber)
        .unwrap();
    let mut config = dev.get_receiver_config();
    assert!(config.is_valid());
    config.packets_needed += 1;
    assert!(!config.is_valid());
}

#[test]
fn ratchet_persisted_form_round_trip() {
    let (alice, bob) = gen(0x0102, 0x0304_0506, SecurityLevel::Reinforced);
    let bytes = alice.serialize();
    assert_eq!(bytes.len(), 23 + 2 * 32);
    assert_eq!(&bytes[..8], &0x0102u64.to_le_bytes());
    assert_eq!(&bytes[8..12], &0x0304_0506u32.to_le_bytes());
    assert_eq!(&bytes[12..15], &[0, 0, 0]);
    assert_eq!(&bytes[15..23], &2u64.to_le_bytes());
    let mut padded = vec![9u8; 3];
    padded.extend_from_slice(&bytes);
    padded.push(1);
    let (back, end) = StackedRatchet::deserialize_at(&padded, 3).unwrap();
    assert_eq!(end, 3 + bytes.len());
    assert_eq!(back.serialize(), bytes);
    assert_eq!(back.get_cid(), 0x0102);
    assert_eq!(back.version(), 0x0304_0506);
    let sealed = back.encrypt(Some(SecurityLevel::Reinforced), b"persisted").unwrap();
    assert_eq!(bob.decrypt(Some(SecurityLevel::Reinforced), &sealed).unwrap(), b"persisted");
    let mut other_version = bytes.clone();
    other_version[8] ^= 1;
    let (moved, _) = StackedRatchet::deserialize_at(&other_version, 0).unwrap();
    assert_eq!(moved.decrypt(Some(SecurityLevel::Reinforced), &sealed).err(), Some(CryptError::Validation));
    assert_eq!(StackedRatchet::deserialize_at(&bytes[..bytes.len() - 1], 0).err(), Some(CryptError::Serialization));
    let mut bad_code = bytes.clone();
    bad_code[13] = 7;
    assert_eq!(StackedRatchet::deserialize_at(&bad_code, 0).err(), Some(CryptError::Serialization));
    let mut no_bank = bytes.clone();
    no_bank[15] = 0;
    assert_eq!(StackedRatchet::deserialize_at(&no_bank, 0).err(), Some(CryptError::Serialization));
}

#[test]
fn toolset_persisted_form_round_trip() {
    let vers = u32::MAX - 2;
    let (hr, _) = gen(4, vers, SecurityLevel::Standard);
    let mut toolset = Toolset::new(4, hr);
    for k in 1..8u32 {
        toolset.update_from(gen(4, vers.wrapping_add(k), SecurityLevel::Standard).0).unwrap();
    }
    let bytes = toolset.serialize();
    assert_eq!(bytes.len(), 20 + 8 * (23 + 32));
    let back = Toolset::deserialize(&bytes).unwrap();
    assert_eq!(back.get_cid(), 4);
    assert_eq!(back.len(), 8);
    assert_eq!(back.get_oldest_hyper_ratchet_version(), vers);
    assert_eq!(back.get_most_recent_hyper_ratchet_version(), vers.wrapping_add(7));
    assert_eq!(back.serialize(), bytes);
    assert_eq!(Toolset::deserialize(&bytes[..bytes.len() - 5]).err(), Some(CryptError::Serialization));
    let mut wrong_oldest = bytes.clone();
    wrong_oldest[8] ^= 1;
    assert_eq!(Toolset::deserialize(&wrong_oldest).err(), Some(CryptError::Serialization));
    let mut empty = bytes[..20].to_vec();
    empty[12] = 0;
    assert_eq!(Toolset::deserialize(&empty).err(), Some(CryptError::Serialization));
}
