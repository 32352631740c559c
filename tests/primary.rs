use citadel_crypt::constructor::{ConstructorOpts, StackedRatchetConstructor};
use citadel_crypt::ratchet::{CryptoParameters, EncryptionAlgorithm, KemAlgorithm, SigAlgorithm, StackedRatchet};
use citadel_crypt::secure_buffer::{SecBuffer, SecString};
use citadel_crypt::security_level::SecurityLevel;

const KEM_ALGORITHMS: [KemAlgorithm; 1] = [KemAlgorithm::Kyber];

fn hyper_ratchet(params: CryptoParameters, security_level: Option<SecurityLevel>) -> StackedRatchet {
    let count = (SecurityLevel::or_default(security_level).value() + 1) as usize;
    let mut alice_hyper_ratchet = StackedRatchetConstructor::new_alice(
        ConstructorOpts::new_vec_init(Some(params), count),
        99,
        0,
        security_level,
    )
    .unwrap();
    let transfer = alice_hyper_ratchet.stage0_alice().unwrap();

    let bob_hyper_ratchet =
        StackedRatchetConstructor::new_bob(99, 0, ConstructorOpts::new_vec_init(Some(params), count), transfer)
            .unwrap();
    let transfer = bob_hyper_ratchet.stage0_bob().unwrap();

    alice_hyper_ratchet.stage1_alice(transfer).unwrap();

    let alice_hyper_ratchet = alice_hyper_ratchet.finish().unwrap();
    let bob_hyper_ratchet = bob_hyper_ratchet.finish().unwrap();

    const MESSAGE: &[u8] = b"Hello, world!";
    const HEADER_LEN: usize = 50;

    let mut packet: Vec<u8> = Vec::with_capacity(MESSAGE.len() + HEADER_LEN);
    for x in 0..50u8 {
        packet.push(x);
    }
    packet.extend_from_slice(MESSAGE);

    let plaintext_packet = packet.clone();

    alice_hyper_ratchet
        .protect_message_packet(security_level, HEADER_LEN, &mut packet)
        .unwrap();
    assert_ne!(packet, plaintext_packet);

    let mut payload = packet.split_off(HEADER_LEN);
    let mut header = packet;
    bob_hyper_ratchet
        .validate_message_packet(security_level, &header[..], &mut payload)
        .unwrap();

    header.extend_from_slice(&payload);
    assert_eq!(header, plaintext_packet);
    alice_hyper_ratchet
}

#[test]
fn test_sec_buffer() {
    let buf = SecBuffer::from_text("Hello, world!");
    let serde = buf.serialize();
    std::mem::drop(buf);
    let buf = SecBuffer::deserialize(&serde).unwrap();

    assert_eq!(buf.as_ref(), b"Hello, world!");
    let cloned = buf.clone();
    let copied = cloned.as_ref().to_vec();

    assert_eq!(cloned.as_ref(), &copied[..]);
    let retrieved = buf.into_buffer();

    assert_eq!(&*retrieved, b"Hello, world!");
}

#[test]
fn test_sec_string() {
    let mut val = SecString::new();
    assert_eq!(val.len(), 0);
    val.push('h');
    val.push('e');
    let mut basic = val.clone();
    assert_eq!(val.len(), 2);
    assert_eq!(basic.len(), 2);
    assert_eq!(basic.as_str(), "he");

    basic.push('y');
    assert_ne!(val.as_str(), basic.as_str());

    let retrieved = basic.into_buffer();
    let serde = bincode2::serialize(&retrieved).unwrap();
    let retrieved = SecString::deserialize(&serde).unwrap().into_buffer();
    assert_eq!(retrieved, "hey");
}

#[test]
fn secstring() {
    let mut val = SecString::new();
    assert_eq!(val.len(), 0);
    val.push('h');
    val.push('e');
    let mut basic = val.clone();
    assert_eq!(val.len(), 2);
    assert_eq!(basic.len(), 2);
    assert_eq!(basic.as_str(), "he");

    basic.push('y');
    assert_ne!(val.as_str(), basic.as_str());

    let retrieved = basic.into_buffer();
    let serde = bincode2::serialize(&retrieved).unwrap();
    let retrieved = SecString::deserialize(&serde).unwrap().into_buffer();
    assert_eq!(retrieved, "hey");
}

#[test]
fn secbytes() {
    let buf = SecBuffer::from_text("Hello, world!");
    let serde = buf.serialize();
    std::mem::drop(buf);
    let buf = SecBuffer::deserialize(&serde).unwrap();

    assert_eq!(buf.as_ref(), b"Hello, world!");
    let cloned = buf.clone();
    let copied = cloned.as_ref().to_vec();

    assert_eq!(cloned.as_ref(), &copied[..]);
    let retrieved = buf.into_buffer();

    assert_eq!(&*retrieved, b"Hello, world!");
}

#[test]
fn hyper_ratchets() {
    for kem in KEM_ALGORITHMS {
        for sec in 0..SecurityLevel::Extreme.value() {
            let _ = hyper_ratchet(
                CryptoParameters::new(kem, EncryptionAlgorithm::Xchacha20Poly1305, SigAlgorithm::Unsigned),
                Some(sec.into()),
            );
        }
    }
}

#[test]
fn security_levels() {
    for sec in 0..SecurityLevel::Extreme.value() {
        let ratchet = hyper_ratchet(
            CryptoParameters::new(KemAlgorithm::Kyber, EncryptionAlgorithm::Xchacha20Poly1305, SigAlgorithm::Unsigned),
            Some(sec.into()),
        );
        for x in 0..sec {
            assert!(ratchet.verify_level(Some(x.into())).is_ok())
        }

        for x in (sec + 1)..SecurityLevel::Custom(255).value() {
            assert!(ratchet.verify_level(Some(x.into())).is_err())
        }
    }
}
