//! The group codec. A payload is cut into packets of at most
//! `MAX_PLAINTEXT_PER_PACKET` bytes, packets are numbered by a true sequence
//! and gathered into waves of `MAX_PACKETS_PER_WAVE`; each packet is
//! encrypted on its own. The receiver accepts packets in any order, at most
//! once each, and rebuilds the payload byte for byte.
use crate::error::CryptError;
use crate::ratchet::{
    draw_nonces, level_banks, nonces_fit, opens_to, protected_as, seal_layers, StackedRatchet, LAYER_OVERHEAD,
};
use crate::security_level::SecurityLevel;
use crate::provider::MAX_SEAL_LEN;
use vstd::prelude::*;
use vstd::slice::{slice_subrange, slice_to_vec};

verus! {

/// Plaintext bytes that one packet carries at most.
pub const MAX_PLAINTEXT_PER_PACKET: usize = 256;

/// Packets in a full wave.
pub const MAX_PACKETS_PER_WAVE: usize = 4;

/// Largest payload of one group.
pub const MAX_BYTES_PER_GROUP: usize = 16_777_216;

/// Number of packets that a payload of `len` bytes takes: one at least.
pub open spec fn packets_for(len: int) -> int {
    if len == 0 {
        1
    } else {
        (len + MAX_PLAINTEXT_PER_PACKET - 1) / MAX_PLAINTEXT_PER_PACKET as int
    }
}

/// Number of waves that `packets` packets take.
pub open spec fn waves_for(packets: int) -> int {
    (packets + MAX_PACKETS_PER_WAVE - 1) / MAX_PACKETS_PER_WAVE as int
}

/// First payload byte of packet `k`.
pub open spec fn chunk_start(k: int) -> int {
    k * MAX_PLAINTEXT_PER_PACKET
}

/// End of packet `k`'s bytes in a payload of `len` bytes.
pub open spec fn chunk_end(k: int, len: int) -> int {
    if (k + 1) * MAX_PLAINTEXT_PER_PACKET < len {
        (k + 1) * MAX_PLAINTEXT_PER_PACKET
    } else {
        len
    }
}

/// The payload bytes that packet `k` carries.
pub open spec fn chunk(data: Seq<u8>, k: int) -> Seq<u8> {
    data.subrange(chunk_start(k), chunk_end(k, data.len() as int))
}

/// The wave that packet `k` belongs to.
pub open spec fn wave_of(k: int) -> int {
    k / MAX_PACKETS_PER_WAVE as int
}

/// First packet of wave `w`.
pub open spec fn wave_start(w: int) -> int {
    w * MAX_PACKETS_PER_WAVE
}

/// End of wave `w`'s packets in a group of `packets` packets.
pub open spec fn wave_end(w: int, packets: int) -> int {
    if (w + 1) * MAX_PACKETS_PER_WAVE < packets {
        (w + 1) * MAX_PACKETS_PER_WAVE
    } else {
        packets
    }
}

/// How many entries of `s` are set.
pub open spec fn count_true(s: Seq<bool>) -> nat
    decreases s.len(),
{
    if s.len() == 0 {
        0
    } else {
        count_true(s.drop_last()) + if s.last() {
            1nat
        } else {
            0nat
        }
    }
}

/// `s` with `p` written over it from position `at`.
pub open spec fn splice(s: Seq<u8>, at: int, p: Seq<u8>) -> Seq<u8> {
    s.take(at) + p + s.skip(at + p.len())
}

proof fn lemma_count_set(s: Seq<bool>, k: int)
    requires
        0 <= k < s.len(),
        !s[k],
    ensures
        count_true(s.update(k, true)) == count_true(s) + 1,
    decreases s.len(),
{
    let t = s.update(k, true);
    if k == s.len() - 1 {
        assert(t.drop_last() =~= s.drop_last());
    } else {
        assert(t.drop_last() =~= s.drop_last().update(k, true));
        lemma_count_set(s.drop_last(), k);
    }
}

proof fn lemma_count_full(s: Seq<bool>)
    ensures
        count_true(s) <= s.len(),
        count_true(s) == s.len() <==> forall|i: int| 0 <= i < s.len() ==> #[trigger] s[i],
    decreases s.len(),
{
    if s.len() > 0 {
        lemma_count_full(s.drop_last());
        if count_true(s) == s.len() {
            assert forall|i: int| 0 <= i < s.len() implies #[trigger] s[i] by {
                if i < s.len() - 1 {
                    assert(s.drop_last()[i] == s[i]);
                }
            }
        }
        if forall|i: int| 0 <= i < s.len() ==> #[trigger] s[i] {
            assert forall|i: int| 0 <= i < s.drop_last().len() implies #[trigger] s.drop_last()[i] by {
                assert(s[i]);
            }
            assert(s[s.len() - 1]);
        }
    }
}

/// Packets cover the payload: a buffer that agrees with the payload on
/// every packet's bytes is the payload.
pub proof fn lemma_chunks_cover(data: Seq<u8>, buffer: Seq<u8>)
    requires
        buffer.len() == data.len(),
        forall|k: int| 0 <= k < packets_for(data.len() as int) ==> #[trigger] chunk(buffer, k) == chunk(data, k),
    ensures
        buffer == data,
{
    assert forall|i: int| 0 <= i < data.len() implies buffer[i] == data[i] by {
        let k = i / MAX_PLAINTEXT_PER_PACKET as int;
        assert(0 <= k < packets_for(data.len() as int));
        assert(chunk_start(k) <= i < chunk_end(k, data.len() as int));
        assert(chunk(buffer, k) == chunk(data, k));
        assert(chunk(buffer, k)[i - chunk_start(k)] == buffer[i]);
        assert(chunk(data, k)[i - chunk_start(k)] == data[i]);
    }
    assert(buffer =~= data);
}

/// The buffer after packets' chunks of `data` were written into `buf` in
/// the order given by `order`, as the receiver writes each accepted packet.
pub open spec fn apply_writes(buf: Seq<u8>, data: Seq<u8>, order: Seq<int>) -> Seq<u8>
    decreases order.len(),
{
    if order.len() == 0 {
        buf
    } else {
        let k = order.last();
        splice(apply_writes(buf, data, order.drop_last()), chunk_start(k), chunk(data, k))
    }
}

proof fn lemma_apply_writes(buf: Seq<u8>, data: Seq<u8>, order: Seq<int>)
    requires
        buf.len() == data.len(),
        forall|i: int| 0 <= i < order.len() ==> 0 <= #[trigger] order[i] < packets_for(data.len() as int),
    ensures
        apply_writes(buf, data, order).len() == data.len(),
        forall|i: int| 0 <= i < order.len() ==> #[trigger] chunk(apply_writes(buf, data, order), order[i]) == chunk(data, order[i]),
    decreases order.len(),
{
    if order.len() > 0 {
        let rest = order.drop_last();
        let m = order.last();
        let b = apply_writes(buf, data, rest);
        lemma_apply_writes(buf, data, rest);
        let len = data.len() as int;
        let r = apply_writes(buf, data, order);
        assert(chunk_start(m) <= chunk_end(m, len) <= len);
        assert(r == splice(b, chunk_start(m), chunk(data, m)));
        assert(r.len() == len);
        assert forall|i: int| 0 <= i < order.len() implies #[trigger] chunk(r, order[i]) == chunk(data, order[i]) by {
            let k = order[i];
            assert(chunk_start(k) <= chunk_end(k, len) <= len);
            if k == m {
                assert(chunk(r, k) =~= chunk(data, k));
            } else {
                assert(rest[i] == k);
                assert(chunk(b, k) == chunk(data, k));
                assert(chunk_end(k, len) <= chunk_start(m) || chunk_end(m, len) <= chunk_start(k)) by {
                    if k < m {
                        assert(k + 1 <= m);
                        assert((k + 1) * MAX_PLAINTEXT_PER_PACKET <= m * MAX_PLAINTEXT_PER_PACKET);
                    } else {
                        assert(m + 1 <= k);
                        assert((m + 1) * MAX_PLAINTEXT_PER_PACKET <= k * MAX_PLAINTEXT_PER_PACKET);
                    }
                }
                assert forall|j: int| 0 <= j < chunk(r, k).len() implies chunk(r, k)[j] == chunk(b, k)[j] by {
                    assert(r[chunk_start(k) + j] == b[chunk_start(k) + j]);
                }
                assert(chunk(r, k) =~= chunk(b, k));
            }
        }
    }
}

/// Reassembly does not depend on arrival order: writing every packet's
/// chunk of `data`, in any order and with repeats, into a buffer of the
/// payload's length gives back the payload.
pub proof fn lemma_group_round_trip_any_order(buf: Seq<u8>, data: Seq<u8>, order: Seq<int>)
    requires
        buf.len() == data.len(),
        forall|i: int| 0 <= i < order.len() ==> 0 <= #[trigger] order[i] < packets_for(data.len() as int),
        forall|k: int| 0 <= k < packets_for(data.len() as int) ==> #[trigger] order.contains(k),
    ensures
        apply_writes(buf, data, order) == data,
{
    lemma_apply_writes(buf, data, order);
    let r = apply_writes(buf, data, order);
    assert forall|k: int| 0 <= k < packets_for(data.len() as int) implies #[trigger] chunk(r, k) == chunk(data, k) by {
        assert(order.contains(k));
        let i = choose|i: int| 0 <= i < order.len() && order[i] == k;
        assert(chunk(r, order[i]) == chunk(data, order[i]));
    }
    lemma_chunks_cover(data, r);
}

/// Where a packet stands in its group.
#[derive(Clone, Copy, Debug, PartialEq, Eq, Structural)]
pub struct PacketVector {
    pub true_sequence: usize,
    pub wave_id: usize,
}

/// What a receiver needs to know of a group: derived from the payload
/// length alone, with the group's identifiers and level.
#[derive(Clone, Copy, Debug, PartialEq, Eq, Structural)]
pub struct GroupReceiverConfig {
    pub group_id: u64,
    pub object_id: u64,
    pub plaintext_length: usize,
    pub packets_needed: usize,
    pub wave_count: usize,
    pub max_packets_per_wave: usize,
    pub max_plaintext_bytes_per_packet: usize,
    pub last_packet_plaintext_length: usize,
    pub packets_in_last_wave: usize,
    pub security_level: SecurityLevel,
    pub header_size_bytes: usize,
}

impl GroupReceiverConfig {
    /// Every count is the one that the payload length gives.
    pub open spec fn wf(&self) -> bool {
        let len = self.plaintext_length as int;
        let p = packets_for(len);
        &&& len <= MAX_BYTES_PER_GROUP
        &&& self.packets_needed == p
        &&& self.wave_count == waves_for(p)
        &&& self.max_packets_per_wave == MAX_PACKETS_PER_WAVE
        &&& self.max_plaintext_bytes_per_packet == MAX_PLAINTEXT_PER_PACKET
        &&& self.last_packet_plaintext_length == len - chunk_start(p - 1)
        &&& self.packets_in_last_wave == p - wave_start(waves_for(p) - 1)
    }

    /// Whether every count is the one that the payload length gives, as a
    /// receiver requires.
    pub fn is_valid(&self) -> (r: bool)
        ensures
            r == self.wf(),
    {
        match GroupReceiverConfig::new(
            self.group_id,
            self.object_id,
            self.plaintext_length,
            self.security_level,
            self.header_size_bytes,
        ) {
            Some(expected) => expected == *self,
            None => false,
        }
    }

    /// The configuration of a group whose payload is `plaintext_length`
    /// bytes; `None` where that exceeds what a group may carry.
    pub fn new(
        group_id: u64,
        object_id: u64,
        plaintext_length: usize,
        security_level: SecurityLevel,
        header_size_bytes: usize,
    ) -> (r: Option<GroupReceiverConfig>)
        ensures
            plaintext_length <= MAX_BYTES_PER_GROUP <==> r is Some,
            r is Some ==> r->Some_0.wf(),
            r is Some ==> r->Some_0.group_id == group_id && r->Some_0.object_id == object_id,
            r is Some ==> r->Some_0.plaintext_length == plaintext_length,
            r is Some ==> r->Some_0.security_level == security_level,
            r is Some ==> r->Some_0.header_size_bytes == header_size_bytes,
    {
        if plaintext_length > MAX_BYTES_PER_GROUP {
            return None;
        }
        let packets_needed: usize = if plaintext_length == 0 {
            1
        } else {
            (plaintext_length + MAX_PLAINTEXT_PER_PACKET - 1) / MAX_PLAINTEXT_PER_PACKET
        };
        let wave_count: usize = (packets_needed + MAX_PACKETS_PER_WAVE - 1) / MAX_PACKETS_PER_WAVE;
        assert(packets_needed >= 1 && wave_count >= 1);
        assert(packets_needed <= MAX_BYTES_PER_GROUP + 1);
        let last_start: usize = (packets_needed - 1) * MAX_PLAINTEXT_PER_PACKET;
        assert(last_start <= plaintext_length);
        let last_wave_start: usize = (wave_count - 1) * MAX_PACKETS_PER_WAVE;
        assert(last_wave_start <= packets_needed);
        Some(GroupReceiverConfig {
            group_id,
            object_id,
            plaintext_length,
            packets_needed,
            wave_count,
            max_packets_per_wave: MAX_PACKETS_PER_WAVE,
            max_plaintext_bytes_per_packet: MAX_PLAINTEXT_PER_PACKET,
            last_packet_plaintext_length: plaintext_length - last_start,
            packets_in_last_wave: packets_needed - last_wave_start,
            security_level,
            header_size_bytes,
        })
    }
}

/// One encrypted packet of a group: header bytes, then the sealed chunk.
pub struct GroupPacket {
    pub packet: Vec<u8>,
    pub vector: PacketVector,
}

/// Packet `k` of a group carrying `data`: its coordinates, a header of
/// `header_size` bytes, and the chunk sealed through `keys` with associated
/// data `ad`.
pub open spec fn sealed_packet(
    keys: Seq<Seq<u8>>,
    ad: Seq<u8>,
    data: Seq<u8>,
    header_size: int,
    k: int,
    pkt: GroupPacket,
) -> bool {
    &&& pkt.vector == (PacketVector { true_sequence: k as usize, wave_id: wave_of(k) as usize })
    &&& pkt.packet@.len() == header_size + chunk(data, k).len() + LAYER_OVERHEAD * keys.len()
    &&& protected_as(keys, ad, chunk(data, k), pkt.packet@.skip(header_size))
}

/// The packets of one group, handed out one at a time in sequence order.
pub struct GroupSenderDevice {
    config: GroupReceiverConfig,
    remaining: Vec<GroupPacket>,
}

impl GroupSenderDevice {
    pub closed spec fn spec_config(&self) -> GroupReceiverConfig {
        self.config
    }

    /// The packets not yet handed out, next first.
    pub closed spec fn queue(&self) -> Seq<GroupPacket> {
        Seq::new(self.remaining@.len(), |i: int| self.remaining@[self.remaining@.len() - 1 - i])
    }

    pub fn get_receiver_config(&self) -> (r: GroupReceiverConfig)
        ensures
            r == self.spec_config(),
    {
        self.config
    }

    /// Number of packets not yet handed out.
    pub fn packets_left(&self) -> (r: usize)
        ensures
            r == self.queue().len(),
    {
        self.remaining.len()
    }

    /// The next packet, if any is left.
    pub fn get_next_packet(&mut self) -> (r: Option<GroupPacket>)
        ensures
            final(self).spec_config() == old(self).spec_config(),
            old(self).queue().len() == 0 <==> r is None,
            r is Some ==> r->Some_0 == old(self).queue()[0],
            r is Some ==> final(self).queue() == old(self).queue().drop_first(),
            r is None ==> final(self).queue() == old(self).queue(),
    {
        let r = self.remaining.pop();
        proof {
            if r is Some {
                assert(self.queue() =~= old(self).queue().drop_first());
            }
        }
        r
    }
}

/// The coordinates of packet `k`.
pub open spec fn vector_of(k: int) -> PacketVector {
    PacketVector { true_sequence: k as usize, wave_id: wave_of(k) as usize }
}

/// Packet `k` of a group carrying `data`, sealed through `keys` with the
/// nonces `nonces` and associated data `ad`, after a header of
/// `header_size` bytes.
pub open spec fn sealed_packet_with(
    keys: Seq<Seq<u8>>,
    ad: Seq<u8>,
    nonces: Seq<Seq<u8>>,
    data: Seq<u8>,
    header_size: int,
    k: int,
    pkt: GroupPacket,
) -> bool {
    &&& pkt.vector == vector_of(k)
    &&& pkt.packet@.len() == header_size + chunk(data, k).len() + LAYER_OVERHEAD * keys.len()
    &&& pkt.packet@.skip(header_size) == seal_layers(keys, nonces, ad, chunk(data, k))
}

/// Splits `plain_text` into packets and encrypts each at `security_level`
/// through `ratchet`, packet `k` with the nonces `nonces[k]`. Each packet
/// starts with the `header_size_bytes` that `header_inscriber` writes for
/// its coordinates, then holds its chunk sealed on its own.
pub fn scramble_encrypt_group_with_nonces<F: Fn(&PacketVector, u64, u64) -> Vec<u8>>(
    plain_text: &[u8],
    security_level: SecurityLevel,
    ratchet: &StackedRatchet,
    header_size_bytes: usize,
    target_cid: u64,
    object_id: u64,
    group_id: u64,
    header_inscriber: F,
    nonces: &Vec<Vec<Vec<u8>>>,
) -> (r: Result<GroupSenderDevice, CryptError>)
    requires
        ratchet.wf(),
        forall|v: PacketVector, c: u64, o: u64| #[trigger] header_inscriber.requires((&v, c, o)),
        plain_text@.len() <= MAX_BYTES_PER_GROUP && ratchet.supports(Some(security_level)) ==> {
            &&& nonces@.len() >= packets_for(plain_text@.len() as int)
            &&& forall|k: int|
                0 <= k < packets_for(plain_text@.len() as int) ==> nonces_fit(
                    (#[trigger] nonces@[k])@.map_values(|v: Vec<u8>| v@),
                    level_banks(Some(security_level)),
                )
        },
    ensures
        plain_text@.len() > MAX_BYTES_PER_GROUP ==> r == Err::<GroupSenderDevice, CryptError>(CryptError::Oversized),
        plain_text@.len() <= MAX_BYTES_PER_GROUP && !ratchet.supports(Some(security_level)) ==> r == Err::<
            GroupSenderDevice,
            CryptError,
        >(CryptError::LevelInsufficient),
        r is Err ==> r->Err_0 == CryptError::Oversized || r->Err_0 == CryptError::LevelInsufficient || r->Err_0
            == CryptError::BadHeader,
        r == Err::<GroupSenderDevice, CryptError>(CryptError::Oversized) ==> plain_text@.len() > MAX_BYTES_PER_GROUP,
        r == Err::<GroupSenderDevice, CryptError>(CryptError::LevelInsufficient) ==> !ratchet.supports(
            Some(security_level),
        ),
        r == Err::<GroupSenderDevice, CryptError>(CryptError::BadHeader) ==> exists|k: int, h: Vec<u8>|
            0 <= k < packets_for(plain_text@.len() as int) && header_inscriber.ensures(
                (&vector_of(k), target_cid, object_id),
                h,
            ) && h@.len() != header_size_bytes,
        plain_text@.len() <= MAX_BYTES_PER_GROUP && ratchet.supports(Some(security_level)) && (forall|k: int, h: Vec<u8>|
            0 <= k < packets_for(plain_text@.len() as int) && #[trigger] header_inscriber.ensures(
                (&vector_of(k), target_cid, object_id),
                h,
            ) ==> h@.len() == header_size_bytes) ==> r is Ok,
        r is Ok ==> r->Ok_0.spec_config().wf(),
        r is Ok ==> r->Ok_0.spec_config() == (GroupReceiverConfig {
            group_id,
            object_id,
            plaintext_length: plain_text@.len() as usize,
            security_level,
            header_size_bytes,
            ..r->Ok_0.spec_config()
        }),
        r is Ok ==> r->Ok_0.queue().len() == packets_for(plain_text@.len() as int),
        r is Ok ==> forall|k: int|
            0 <= k < r->Ok_0.queue().len() ==> sealed_packet_with(
                ratchet.keys().take(level_banks(Some(security_level)) as int),
                ratchet.bind(Seq::empty()),
                nonces@[k]@.map_values(|v: Vec<u8>| v@),
                plain_text@,
                header_size_bytes as int,
                k,
                #[trigger] r->Ok_0.queue()[k],
            ),
        r is Ok ==> forall|k: int|
            0 <= k < r->Ok_0.queue().len() ==> exists|h: Vec<u8>|
                h@ == (#[trigger] r->Ok_0.queue()[k]).packet@.take(header_size_bytes as int)
                    && header_inscriber.ensures((&r->Ok_0.queue()[k].vector, target_cid, object_id), h),
{
    let config = match GroupReceiverConfig::new(group_id, object_id, plain_text.len(), security_level, header_size_bytes) {
        Some(c) => c,
        None => {
            return Err(CryptError::Oversized);
        },
    };
    if let Err(e) = ratchet.verify_level(Some(security_level)) {
        return Err(e);
    }
    let ghost keys = ratchet.keys().take(level_banks(Some(security_level)) as int);
    let len = plain_text.len();
    let p = config.packets_needed;
    let mut remaining: Vec<GroupPacket> = Vec::new();
    let mut k: usize = p;
    while k > 0
        invariant
            ratchet.wf(),
            ratchet.supports(Some(security_level)),
            forall|v: PacketVector, c: u64, o: u64| #[trigger] header_inscriber.requires((&v, c, o)),
            config.wf(),
            len == plain_text@.len(),
            len <= MAX_BYTES_PER_GROUP,
            config.plaintext_length == len,
            p == config.packets_needed,
            p == packets_for(len as int),
            nonces@.len() >= p,
            forall|kk: int|
                0 <= kk < p ==> nonces_fit(
                    (#[trigger] nonces@[kk])@.map_values(|v: Vec<u8>| v@),
                    level_banks(Some(security_level)),
                ),
            keys == ratchet.keys().take(level_banks(Some(security_level)) as int),
            k <= p,
            remaining@.len() == p - k,
            forall|j: int|
                0 <= j < p - k ==> sealed_packet_with(
                    keys,
                    ratchet.bind(Seq::empty()),
                    nonces@[p - 1 - j]@.map_values(|v: Vec<u8>| v@),
                    plain_text@,
                    header_size_bytes as int,
                    p - 1 - j,
                    #[trigger] remaining@[j],
                ),
            forall|j: int|
                0 <= j < p - k ==> exists|h: Vec<u8>|
                    h@ == (#[trigger] remaining@[j]).packet@.take(header_size_bytes as int)
                        && header_inscriber.ensures((&remaining@[j].vector, target_cid, object_id), h),
        decreases k,
    {
        let idx = k - 1;
        let vector = PacketVector { true_sequence: idx, wave_id: idx / MAX_PACKETS_PER_WAVE };
        assert(vector == vector_of(idx as int));
        let header = header_inscriber(&vector, target_cid, object_id);
        if header.len() != header_size_bytes {
            return Err(CryptError::BadHeader);
        }
        let start = idx * MAX_PLAINTEXT_PER_PACKET;
        let end = if start + MAX_PLAINTEXT_PER_PACKET < len {
            start + MAX_PLAINTEXT_PER_PACKET
        } else {
            len
        };
        assert(start <= end);
        let piece = slice_subrange(plain_text, start, end);
        assert(piece@ == chunk(plain_text@, idx as int));
        assert(level_banks(Some(security_level)) <= 256);
        assert(piece@.len() + LAYER_OVERHEAD * level_banks(Some(security_level)) <= MAX_SEAL_LEN);
        let ct = match ratchet.encrypt_with_nonces(Some(security_level), piece, &nonces[idx]) {
            Ok(c) => c,
            Err(e) => {
                return Err(e);
            },
        };
        let ghost hdr = header;
        let mut packet = slice_to_vec(header.as_slice());
        let mut ct = ct;
        let ghost ctv = ct@;
        packet.append(&mut ct);
        assert(packet@.skip(header_size_bytes as int) =~= ctv);
        assert(packet@.take(header_size_bytes as int) =~= hdr@);
        remaining.push(GroupPacket { packet, vector });
        k -= 1;
    }
    let dev = GroupSenderDevice { config, remaining };
    proof {
        assert forall|kk: int| 0 <= kk < dev.queue().len() implies #[trigger] dev.queue()[kk] == remaining@[p - 1 - kk] by {}
    }
    Ok(dev)
}

/// Splits `plain_text` into packets and encrypts each at `security_level`
/// through `ratchet`, with fresh nonces from the operating system. Each
/// packet starts with the `header_size_bytes` that `header_inscriber`
/// writes for its coordinates, then holds its chunk sealed on its own.
pub fn par_scramble_encrypt_group<F: Fn(&PacketVector, u64, u64) -> Vec<u8>>(
    plain_text: &[u8],
    security_level: SecurityLevel,
    ratchet: &StackedRatchet,
    header_size_bytes: usize,
    target_cid: u64,
    object_id: u64,
    group_id: u64,
    header_inscriber: F,
) -> (r: Result<GroupSenderDevice, CryptError>)
    requires
        ratchet.wf(),
        forall|v: PacketVector, c: u64, o: u64| #[trigger] header_inscriber.requires((&v, c, o)),
    ensures
        plain_text@.len() > MAX_BYTES_PER_GROUP ==> r == Err::<GroupSenderDevice, CryptError>(CryptError::Oversized),
        plain_text@.len() <= MAX_BYTES_PER_GROUP && !ratchet.supports(Some(security_level)) ==> r == Err::<
            GroupSenderDevice,
            CryptError,
        >(CryptError::LevelInsufficient),
        r is Err ==> r->Err_0 == CryptError::Oversized || r->Err_0 == CryptError::LevelInsufficient || r->Err_0
            == CryptError::BadHeader || r->Err_0 == CryptError::RandomSource,
        r == Err::<GroupSenderDevice, CryptError>(CryptError::Oversized) ==> plain_text@.len() > MAX_BYTES_PER_GROUP,
        r == Err::<GroupSenderDevice, CryptError>(CryptError::LevelInsufficient) ==> !ratchet.supports(
            Some(security_level),
        ),
        r == Err::<GroupSenderDevice, CryptError>(CryptError::BadHeader) ==> exists|k: int, h: Vec<u8>|
            0 <= k < packets_for(plain_text@.len() as int) && header_inscriber.ensures(
                (&vector_of(k), target_cid, object_id),
                h,
            ) && h@.len() != header_size_bytes,
        r is Ok ==> r->Ok_0.spec_config().wf(),
        r is Ok ==> r->Ok_0.spec_config() == (GroupReceiverConfig {
            group_id,
            object_id,
            plaintext_length: plain_text@.len() as usize,
            security_level,
            header_size_bytes,
            ..r->Ok_0.spec_config()
        }),
        r is Ok ==> r->Ok_0.queue().len() == packets_for(plain_text@.len() as int),
        r is Ok ==> forall|k: int|
            0 <= k < r->Ok_0.queue().len() ==> sealed_packet(
                ratchet.keys().take(level_banks(Some(security_level)) as int),
                ratchet.bind(Seq::empty()),
                plain_text@,
                header_size_bytes as int,
                k,
                #[trigger] r->Ok_0.queue()[k],
            ),
        r is Ok ==> forall|k: int|
            0 <= k < r->Ok_0.queue().len() ==> exists|h: Vec<u8>|
                h@ == (#[trigger] r->Ok_0.queue()[k]).packet@.take(header_size_bytes as int)
                    && header_inscriber.ensures((&r->Ok_0.queue()[k].vector, target_cid, object_id), h),
{
    if plain_text.len() > MAX_BYTES_PER_GROUP {
        return Err(CryptError::Oversized);
    }
    let n = match ratchet.verify_level(Some(security_level)) {
        Ok(n) => n,
        Err(e) => {
            return Err(e);
        },
    };
    let len = plain_text.len();
    let p: usize = if len == 0 {
        1
    } else {
        (len + MAX_PLAINTEXT_PER_PACKET - 1) / MAX_PLAINTEXT_PER_PACKET
    };
    let mut nonces: Vec<Vec<Vec<u8>>> = Vec::new();
    let mut i: usize = 0;
    while i < p
        invariant
            i <= p,
            plain_text@.len() <= MAX_BYTES_PER_GROUP,
            ratchet.supports(Some(security_level)),
            len == plain_text@.len(),
            p == packets_for(len as int),
            nonces@.len() == i,
            n == level_banks(Some(security_level)),
            forall|kk: int| 0 <= kk < i ==> nonces_fit((#[trigger] nonces@[kk])@.map_values(|v: Vec<u8>| v@), n as nat),
        decreases p - i,
    {
        match draw_nonces(n) {
            Ok(v) => nonces.push(v),
            Err(e) => {
                return Err(e);
            },
        }
        i += 1;
    }
    let r = scramble_encrypt_group_with_nonces(
        plain_text,
        security_level,
        ratchet,
        header_size_bytes,
        target_cid,
        object_id,
        group_id,
        header_inscriber,
        &nonces,
    );
    proof {
        if r is Ok {
            let dev = r->Ok_0;
            let keys = ratchet.keys().take(level_banks(Some(security_level)) as int);
            assert forall|k: int| 0 <= k < dev.queue().len() implies sealed_packet(
                keys,
                ratchet.bind(Seq::empty()),
                plain_text@,
                header_size_bytes as int,
                k,
                #[trigger] dev.queue()[k],
            ) by {
                let ns = nonces@[k]@.map_values(|v: Vec<u8>| v@);
                assert(sealed_packet_with(
                    keys,
                    ratchet.bind(Seq::empty()),
                    ns,
                    plain_text@,
                    header_size_bytes as int,
                    k,
                    dev.queue()[k],
                ));
                assert(nonces_fit(ns, keys.len()));
            }
        }
    }
    r
}

/// A packet that the sender sealed opens, through the same key material,
/// to exactly the chunk of the payload that its coordinates name, and is
/// short enough for the receiver to open.
pub proof fn lemma_sealed_packet_opens_to_chunk(
    keys: Seq<Seq<u8>>,
    ad: Seq<u8>,
    data: Seq<u8>,
    header_size: int,
    k: int,
    pkt: GroupPacket,
)
    requires
        sealed_packet(keys, ad, data, header_size, k, pkt),
        0 <= header_size,
        0 <= k < packets_for(data.len() as int),
        data.len() <= MAX_BYTES_PER_GROUP,
        keys.len() <= 256,
    ensures
        opens_to(keys, ad, pkt.packet@.skip(header_size), chunk(data, k)),
        pkt.packet@.skip(header_size).len() <= MAX_SEAL_LEN,
        chunk(data, k).len() == chunk_end(k, data.len() as int) - chunk_start(k),
{
    crate::ratchet::lemma_protect_validate_round_trip(keys, ad, chunk(data, k), pkt.packet@.skip(header_size));
    assert(chunk_start(k) <= chunk_end(k, data.len() as int));
}

/// What `on_packet_received` reports.
#[allow(non_camel_case_types)]
#[derive(Clone, Copy, Debug, PartialEq, Eq, Structural)]
pub enum GroupReceiverStatus {
    /// Every packet of the group is in.
    GROUP_COMPLETE(u64),
    /// Every packet of this wave is in.
    WAVE_COMPLETE(usize),
    /// The packet was taken.
    PACKET_ACCEPTED,
    /// The packet's slot was already filled; nothing changed.
    ALREADY_RECEIVED,
    /// Another group, or coordinates outside the group; nothing changed.
    INVALID_PACKET,
    /// The packet did not open; nothing changed, and it may be sent again.
    DECRYPTION_FAILURE,
}

impl GroupReceiverStatus {
    /// The packet was taken into the group.
    pub open spec fn accepted(self) -> bool {
        self is PACKET_ACCEPTED || self is WAVE_COMPLETE || self is GROUP_COMPLETE
    }
}

/// Rebuilds one group's payload from its packets, in whatever order they come.
pub struct GroupReceiver {
    config: GroupReceiverConfig,
    object_id: u64,
    group_id: u64,
    buffer: Vec<u8>,
    received: Vec<bool>,
    wave_counts: Vec<usize>,
    packets_received: usize,
}

impl GroupReceiver {
    pub closed spec fn spec_config(&self) -> GroupReceiverConfig {
        self.config
    }

    pub closed spec fn spec_group_id(&self) -> u64 {
        self.group_id
    }

    pub closed spec fn spec_object_id(&self) -> u64 {
        self.object_id
    }

    /// The payload as assembled so far.
    pub closed spec fn buffer(&self) -> Seq<u8> {
        self.buffer@
    }

    /// Which packets are in, by true sequence.
    pub closed spec fn received(&self) -> Seq<bool> {
        self.received@
    }

    /// How many packets of wave `w` are in.
    pub closed spec fn wave_received(&self, w: int) -> nat {
        self.wave_counts@[w] as nat
    }

    pub closed spec fn wf(&self) -> bool {
        let p = self.config.packets_needed as int;
        &&& self.config.wf()
        &&& self.buffer@.len() == self.config.plaintext_length
        &&& self.received@.len() == p
        &&& self.wave_counts@.len() == self.config.wave_count
        &&& forall|w: int|
            0 <= w < self.config.wave_count ==> #[trigger] self.wave_counts@[w] == count_true(
                self.received@.subrange(wave_start(w), wave_end(w, p)),
            )
        &&& self.packets_received == count_true(self.received@)
    }

    /// A packet with these coordinates does not belong to this group.
    pub open spec fn coords_invalid(&self, group_id: u64, k: int, wave_id: int) -> bool {
        group_id != self.spec_group_id() || k >= self.spec_config().packets_needed || wave_id != wave_of(k)
    }

    /// The banks through which this group's packets are sealed.
    pub open spec fn group_keys(&self, ratchet: &StackedRatchet) -> Seq<Seq<u8>> {
        ratchet.keys().take(level_banks(Some(self.spec_config().security_level)) as int)
    }

    /// Every packet of wave `w` is in.
    pub open spec fn wave_complete(&self, w: int) -> bool {
        forall|j: int| wave_start(w) <= j < wave_end(w, self.received().len() as int) ==> #[trigger] self.received()[j]
    }

    /// Every packet is in.
    pub open spec fn complete(&self) -> bool {
        forall|k: int| 0 <= k < self.received().len() ==> #[trigger] self.received()[k]
    }

    /// A receiver for the group that `config` describes, with nothing in yet.
    pub fn new(config: GroupReceiverConfig, object_id: u64, group_id: u64) -> (r: GroupReceiver)
        requires
            config.wf(),
        ensures
            r.wf(),
            r.spec_config() == config,
            r.spec_object_id() == object_id,
            r.spec_group_id() == group_id,
            r.buffer().len() == config.plaintext_length,
            r.received().len() == config.packets_needed,
            forall|k: int| 0 <= k < config.packets_needed ==> !(#[trigger] r.received()[k]),
    {
        let buffer: Vec<u8> = vec![0u8; config.plaintext_length];
        let received: Vec<bool> = vec![false; config.packets_needed];
        let wave_counts: Vec<usize> = vec![0usize; config.wave_count];
        let r = GroupReceiver { config, object_id, group_id, buffer, received, wave_counts, packets_received: 0 };
        proof {
            assert forall|s: Seq<bool>| (forall|i: int| 0 <= i < s.len() ==> !#[trigger] s[i]) implies count_true(s) == 0 by {
                lemma_count_none(s);
            }
            assert forall|w: int| 0 <= w < config.wave_count implies #[trigger] r.wave_counts@[w] == count_true(
                r.received@.subrange(wave_start(w), wave_end(w, config.packets_needed as int)),
            ) by {
                let sub = r.received@.subrange(wave_start(w), wave_end(w, config.packets_needed as int));
                assert forall|i: int| 0 <= i < sub.len() implies !#[trigger] sub[i] by {}
                lemma_count_none(sub);
            }
            lemma_count_none(r.received@);
        }
        r
    }

    /// Takes one packet: `packet` is the sealed chunk, header removed. A
    /// packet for another group, or with coordinates outside this group, is
    /// refused; a packet whose slot is filled is refused without effect; a
    /// packet that does not open through `ratchet` at the group's level, or
    /// opens to a chunk of the wrong size, is refused and may come again.
    /// Otherwise its plaintext is written at its chunk's place.
    pub fn on_packet_received(
        &mut self,
        group_id: u64,
        true_sequence: usize,
        wave_id: usize,
        ratchet: &StackedRatchet,
        packet: Vec<u8>,
    ) -> (r: GroupReceiverStatus)
        requires
            old(self).wf(),
            ratchet.wf(),
        ensures
            final(self).wf(),
            final(self).spec_config() == old(self).spec_config(),
            final(self).spec_group_id() == old(self).spec_group_id(),
            final(self).spec_object_id() == old(self).spec_object_id(),
            old(self).coords_invalid(group_id, true_sequence as int, wave_id as int) ==> r
                == GroupReceiverStatus::INVALID_PACKET,
            !old(self).coords_invalid(group_id, true_sequence as int, wave_id as int) && old(self).received()[true_sequence as int]
                ==> r == GroupReceiverStatus::ALREADY_RECEIVED,
            !r.accepted() ==> *final(self) == *old(self),
            r.accepted() ==> !old(self).coords_invalid(group_id, true_sequence as int, wave_id as int) && !old(
                self,
            ).received()[true_sequence as int],
            r.accepted() ==> final(self).received() == old(self).received().update(true_sequence as int, true),
            r.accepted() ==> opens_to(
                old(self).group_keys(ratchet),
                ratchet.bind(Seq::empty()),
                packet@,
                chunk(final(self).buffer(), true_sequence as int),
            ),
            r.accepted() ==> final(self).buffer() == splice(
                old(self).buffer(),
                chunk_start(true_sequence as int),
                chunk(final(self).buffer(), true_sequence as int),
            ),
            forall|pt: Seq<u8>|
                !old(self).coords_invalid(group_id, true_sequence as int, wave_id as int) && !old(self).received()[true_sequence as int]
                    && ratchet.supports(Some(old(self).spec_config().security_level)) && packet@.len() <= MAX_SEAL_LEN
                    && pt.len() == chunk_end(true_sequence as int, old(self).spec_config().plaintext_length as int)
                    - chunk_start(true_sequence as int) && #[trigger] opens_to(
                        old(self).group_keys(ratchet),
                        ratchet.bind(Seq::empty()),
                        packet@,
                        pt,
                    )
                    ==> r.accepted() && final(self).buffer() == splice(old(self).buffer(), chunk_start(true_sequence as int), pt),
            r.accepted() && final(self).complete() ==> r == GroupReceiverStatus::GROUP_COMPLETE(group_id),
            r.accepted() && !final(self).complete() && final(self).wave_complete(wave_id as int) ==> r
                == GroupReceiverStatus::WAVE_COMPLETE(wave_id),
            r is GROUP_COMPLETE ==> final(self).complete(),
    {
        let p = self.config.packets_needed;
        if group_id != self.group_id || true_sequence >= p || wave_id != true_sequence / MAX_PACKETS_PER_WAVE {
            return GroupReceiverStatus::INVALID_PACKET;
        }
        if self.received[true_sequence] {
            return GroupReceiverStatus::ALREADY_RECEIVED;
        }
        let len = self.config.plaintext_length;
        let start = true_sequence * MAX_PLAINTEXT_PER_PACKET;
        let end = if start + MAX_PLAINTEXT_PER_PACKET < len {
            start + MAX_PLAINTEXT_PER_PACKET
        } else {
            len
        };
        proof {
            assert(start <= end);
        }
        let mut pt = packet;
        let ghost ct = pt@;
        let empty: Vec<u8> = Vec::new();
        proof {
            assert(empty@ =~= Seq::<u8>::empty());
        }
        match ratchet.validate_message_packet(Some(self.config.security_level), empty.as_slice(), &mut pt) {
            Ok(()) => {},
            Err(_) => {
                return GroupReceiverStatus::DECRYPTION_FAILURE;
            },
        }
        if pt.len() != end - start {
            return GroupReceiverStatus::DECRYPTION_FAILURE;
        }
        proof {
            assert(chunk_start(true_sequence as int) + pt@.len() <= self.buffer@.len());
        }
        self.write_chunk(start, &pt);
        proof {
            assert(chunk(self.buffer@, true_sequence as int) =~= pt@);
        }
        self.mark_received(group_id, true_sequence)
    }

    /// Writes `pt` into the buffer from `start`.
    fn write_chunk(&mut self, start: usize, pt: &Vec<u8>)
        requires
            old(self).wf(),
            start + pt@.len() <= old(self).buffer@.len(),
        ensures
            final(self).wf(),
            final(self).buffer@ == splice(old(self).buffer@, start as int, pt@),
            final(self).config == old(self).config,
            final(self).received == old(self).received,
            final(self).wave_counts == old(self).wave_counts,
            final(self).packets_received == old(self).packets_received,
            final(self).group_id == old(self).group_id,
            final(self).object_id == old(self).object_id,
    {
        let ghost old_buf = self.buffer@;
        let mut j: usize = 0;
        while j < pt.len()
            invariant
                self.config == old(self).config,
                self.received == old(self).received,
                self.wave_counts == old(self).wave_counts,
                self.packets_received == old(self).packets_received,
                self.group_id == old(self).group_id,
                self.object_id == old(self).object_id,
                old(self).wf(),
                old_buf == old(self).buffer@,
                j <= pt@.len(),
                start + pt@.len() <= old_buf.len(),
                self.buffer@.len() == old_buf.len(),
                forall|i: int| 0 <= i < start ==> #[trigger] self.buffer@[i] == old_buf[i],
                forall|i: int| start + j <= i < old_buf.len() ==> #[trigger] self.buffer@[i] == old_buf[i],
                forall|i: int| start <= i < start + j ==> #[trigger] self.buffer@[i] == pt@[i - start],
            decreases pt@.len() - j,
        {
            self.buffer.set(start + j, pt[j]);
            j += 1;
        }
        proof {
            assert(self.buffer@ =~= splice(old_buf, start as int, pt@));
        }
    }

    /// Records packet `k` as in and reports what that completes.
    fn mark_received(&mut self, group_id: u64, k: usize) -> (r: GroupReceiverStatus)
        requires
            old(self).wf(),
            k < old(self).config.packets_needed,
            !old(self).received@[k as int],
        ensures
            final(self).wf(),
            final(self).received() == old(self).received().update(k as int, true),
            final(self).buffer == old(self).buffer,
            final(self).config == old(self).config,
            final(self).group_id == old(self).group_id,
            final(self).object_id == old(self).object_id,
            r.accepted(),
            final(self).complete() <==> r == GroupReceiverStatus::GROUP_COMPLETE(group_id),
            r is GROUP_COMPLETE ==> final(self).complete(),
            !final(self).complete() && final(self).wave_complete(wave_of(k as int)) ==> r
                == GroupReceiverStatus::WAVE_COMPLETE(wave_of(k as int) as usize),
    {
        let p = self.config.packets_needed;
        let ghost old_recv = self.received@;
        let w = k / MAX_PACKETS_PER_WAVE;
        let ws = w * MAX_PACKETS_PER_WAVE;
        let we = if ws + MAX_PACKETS_PER_WAVE < p {
            ws + MAX_PACKETS_PER_WAVE
        } else {
            p
        };
        proof {
            assert(w < self.config.wave_count);
            lemma_count_set(old_recv, k as int);
            lemma_count_full(old_recv);
            let sub = old_recv.subrange(wave_start(w as int), wave_end(w as int, p as int));
            assert(old_recv.update(k as int, true).subrange(wave_start(w as int), wave_end(w as int, p as int))
                =~= sub.update(k - ws, true));
            lemma_count_set(sub, k - ws);
            lemma_count_full(sub);
        }
        self.received.set(k, true);
        self.packets_received = self.packets_received + 1;
        let c = self.wave_counts[w] + 1;
        self.wave_counts.set(w, c);
        proof {
            assert forall|v: int| 0 <= v < self.config.wave_count implies #[trigger] self.wave_counts@[v] == count_true(
                self.received@.subrange(wave_start(v), wave_end(v, p as int)),
            ) by {
                if v != w {
                    assert(self.received@.subrange(wave_start(v), wave_end(v, p as int)) =~= old_recv.subrange(
                        wave_start(v),
                        wave_end(v, p as int),
                    ));
                }
            }
            lemma_count_full(self.received@);
            assert(self.received() == self.received@);
            let nsub = self.received@.subrange(wave_start(w as int), wave_end(w as int, p as int));
            lemma_count_full(nsub);
            if self.wave_complete(w as int) {
                assert forall|i: int| 0 <= i < nsub.len() implies #[trigger] nsub[i] by {
                    assert(self.received@[ws + i]);
                }
            }
        }
        if self.packets_received == p {
            GroupReceiverStatus::GROUP_COMPLETE(group_id)
        } else if c == we - ws {
            GroupReceiverStatus::WAVE_COMPLETE(w)
        } else {
            GroupReceiverStatus::PACKET_ACCEPTED
        }
    }

    /// Whether every packet is in.
    pub fn has_finished(&self) -> (r: bool)
        requires
            self.wf(),
        ensures
            r == self.complete(),
    {
        proof {
            lemma_count_full(self.received@);
            assert(self.received() == self.received@);
            assert(self.complete() <==> (forall|i: int| 0 <= i < self.received@.len() ==> #[trigger] self.received@[i]));
        }
        self.packets_received == self.config.packets_needed
    }

    /// The assembled payload.
    pub fn finalize(self) -> (r: Vec<u8>)
        ensures
            r@ == self.buffer(),
    {
        self.buffer
    }
}

proof fn lemma_count_none(s: Seq<bool>)
    requires
        forall|i: int| 0 <= i < s.len() ==> !#[trigger] s[i],
    ensures
        count_true(s) == 0,
    decreases s.len(),
{
    if s.len() > 0 {
        assert forall|i: int| 0 <= i < s.drop_last().len() implies !#[trigger] s.drop_last()[i] by {
            assert(!s[i]);
        }
        lemma_count_none(s.drop_last());
    }
}

} // verus!
