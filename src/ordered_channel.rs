//! Restores the order of numbered messages that may arrive out of order:
//! a message is released as soon as every message before it has been, and
//! later ones wait until the gap before them closes.
use std::collections::HashMap;
use vstd::prelude::*;

verus! {

broadcast use vstd::std_specs::hash::group_hash_axioms;

/// The id `j` places after `id`, modulo 2^64.
pub open spec fn id_after(id: u64, j: int) -> u64 {
    ((id as int + j) % 0x1_0000_0000_0000_0000) as u64
}

/// Message `id` arrived as the next expected, with `held` waiting: `out`
/// is what was released, in order — the message itself, then the held
/// messages that follow it without a gap — and `after` is what waits now.
pub open spec fn releases(
    held: Map<u64, Vec<u8>>,
    id: u64,
    packet: Vec<u8>,
    out: Seq<Vec<u8>>,
    after: Map<u64, Vec<u8>>,
) -> bool {
    &&& out.len() >= 1
    &&& out[0] == packet
    &&& forall|j: int| 1 <= j < out.len() ==> held.contains_key(#[trigger] id_after(id, j))
    &&& forall|j: int| 1 <= j < out.len() ==> (#[trigger] out[j]) == held[id_after(id, j)]
    &&& after == held.remove_keys(Set::new(|k: u64| exists|j: int| 1 <= j < out.len() && k == id_after(id, j)))
    &&& !after.contains_key(id_after(id, out.len() as int))
}

/// The message that fills the gap before a run of held messages (ids
/// `id + 1` to `id + n - 1`, with `id + n` missing) releases exactly that
/// run, in id order, and nothing of it waits afterwards. So messages
/// delivered in reverse order all wait until the first arrives, which then
/// releases them all in order.
pub proof fn lemma_gap_filler_releases_run(
    held: Map<u64, Vec<u8>>,
    id: u64,
    packet: Vec<u8>,
    out: Seq<Vec<u8>>,
    after: Map<u64, Vec<u8>>,
    n: int,
)
    requires
        releases(held, id, packet, out, after),
        1 <= n < 0x1_0000_0000_0000_0000,
        forall|j: int| 1 <= j < n ==> held.contains_key(#[trigger] id_after(id, j)),
        !held.contains_key(id_after(id, n)),
    ensures
        out.len() == n,
        out[0] == packet,
        forall|j: int| 1 <= j < n ==> (#[trigger] out[j]) == held[id_after(id, j)],
        forall|j: int| 1 <= j < n ==> !after.contains_key(#[trigger] id_after(id, j)),
{
    if out.len() > n {
        assert(held.contains_key(id_after(id, n)));
    }
    if out.len() < n {
        let k = out.len() as int;
        assert(held.contains_key(id_after(id, k)));
        assert forall|j: int| 1 <= j < out.len() implies id_after(id, j) != id_after(id, k) by {}
        assert(after.contains_key(id_after(id, k)));
    }
    assert(out.len() == n);
    let removed = Set::new(|k: u64| exists|jj: int| 1 <= jj < out.len() && k == id_after(id, jj));
    assert forall|j: int| 1 <= j < n implies !after.contains_key(#[trigger] id_after(id, j)) by {
        assert(1 <= j < out.len() && id_after(id, j) == id_after(id, j));
        assert(removed.contains(id_after(id, j)));
    }
}

/// The messages held back, by id, and the id of the last one released.
pub struct OrderedChannel {
    map: HashMap<u64, Vec<u8>>,
    last_message_received: Option<u64>,
}

impl OrderedChannel {
    pub closed spec fn held(&self) -> Map<u64, Vec<u8>> {
        self.map@
    }

    pub closed spec fn last_released(&self) -> Option<u64> {
        self.last_message_received
    }

    /// The id that is released next.
    pub open spec fn next_expected(&self) -> u64 {
        match self.last_released() {
            Some(id) => id_after(id, 1),
            None => 0,
        }
    }

    /// No message is held under the id that is released next: that one
    /// is released as soon as it arrives.
    pub open spec fn wf(&self) -> bool {
        !self.held().contains_key(self.next_expected())
    }

    pub fn new() -> (r: OrderedChannel)
        ensures
            r.wf(),
            r.held() == Map::<u64, Vec<u8>>::empty(),
            r.last_released() is None,
    {
        OrderedChannel { map: HashMap::new(), last_message_received: None }
    }

    /// Takes message `id`. Where it is the next expected, it is released
    /// together with the held messages that follow it without a gap, in
    /// order; the result lists what was released. Otherwise it is held
    /// (replacing a message held under the same id) and nothing is released.
    pub fn on_packet_received(&mut self, id: u64, packet: Vec<u8>) -> (r: Vec<Vec<u8>>)
        requires
            old(self).wf(),
        ensures
            final(self).wf(),
            old(self).held().contains_key(id) && old(self).held()[id] == packet ==> r@.len() == 0 && final(self).held()
                == old(self).held() && final(self).last_released() == old(self).last_released(),
            id != old(self).next_expected() ==> r@.len() == 0 && final(self).held() == old(self).held().insert(id, packet)
                && final(self).last_released() == old(self).last_released(),
            id == old(self).next_expected() ==> releases(old(self).held(), id, packet, r@, final(self).held())
                && final(self).last_released() == Some(id_after(id, r@.len() - 1)),
    {
        let next: u64 = match self.last_message_received {
            Some(last) => last.wrapping_add(1),
            None => 0,
        };
        if next != id {
            let ghost before = self.map@;
            self.map.insert(id, packet);
            proof {
                if before.contains_key(id) && before[id] == packet {
                    assert(self.map@ =~= before);
                }
            }
            return Vec::new();
        }
        let mut out: Vec<Vec<u8>> = Vec::new();
        out.push(packet);
        let ghost old_map = self.map@;
        let mut cur: u64 = id.wrapping_add(1);
        loop
            invariant
                old_map == old(self).map@,
                out@.len() >= 1,
                out@[0] == packet,
                cur == id_after(id, out@.len() as int),
                forall|j: int| 1 <= j < out@.len() ==> old_map.contains_key(#[trigger] id_after(id, j)),
                forall|j: int| 1 <= j < out@.len() ==> (#[trigger] out@[j]) == old_map[id_after(id, j)],
                self.map@ == old_map.remove_keys(
                    Set::new(|k: u64| exists|j: int| 1 <= j < out@.len() && k == id_after(id, j)),
                ),
            ensures
                !self.map@.contains_key(cur),
            decreases self.map@.len(),
        {
            let ghost before = self.map@;
            match self.map.remove(&cur) {
                Some(next_packet) => {
                    let ghost n = out@.len() as int;
                    let ghost out_before = out@;
                    out.push(next_packet);
                    proof {
                        assert(before.contains_key(cur));
                        assert(old_map.contains_key(cur) && old_map[cur] == next_packet) by {
                            if !old_map.contains_key(cur) {
                                assert(!before.contains_key(cur));
                            }
                        }
                        assert(self.map@ =~= old_map.remove_keys(
                            Set::new(|k: u64| exists|j: int| 1 <= j < out@.len() && k == id_after(id, j)),
                        )) by {
                            assert forall|k: u64| #[trigger] self.map@.contains_key(k) <==> old_map.remove_keys(
                                Set::new(|k2: u64| exists|j: int| 1 <= j < out@.len() && k2 == id_after(id, j)),
                            ).contains_key(k) by {
                                if k == cur {
                                    assert(exists|j: int| 1 <= j < out@.len() && k == id_after(id, j)) by {
                                        assert(k == id_after(id, n));
                                    }
                                }
                                if exists|j: int| 1 <= j < out@.len() && k == id_after(id, j) {
                                    if k != cur {
                                        let j = choose|j: int| 1 <= j < out@.len() && k == id_after(id, j);
                                        assert(j < n);
                                    }
                                }
                            }
                        }
                        assert(id_after(id_after(id, n), 1) == id_after(id, n + 1));
                        assert forall|j: int| 1 <= j < out@.len() implies old_map.contains_key(#[trigger] id_after(id, j)) by {
                            if j < n {
                                assert(old_map.contains_key(id_after(id, j)));
                            }
                        }
                        assert forall|j: int| 1 <= j < out@.len() implies (#[trigger] out@[j]) == old_map[id_after(id, j)] by {
                            if j == n {
                                assert(out@[j] == next_packet);
                            } else {
                                assert(out_before[j] == out@[j]);
                            }
                        }
                        assert(before.dom().finite());
                    }
                    cur = cur.wrapping_add(1);
                },
                None => {
                    assert(!self.map@.contains_key(cur));
                    break;
                },
            }
        }
        let last = cur.wrapping_sub(1);
        proof {
            assert(id_after(id, out@.len() - 1) == last);
            assert(id_after(last, 1) == id_after(id, out@.len() as int));
        }
        self.last_message_received = Some(last);
        out
    }
}

} // verus!
