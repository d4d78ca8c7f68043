//! Receiver engine: reorder buffer with duplicate suppression, cumulative and
//! selective acknowledgment, and time-gated in-order playout.
use vstd::prelude::*;
use std::collections::HashMap;
use crate::seqnum::{
    seq_dist, seq_lt, seq_add, seq_before, seq_next, lemma_dist_add, lemma_add_step, lemma_add_dist,
    lemma_add_add,
};
use crate::codec::{data_view, parse_data_packet};

verus! {

broadcast use vstd::std_specs::hash::group_hash_axioms;

/// Width of the selective acknowledgment bitmap.
pub const BITMAP_BITS: u64 = 64;

/// A payload waiting in the reorder buffer.
pub struct BufEntry {
    pub payload: Vec<u8>,
    pub arrival_ms: u64,
}

pub struct Receiver {
    /// The next seq to hand to the sink.
    pub next_expected: u32,
    /// Received payloads not yet played out, by seq.
    pub buffer: HashMap<u32, BufEntry>,
    /// Minimum time an entry waits in the buffer before playout.
    pub playout_delay_ms: u64,
}

/// Bit `i` of `b` is set.
pub open spec fn bit(b: u64, i: u64) -> bool {
    (b >> i) & 1u64 == 1u64
}

/// An entry that arrived at `arrival` has waited at least `delay` at `now`.
pub open spec fn matured(arrival: u64, now: u64, delay: u64) -> bool {
    now as int - arrival as int >= delay as int
}

/// `c` ends the run of buffered seqs that starts at `ne`: every seq from
/// `ne` through `c` is buffered, and `c + 1` is not.
pub open spec fn acked_through(buf: Map<u32, BufEntry>, ne: u32, c: u32) -> bool {
    &&& forall|j: int|
        0 <= j < seq_dist(ne, seq_add(c, 1)) ==> #[trigger] buf.contains_key(seq_add(ne, j))
    &&& !buf.contains_key(seq_add(c, 1))
}

/// Every buffered seq lies at or after `ne`.
pub open spec fn buffered_from(buf: Map<u32, BufEntry>, ne: u32) -> bool {
    forall|s: u32| #[trigger] buf.contains_key(s) ==> seq_dist(ne, s) <= 0x8000_0000
}

/// Storing more datagrams never moves the cumulative ack back: when the
/// buffer only grows, the run acknowledged from `ne` only grows.
pub proof fn lemma_cumulative_grows_on_arrival(
    before: Map<u32, BufEntry>,
    after: Map<u32, BufEntry>,
    ne: u32,
    c1: u32,
    c2: u32,
)
    requires
        forall|s: u32| #[trigger] before.contains_key(s) ==> after.contains_key(s),
        acked_through(before, ne, c1),
        acked_through(after, ne, c2),
    ensures
        seq_dist(ne, seq_add(c1, 1)) <= seq_dist(ne, seq_add(c2, 1)),
{
    let k1 = seq_dist(ne, seq_add(c1, 1));
    let k2 = seq_dist(ne, seq_add(c2, 1));
    if k2 < k1 {
        lemma_add_dist(ne, seq_add(c2, 1));
        assert(before.contains_key(seq_add(ne, k2)));
    }
}

/// Playing payloads out does not move the cumulative ack: after the `n`
/// seqs from `ne` are handed to the sink and `next_expected` moves past
/// them, the run ends where it ended before.
pub proof fn lemma_cumulative_kept_by_playout(
    before: Map<u32, BufEntry>,
    after: Map<u32, BufEntry>,
    ne: u32,
    n: int,
    c1: u32,
    c2: u32,
)
    requires
        buffered_from(before, ne),
        0 <= n <= 0x8000_0001,
        forall|j: int| 0 <= j < n ==> #[trigger] before.contains_key(seq_add(ne, j)),
        forall|s: u32| #[trigger]
            after.contains_key(s) == (before.contains_key(s) && seq_dist(ne, s) >= n),
        acked_through(before, ne, c1),
        acked_through(after, seq_add(ne, n), c2),
    ensures
        c1 == c2,
{
    let ne2 = seq_add(ne, n);
    let k1 = seq_dist(ne, seq_add(c1, 1));
    let k2 = seq_dist(ne2, seq_add(c2, 1));
    lemma_add_dist(ne, seq_add(c1, 1));
    lemma_add_dist(ne2, seq_add(c2, 1));
    if k1 < n {
        assert(before.contains_key(seq_add(ne, k1)));
    }
    assert(k1 >= n);
    if k1 > 0 {
        assert(before.contains_key(seq_add(ne, k1 - 1)));
        lemma_dist_add(ne, k1 - 1);
    }
    assert(k1 <= 0x8000_0001);
    if k2 < k1 - n {
        lemma_add_add(ne, n, k2);
        lemma_dist_add(ne, n + k2);
        assert(before.contains_key(seq_add(ne, n + k2)));
        assert(after.contains_key(seq_add(ne2, k2)));
    } else if k2 > k1 - n {
        lemma_add_add(ne, n, k1 - n);
        assert(after.contains_key(seq_add(ne2, k1 - n)));
    }
    lemma_add_add(ne, n, k2);
    assert(seq_add(c2, 1) == seq_add(c1, 1));
    assert(c1 as int == (seq_add(c1, 1) as int + 0x1_0000_0000 - 1) % 0x1_0000_0000);
    assert(c2 as int == (seq_add(c2, 1) as int + 0x1_0000_0000 - 1) % 0x1_0000_0000);
}

/// A seq played out lies strictly before the new `next_expected` when fewer
/// than 2^31 payloads left in that call, so `on_datagram` drops any later
/// copy of it and its payload reaches the sink at most once.
pub proof fn lemma_played_seq_not_readmitted(ne: u32, n: int, j: int)
    requires
        0 <= j < n < 0x8000_0000,
    ensures
        seq_lt(seq_add(ne, j), seq_add(ne, n)),
{
    lemma_add_add(ne, j, n - j);
    lemma_dist_add(seq_add(ne, j), n - j);
}

/// A later copy of a datagram whose seq was among the `n` played out from
/// `ne` is one that `on_datagram` drops at the new `next_expected`: its seq
/// lies strictly before it.
pub proof fn lemma_replayed_copy_dropped(ne: u32, n: int, bytes: Seq<u8>)
    requires
        0 < n < 0x8000_0000,
        data_view(bytes) matches Some((s, _)) && seq_dist(ne, s) < n,
    ensures
        data_view(bytes) matches Some((s, _)) && seq_lt(s, seq_add(ne, n)),
{
    let s = data_view(bytes).unwrap().0;
    lemma_add_dist(ne, s);
    lemma_played_seq_not_readmitted(ne, n, seq_dist(ne, s));
}

proof fn lemma_set_bit(b: u64, i: u64, j: u64)
    requires
        i < 64,
        j < 64,
    ensures
        bit(b | (1u64 << i), j) == (j == i || bit(b, j)),
{
    assert(((b | (1u64 << i)) >> j) & 1u64 == 1u64 <==> (j == i || (b >> j) & 1u64 == 1u64))
        by (bit_vector)
        requires
            i < 64,
            j < 64,
    ;
}

proof fn lemma_zero_bits(j: u64)
    requires
        j < 64,
    ensures
        !bit(0u64, j),
{
    assert((0u64 >> j) & 1u64 != 1u64) by (bit_vector);
}

impl Receiver {
    /// Every buffered seq lies at or after `next_expected`.
    pub open spec fn wf(&self) -> bool {
        buffered_from(self.buffer@, self.next_expected)
    }

    /// A receiver that expects `first_seq` next and delays playout by
    /// `playout_delay_ms`.
    pub fn new(first_seq: u32, playout_delay_ms: u64) -> (r: Receiver)
        ensures
            r.wf(),
            r.next_expected == first_seq,
            r.buffer@ == Map::<u32, BufEntry>::empty(),
            r.playout_delay_ms == playout_delay_ms,
    {
        Receiver { next_expected: first_seq, buffer: HashMap::new(), playout_delay_ms }
    }

    /// Takes a datagram that arrived at `now_ms`. A DATA datagram whose seq
    /// is not yet played out and not yet buffered is stored; anything else is
    /// dropped. Returns whether it was stored.
    pub fn on_datagram(&mut self, bytes: &[u8], now_ms: u64) -> (r: bool)
        requires
            old(self).wf(),
        ensures
            final(self).wf(),
            final(self).next_expected == old(self).next_expected,
            final(self).playout_delay_ms == old(self).playout_delay_ms,
            r == (data_view(bytes@) matches Some((s, _)) && !seq_lt(s, old(self).next_expected)
                && !old(self).buffer@.contains_key(s)),
            !r ==> final(self).buffer@ == old(self).buffer@,
            r ==> (data_view(bytes@) matches Some((s, p)) && final(self).buffer@.contains_key(s)
                && final(self).buffer@[s].payload@ == p && final(self).buffer@[s].arrival_ms
                == now_ms && final(self).buffer@.remove(s) == old(self).buffer@),
    {
        match parse_data_packet(bytes) {
            None => false,
            Some((seq, payload)) => {
                if seq_before(seq, self.next_expected) {
                    return false;
                }
                if self.buffer.contains_key(&seq) {
                    return false;
                }
                self.buffer.insert(seq, BufEntry { payload, arrival_ms: now_ms });
                assert(self.buffer@.remove(seq) =~= old(self).buffer@);
                true
            },
        }
    }

    /// The acknowledgment of the current state: the cumulative seq, the end
    /// of the run of buffered seqs that starts at `next_expected`, and the
    /// bitmap whose bit `i` tells whether `cumulative + 1 + i` is buffered.
    pub fn build_ack(&self) -> (r: (u32, u64))
        requires
            self.wf(),
        ensures
            acked_through(self.buffer@, self.next_expected, r.0),
            forall|i: u64|
                i < BITMAP_BITS ==> (#[trigger] bit(r.1, i) == self.buffer@.contains_key(
                    seq_add(r.0, 1 + i),
                )),
    {
        let ne = self.next_expected;
        let mut k: u64 = 0;
        while self.buffer.contains_key(&ne.wrapping_add(k as u32))
            invariant
                self.wf(),
                ne == self.next_expected,
                k <= 0x8000_0001,
                forall|j: int| 0 <= j < k ==> #[trigger] self.buffer@.contains_key(seq_add(ne, j)),
            decreases 0x8000_0001 - k,
        {
            assert(ne.wrapping_add(k as u32) == seq_add(ne, k as int));
            proof {
                lemma_dist_add(ne, k as int);
            }
            k = k + 1;
        }
        assert(ne.wrapping_add(k as u32) == seq_add(ne, k as int));
        let cumulative = ne.wrapping_add(k as u32).wrapping_sub(1);
        assert(seq_add(cumulative, 1) == seq_add(ne, k as int));
        proof {
            lemma_dist_add(ne, k as int);
        }
        let mut bitmap: u64 = 0;
        let mut i: u64 = 0;
        proof {
            assert forall|j: u64| j < 64 implies !bit(0u64, j) by {
                lemma_zero_bits(j);
            }
        }
        while i < BITMAP_BITS
            invariant
                i <= 64,
                forall|j: u64|
                    j < i ==> (#[trigger] bit(bitmap, j) == self.buffer@.contains_key(
                        seq_add(cumulative, 1 + j),
                    )),
                forall|j: u64| i <= j < 64 ==> !#[trigger] bit(bitmap, j),
            decreases 64 - i,
        {
            let s = cumulative.wrapping_add(1).wrapping_add(i as u32);
            assert(s == seq_add(cumulative, 1 + i));
            if self.buffer.contains_key(&s) {
                let ghost old_b = bitmap;
                bitmap = bitmap | (1u64 << i);
                proof {
                    assert forall|j: u64| j < 64 implies #[trigger] bit(bitmap, j) == (j == i
                        || bit(old_b, j)) by {
                        lemma_set_bit(old_b, i, j);
                    }
                }
            }
            i = i + 1;
        }
        (cumulative, bitmap)
    }

    /// Hands to the sink, in seq order, every payload from `next_expected`
    /// on that is buffered and has waited `playout_delay_ms` at `now_ms`;
    /// stops at the first seq that is missing or still waiting.
    pub fn advance_playout(&mut self, now_ms: u64) -> (out: Vec<Vec<u8>>)
        requires
            old(self).wf(),
        ensures
            final(self).wf(),
            final(self).playout_delay_ms == old(self).playout_delay_ms,
            final(self).next_expected == seq_add(old(self).next_expected, out@.len() as int),
            out@.len() <= 0x8000_0001,
            forall|j: int|
                0 <= j < out@.len() ==> {
                    let s = #[trigger] seq_add(old(self).next_expected, j);
                    &&& old(self).buffer@.contains_key(s)
                    &&& matured(old(self).buffer@[s].arrival_ms, now_ms, old(self).playout_delay_ms)
                    &&& out@[j]@ == old(self).buffer@[s].payload@
                },
            forall|s: u32|
                #[trigger] final(self).buffer@.contains_key(s) == (old(self).buffer@.contains_key(s)
                    && seq_dist(old(self).next_expected, s) >= out@.len()),
            forall|s: u32|
                #[trigger] final(self).buffer@.contains_key(s) ==> final(self).buffer@[s]
                    == old(self).buffer@[s],
            !(final(self).buffer@.contains_key(final(self).next_expected) && matured(
                final(self).buffer@[final(self).next_expected].arrival_ms,
                now_ms,
                final(self).playout_delay_ms,
            )),
    {
        let ghost ne0 = self.next_expected;
        let mut out: Vec<Vec<u8>> = Vec::new();
        loop
            invariant
                self.wf(),
                old(self).wf(),
                self.playout_delay_ms == old(self).playout_delay_ms,
                out@.len() <= 0x8000_0001,
                self.next_expected == seq_add(ne0, out@.len() as int),
                ne0 == old(self).next_expected,
                forall|j: int|
                    0 <= j < out@.len() ==> {
                        let s = #[trigger] seq_add(ne0, j);
                        &&& old(self).buffer@.contains_key(s)
                        &&& matured(old(self).buffer@[s].arrival_ms, now_ms, self.playout_delay_ms)
                        &&& out@[j]@ == old(self).buffer@[s].payload@
                    },
                forall|s: u32|
                    #[trigger] self.buffer@.contains_key(s) == (old(self).buffer@.contains_key(s)
                        && seq_dist(ne0, s) >= out@.len()),
                forall|s: u32|
                    #[trigger] self.buffer@.contains_key(s) ==> self.buffer@[s] == old(
                        self,
                    ).buffer@[s],
            ensures
                !(self.buffer@.contains_key(self.next_expected) && matured(
                    self.buffer@[self.next_expected].arrival_ms,
                    now_ms,
                    self.playout_delay_ms,
                )),
            decreases 0x8000_0001 - out@.len(),
        {
            let ne = self.next_expected;
            let ready = match self.buffer.get(&ne) {
                Some(e) => now_ms >= e.arrival_ms && now_ms - e.arrival_ms >= self.playout_delay_ms,
                None => false,
            };
            if !ready {
                break;
            }
            proof {
                lemma_dist_add(ne0, out@.len() as int);
                lemma_add_step(ne0, out@.len() as int);
            }
            let ghost before = self.buffer@;
            let removed = self.buffer.remove(&ne);
            match removed {
                Some(e) => {
                    out.push(e.payload);
                },
                None => {},
            }
            self.next_expected = seq_next(ne);
            proof {
                let n = out@.len() as int;
                assert(seq_add(ne0, n - 1) == ne);
                assert forall|s: u32| #[trigger] self.buffer@.contains_key(s) implies seq_dist(
                    self.next_expected,
                    s,
                ) <= 0x8000_0000 by {
                    assert(before.contains_key(s) && s != ne);
                }
                assert forall|s: u32| #[trigger]
                    self.buffer@.contains_key(s) == (old(self).buffer@.contains_key(s) && seq_dist(
                        ne0,
                        s,
                    ) >= n) by {
                    if s == ne {
                    } else if old(self).buffer@.contains_key(s) && seq_dist(ne0, s) == n - 1 {
                        assert(s == ne);
                    }
                }
            }
        }
        out
    }
}

} // verus!
