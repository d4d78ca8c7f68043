//! Sender engine: sliding window of sent datagrams, cumulative and selective
//! acknowledgment processing, and timeout retransmission.
use vstd::prelude::*;
use crate::seqnum::{
    seq_dist, seq_le, seq_add, seq_not_after, distance, seq_next, lemma_dist_next, lemma_dist_add,
    lemma_dist_through,
};
use crate::codec::{data_bytes, data_view, make_data_packet, lemma_data_round_trip};
use crate::clock::now_ms;
use crate::receiver::bit;

verus! {

/// Largest datagram the transport carries.
pub const MTU: usize = 1500;

/// Largest payload a DATA datagram may carry within one MTU.
pub const MAX_PAYLOAD: usize = 1482;

/// Why a sender configuration was refused.
#[derive(Debug, Clone, Copy, PartialEq, Eq, Structural)]
pub enum ConfigError {
    /// The payload size does not fit one datagram.
    InvalidPayloadSize,
}

/// Tunables of the sender.
#[derive(Debug, Clone, Copy, PartialEq, Eq, Structural)]
pub struct SenderConfig {
    /// Largest number of unacknowledged datagrams kept.
    pub window_size: usize,
    /// Largest payload read per DATA datagram.
    pub payload_size: usize,
    /// Age after which an unacknowledged datagram is sent again.
    pub retrans_timeout_ms: u64,
    /// Stream id written into DATA headers.
    pub stream_id: u16,
}

/// A sent datagram awaiting its cumulative acknowledgment.
pub struct WindowEntry {
    pub seq: u32,
    pub bytes: Vec<u8>,
    pub last_sent_ms: u64,
    pub transmit_count: u64,
}

/// The mathematical value of a window entry.
pub struct EntryModel {
    pub seq: u32,
    pub bytes: Seq<u8>,
    pub last_sent_ms: u64,
    pub transmit_count: u64,
}

impl View for WindowEntry {
    type V = EntryModel;

    open spec fn view(&self) -> EntryModel {
        EntryModel {
            seq: self.seq,
            bytes: self.bytes@,
            last_sent_ms: self.last_sent_ms,
            transmit_count: self.transmit_count,
        }
    }
}

pub struct Sender {
    pub config: SenderConfig,
    /// Seq of the next new datagram.
    pub next_seq: u32,
    /// The byte source has signalled its end.
    pub eof_reached: bool,
    /// Unacknowledged datagrams, oldest first.
    pub window: Vec<WindowEntry>,
}

pub open spec fn models(w: Seq<WindowEntry>) -> Seq<EntryModel> {
    w.map_values(|e: WindowEntry| e@)
}

/// A transmit count after one more transmission (saturating).
pub open spec fn bump(n: u64) -> u64 {
    if n < u64::MAX {
        (n + 1) as u64
    } else {
        n
    }
}

/// The ack `(c, b)` asks again for `s`: `s` lies within the 64 seqs after `c`
/// and its bit is clear.
pub open spec fn nacked(s: u32, c: u32, b: u64) -> bool {
    let d = seq_dist(c, s);
    1 <= d <= 64 && !bit(b, (d - 1) as u64)
}

/// The entry `e` after it has been sent again at `now`.
pub open spec fn resent_at(e: EntryModel, now: u64) -> EntryModel {
    EntryModel { last_sent_ms: now, transmit_count: bump(e.transmit_count), ..e }
}

/// The window after the ack `(c, b)` at `now`: entries at or before `c` are
/// gone, entries the bitmap asks for are sent again, the rest stay as they
/// were, in the same order.
pub open spec fn after_ack(m: Seq<EntryModel>, c: u32, b: u64, now: u64) -> Seq<EntryModel>
    decreases m.len(),
{
    if m.len() == 0 {
        Seq::empty()
    } else {
        let e = m[0];
        let head = if seq_le(e.seq, c) {
            Seq::empty()
        } else if nacked(e.seq, c, b) {
            seq![resent_at(e, now)]
        } else {
            seq![e]
        };
        head + after_ack(m.subrange(1, m.len() as int), c, b, now)
    }
}

/// The datagrams that the ack `(c, b)` sends again, in window order.
pub open spec fn ack_resends(m: Seq<EntryModel>, c: u32, b: u64) -> Seq<Seq<u8>>
    decreases m.len(),
{
    if m.len() == 0 {
        Seq::empty()
    } else {
        let e = m[0];
        let head = if !seq_le(e.seq, c) && nacked(e.seq, c, b) {
            seq![e.bytes]
        } else {
            Seq::empty()
        };
        head + ack_resends(m.subrange(1, m.len() as int), c, b)
    }
}

/// An entry last sent at `last` has waited longer than `timeout` at `now`.
pub open spec fn expired(last: u64, now: u64, timeout: u64) -> bool {
    now as int - last as int > timeout as int
}

/// The window after a timeout scan at `now`.
pub open spec fn after_scan(m: Seq<EntryModel>, now: u64, timeout: u64) -> Seq<EntryModel> {
    m.map_values(
        |e: EntryModel|
            if expired(e.last_sent_ms, now, timeout) {
                resent_at(e, now)
            } else {
                e
            },
    )
}

/// The datagrams a timeout scan at `now` sends again, in window order.
pub open spec fn scan_resends(m: Seq<EntryModel>, now: u64, timeout: u64) -> Seq<Seq<u8>>
    decreases m.len(),
{
    if m.len() == 0 {
        Seq::empty()
    } else {
        let head = if expired(m[0].last_sent_ms, now, timeout) {
            seq![m[0].bytes]
        } else {
            Seq::empty()
        };
        head + scan_resends(m.subrange(1, m.len() as int), now, timeout)
    }
}

/// The window without the entries keyed `s`.
pub open spec fn without_key(m: Seq<EntryModel>, s: u32) -> Seq<EntryModel>
    decreases m.len(),
{
    if m.len() == 0 {
        Seq::empty()
    } else {
        let head = if m[0].seq == s {
            Seq::empty()
        } else {
            seq![m[0]]
        };
        head + without_key(m.subrange(1, m.len() as int), s)
    }
}

pub open spec fn bytes_of(v: Seq<Vec<u8>>) -> Seq<Seq<u8>> {
    v.map_values(|b: Vec<u8>| b@)
}

proof fn lemma_after_ack_len(m: Seq<EntryModel>, c: u32, b: u64, now: u64)
    ensures
        after_ack(m, c, b, now).len() <= m.len(),
    decreases m.len(),
{
    if m.len() > 0 {
        lemma_after_ack_len(m.subrange(1, m.len() as int), c, b, now);
    }
}

proof fn lemma_without_key_len(m: Seq<EntryModel>, s: u32)
    ensures
        without_key(m, s).len() <= m.len(),
    decreases m.len(),
{
    if m.len() > 0 {
        lemma_without_key_len(m.subrange(1, m.len() as int), s);
    }
}

proof fn lemma_models_tail(w: Seq<WindowEntry>)
    requires
        w.len() > 0,
    ensures
        models(w.remove(0)) == models(w).subrange(1, w.len() as int),
        models(w)[0] == w[0]@,
{
    assert(models(w.remove(0)) =~= models(w).subrange(1, w.len() as int));
}

/// What an ack can change structurally: which seqs are kept, with which bytes.
pub open spec fn shape(m: Seq<EntryModel>) -> Seq<(u32, Seq<u8>)> {
    m.map_values(|e: EntryModel| (e.seq, e.bytes))
}

proof fn lemma_after_ack_above(m: Seq<EntryModel>, c: u32, b: u64, now: u64)
    ensures
        forall|i: int|
            0 <= i < after_ack(m, c, b, now).len() ==> !seq_le(
                #[trigger] after_ack(m, c, b, now)[i].seq,
                c,
            ),
    decreases m.len(),
{
    if m.len() > 0 {
        let tail = m.subrange(1, m.len() as int);
        lemma_after_ack_above(tail, c, b, now);
        let e = m[0];
        let head = if seq_le(e.seq, c) {
            Seq::empty()
        } else if nacked(e.seq, c, b) {
            seq![resent_at(e, now)]
        } else {
            seq![e]
        };
        let r = after_ack(m, c, b, now);
        assert(r == head + after_ack(tail, c, b, now));
        assert forall|i: int| 0 <= i < r.len() implies !seq_le(#[trigger] r[i].seq, c) by {
            if i >= head.len() {
                assert(r[i] == after_ack(tail, c, b, now)[i - head.len()]);
            }
        }
    }
}

proof fn lemma_after_ack_keeps_shape(m: Seq<EntryModel>, c: u32, b: u64, now: u64)
    requires
        forall|i: int| 0 <= i < m.len() ==> !seq_le(#[trigger] m[i].seq, c),
    ensures
        shape(after_ack(m, c, b, now)) == shape(m),
    decreases m.len(),
{
    if m.len() > 0 {
        let tail = m.subrange(1, m.len() as int);
        assert forall|i: int| 0 <= i < tail.len() implies !seq_le(#[trigger] tail[i].seq, c) by {
            assert(tail[i] == m[i + 1]);
        }
        lemma_after_ack_keeps_shape(tail, c, b, now);
        assert(!seq_le(m[0].seq, c));
        let e = m[0];
        let e2 = if nacked(e.seq, c, b) {
            resent_at(e, now)
        } else {
            e
        };
        assert(after_ack(m, c, b, now) == seq![e2] + after_ack(tail, c, b, now));
        assert(shape(seq![e2] + after_ack(tail, c, b, now)) =~= seq![(e.seq, e.bytes)] + shape(
            after_ack(tail, c, b, now),
        ));
        assert(shape(m) =~= seq![(e.seq, e.bytes)] + shape(tail));
    }
}

/// Processing the same ack twice leaves the same entries, with the same
/// bytes and in the same order, as processing it once; only the send times
/// and counts of the entries sent again differ.
pub proof fn lemma_ack_idempotent(m: Seq<EntryModel>, c: u32, b: u64, now1: u64, now2: u64)
    ensures
        shape(after_ack(after_ack(m, c, b, now1), c, b, now2)) == shape(after_ack(m, c, b, now1)),
{
    lemma_after_ack_above(m, c, b, now1);
    lemma_after_ack_keeps_shape(after_ack(m, c, b, now1), c, b, now2);
}

/// No two entries of the window share a seq.
pub open spec fn keys_distinct(m: Seq<EntryModel>) -> bool {
    forall|i: int, j: int| 0 <= i < j < m.len() ==> m[i].seq != m[j].seq
}

/// Some entry of the window has seq `s`.
pub open spec fn has_key(m: Seq<EntryModel>, s: u32) -> bool {
    exists|i: int| 0 <= i < m.len() && #[trigger] m[i].seq == s
}

proof fn lemma_distinct_cons(h: Seq<EntryModel>, t: Seq<EntryModel>)
    requires
        h.len() <= 1,
        keys_distinct(t),
        h.len() == 1 ==> !has_key(t, h[0].seq),
    ensures
        keys_distinct(h + t),
        forall|x: u32| has_key(h + t, x) ==> (h.len() == 1 && h[0].seq == x) || has_key(t, x),
{
    let r = h + t;
    assert forall|i: int, j: int| 0 <= i < j < r.len() implies r[i].seq != r[j].seq by {
        if i >= h.len() {
            assert(r[i] == t[i - h.len()] && r[j] == t[j - h.len()]);
        } else {
            assert(r[j] == t[j - 1]);
        }
    }
    assert forall|x: u32| has_key(r, x) implies (h.len() == 1 && h[0].seq == x) || has_key(t, x) by {
        let i = choose|i: int| 0 <= i < r.len() && #[trigger] r[i].seq == x;
        if i >= h.len() {
            assert(t[i - h.len()].seq == x);
        }
    }
}

proof fn lemma_after_ack_keys(m: Seq<EntryModel>, c: u32, b: u64, now: u64)
    requires
        keys_distinct(m),
    ensures
        keys_distinct(after_ack(m, c, b, now)),
        forall|x: u32| has_key(after_ack(m, c, b, now), x) ==> has_key(m, x),
    decreases m.len(),
{
    if m.len() > 0 {
        let tail = m.subrange(1, m.len() as int);
        assert forall|i: int, j: int| 0 <= i < j < tail.len() implies tail[i].seq != tail[j].seq by {
            assert(tail[i] == m[i + 1] && tail[j] == m[j + 1]);
        }
        lemma_after_ack_keys(tail, c, b, now);
        let e = m[0];
        let head = if seq_le(e.seq, c) {
            Seq::empty()
        } else if nacked(e.seq, c, b) {
            seq![resent_at(e, now)]
        } else {
            seq![e]
        };
        let rest = after_ack(tail, c, b, now);
        if has_key(rest, e.seq) {
            assert(has_key(tail, e.seq));
            let k = choose|i: int| 0 <= i < tail.len() && #[trigger] tail[i].seq == e.seq;
            assert(tail[k] == m[k + 1]);
            assert(false);
        }
        lemma_distinct_cons(head, rest);
        assert forall|x: u32| has_key(after_ack(m, c, b, now), x) implies has_key(m, x) by {
            assert(after_ack(m, c, b, now) == head + rest);
            if head.len() == 1 && head[0].seq == x {
                assert(m[0].seq == x);
            } else {
                assert(has_key(rest, x));
                assert(has_key(tail, x));
                let k = choose|i: int| 0 <= i < tail.len() && #[trigger] tail[i].seq == x;
                assert(tail[k] == m[k + 1]);
            }
        }
    }
}

proof fn lemma_without_key_keys(m: Seq<EntryModel>, s: u32)
    requires
        keys_distinct(m),
    ensures
        keys_distinct(without_key(m, s)),
        !has_key(without_key(m, s), s),
        forall|x: u32| has_key(without_key(m, s), x) ==> has_key(m, x),
    decreases m.len(),
{
    if m.len() > 0 {
        let tail = m.subrange(1, m.len() as int);
        assert forall|i: int, j: int| 0 <= i < j < tail.len() implies tail[i].seq != tail[j].seq by {
            assert(tail[i] == m[i + 1] && tail[j] == m[j + 1]);
        }
        lemma_without_key_keys(tail, s);
        let e = m[0];
        let head = if e.seq == s {
            Seq::empty()
        } else {
            seq![e]
        };
        let rest = without_key(tail, s);
        if has_key(rest, e.seq) {
            assert(has_key(tail, e.seq));
            let k = choose|i: int| 0 <= i < tail.len() && #[trigger] tail[i].seq == e.seq;
            assert(tail[k] == m[k + 1]);
            assert(false);
        }
        lemma_distinct_cons(head, rest);
        assert(without_key(m, s) == head + rest);
        assert forall|x: u32| has_key(without_key(m, s), x) implies has_key(m, x) by {
            assert(without_key(m, s) == head + rest);
            if head.len() == 1 && head[0].seq == x {
                assert(m[0].seq == x);
            } else {
                assert(has_key(rest, x));
                assert(has_key(tail, x));
                let k = choose|i: int| 0 <= i < tail.len() && #[trigger] tail[i].seq == x;
                assert(tail[k] == m[k + 1]);
            }
        }
    } else {
        assert(without_key(m, s) =~= Seq::<EntryModel>::empty());
    }
}

/// Every entry lies behind `n` within half the sequence space, oldest first:
/// the distance to `n` falls strictly along the window.
pub open spec fn behind(m: Seq<EntryModel>, n: u32) -> bool {
    &&& forall|i: int| 0 <= i < m.len() ==> 0 < #[trigger] seq_dist(m[i].seq, n) < 0x8000_0000
    &&& forall|i: int, j: int|
        0 <= i < j < m.len() ==> #[trigger] seq_dist(m[i].seq, n) > #[trigger] seq_dist(
            m[j].seq,
            n,
        )
}

proof fn lemma_after_ack_behind(m: Seq<EntryModel>, c: u32, b: u64, now: u64, n: u32)
    requires
        behind(m, n),
        keys_distinct(m),
    ensures
        behind(after_ack(m, c, b, now), n),
    decreases m.len(),
{
    if m.len() > 0 {
        let tail = m.subrange(1, m.len() as int);
        assert forall|i: int, j: int| 0 <= i < j < tail.len() implies tail[i].seq != tail[j].seq by {
            assert(tail[i] == m[i + 1] && tail[j] == m[j + 1]);
        }
        assert forall|i: int| 0 <= i < tail.len() implies 0 < #[trigger] seq_dist(tail[i].seq, n)
            < 0x8000_0000 by {
            assert(tail[i] == m[i + 1]);
        }
        assert forall|i: int, j: int| 0 <= i < j < tail.len() implies #[trigger] seq_dist(
            tail[i].seq,
            n,
        ) > #[trigger] seq_dist(tail[j].seq, n) by {
            assert(tail[i] == m[i + 1] && tail[j] == m[j + 1]);
        }
        lemma_after_ack_behind(tail, c, b, now, n);
        lemma_after_ack_keys(tail, c, b, now);
        let e = m[0];
        let head = if seq_le(e.seq, c) {
            Seq::empty()
        } else if nacked(e.seq, c, b) {
            seq![resent_at(e, now)]
        } else {
            seq![e]
        };
        let rest = after_ack(tail, c, b, now);
        let r = head + rest;
        assert(after_ack(m, c, b, now) == r);
        assert forall|i: int| 0 <= i < r.len() implies 0 < #[trigger] seq_dist(r[i].seq, n)
            < 0x8000_0000 by {
            if i >= head.len() {
                assert(r[i] == rest[i - head.len()]);
            }
        }
        assert forall|i: int, j: int| 0 <= i < j < r.len() implies #[trigger] seq_dist(
            r[i].seq,
            n,
        ) > #[trigger] seq_dist(r[j].seq, n) by {
            assert(r[j] == rest[j - head.len()]);
            if i >= head.len() {
                assert(r[i] == rest[i - head.len()]);
            } else {
                let x = rest[j - head.len()].seq;
                assert(has_key(rest, x));
                assert(has_key(tail, x));
                let k = choose|k: int| 0 <= k < tail.len() && #[trigger] tail[k].seq == x;
                assert(tail[k] == m[k + 1]);
                assert(seq_dist(m[0].seq, n) > seq_dist(m[k + 1].seq, n));
            }
        }
    }
}

proof fn lemma_without_absent(m: Seq<EntryModel>, s: u32)
    requires
        !has_key(m, s),
    ensures
        without_key(m, s) == m,
    decreases m.len(),
{
    if m.len() > 0 {
        let tail = m.subrange(1, m.len() as int);
        if has_key(tail, s) {
            let k = choose|k: int| 0 <= k < tail.len() && #[trigger] tail[k].seq == s;
            assert(m[k + 1].seq == s);
        }
        lemma_without_absent(tail, s);
        assert(m[0].seq != s);
        assert(without_key(m, s) =~= m);
    } else {
        assert(without_key(m, s) =~= m);
    }
}

/// A window kept in order behind `n`: among the entries that an ack `(c, b)`
/// sends again, an older entry lies nearer after `c` than a newer one, so
/// the resends come in ascending seq order from `c + 1`.
pub proof fn lemma_resends_ascending(m: Seq<EntryModel>, n: u32, c: u32, b: u64, i: int, j: int)
    requires
        behind(m, n),
        0 <= i < j < m.len(),
        nacked(m[i].seq, c, b),
        nacked(m[j].seq, c, b),
    ensures
        seq_dist(c, m[i].seq) < seq_dist(c, m[j].seq),
{
    assert(seq_dist(m[i].seq, n) > seq_dist(m[j].seq, n));
    lemma_dist_through(c, m[i].seq, m[j].seq, n);
}

/// The window after timeout scans at each of `times`, in turn.
pub open spec fn after_scans(m: Seq<EntryModel>, times: Seq<u64>, timeout: u64) -> Seq<EntryModel>
    decreases times.len(),
{
    if times.len() == 0 {
        m
    } else {
        after_scans(after_scan(m, times[0], timeout), times.subrange(1, times.len() as int), timeout)
    }
}

/// With no acks, an entry rises by exactly one transmission per timeout
/// cycle: when each scan comes more than `timeout` after the previous send,
/// `k` scans leave it sent `k` more times, last at the final scan, with its
/// seq and bytes unchanged.
pub proof fn lemma_scans_count(m: Seq<EntryModel>, times: Seq<u64>, timeout: u64, i: int)
    requires
        0 <= i < m.len(),
        times.len() > 0,
        expired(m[i].last_sent_ms, times[0], timeout),
        forall|k: int| 0 < k < times.len() ==> expired(times[k - 1], #[trigger] times[k], timeout),
        m[i].transmit_count + times.len() <= u64::MAX,
    ensures
        after_scans(m, times, timeout).len() == m.len(),
        after_scans(m, times, timeout)[i].transmit_count == m[i].transmit_count + times.len(),
        after_scans(m, times, timeout)[i].last_sent_ms == times[times.len() - 1],
        after_scans(m, times, timeout)[i].seq == m[i].seq,
        after_scans(m, times, timeout)[i].bytes == m[i].bytes,
    decreases times.len(),
{
    let m1 = after_scan(m, times[0], timeout);
    let rest = times.subrange(1, times.len() as int);
    assert(m1[i] == resent_at(m[i], times[0]));
    if times.len() > 1 {
        assert forall|k: int| 0 < k < rest.len() implies expired(
            rest[k - 1],
            #[trigger] rest[k],
            timeout,
        ) by {
            assert(rest[k - 1] == times[k] && rest[k] == times[k + 1]);
            assert(expired(times[k], times[k + 1], timeout));
        }
        assert(expired(times[0], times[1], timeout));
        lemma_scans_count(m1, rest, timeout, i);
        assert(rest[rest.len() - 1] == times[times.len() - 1]);
    } else {
        assert(after_scans(m1, rest, timeout) == m1);
    }
}

impl Sender {
    /// The window never holds more than `window_size` entries, no two of them
    /// share a seq, they lie behind `next_seq` oldest first, and a payload
    /// always fits one datagram.
    pub open spec fn wf(&self) -> bool {
        &&& self.window@.len() <= self.config.window_size
        &&& self.config.payload_size <= MAX_PAYLOAD
        &&& keys_distinct(models(self.window@))
        &&& behind(models(self.window@), self.next_seq)
    }

    /// A new chunk may be sent: the source has not ended, the window has room,
    /// and the oldest entry is less than 2^31 - 1 seqs behind `next_seq`, so
    /// that every entry stays in the half of the sequence space behind it.
    pub open spec fn has_room(&self) -> bool {
        &&& !self.eof_reached
        &&& self.window@.len() < self.config.window_size
        &&& (self.window@.len() == 0 || seq_dist(self.window@[0].seq, self.next_seq)
            < 0x7fff_ffff)
    }

    /// A sender whose first datagram gets `first_seq`; refuses a payload size
    /// that does not fit one datagram.
    pub fn new(config: SenderConfig, first_seq: u32) -> (r: Result<Sender, ConfigError>)
        ensures
            config.payload_size > MAX_PAYLOAD <==> r is Err,
            r is Err ==> r == Err::<Sender, ConfigError>(ConfigError::InvalidPayloadSize),
            r matches Ok(s) ==> s.wf() && s.config == config && s.next_seq == first_seq
                && !s.eof_reached && s.window@.len() == 0,
    {
        if config.payload_size > MAX_PAYLOAD {
            return Err(ConfigError::InvalidPayloadSize);
        }
        Ok(Sender { config, next_seq: first_seq, eof_reached: false, window: Vec::new() })
    }

    /// Whether the sender takes another chunk of the byte source.
    pub fn wants_data(&self) -> (r: bool)
        ensures
            r == self.has_room(),
    {
        if self.eof_reached || self.window.len() >= self.config.window_size {
            return false;
        }
        self.window.len() == 0 || distance(self.window[0].seq, self.next_seq) < 0x7fff_ffff
    }

    /// Whether the transfer is over: the source has ended and every datagram
    /// is acknowledged.
    pub fn is_done(&self) -> (r: bool)
        ensures
            r == (self.eof_reached && self.window@.len() == 0),
    {
        self.eof_reached && self.window.len() == 0
    }

    /// Removes the entries keyed `s` from the window.
    fn drop_key(&mut self, s: u32)
        ensures
            models(final(self).window@) == without_key(models(old(self).window@), s),
            final(self).config == old(self).config,
            final(self).next_seq == old(self).next_seq,
            final(self).eof_reached == old(self).eof_reached,
    {
        let mut rest: Vec<WindowEntry> = Vec::new();
        std::mem::swap(&mut rest, &mut self.window);
        let ghost orig = models(rest@);
        while rest.len() > 0
            invariant
                models(self.window@) + without_key(models(rest@), s) == without_key(orig, s),
                self.config == old(self).config,
                self.next_seq == old(self).next_seq,
                self.eof_reached == old(self).eof_reached,
            decreases rest@.len(),
        {
            let ghost r0 = rest@;
            proof {
                lemma_models_tail(r0);
            }
            let e = rest.remove(0);
            let ghost before = models(self.window@);
            if e.seq != s {
                self.window.push(e);
                assert(models(self.window@) =~= before + seq![e@]);
            }
            assert(models(self.window@) + without_key(models(rest@), s) =~= before + without_key(
                models(r0),
                s,
            ));
        }
        assert(without_key(models(rest@), s) =~= Seq::<EntryModel>::empty());
        assert(models(self.window@) =~= without_key(orig, s));
    }
    /// Takes the next chunk of the byte source, read at `now_ms`. An empty
    /// chunk marks the end of the source. Otherwise, when the sender wants
    /// data, the chunk is framed with seq `next_seq` and timestamp `now_ms`,
    /// kept in the window as sent once at `now_ms`, and returned for
    /// transmission; `next_seq` advances.
    pub fn push_chunk(&mut self, chunk: &[u8], now_ms: u64) -> (r: Option<Vec<u8>>)
        requires
            old(self).wf(),
            chunk@.len() <= old(self).config.payload_size,
        ensures
            final(self).wf(),
            final(self).config == old(self).config,
            !old(self).has_room() ==> (
            r is None && final(self).eof_reached == old(self).eof_reached && final(self).next_seq
                == old(self).next_seq && final(self).window@ == old(self).window@),
            (old(self).has_room() && chunk@.len() == 0) ==> (r is None && final(self).eof_reached
                && final(self).next_seq == old(self).next_seq && final(self).window@ == old(
                self,
            ).window@),
            (old(self).has_room() && chunk@.len() > 0) ==> (r matches Some(d) && d@ == data_bytes(
                old(self).config.stream_id,
                old(self).next_seq,
                now_ms,
                chunk@,
            ) && !final(self).eof_reached && final(self).next_seq == seq_add(old(self).next_seq, 1)
                && models(final(self).window@) == without_key(
                models(old(self).window@),
                old(self).next_seq,
            ).push(EntryModel { seq: old(self).next_seq, bytes: d@, last_sent_ms: now_ms, transmit_count: 1 })),
    {
        if !self.wants_data() {
            return None;
        }
        if chunk.len() == 0 {
            self.eof_reached = true;
            return None;
        }
        let seq = self.next_seq;
        let packet = match make_data_packet(self.config.stream_id, seq, now_ms, chunk) {
            Ok(p) => p,
            Err(_) => {
                return None;
            },
        };
        let kept = packet.clone();
        assert(kept@ =~= packet@);
        self.drop_key(seq);
        proof {
            let m0 = models(old(self).window@);
            lemma_without_key_len(m0, seq);
            lemma_without_key_keys(m0, seq);
            if has_key(m0, seq) {
                let k = choose|k: int| 0 <= k < m0.len() && #[trigger] m0[k].seq == seq;
                assert(seq_dist(m0[k].seq, seq) == 0);
            }
            lemma_without_absent(m0, seq);
        }
        let ghost before = models(self.window@);
        self.window.push(WindowEntry { seq, bytes: kept, last_sent_ms: now_ms, transmit_count: 1 });
        assert(models(self.window@) =~= before.push(EntryModel { seq, bytes: packet@, last_sent_ms: now_ms, transmit_count: 1 }));
        proof {
            let m = models(self.window@);
            assert forall|i: int, j: int| 0 <= i < j < m.len() implies m[i].seq != m[j].seq by {
                if j == m.len() - 1 {
                    assert(m[i] == before[i]);
                    if m[i].seq == seq {
                        assert(has_key(before, seq));
                    }
                } else {
                    assert(m[i] == before[i] && m[j] == before[j]);
                }
            }
        }
        self.next_seq = seq_next(seq);
        proof {
            let m = models(self.window@);
            let n1 = self.next_seq;
            lemma_dist_add(seq, 1);
            assert forall|i: int| 0 <= i < m.len() - 1 implies seq_dist(m[i].seq, n1) == seq_dist(
                before[i].seq,
                seq,
            ) + 1 by {
                assert(m[i] == before[i]);
                if i > 0 {
                    assert(seq_dist(before[0].seq, seq) > seq_dist(before[i].seq, seq));
                }
                lemma_dist_next(before[i].seq, seq);
            }
            assert forall|i: int| 0 <= i < m.len() implies 0 < #[trigger] seq_dist(m[i].seq, n1)
                < 0x8000_0000 by {
                if i < m.len() - 1 {
                    if i > 0 {
                        assert(seq_dist(before[0].seq, seq) > seq_dist(before[i].seq, seq));
                    }
                }
            }
            assert forall|i: int, j: int| 0 <= i < j < m.len() implies #[trigger] seq_dist(
                m[i].seq,
                n1,
            ) > #[trigger] seq_dist(m[j].seq, n1) by {
                if j < m.len() - 1 {
                    assert(seq_dist(before[i].seq, seq) > seq_dist(before[j].seq, seq));
                }
            }
        }
        Some(packet)
    }

    /// `push_chunk` stamped with the current wall-clock time.
    pub fn push_chunk_now(&mut self, chunk: &[u8]) -> (r: Option<Vec<u8>>)
        requires
            old(self).wf(),
            chunk@.len() <= old(self).config.payload_size,
        ensures
            final(self).wf(),
            final(self).config == old(self).config,
            r is Some <==> (old(self).has_room() && chunk@.len() > 0),
            r is Some ==> final(self).next_seq == seq_add(old(self).next_seq, 1)
                && !final(self).eof_reached,
            r is None ==> final(self).next_seq == old(self).next_seq && final(self).window@
                == old(self).window@,
            r matches Some(d) ==> data_view(d@) == Some((old(self).next_seq, chunk@)),
            r matches Some(d) ==> exists|t: u64|
                d@ == data_bytes(old(self).config.stream_id, old(self).next_seq, t, chunk@)
                    && models(final(self).window@) == without_key(
                    models(old(self).window@),
                    old(self).next_seq,
                ).push(
                    EntryModel {
                        seq: old(self).next_seq,
                        bytes: d@,
                        last_sent_ms: t,
                        transmit_count: 1,
                    },
                ),
            final(self).eof_reached == (old(self).eof_reached || (old(self).has_room()
                && chunk@.len() == 0)),
    {
        let now = now_ms();
        let r = self.push_chunk(chunk, now);
        proof {
            if r is Some {
                lemma_data_round_trip(old(self).config.stream_id, old(self).next_seq, now, chunk@);
            }
        }
        r
    }

    /// Processes the ack `(cumulative, bitmap)` at `now_ms`: drops every
    /// entry at or before `cumulative`, and sends again each entry among the
    /// 64 seqs after `cumulative` whose bit is clear. Returns the datagrams
    /// to send again.
    pub fn on_ack(&mut self, cumulative: u32, bitmap: u64, now_ms: u64) -> (out: Vec<Vec<u8>>)
        requires
            old(self).wf(),
        ensures
            final(self).wf(),
            final(self).config == old(self).config,
            final(self).next_seq == old(self).next_seq,
            final(self).eof_reached == old(self).eof_reached,
            models(final(self).window@) == after_ack(models(old(self).window@), cumulative, bitmap, now_ms),
            bytes_of(out@) == ack_resends(models(old(self).window@), cumulative, bitmap),
            forall|i: int, j: int|
                0 <= i < j < old(self).window@.len() && nacked(
                    #[trigger] old(self).window@[i].seq,
                    cumulative,
                    bitmap,
                ) && nacked(#[trigger] old(self).window@[j].seq, cumulative, bitmap) ==> seq_dist(
                    cumulative,
                    old(self).window@[i].seq,
                ) < seq_dist(cumulative, old(self).window@[j].seq),
    {
        proof {
            let m = models(old(self).window@);
            assert forall|i: int, j: int|
                0 <= i < j < old(self).window@.len() && nacked(
                    #[trigger] old(self).window@[i].seq,
                    cumulative,
                    bitmap,
                ) && nacked(#[trigger] old(self).window@[j].seq, cumulative, bitmap) implies seq_dist(
                    cumulative,
                    old(self).window@[i].seq,
                ) < seq_dist(cumulative, old(self).window@[j].seq) by {
                assert(m[i].seq == old(self).window@[i].seq && m[j].seq == old(self).window@[j].seq);
                lemma_resends_ascending(m, old(self).next_seq, cumulative, bitmap, i, j);
            }
        }
        let mut rest: Vec<WindowEntry> = Vec::new();
        std::mem::swap(&mut rest, &mut self.window);
        let ghost orig = models(rest@);
        let mut out: Vec<Vec<u8>> = Vec::new();
        proof {
            lemma_after_ack_len(orig, cumulative, bitmap, now_ms);
            lemma_after_ack_keys(orig, cumulative, bitmap, now_ms);
            lemma_after_ack_behind(orig, cumulative, bitmap, now_ms, old(self).next_seq);
        }
        while rest.len() > 0
            invariant
                models(self.window@) + after_ack(models(rest@), cumulative, bitmap, now_ms)
                    == after_ack(orig, cumulative, bitmap, now_ms),
                bytes_of(out@) + ack_resends(models(rest@), cumulative, bitmap) == ack_resends(
                    orig,
                    cumulative,
                    bitmap,
                ),
                after_ack(orig, cumulative, bitmap, now_ms).len() <= self.config.window_size,
                self.config == old(self).config,
                self.next_seq == old(self).next_seq,
                self.eof_reached == old(self).eof_reached,
            decreases rest@.len(),
        {
            let ghost r0 = rest@;
            proof {
                lemma_models_tail(r0);
            }
            let mut e = rest.remove(0);
            let ghost before = models(self.window@);
            let ghost out0 = bytes_of(out@);
            let ghost e0 = e@;
            if !seq_not_after(e.seq, cumulative) {
                let d = distance(cumulative, e.seq);
                if 1 <= d && d <= 64 && (bitmap >> (d - 1)) & 1 != 1 {
                    out.push(e.bytes.clone());
                    assert(out@.last()@ =~= e0.bytes);
                    e.last_sent_ms = now_ms;
                    if e.transmit_count < u64::MAX {
                        e.transmit_count = e.transmit_count + 1;
                    }
                    assert(bytes_of(out@) =~= out0 + seq![e0.bytes]);
                    assert(e@ == resent_at(e0, now_ms));
                }
                self.window.push(e);
                assert(models(self.window@) =~= before + seq![self.window@.last()@]);
            }
            assert(models(self.window@) + after_ack(models(rest@), cumulative, bitmap, now_ms) =~= before + after_ack(
                models(r0),
                cumulative, bitmap, now_ms,
            ));
            assert(bytes_of(out@) + ack_resends(models(rest@), cumulative, bitmap) =~= out0 + ack_resends(
                models(r0),
                cumulative, bitmap,
            ));
        }
        assert(after_ack(models(rest@), cumulative, bitmap, now_ms) =~= Seq::<EntryModel>::empty());
        assert(ack_resends(models(rest@), cumulative, bitmap) =~= Seq::<Seq<u8>>::empty());
        assert(models(self.window@) =~= after_ack(orig, cumulative, bitmap, now_ms));
        assert(bytes_of(out@) =~= ack_resends(orig, cumulative, bitmap));
        out
    }
    /// Sends again, at `now_ms`, every entry last sent more than
    /// `retrans_timeout_ms` earlier. Returns the datagrams to send again.
    pub fn scan_timeouts(&mut self, now_ms: u64) -> (out: Vec<Vec<u8>>)
        requires
            old(self).wf(),
        ensures
            final(self).wf(),
            final(self).config == old(self).config,
            final(self).next_seq == old(self).next_seq,
            final(self).eof_reached == old(self).eof_reached,
            models(final(self).window@) == after_scan(
                models(old(self).window@),
                now_ms,
                old(self).config.retrans_timeout_ms,
            ),
            bytes_of(out@) == scan_resends(
                models(old(self).window@),
                now_ms,
                old(self).config.retrans_timeout_ms,
            ),
    {
        let timeout = self.config.retrans_timeout_ms;
        let mut rest: Vec<WindowEntry> = Vec::new();
        std::mem::swap(&mut rest, &mut self.window);
        let ghost orig = models(rest@);
        let mut out: Vec<Vec<u8>> = Vec::new();
        while rest.len() > 0
            invariant
                timeout == self.config.retrans_timeout_ms,
                models(self.window@) + after_scan(models(rest@), now_ms, timeout) == after_scan(
                    orig,
                    now_ms,
                    timeout,
                ),
                bytes_of(out@) + scan_resends(models(rest@), now_ms, timeout) == scan_resends(
                    orig,
                    now_ms,
                    timeout,
                ),
                orig.len() <= self.config.window_size,
                self.config == old(self).config,
                self.next_seq == old(self).next_seq,
                self.eof_reached == old(self).eof_reached,
            decreases rest@.len(),
        {
            let ghost r0 = rest@;
            proof {
                lemma_models_tail(r0);
            }
            let mut e = rest.remove(0);
            let ghost before = models(self.window@);
            let ghost out0 = bytes_of(out@);
            let ghost e0 = e@;
            if now_ms >= e.last_sent_ms && now_ms - e.last_sent_ms > timeout {
                out.push(e.bytes.clone());
                assert(out@.last()@ =~= e0.bytes);
                e.last_sent_ms = now_ms;
                if e.transmit_count < u64::MAX {
                    e.transmit_count = e.transmit_count + 1;
                }
                assert(bytes_of(out@) =~= out0 + seq![e0.bytes]);
            }
            self.window.push(e);
            assert(models(self.window@) =~= before + seq![self.window@.last()@]);
            assert(after_scan(models(r0), now_ms, timeout) =~= seq![after_scan(models(r0), now_ms, timeout)[0]]
                + after_scan(models(rest@), now_ms, timeout));
            assert(models(self.window@) + after_scan(models(rest@), now_ms, timeout) =~= before
                + after_scan(models(r0), now_ms, timeout));
            assert(bytes_of(out@) + scan_resends(models(rest@), now_ms, timeout) =~= out0
                + scan_resends(models(r0), now_ms, timeout));
        }
        assert(after_scan(models(rest@), now_ms, timeout) =~= Seq::<EntryModel>::empty());
        assert(scan_resends(models(rest@), now_ms, timeout) =~= Seq::<Seq<u8>>::empty());
        assert(models(self.window@) =~= after_scan(orig, now_ms, timeout));
        assert(bytes_of(out@) =~= scan_resends(orig, now_ms, timeout));
        assert(models(self.window@).len() == orig.len());
        assert forall|i: int, j: int| 0 <= i < j < orig.len() implies models(self.window@)[i].seq
            != models(self.window@)[j].seq by {
            assert(models(self.window@)[i].seq == orig[i].seq);
            assert(models(self.window@)[j].seq == orig[j].seq);
        }
        assert forall|i: int| 0 <= i < orig.len() implies #[trigger] models(self.window@)[i].seq
            == orig[i].seq by {
            assert(models(self.window@)[i] == after_scan(orig, now_ms, timeout)[i]);
        }
        out
    }
}

} // verus!
