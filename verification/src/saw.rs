//! Stop-and-wait transfer over UDP: a 16-bit additive checksum, the packet
//! layout (length, alternating index, checksum, payload) and the sender and
//! receiver states of the alternating-bit protocol.

use vstd::prelude::*;

verus! {

/// Bytes in front of the payload: length, index, two checksum bytes.
pub const HEADER_SIZE: usize = 4;

/// Largest payload one packet carries (a 128-byte datagram minus the header).
pub const PAYLOAD_CAPACITY: usize = 124;

/// The little-endian 16-bit word that starts at byte `2 * i`.
pub open spec fn word_at(buf: Seq<u8>, i: int) -> int {
    buf[2 * i] as int + 256 * buf[2 * i + 1] as int
}

/// Sum of the first `k` little-endian words of `buf`.
pub open spec fn word_sum(buf: Seq<u8>, k: nat) -> int
    decreases k,
{
    if k == 0 {
        0
    } else {
        word_sum(buf, (k - 1) as nat) + word_at(buf, k - 1)
    }
}

/// Sum of all words of `buf`; a trailing odd byte counts as a low byte.
pub open spec fn packet_sum(buf: Seq<u8>) -> int {
    word_sum(buf, buf.len() / 2) + if buf.len() % 2 == 1 {
        buf[buf.len() - 1] as int
    } else {
        0
    }
}

/// The checksum of `buf` as a number: the complement of its sum modulo 2^16.
pub open spec fn checksum_value(buf: Seq<u8>) -> int {
    65535 - packet_sum(buf) % 65536
}

/// A buffer passes the check when its words add up to 0xffff modulo 2^16.
pub open spec fn passes_check(buf: Seq<u8>) -> bool {
    packet_sum(buf) % 65536 == 65535
}

/// The checksum of `buf`, low byte first.
pub fn checksum(buf: &[u8]) -> (sum: [u8; 2])
    ensures
        sum[0] as int == checksum_value(buf@) % 256,
        sum[1] as int == checksum_value(buf@) / 256,
{
    let res = sum_mod_2_16(buf);
    let res: u16 = 0xffff - res;
    let lo: u8 = (res & 0xff) as u8;
    let hi: u8 = (res >> 8) as u8;
    assert(lo == res % 256 && hi == res / 256) by (bit_vector)
        requires
            lo == (res & 0xff) as u8,
            hi == (res >> 8) as u8,
    ;
    [lo, hi]
}

/// Why a received packet was refused.
#[derive(Debug, Clone, Copy, PartialEq, Eq)]
pub enum ChecksumError {
    /// The words of the packet do not add up to 0xffff.
    Incorrect,
}

/// Checks a packet whose checksum field holds `checksum` of its content.
pub fn check(buf: &[u8]) -> (res: Result<(), ChecksumError>)
    ensures
        res is Ok <==> passes_check(buf@),
{
    let res = sum_mod_2_16(buf);
    if res != 0xffff {
        Err(ChecksumError::Incorrect)
    } else {
        Ok(())
    }
}

/// The sum of the words of `buf` modulo 2^16.
fn sum_mod_2_16(buf: &[u8]) -> (res: u16)
    ensures
        res as int == packet_sum(buf@) % 65536,
{
    let mut res: u16 = 0;
    let half = buf.len() / 2;
    for i in 0..half
        invariant
            half == buf@.len() / 2,
            buf@.len() <= usize::MAX,
            res as int == word_sum(buf@, i as nat) % 65536,
    {
        let lo: u8 = buf[2 * i];
        let hi: u8 = buf[2 * i + 1];
        let shifted: u16 = (hi as u16) << 8;
        assert(shifted == hi as int * 256) by (bit_vector)
            requires
                shifted == (hi as u16) << 8,
        ;
        let w: u16 = lo as u16 + shifted;
        res = res.wrapping_add(w);
        assert(word_at(buf@, i as int) == w);
    }
    if buf.len() % 2 == 1 {
        res = res.wrapping_add(buf[buf.len() - 1] as u16);
    }
    res
}


/// `buf` with the two checksum bytes (offsets 2 and 3) set to `value`, low byte first.
pub open spec fn with_checksum_field(buf: Seq<u8>, value: int) -> Seq<u8> {
    buf.update(2, (value % 256) as u8).update(3, (value / 256) as u8)
}

/// A packet as the sender lays it out before the checksum is known.
pub open spec fn unsummed_packet(ind: u8, payload: Seq<u8>) -> Seq<u8> {
    seq![payload.len() as u8, ind, 0u8, 0u8] + payload
}

/// The packet that carries `payload` under index `ind`.
pub open spec fn spec_packet(ind: u8, payload: Seq<u8>) -> Seq<u8> {
    let raw = unsummed_packet(ind, payload);
    with_checksum_field(raw, checksum_value(raw))
}

/// Word sums of two buffers of one length that differ only in the word at
/// index 1 differ by the difference of that word.
proof fn lemma_word_sum_update_word1(a: Seq<u8>, b: Seq<u8>, k: nat)
    requires
        a.len() == b.len(),
        a.len() >= 4,
        2 * k <= a.len(),
        forall|j: int| 0 <= j < a.len() && j != 2 && j != 3 ==> a[j] == b[j],
    ensures
        k >= 2 ==> word_sum(b, k) == word_sum(a, k) + word_at(b, 1) - word_at(a, 1),
        k < 2 ==> word_sum(b, k) == word_sum(a, k),
    decreases k,
{
    if k > 0 {
        lemma_word_sum_update_word1(a, b, (k - 1) as nat);
        assert(a[2 * (k - 1)] == b[2 * (k - 1)] || k - 1 == 1);
        assert(a[2 * (k - 1) + 1] == b[2 * (k - 1) + 1] || k - 1 == 1);
        if k - 1 != 1 {
            assert(word_at(a, k - 1) == word_at(b, k - 1));
        }
    }
}

/// Writing the checksum of a buffer into its zeroed checksum field makes the
/// buffer pass the check.
pub proof fn lemma_checksum_field_passes(buf: Seq<u8>)
    requires
        buf.len() >= 4,
        buf[2] == 0,
        buf[3] == 0,
    ensures
        passes_check(with_checksum_field(buf, checksum_value(buf))),
{
    let c = checksum_value(buf);
    let filled = with_checksum_field(buf, c);
    assert(0 <= c < 65536);
    lemma_word_sum_update_word1(buf, filled, buf.len() / 2);
    assert(word_at(filled, 1) == c);
    assert(word_at(buf, 1) == 0);
    if buf.len() % 2 == 1 {
        assert(filled[buf.len() - 1] == buf[buf.len() - 1]);
    }
    assert(packet_sum(filled) == packet_sum(buf) + c);
    assert((packet_sum(buf) + 65535 - packet_sum(buf) % 65536) % 65536 == 65535) by (nonlinear_arith);
}

/// The weight of byte `i` in the sum: 1 for a low byte, 256 for a high one.
pub open spec fn byte_weight(buf: Seq<u8>, i: int) -> int {
    if i % 2 == 1 {
        256
    } else {
        1
    }
}

/// Changing one byte changes the sum of the words that hold it by the
/// change times the byte's weight.
proof fn lemma_word_sum_one_byte(a: Seq<u8>, b: Seq<u8>, i: int, k: nat)
    requires
        a.len() == b.len(),
        0 <= i < a.len(),
        2 * k <= a.len(),
        forall|j: int| 0 <= j < a.len() && j != i ==> a[j] == b[j],
    ensures
        word_sum(b, k) == word_sum(a, k) + if i < 2 * k {
            (b[i] - a[i]) * byte_weight(a, i)
        } else {
            0
        },
    decreases k,
{
    if k > 0 {
        lemma_word_sum_one_byte(a, b, i, (k - 1) as nat);
        let w = k - 1;
        if i == 2 * w {
            assert(a[2 * w + 1] == b[2 * w + 1]);
        } else if i == 2 * w + 1 {
            assert(a[2 * w] == b[2 * w]);
        } else {
            assert(a[2 * w] == b[2 * w] && a[2 * w + 1] == b[2 * w + 1]);
        }
    }
}

/// The check catches any change of a single byte of a packet that passed
/// it: the sum moves by less than 2^16 and not by zero.
pub proof fn lemma_single_byte_change_detected(buf: Seq<u8>, i: int, value: u8)
    requires
        passes_check(buf),
        0 <= i < buf.len(),
        value != buf[i],
    ensures
        !passes_check(buf.update(i, value)),
{
    let changed = buf.update(i, value);
    let half = buf.len() / 2;
    lemma_word_sum_one_byte(buf, changed, i, half);
    let d = (value - buf[i]) * if i < 2 * half { byte_weight(buf, i) } else { 1 };
    if i < 2 * half {
        assert(packet_sum(changed) == packet_sum(buf) + d) by {
            if buf.len() % 2 == 1 {
                assert(changed[buf.len() - 1] == buf[buf.len() - 1]);
            }
        }
    } else {
        assert(i == buf.len() - 1 && buf.len() % 2 == 1);
        assert(packet_sum(changed) == packet_sum(buf) + d);
    }
    assert(d != 0 && -65536 < d < 65536) by (nonlinear_arith)
        requires
            d == (value - buf[i]) * if i < 2 * half { byte_weight(buf, i) } else { 1 },
            value != buf[i],
            0 <= value < 256,
            0 <= buf[i] < 256,
            byte_weight(buf, i) == 1 || byte_weight(buf, i) == 256,
    ;
    assert((packet_sum(buf) + d) % 65536 != packet_sum(buf) % 65536) by (nonlinear_arith)
        requires
            d != 0,
            -65536 < d < 65536,
    ;
}

/// Every packet the sender builds passes the receiver's check.
pub proof fn lemma_built_packet_passes_check(ind: u8, payload: Seq<u8>)
    ensures
        passes_check(spec_packet(ind, payload)),
{
    lemma_checksum_field_passes(unsummed_packet(ind, payload));
}

/// Lays out the packet that carries `payload` under index `ind`.
pub fn build_packet(ind: u8, payload: &[u8]) -> (pkt: Vec<u8>)
    requires
        payload@.len() <= PAYLOAD_CAPACITY,
    ensures
        pkt@ == spec_packet(ind, payload@),
{
    let mut pkt: Vec<u8> = Vec::new();
    pkt.push(payload.len() as u8);
    assert(payload@.take(0) =~= Seq::<u8>::empty());
    pkt.push(ind);
    pkt.push(0);
    pkt.push(0);
    for i in 0..payload.len()
        invariant
            pkt@ == seq![payload@.len() as u8, ind, 0u8, 0u8] + payload@.take(i as int),
    {
        pkt.push(payload[i]);
        assert(payload@.take(i + 1) == payload@.take(i as int).push(payload@[i as int]));
    }
    assert(payload@.take(payload@.len() as int) == payload@);
    let sum = checksum(pkt.as_slice());
    pkt.set(2, sum[0]);
    pkt.set(3, sum[1]);
    pkt
}

/// The other of the two alternating indices.
pub open spec fn flip(ind: u8) -> u8 {
    if ind == 0 { 1 } else { 0 }
}

/// What the receiver makes of a packet.
#[derive(Debug, Clone, Copy, PartialEq, Eq)]
pub enum ReceptionKind {
    /// Expected index and a correct checksum: the payload is taken.
    Delivered,
    /// An index other than the expected one: a retransmission, ignored.
    Duplicate,
    /// Expected index but a wrong checksum: dropped.
    Corrupted,
}

/// How the receiver classifies `pkt` while it waits for index `expected`.
pub open spec fn reception_kind(expected: u8, pkt: Seq<u8>) -> ReceptionKind {
    if pkt[1] != expected {
        ReceptionKind::Duplicate
    } else if !passes_check(pkt) {
        ReceptionKind::Corrupted
    } else {
        ReceptionKind::Delivered
    }
}

/// Whether the transfer ends with `pkt`: an empty packet that was not dropped.
pub open spec fn reception_finishes(expected: u8, pkt: Seq<u8>) -> bool {
    reception_kind(expected, pkt) != ReceptionKind::Corrupted && pkt.len() == HEADER_SIZE
}

/// The receiver's answer to one packet.
pub struct Reception {
    /// The index to acknowledge (always the packet's own index).
    pub ack: u8,
    /// How the packet was classified.
    pub kind: ReceptionKind,
    /// The payload handed on, empty unless the packet was delivered.
    pub payload: Vec<u8>,
    /// Whether the transfer is over.
    pub finished: bool,
}

/// The receiving side: the index it waits for and the bytes taken so far.
pub struct Receiver {
    expected: u8,
    received: usize,
}

impl Receiver {
    #[verifier::type_invariant]
    spec fn inv(self) -> bool {
        self.expected <= 1
    }

    /// The index the receiver waits for.
    pub closed spec fn expected_index(self) -> u8 {
        self.expected
    }

    /// Payload bytes taken so far.
    pub closed spec fn received_bytes(self) -> nat {
        self.received as nat
    }

    /// A receiver that waits for index 0 and has taken nothing.
    pub fn new() -> (r: Self)
        ensures
            r.expected_index() == 0,
            r.received_bytes() == 0,
    {
        Receiver { expected: 0, received: 0 }
    }

    /// The index the receiver waits for.
    pub fn expected(&self) -> (ind: u8)
        ensures
            ind == self.expected_index(),
            ind <= 1,
    {
        proof {
            use_type_invariant(self);
        }
        self.expected
    }

    /// Payload bytes taken so far.
    pub fn received(&self) -> (n: usize)
        ensures
            n == self.received_bytes(),
    {
        self.received
    }

    /// Handles one complete packet: acknowledges its index, takes its payload
    /// when it carries the expected index and a correct checksum (and then
    /// waits for the other index), and reports the end of the transfer.
    pub fn accept_packet(&mut self, pkt: &[u8]) -> (rec: Reception)
        requires
            pkt@.len() >= HEADER_SIZE,
            old(self).received_bytes() + pkt@.len() - HEADER_SIZE <= usize::MAX,
        ensures
            rec.ack == pkt@[1],
            rec.kind == reception_kind(old(self).expected_index(), pkt@),
            rec.finished == reception_finishes(old(self).expected_index(), pkt@),
            rec.kind == ReceptionKind::Delivered ==> {
                &&& rec.payload@ == pkt@.subrange(HEADER_SIZE as int, pkt@.len() as int)
                &&& final(self).expected_index() == flip(old(self).expected_index())
                &&& final(self).received_bytes() == old(self).received_bytes() + pkt@.len()
                    - HEADER_SIZE
            },
            rec.kind != ReceptionKind::Delivered ==> {
                &&& rec.payload@.len() == 0
                &&& final(self).expected_index() == old(self).expected_index()
                &&& final(self).received_bytes() == old(self).received_bytes()
            },
    {
        proof {
            use_type_invariant(&*self);
        }
        let ack = pkt[1];
        let finished = pkt.len() == HEADER_SIZE;
        if ack != self.expected {
            return Reception { ack, kind: ReceptionKind::Duplicate, payload: Vec::new(), finished };
        }
        if check(pkt).is_err() {
            return Reception {
                ack,
                kind: ReceptionKind::Corrupted,
                payload: Vec::new(),
                finished: false,
            };
        }
        let mut payload: Vec<u8> = Vec::new();
        let mut i: usize = HEADER_SIZE;
        while i < pkt.len()
            invariant
                HEADER_SIZE <= i <= pkt@.len(),
                payload@ == pkt@.subrange(HEADER_SIZE as int, i as int),
            decreases pkt@.len() - i,
        {
            payload.push(pkt[i]);
            assert(pkt@.subrange(HEADER_SIZE as int, i + 1) == pkt@.subrange(
                HEADER_SIZE as int,
                i as int,
            ).push(pkt@[i as int]));
            i = i + 1;
        }
        let next: u8 = self.expected + 1;
        assert(next & 1 == if next == 1 { 1u8 } else { 0u8 }) by (bit_vector)
            requires
                1 <= next <= 2,
        ;
        self.expected = next & 1;
        self.received = self.received + (pkt.len() - HEADER_SIZE);
        Reception { ack, kind: ReceptionKind::Delivered, payload, finished }
    }
}

/// The sending side: the index of the packet in flight and the bytes sent.
pub struct Sender {
    ind: u8,
    sent: usize,
}

impl Sender {
    #[verifier::type_invariant]
    spec fn inv(self) -> bool {
        self.ind <= 1
    }

    /// The index of the packet in flight.
    pub closed spec fn current_index(self) -> u8 {
        self.ind
    }

    /// Payload bytes acknowledged so far.
    pub closed spec fn sent_bytes(self) -> nat {
        self.sent as nat
    }

    /// A sender at index 0 that has sent nothing.
    pub fn new() -> (s: Self)
        ensures
            s.current_index() == 0,
            s.sent_bytes() == 0,
    {
        Sender { ind: 0, sent: 0 }
    }

    /// The index of the packet in flight.
    pub fn index(&self) -> (ind: u8)
        ensures
            ind == self.current_index(),
            ind <= 1,
    {
        proof {
            use_type_invariant(self);
        }
        self.ind
    }

    /// Payload bytes acknowledged so far.
    pub fn sent(&self) -> (n: usize)
        ensures
            n == self.sent_bytes(),
    {
        self.sent
    }

    /// The packet in flight for `payload`.
    pub fn packet(&self, payload: &[u8]) -> (pkt: Vec<u8>)
        requires
            payload@.len() <= PAYLOAD_CAPACITY,
        ensures
            pkt@ == spec_packet(self.current_index(), payload@),
    {
        build_packet(self.ind, payload)
    }

    /// Handles an acknowledgement of the packet in flight, which carried
    /// `payload_len` bytes: a matching index moves on to the other index and
    /// returns `true`; any other index means the packet must be sent again.
    pub fn acknowledge(&mut self, ack: u8, payload_len: usize) -> (done: bool)
        requires
            old(self).sent_bytes() + payload_len <= usize::MAX,
        ensures
            done == (ack == old(self).current_index()),
            done ==> final(self).current_index() == flip(old(self).current_index())
                && final(self).sent_bytes() == old(self).sent_bytes() + payload_len,
            !done ==> final(self).current_index() == old(self).current_index()
                && final(self).sent_bytes() == old(self).sent_bytes(),
    {
        proof {
            use_type_invariant(&*self);
        }
        if self.ind != ack {
            return false;
        }
        let next: u8 = self.ind + 1;
        assert(next & 1 == if next == 1 { 1u8 } else { 0u8 }) by (bit_vector)
            requires
                1 <= next <= 2,
        ;
        self.ind = next & 1;
        self.sent = self.sent + payload_len;
        true
    }
}

/// Alternating bit: a packet the sender builds at the index the receiver
/// waits for is delivered with its payload intact, is acknowledged with
/// that index, and leaves the receiver waiting for the other index.
pub proof fn lemma_fresh_packet_delivered(ind: u8, payload: Seq<u8>)
    requires
        ind <= 1,
        payload.len() <= PAYLOAD_CAPACITY,
    ensures
        spec_packet(ind, payload)[1] == ind,
        reception_kind(ind, spec_packet(ind, payload)) == ReceptionKind::Delivered,
        spec_packet(ind, payload).subrange(HEADER_SIZE as int, spec_packet(ind, payload).len() as int)
            == payload,
        reception_finishes(ind, spec_packet(ind, payload)) <==> payload.len() == 0,
{
    lemma_built_packet_passes_check(ind, payload);
    let p = spec_packet(ind, payload);
    assert(p.subrange(HEADER_SIZE as int, p.len() as int) =~= payload);
}

/// Alternating bit: a retransmitted packet (whose index the receiver has
/// already moved past) is acknowledged again and otherwise ignored.
pub proof fn lemma_retransmission_ignored(ind: u8, payload: Seq<u8>)
    requires
        ind <= 1,
        payload.len() <= PAYLOAD_CAPACITY,
    ensures
        spec_packet(ind, payload)[1] == ind,
        reception_kind(flip(ind), spec_packet(ind, payload)) == ReceptionKind::Duplicate,
{
}

} // verus!
