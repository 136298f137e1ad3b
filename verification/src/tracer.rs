//! ICMP echo probes for a traceroute: the internet checksum, the layout of an
//! echo request, and how a received datagram is matched to a probe.

use vstd::prelude::*;

verus! {

/// Identifier carried by every probe of the tracer.
pub const MAGIC_NUMBER: u16 = 0x1234;

/// The contribution of byte `i`: even offsets are low bytes, odd ones high bytes.
pub open spec fn byte_term(data: Seq<u8>, i: int) -> int {
    if i % 2 == 0 {
        data[i] as int
    } else {
        data[i] as int * 256
    }
}

/// Sum of the contributions of the first `k` bytes.
pub open spec fn echo_sum(data: Seq<u8>, k: nat) -> nat
    decreases k,
{
    if k == 0 {
        0
    } else {
        (echo_sum(data, (k - 1) as nat) + byte_term(data, k - 1)) as nat
    }
}

/// Adds the carries above 16 bits back in until the value fits in 16 bits.
pub open spec fn fold_carries(s: nat) -> nat
    decreases s,
{
    if s > 0xffff {
        proof {
            lemma_fold_step_smaller(s);
        }
        fold_carries((s % 65536 + s / 65536) as nat)
    } else {
        s
    }
}

/// One folding step strictly shrinks a value above 16 bits and keeps its
/// residue modulo 65535.
pub proof fn lemma_fold_step_smaller(s: nat)
    requires
        s > 0xffff,
    ensures
        s % 65536 + s / 65536 < s,
        s % 65536 + s / 65536 > 0,
        (s - (s % 65536 + s / 65536)) % 65535 == 0,
{
    let q = s / 65536;
    let r = s % 65536;
    assert(s == 65536 * q + r) by (nonlinear_arith)
        requires
            q == s / 65536,
            r == s % 65536,
    ;
    assert(q >= 1) by (nonlinear_arith)
        requires
            q == s / 65536,
            s > 0xffff,
    ;
    assert(s - (r + q) == 65535 * q);
    assert((65535 * q) % 65535 == 0) by (nonlinear_arith);
}

/// The internet checksum of `data` as a number.
pub open spec fn internet_checksum_value(data: Seq<u8>) -> int {
    65535 - fold_carries(echo_sum(data, data.len()))
}

/// The one's-complement checksum of `data`, as the tracer computes it.
pub fn checksum(data: &[u8]) -> (sum: u16)
    requires
        echo_sum(data@, data@.len()) <= u32::MAX,
    ensures
        sum == internet_checksum_value(data@),
{
    let mut sum: u32 = 0;
    for i in 0..data.len()
        invariant
            sum == echo_sum(data@, i as nat),
            echo_sum(data@, data@.len()) <= u32::MAX,
    {
        proof {
            lemma_echo_sum_monotone(data@, (i + 1) as nat, data@.len());
        }
        let b: u8 = data[i];
        let shift: u32 = (i % 2 * 8) as u32;
        let term: u32 = (b as u32) << shift;
        assert(term == if shift == 0 { b as int } else { b as int * 256 }) by (bit_vector)
            requires
                term == (b as u32) << shift,
                shift == 0 || shift == 8,
        ;
        sum = sum + term;
    }
    let ghost total: nat = sum as nat;
    assert(total == echo_sum(data@, data@.len()));
    while sum > 0xffff
        invariant
            fold_carries(sum as nat) == fold_carries(total),
            total == echo_sum(data@, data@.len()),
        decreases sum,
    {
        proof {
            lemma_fold_step_smaller(sum as nat);
        }
        let low: u32 = sum & 0xffff;
        let high: u32 = sum >> 16;
        assert(low == sum % 65536 && high == sum / 65536) by (bit_vector)
            requires
                low == sum & 0xffff,
                high == sum >> 16,
        ;
        sum = low + high;
    }
    let folded: u16 = sum as u16;
    let res: u16 = !folded;
    assert(res == 65535 - folded) by (bit_vector)
        requires
            res == !folded,
    ;
    res
}

proof fn lemma_echo_sum_monotone(data: Seq<u8>, j: nat, k: nat)
    requires
        j <= k <= data.len(),
    ensures
        echo_sum(data, j) <= echo_sum(data, k),
    decreases k - j,
{
    if j < k {
        lemma_echo_sum_monotone(data, j, (k - 1) as nat);
    }
}

/// An echo request: identifier and sequence number.
pub struct Icmp {
    pub id: u16,
    pub seq: u16,
}

/// The 12 bytes of an echo request before its checksum is filled in.
pub open spec fn unsummed_echo(id: u16, seq: u16) -> Seq<u8> {
    seq![
        8u8,
        0u8,
        0u8,
        0u8,
        (id % 256) as u8,
        (id / 256) as u8,
        (seq % 256) as u8,
        (seq / 256) as u8,
        0u8,
        0u8,
        0u8,
        0u8,
    ]
}

/// The 12 bytes of the echo request with identifier `id` and sequence `seq`.
pub open spec fn echo_request(id: u16, seq: u16) -> Seq<u8> {
    let raw = unsummed_echo(id, seq);
    let c = internet_checksum_value(raw);
    raw.update(2, (c % 256) as u8).update(3, (c / 256) as u8)
}

proof fn lemma_unsummed_echo_sum(id: u16, seq: u16)
    ensures
        echo_sum(unsummed_echo(id, seq), 12) == 8 + id + seq,
{
    let d = unsummed_echo(id, seq);
    reveal_with_fuel(echo_sum, 13);
    assert(echo_sum(d, 12) == 8 + d[4] + 256 * d[5] + d[6] + 256 * d[7]);
}

/// Folding keeps a value's residue modulo 65535 and maps positive values
/// into 1..=65535.
proof fn lemma_fold_carries(s: nat)
    ensures
        fold_carries(s) <= 65535,
        s > 0 ==> fold_carries(s) > 0,
        s == 0 ==> fold_carries(s) == 0,
        (s - fold_carries(s)) % 65535 == 0,
    decreases s,
{
    if s > 0xffff {
        let t = (s % 65536 + s / 65536) as nat;
        lemma_fold_step_smaller(s);
        lemma_fold_carries(t);
        assert((s - fold_carries(s)) == (s - t) + (t - fold_carries(t)));
        assert(((s - t) + (t - fold_carries(t))) % 65535 == 0) by (nonlinear_arith)
            requires
                (s - t) % 65535 == 0,
                (t - fold_carries(t)) % 65535 == 0,
        ;
    }
}

/// A positive multiple of 65535 folds to 65535.
proof fn lemma_fold_multiple(s: nat)
    requires
        s > 0,
        s % 65535 == 0,
    ensures
        fold_carries(s) == 65535,
{
    lemma_fold_carries(s);
    let f = fold_carries(s);
    assert(f % 65535 == 0) by (nonlinear_arith)
        requires
            (s - f) % 65535 == 0,
            s % 65535 == 0,
    ;
}

/// `buf` with its checksum written into bytes 2 and 3, low byte first.
pub open spec fn with_internet_checksum(buf: Seq<u8>) -> Seq<u8> {
    let c = internet_checksum_value(buf);
    buf.update(2, (c % 256) as u8).update(3, (c / 256) as u8)
}

/// Writing `c` into the zeroed bytes 2 and 3 adds `c` to the sum of all
/// bytes from the fourth on.
proof fn lemma_echo_sum_field(buf: Seq<u8>, c: int, k: nat)
    requires
        buf.len() >= 4,
        buf[2] == 0,
        buf[3] == 0,
        0 <= c < 65536,
        k <= buf.len(),
    ensures
        echo_sum(buf.update(2, (c % 256) as u8).update(3, (c / 256) as u8), k) == echo_sum(buf, k) + (if k > 2 {
            c % 256
        } else {
            0
        }) + (if k > 3 {
            (c / 256) * 256
        } else {
            0
        }),
    decreases k,
{
    let filled = buf.update(2, (c % 256) as u8).update(3, (c / 256) as u8);
    if k > 0 {
        lemma_echo_sum_field(buf, c, (k - 1) as nat);
        let i = k - 1;
        if i != 2 && i != 3 {
            assert(filled[i] == buf[i]);
            assert(byte_term(filled, i) == byte_term(buf, i));
        } else if i == 2 {
            assert(filled[2] == (c % 256) as u8);
        } else {
            assert(filled[3] == (c / 256) as u8);
        }
    }
}

/// For any buffer of at least four bytes whose bytes 2 and 3 are zero,
/// writing its checksum there makes the checksum of the whole buffer zero.
pub proof fn lemma_checksum_field_checks(buf: Seq<u8>)
    requires
        buf.len() >= 4,
        buf[2] == 0,
        buf[3] == 0,
    ensures
        internet_checksum_value(with_internet_checksum(buf)) == 0,
{
    let s = echo_sum(buf, buf.len());
    lemma_fold_carries(s);
    let c = internet_checksum_value(buf);
    assert(0 <= c < 65536);
    lemma_echo_sum_field(buf, c, buf.len());
    let full = with_internet_checksum(buf);
    assert(c % 256 + (c / 256) * 256 == c) by (nonlinear_arith)
        requires
            0 <= c,
    ;
    assert(echo_sum(full, full.len()) == s + c);
    assert((s + c) % 65535 == 0) by (nonlinear_arith)
        requires
            (s - fold_carries(s)) % 65535 == 0,
            c == 65535 - fold_carries(s),
    ;
    assert(s + c > 0);
    lemma_fold_multiple((s + c) as nat);
}

/// The checksum of every echo request the tracer builds checks out: summing
/// the whole request, checksum included, gives a zero checksum.
pub proof fn lemma_echo_request_checks(id: u16, seq: u16)
    ensures
        internet_checksum_value(echo_request(id, seq)) == 0,
{
    let raw = unsummed_echo(id, seq);
    let full = echo_request(id, seq);
    lemma_unsummed_echo_sum(id, seq);
    let s: nat = (8 + id + seq) as nat;
    lemma_fold_carries(s);
    let c = internet_checksum_value(raw);
    assert(c == 65535 - fold_carries(s));
    reveal_with_fuel(echo_sum, 13);
    assert(echo_sum(full, 12) == s + c);
    assert((s + c) % 65535 == 0) by (nonlinear_arith)
        requires
            (s - fold_carries(s)) % 65535 == 0,
            c == 65535 - fold_carries(s),
    ;
    lemma_fold_multiple((s + c) as nat);
}

impl Icmp {
    /// Lays out the echo request, checksum included.
    pub fn build(self) -> (data: [u8; 12])
        ensures
            data@ == echo_request(self.id, self.seq),
    {
        let id = self.id;
        let seq = self.seq;
        let b4: u8 = (id & 0xFF) as u8;
        let b5: u8 = (id >> 8) as u8;
        let b6: u8 = (seq & 0xFF) as u8;
        let b7: u8 = (seq >> 8) as u8;
        assert(b4 == id % 256 && b5 == id / 256 && b6 == seq % 256 && b7 == seq / 256)
            by (bit_vector)
            requires
                b4 == (id & 0xFF) as u8,
                b5 == (id >> 8) as u8,
                b6 == (seq & 0xFF) as u8,
                b7 == (seq >> 8) as u8,
        ;
        let mut data = [0u8; 12];
        data[0] = 8;
        data[4] = b4;
        data[5] = b5;
        data[6] = b6;
        data[7] = b7;
        assert(data@ =~= unsummed_echo(id, seq));
        proof {
            lemma_unsummed_echo_sum(id, seq);
        }
        let csum = checksum(&data);
        let lo: u8 = (csum & 0xff) as u8;
        let hi: u8 = (csum >> 8) as u8;
        assert(lo == csum % 256 && hi == csum / 256) by (bit_vector)
            requires
                lo == (csum & 0xff) as u8,
                hi == (csum >> 8) as u8,
        ;
        data[2] = lo;
        data[3] = hi;
        assert(data@ =~= echo_request(id, seq));
        data
    }
}

/// The fields of an ICMP message that the tracer reads.
pub struct IcmpReply {
    pub id: u16,
    pub seq: u16,
    pub ty: u8,
}

impl IcmpReply {
    /// Reads type, identifier and sequence number (both little-endian) from
    /// the first eight bytes; `None` when there are fewer than eight.
    pub fn from_bytes(bytes: &[u8]) -> (reply: Option<Self>)
        ensures
            reply is None <==> bytes@.len() < 8,
            reply matches Some(r) ==> {
                &&& r.ty == bytes@[0]
                &&& r.id == bytes@[4] + 256 * bytes@[5]
                &&& r.seq == bytes@[6] + 256 * bytes@[7]
            },
    {
        if bytes.len() < 8 {
            return None;
        }
        let b4 = bytes[4];
        let b5 = bytes[5];
        let b6 = bytes[6];
        let b7 = bytes[7];
        let high_id: u16 = (b5 as u16) << 8;
        let high_seq: u16 = (b7 as u16) << 8;
        assert(high_id == b5 * 256 && high_seq == b7 * 256) by (bit_vector)
            requires
                high_id == (b5 as u16) << 8,
                high_seq == (b7 as u16) << 8,
        ;
        let id: u16 = b4 as u16 + high_id;
        let seq: u16 = b6 as u16 + high_seq;
        Some(Self { ty: bytes[0], id, seq })
    }
}


/// A request laid out by `build` reads back, through `from_bytes`, as an
/// echo request (type 8) with the same identifier and sequence number.
pub proof fn lemma_echo_request_reads_back(id: u16, seq: u16)
    ensures
        echo_request(id, seq).len() == 12,
        echo_request(id, seq)[0] == 8,
        echo_request(id, seq)[4] + 256 * echo_request(id, seq)[5] == id,
        echo_request(id, seq)[6] + 256 * echo_request(id, seq)[7] == seq,
{
}

/// The sequence number of probe `probe` sent with time-to-live `ttl`.
pub open spec fn spec_probe_sequence(probe: u8, ttl: u8) -> u16 {
    (probe + 256 * ttl) as u16
}

/// The sequence number that tags probe `probe` of the round with time-to-live
/// `ttl`: the probe in the low byte, the time-to-live in the high byte.
pub fn probe_sequence(probe: u8, ttl: u8) -> (seq: u16)
    ensures
        seq == spec_probe_sequence(probe, ttl),
{
    let high: u16 = (ttl as u16) << 8;
    assert(high == ttl * 256) by (bit_vector)
        requires
            high == (ttl as u16) << 8,
    ;
    probe as u16 + high
}

/// Length in bytes of the IP header at the start of `buf`.
pub open spec fn ip_header_len(buf: Seq<u8>) -> int {
    (buf[0] % 16) * 4
}

/// Where the ICMP header that echoes the probe starts: right after the IP
/// header for an echo reply (type 0), after the quoted IP header and the
/// eight bytes of the outer ICMP header for a time-exceeded message (type 11).
pub open spec fn echoed_offset(buf: Seq<u8>) -> int {
    if buf[ip_header_len(buf)] == 11 {
        ip_header_len(buf) + 28
    } else {
        ip_header_len(buf)
    }
}

/// Little-endian 16-bit value at `at`.
pub open spec fn le16_at(buf: Seq<u8>, at: int) -> int {
    buf[at] + 256 * buf[at + 1]
}

/// What a received datagram says about the current round of probes.
#[derive(Debug, Clone, Copy, PartialEq, Eq)]
pub enum ReplyVerdict {
    /// Neither an echo reply nor a time-exceeded message.
    WrongType,
    /// The echoed identifier is not the tracer's.
    WrongMagic,
    /// The echoed probe belongs to another round.
    WrongTtl,
    /// The reply answers the probe with this number.
    Probe(u8),
}

/// The verdict on a datagram of at least 28 bytes for the round `ttl`.
pub open spec fn reply_verdict(buf: Seq<u8>, ttl: u8) -> ReplyVerdict {
    let ty = buf[ip_header_len(buf)];
    let at = echoed_offset(buf);
    if ty != 0 && ty != 11 {
        ReplyVerdict::WrongType
    } else if le16_at(buf, at + 4) != MAGIC_NUMBER {
        ReplyVerdict::WrongMagic
    } else if le16_at(buf, at + 6) / 256 != ttl {
        ReplyVerdict::WrongTtl
    } else {
        ReplyVerdict::Probe((le16_at(buf, at + 6) % 256) as u8)
    }
}

/// A datagram of the current round, as far as the tracer reads it.
pub struct ReplyInfo {
    /// The source address from the IP header.
    pub sender: [u8; 4],
    /// What the datagram answers.
    pub verdict: ReplyVerdict,
}

/// Reads a datagram received into `buf` (`received` bytes arrived) during the
/// round with time-to-live `ttl`. Fewer than 28 bytes give `None`; otherwise
/// the sender address and the verdict are returned.
pub fn classify_reply(buf: &[u8], received: usize, ttl: u8) -> (info: Option<ReplyInfo>)
    requires
        received <= buf@.len(),
        received >= 28 ==> ip_header_len(buf@) + 8 <= buf@.len(),
        received >= 28 && buf@[ip_header_len(buf@)] == 11 ==> ip_header_len(buf@) + 36
            <= buf@.len(),
    ensures
        info is None <==> received < 28,
        info matches Some(i) ==> {
            &&& i.sender@ == buf@.subrange(12, 16)
            &&& i.verdict == reply_verdict(buf@, ttl)
        },
{
    if received < 28 {
        return None;
    }
    let sender: [u8; 4] = [buf[12], buf[13], buf[14], buf[15]];
    assert(sender@ =~= buf@.subrange(12, 16));
    let ip_header_len = header_length(buf[0]);
    let outer = IcmpReply::from_bytes(&buf[ip_header_len..buf.len()]);
    let message_type = match outer {
        Some(r) => r.ty,
        None => {
            return None;
        },
    };
    let pad: usize = if message_type == 0 {
        ip_header_len
    } else if message_type == 11 {
        ip_header_len + 8 + 20
    } else {
        return Some(ReplyInfo { sender, verdict: ReplyVerdict::WrongType });
    };
    let reply = match IcmpReply::from_bytes(&buf[pad..pad + 8]) {
        Some(r) => r,
        None => {
            return None;
        },
    };
    if reply.id != MAGIC_NUMBER {
        return Some(ReplyInfo { sender, verdict: ReplyVerdict::WrongMagic });
    }
    let (round, probe) = split_sequence(reply.seq);
    if round != ttl {
        return Some(ReplyInfo { sender, verdict: ReplyVerdict::WrongTtl });
    }
    Some(ReplyInfo { sender, verdict: ReplyVerdict::Probe(probe) })
}

/// Length in bytes of an IP header whose first byte is `first`.
fn header_length(first: u8) -> (len: usize)
    ensures
        len == (first % 16) * 4,
{
    let low_nibble: u8 = first & 0xf;
    assert(low_nibble == first % 16) by (bit_vector)
        requires
            low_nibble == first & 0xf,
    ;
    low_nibble as usize * 4
}

/// The round (high byte) and the probe number (low byte) of a sequence number.
fn split_sequence(seq: u16) -> (parts: (u8, u8))
    ensures
        parts.0 == seq / 256,
        parts.1 == seq % 256,
{
    let round: u16 = seq >> 8;
    let probe: u16 = seq & 0xff;
    assert(round == seq / 256 && probe == seq % 256) by (bit_vector)
        requires
            round == seq >> 8,
            probe == seq & 0xff,
    ;
    (round as u8, probe as u8)
}

/// A reply that echoes probe `probe` of round `ttl` (the tracer's identifier
/// and the sequence number `probe_sequence` gave it) is matched to that probe.
pub proof fn lemma_echoed_probe_matched(buf: Seq<u8>, probe: u8, ttl: u8)
    requires
        ip_header_len(buf) + 8 <= buf.len(),
        buf[ip_header_len(buf)] == 11 ==> ip_header_len(buf) + 36 <= buf.len(),
        buf[ip_header_len(buf)] == 0 || buf[ip_header_len(buf)] == 11,
        le16_at(buf, echoed_offset(buf) + 4) == MAGIC_NUMBER,
        le16_at(buf, echoed_offset(buf) + 6) == spec_probe_sequence(probe, ttl),
    ensures
        reply_verdict(buf, ttl) == ReplyVerdict::Probe(probe),
{
}

/// A reply is taken as the answer to probe `p` only when it is an echo
/// reply or a time-exceeded message that echoes the tracer's identifier and
/// exactly the sequence number of probe `p` in round `ttl`: its low byte is
/// `p` and its high byte is `ttl`. Any other round's reply, of either type,
/// is set aside as belonging to another round; a message of another type is
/// of the wrong type, and a foreign identifier is the wrong one. An echo
/// reply carries the probe's header right after the IP header; a
/// time-exceeded message quotes it after its own 8 bytes and the quoted
/// 20-byte IP header.
pub proof fn lemma_probe_only_from_current_round(buf: Seq<u8>, ttl: u8)
    requires
        ip_header_len(buf) + 8 <= buf.len(),
        buf[ip_header_len(buf)] == 11 ==> ip_header_len(buf) + 36 <= buf.len(),
    ensures
        reply_verdict(buf, ttl) matches ReplyVerdict::Probe(p) ==> {
            let at = echoed_offset(buf);
            &&& buf[ip_header_len(buf)] == 0 || buf[ip_header_len(buf)] == 11
            &&& buf[at + 4] + 256 * buf[at + 5] == MAGIC_NUMBER
            &&& buf[at + 6] == p
            &&& buf[at + 7] == ttl
            &&& buf[at + 6] + 256 * buf[at + 7] == spec_probe_sequence(p, ttl)
        },
        ({
            let at = echoed_offset(buf);
            &&& buf[ip_header_len(buf)] == 0 || buf[ip_header_len(buf)] == 11
            &&& buf[at + 4] + 256 * buf[at + 5] == MAGIC_NUMBER
            &&& buf[at + 7] != ttl
        }) ==> reply_verdict(buf, ttl) == ReplyVerdict::WrongTtl,
        buf[ip_header_len(buf)] != 0 && buf[ip_header_len(buf)] != 11 ==> reply_verdict(buf, ttl)
            == ReplyVerdict::WrongType,
        ({
            let at = echoed_offset(buf);
            &&& buf[ip_header_len(buf)] == 0 || buf[ip_header_len(buf)] == 11
            &&& buf[at + 4] + 256 * buf[at + 5] != MAGIC_NUMBER
        }) ==> reply_verdict(buf, ttl) == ReplyVerdict::WrongMagic,
        ({
            let at = echoed_offset(buf);
            &&& buf[ip_header_len(buf)] == 0 || buf[ip_header_len(buf)] == 11
            &&& buf[at + 4] + 256 * buf[at + 5] == MAGIC_NUMBER
            &&& buf[at + 7] == ttl
        }) ==> reply_verdict(buf, ttl) == ReplyVerdict::Probe(buf[echoed_offset(buf) + 6]),
        buf[ip_header_len(buf)] == 0 ==> echoed_offset(buf) == ip_header_len(buf),
        buf[ip_header_len(buf)] == 11 ==> echoed_offset(buf) == ip_header_len(buf) + 28,
{
    let at = echoed_offset(buf);
    let lo = buf[at + 6] as int;
    let hi = buf[at + 7] as int;
    assert(le16_at(buf, at + 6) == lo + 256 * hi);
    assert((lo + 256 * hi) / 256 == hi && (lo + 256 * hi) % 256 == lo) by (nonlinear_arith)
        requires
            0 <= lo < 256,
    ;
}

/// Why a round of probes cannot go on.
#[derive(Debug, Clone, Copy, PartialEq, Eq)]
pub enum RoundError {
    /// A reply names a probe number past the probes that were sent.
    ProbeOutOfRange,
}

/// The bookkeeping of one round of probes: how many were sent, how many
/// replies are still awaited, and which host answered last.
pub struct ProbeRound {
    pub probes: u8,
    pub left: u8,
    pub sender: Option<[u8; 4]>,
}

impl ProbeRound {
    /// A round of `probes` probes, none answered yet.
    pub fn new(probes: u8) -> (r: Self)
        ensures
            r.probes == probes,
            r.left == probes,
            r.sender is None,
    {
        ProbeRound { probes, left: probes, sender: None }
    }

    /// Takes one classified reply into the round. Every reply names its
    /// sender; an answer to a probe is one reply fewer to wait for, and it
    /// gives the probe number when that probe was sent, the error otherwise.
    /// Other replies change nothing else.
    pub fn take_reply(&mut self, info: ReplyInfo) -> (res: Result<Option<u8>, RoundError>)
        requires
            old(self).left > 0,
        ensures
            final(self).probes == old(self).probes,
            final(self).sender == Some(info.sender),
            match info.verdict {
                ReplyVerdict::Probe(p) => {
                    &&& final(self).left == old(self).left - 1
                    &&& res == if p < old(self).probes {
                        Ok::<Option<u8>, RoundError>(Some(p))
                    } else {
                        Err::<Option<u8>, RoundError>(RoundError::ProbeOutOfRange)
                    }
                },
                _ => final(self).left == old(self).left && res == Ok::<Option<u8>, RoundError>(None),
            },
    {
        self.sender = Some(info.sender);
        match info.verdict {
            ReplyVerdict::Probe(p) => {
                self.left = self.left - 1;
                if p < self.probes {
                    Ok(Some(p))
                } else {
                    Err(RoundError::ProbeOutOfRange)
                }
            },
            _ => Ok(None),
        }
    }
}

} // verus!
