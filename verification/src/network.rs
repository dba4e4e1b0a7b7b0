//! The reliable-UDP packet layer: datagram framing, sequencing,
//! acknowledgments, duplicate suppression, retransmission bookkeeping and
//! fragment reassembly.
//!
//! The packet manager is a pure state machine: every operation that the
//! original clock drove takes the current time in milliseconds as an
//! argument, so the whole retransmission logic is verified.  The I/O
//! loops around it live outside the library.

use vstd::prelude::*;
use crate::wire::{be_bytes_u32, u32_of_be};
use crate::keyed::{unique_keys, keyed_map, lemma_keyed_map, lemma_keyed_map_update,
    lemma_keyed_map_push, lemma_keyed_map_remove};
use crate::value::clone_bytes;

verus! {

/// Header size in bytes: type (1) + sequence (4) + ack (4) + flags (4).
pub const PACKET_HEADER_SIZE: usize = 13;

/// Conservative maximum datagram size.
pub const MAX_PACKET_SIZE: usize = 1280;

/// Maximum payload carried by one packet.
pub const MAX_PAYLOAD_SIZE: usize = MAX_PACKET_SIZE - PACKET_HEADER_SIZE;

/// Flag bit marking the first fragment of a burst.
pub const FRAG_FIRST: u32 = 0x02;

/// Flag bit marking the last fragment of a burst.
pub const FRAG_LAST: u32 = 0x01;

/// Packet types of the datagram protocol.
#[derive(Debug, Clone, Copy, PartialEq, Eq, Structural)]
pub enum PacketType {
    /// Data packet carrying message payload.
    Data,
    /// Acknowledgment of a received packet.
    Ack,
    /// Keep-alive ping.
    Ping,
    /// Ping response.
    Pong,
}

impl PacketType {
    /// The code byte this packet type is written as.
    pub open spec fn spec_code(self) -> u8 {
        match self {
            PacketType::Data => 0x01,
            PacketType::Ack => 0x02,
            PacketType::Ping => 0x03,
            PacketType::Pong => 0x04,
        }
    }

    /// The code byte of this packet type.
    pub fn to_u8(self) -> (r: u8)
        ensures
            r == self.spec_code(),
    {
        match self {
            PacketType::Data => 0x01,
            PacketType::Ack => 0x02,
            PacketType::Ping => 0x03,
            PacketType::Pong => 0x04,
        }
    }

    /// Convert a code byte to its packet type; exactly `0x01` through
    /// `0x04` are recognized.
    pub fn from_u8(val: u8) -> (r: Option<PacketType>)
        ensures
            match r {
                Some(t) => t.spec_code() == val,
                None => val == 0 || val > 0x04,
            },
    {
        match val {
            0x01 => Some(PacketType::Data),
            0x02 => Some(PacketType::Ack),
            0x03 => Some(PacketType::Ping),
            0x04 => Some(PacketType::Pong),
            _ => None,
        }
    }
}

/// The model of a packet: its header fields and payload bytes.
pub struct PacketModel {
    pub packet_type: PacketType,
    pub sequence: u32,
    pub ack_number: u32,
    pub flags: u32,
    pub payload: Seq<u8>,
}

/// The bytes of a packet on the wire: header, then payload.
pub open spec fn packet_bytes(p: PacketModel) -> Seq<u8> {
    seq![p.packet_type.spec_code()] + be_bytes_u32(p.sequence) + be_bytes_u32(p.ack_number)
        + be_bytes_u32(p.flags) + p.payload
}

/// Parse a packet from raw bytes: `None` on a short buffer or an unknown
/// type code.
pub open spec fn parse_packet(s: Seq<u8>) -> Option<PacketModel> {
    if s.len() < 13 {
        None
    } else if 0x01 <= s[0] <= 0x04 {
        let t = if s[0] == 0x01 {
            PacketType::Data
        } else if s[0] == 0x02 {
            PacketType::Ack
        } else if s[0] == 0x03 {
            PacketType::Ping
        } else {
            PacketType::Pong
        };
        Some(
            PacketModel {
                packet_type: t,
                sequence: u32_of_be(s[1], s[2], s[3], s[4]),
                ack_number: u32_of_be(s[5], s[6], s[7], s[8]),
                flags: u32_of_be(s[9], s[10], s[11], s[12]),
                payload: s.subrange(13, s.len() as int),
            },
        )
    } else {
        None
    }
}

/// A single datagram with its header fields.
#[derive(Debug)]
pub struct UdpPacket {
    pub packet_type: PacketType,
    pub sequence: u32,
    pub ack_number: u32,
    pub flags: u32,
    pub payload: Vec<u8>,
}

impl View for UdpPacket {
    type V = PacketModel;

    open spec fn view(&self) -> PacketModel {
        PacketModel {
            packet_type: self.packet_type,
            sequence: self.sequence,
            ack_number: self.ack_number,
            flags: self.flags,
            payload: self.payload@,
        }
    }
}

impl Clone for UdpPacket {
    /// A clone carries the same header fields and payload.
    fn clone(&self) -> (r: Self)
        ensures
            r@ == self@,
    {
        UdpPacket {
            packet_type: self.packet_type,
            sequence: self.sequence,
            ack_number: self.ack_number,
            flags: self.flags,
            payload: clone_bytes(&self.payload),
        }
    }
}

impl UdpPacket {
    /// Serialize the packet for transmission.
    pub fn to_bytes(&self) -> (r: Vec<u8>)
        ensures
            r@ == packet_bytes(self@),
    {
        let mut buf: Vec<u8> = Vec::with_capacity(self.payload.len());
        buf.push(self.packet_type.to_u8());
        push_be_u32(&mut buf, self.sequence);
        push_be_u32(&mut buf, self.ack_number);
        push_be_u32(&mut buf, self.flags);
        let mut i: usize = 0;
        let n = self.payload.len();
        let ghost header = buf@;
        while i < n
            invariant
                i <= n,
                n == self.payload@.len(),
                buf@ == header + self.payload@.take(i as int),
            decreases n - i,
        {
            buf.push(self.payload[i]);
            proof {
                assert(self.payload@.take(i + 1) =~= self.payload@.take(i as int).push(
                    self.payload@[i as int],
                ));
            }
            i = i + 1;
        }
        proof {
            assert(self.payload@.take(n as int) =~= self.payload@);
            assert(buf@ =~= packet_bytes(self@));
        }
        buf
    }

    /// Deserialize a packet.  A buffer shorter than the header is
    /// rejected, as is an unknown type code.
    pub fn from_bytes(data: &[u8]) -> (r: Result<Self, String>)
        ensures
            match r {
                Ok(p) => parse_packet(data@) == Some(p@),
                Err(e) => parse_packet(data@) is None && (data@.len() < 13 ==> e@
                    == "Packet too small"@) && (data@.len() >= 13 ==> e@
                    == "Invalid packet type"@),
            },
    {
        if data.len() < PACKET_HEADER_SIZE {
            return Err("Packet too small".to_owned());
        }
        let packet_type = match PacketType::from_u8(*vstd::slice::slice_index_get(data, 0)) {
            Some(t) => t,
            None => {
                return Err("Invalid packet type".to_owned());
            },
        };
        let sequence = read_be_u32(data, 1);
        let ack_number = read_be_u32(data, 5);
        let flags = read_be_u32(data, 9);
        let n = data.len();
        let payload = vstd::slice::slice_to_vec(
            vstd::slice::slice_subrange(data, PACKET_HEADER_SIZE, n),
        );
        Ok(UdpPacket { packet_type, sequence, ack_number, flags, payload })
    }

    /// Whether the first-fragment flag bit is set.
    pub fn is_first_fragment(&self) -> (r: bool)
        ensures
            r == ((self@.flags & FRAG_FIRST) != 0),
    {
        (self.flags & FRAG_FIRST) != 0
    }

    /// Whether the last-fragment flag bit is set.
    pub fn is_last_fragment(&self) -> (r: bool)
        ensures
            r == ((self@.flags & FRAG_LAST) != 0),
    {
        (self.flags & FRAG_LAST) != 0
    }
}

/// A tracked outbound packet awaiting acknowledgment.
pub struct PendingModel {
    pub packet: PacketModel,
    pub send_time_ms: u64,
    pub retries: u32,
}

struct PendingEntry {
    packet: UdpPacket,
    send_time_ms: u64,
    retries: u32,
}

/// The models of the tracked entries.
spec fn pending_views(s: Seq<(u32, PendingEntry)>) -> Seq<(u32, PendingModel)>
    decreases s,
{
    if s.len() == 0 {
        Seq::empty()
    } else {
        seq![
            (
                s[0].0,
                PendingModel {
                    packet: s[0].1.packet@,
                    send_time_ms: s[0].1.send_time_ms,
                    retries: s[0].1.retries,
                },
            ),
        ] + pending_views(s.drop_first())
    }
}

/// `pending_views` is the element-wise model.
proof fn lemma_pending_views(s: Seq<(u32, PendingEntry)>)
    ensures
        pending_views(s).len() == s.len(),
        forall|i: int| 0 <= i < s.len() ==> pending_views(s)[i] == ((#[trigger] s[i]).0,
        PendingModel {
            packet: s[i].1.packet@,
            send_time_ms: s[i].1.send_time_ms,
            retries: s[i].1.retries,
        }),
    decreases s.len(),
{
    if s.len() > 0 {
        lemma_pending_views(s.drop_first());
        assert forall|i: int| 0 <= i < s.len() implies pending_views(s)[i] == ((
        #[trigger] s[i]).0, PendingModel {
            packet: s[i].1.packet@,
            send_time_ms: s[i].1.send_time_ms,
            retries: s[i].1.retries,
        }) by {
            if i > 0 {
                assert(s.drop_first()[i - 1] == s[i]);
            }
        }
    }
}

/// Pending views, element by element.
proof fn lemma_pending_views_eq(a: Seq<(u32, PendingEntry)>, b: Seq<(u32, PendingModel)>)
    requires
        a.len() == b.len(),
        forall|i: int| 0 <= i < a.len() ==> b[i] == ((#[trigger] a[i]).0,
        PendingModel {
            packet: a[i].1.packet@,
            send_time_ms: a[i].1.send_time_ms,
            retries: a[i].1.retries,
        }),
    ensures
        pending_views(a) == b,
{
    lemma_pending_views(a);
    assert forall|i: int| 0 <= i < a.len() implies pending_views(a)[i] == b[i] by {
        assert(b[i] == (a[i].0, PendingModel {
            packet: a[i].1.packet@,
            send_time_ms: a[i].1.send_time_ms,
            retries: a[i].1.retries,
        }));
    }
    assert(pending_views(a) =~= b);
}

/// The models of a sequence of packets.
pub open spec fn packet_views(s: Seq<UdpPacket>) -> Seq<PacketModel>
    decreases s,
{
    if s.len() == 0 {
        Seq::empty()
    } else {
        seq![s[0]@] + packet_views(s.drop_first())
    }
}

/// `packet_views` is the element-wise model.
pub proof fn lemma_packet_views(s: Seq<UdpPacket>)
    ensures
        packet_views(s).len() == s.len(),
        forall|i: int| 0 <= i < s.len() ==> packet_views(s)[i] == (#[trigger] s[i])@,
    decreases s.len(),
{
    if s.len() > 0 {
        lemma_packet_views(s.drop_first());
        assert forall|i: int| 0 <= i < s.len() implies packet_views(s)[i] == (#[trigger] s[i])@
        by {
            if i > 0 {
                assert(s.drop_first()[i - 1] == s[i]);
            }
        }
    }
}

/// Appending a packet appends its model.
pub proof fn lemma_packet_views_push(s: Seq<UdpPacket>, p: UdpPacket)
    ensures
        packet_views(s.push(p)) == packet_views(s) + seq![p@],
    decreases s.len(),
{
    if s.len() == 0 {
        assert(s.push(p)[0] == p);
        assert(s.push(p).drop_first() =~= Seq::<UdpPacket>::empty());
        assert(packet_views(Seq::<UdpPacket>::empty()) =~= Seq::<PacketModel>::empty());
        assert(packet_views(s.push(p)) =~= seq![p@]);
        assert(packet_views(s) =~= Seq::<PacketModel>::empty());
        assert(packet_views(s.push(p)) =~= packet_views(s) + seq![p@]);
    } else {
        lemma_packet_views_push(s.drop_first(), p);
        assert(s.push(p).drop_first() =~= s.drop_first().push(p));
        assert(s.push(p)[0] == s[0]);
        assert(packet_views(s.push(p)) =~= seq![s[0]@] + packet_views(s.drop_first().push(p)));
        assert(packet_views(s) + seq![p@] =~= seq![s[0]@] + (packet_views(s.drop_first())
            + seq![p@]));
    }
}

/// The sequence number `i` packets after `s`, wrapping at 32 bits.
pub open spec fn seq_plus(s: u32, i: int) -> u32
    recommends
        i >= 0,
{
    ((s + i) % 0x1_0000_0000) as u32
}

/// The number of packets a payload of `len` bytes is split into.
pub open spec fn num_fragments(len: nat) -> nat {
    if len <= 1267 {
        1
    } else {
        ((len + 1266) / 1267) as nat
    }
}

/// The fragment flags of packet `i` of `n`: FIRST on the first, LAST on
/// the last, both on a lone packet, none in the middle.
pub open spec fn frag_flags(i: int, n: int) -> u32 {
    ((if i == 0 {
        2int
    } else {
        0int
    }) + (if i == n - 1 {
        1int
    } else {
        0int
    })) as u32
}

/// Track every packet of a burst in the pending mapping, send time `now`
/// and no retries yet.
pub open spec fn track_all(
    m: Map<u32, PendingModel>,
    ps: Seq<PacketModel>,
    now_ms: u64,
) -> Map<u32, PendingModel>
    decreases ps.len(),
{
    if ps.len() == 0 {
        m
    } else {
        track_all(m, ps.drop_last(), now_ms).insert(
            ps.last().sequence,
            PendingModel { packet: ps.last(), send_time_ms: now_ms, retries: 0 },
        )
    }
}

/// Whether a tracked entry has waited longer than the ACK timeout.
pub open spec fn timed_out(e: PendingModel, now_ms: u64, timeout_ms: u64) -> bool {
    now_ms > e.send_time_ms + timeout_ms
}

/// The pending entries that remain after a retransmission sweep: timed-out
/// entries are re-stamped and their retry count bumped while it is below
/// the budget, and dropped once the budget is spent.
pub open spec fn retransmit_keep(
    s: Seq<(u32, PendingModel)>,
    now_ms: u64,
    timeout_ms: u64,
    max_retries: u32,
) -> Seq<(u32, PendingModel)>
    decreases s.len(),
{
    if s.len() == 0 {
        s
    } else {
        let rest = retransmit_keep(s.drop_first(), now_ms, timeout_ms, max_retries);
        let e = s[0].1;
        if timed_out(e, now_ms, timeout_ms) {
            if e.retries < max_retries {
                seq![
                    (
                        s[0].0,
                        PendingModel {
                            packet: e.packet,
                            send_time_ms: now_ms,
                            retries: (e.retries + 1) as u32,
                        },
                    ),
                ] + rest
            } else {
                rest
            }
        } else {
            seq![s[0]] + rest
        }
    }
}

/// The packets a retransmission sweep returns, each with its new retry
/// count.
pub open spec fn retransmit_out(
    s: Seq<(u32, PendingModel)>,
    now_ms: u64,
    timeout_ms: u64,
    max_retries: u32,
) -> Seq<(PacketModel, u32)>
    decreases s.len(),
{
    if s.len() == 0 {
        Seq::empty()
    } else {
        let rest = retransmit_out(s.drop_first(), now_ms, timeout_ms, max_retries);
        let e = s[0].1;
        if timed_out(e, now_ms, timeout_ms) && e.retries < max_retries {
            seq![(e.packet, (e.retries + 1) as u32)] + rest
        } else {
            rest
        }
    }
}

/// A retransmission sweep keeps keys unique, keeps every retry count
/// within the budget it was within before, and invents no keys.
pub proof fn lemma_retransmit_keep_wf(
    s: Seq<(u32, PendingModel)>,
    now_ms: u64,
    timeout_ms: u64,
    max_retries: u32,
)
    requires
        unique_keys(s),
        forall|i: int| 0 <= i < s.len() ==> (#[trigger] s[i]).1.retries <= max_retries,
    ensures
        unique_keys(retransmit_keep(s, now_ms, timeout_ms, max_retries)),
        forall|j: int|
            0 <= j < retransmit_keep(s, now_ms, timeout_ms, max_retries).len() ==> (
            #[trigger] retransmit_keep(s, now_ms, timeout_ms, max_retries)[j]).1.retries
                <= max_retries,
        forall|j: int|
            0 <= j < retransmit_keep(s, now_ms, timeout_ms, max_retries).len() ==> (exists|i: int|
                0 <= i < s.len() && (#[trigger] retransmit_keep(
                    s,
                    now_ms,
                    timeout_ms,
                    max_retries,
                )[j]).0 == s[i].0),
    decreases s.len(),
{
    if s.len() > 0 {
        let d = s.drop_first();
        assert(unique_keys(d));
        lemma_retransmit_keep_wf(d, now_ms, timeout_ms, max_retries);
        let rest = retransmit_keep(d, now_ms, timeout_ms, max_retries);
        let whole = retransmit_keep(s, now_ms, timeout_ms, max_retries);
        assert forall|j: int| 0 <= j < rest.len() implies (exists|i: int|
            0 <= i < s.len() && (#[trigger] rest[j]).0 == s[i].0) by {
            let i0 = choose|i: int| 0 <= i < d.len() && rest[j].0 == d[i].0;
            assert(s[i0 + 1] == d[i0]);
        }
        assert forall|i0: int| 0 <= i0 < rest.len() implies (#[trigger] rest[i0]).0 != s[0].0 by {
            let iw = choose|i: int| 0 <= i < d.len() && rest[i0].0 == d[i].0;
            assert(s[iw + 1] == d[iw]);
        }
    }
}

/// Manages packet sequencing, acknowledgments, duplicate suppression and
/// retransmission bookkeeping.  Time enters only through the `now_ms`
/// arguments; the manager itself never reads a clock.
pub struct PacketManager {
    sequence_number: u32,
    last_ack_received: u32,
    pending_acks: Vec<(u32, PendingEntry)>,
    received_sequences: Vec<u32>,
    ack_timeout_ms: u64,
    max_retries: u32,
}

impl PacketManager {
    /// The next outbound sequence number.
    pub closed spec fn spec_sequence_number(&self) -> u32 {
        self.sequence_number
    }

    /// The highest received sequence, acknowledged back to peers as the
    /// piggyback `ack_number`; zero until anything is received.
    pub closed spec fn spec_last_ack(&self) -> u32 {
        self.last_ack_received
    }

    /// The tracked outbound packets, in tracking order.
    pub closed spec fn pending(&self) -> Seq<(u32, PendingModel)> {
        pending_views(self.pending_acks@)
    }

    /// The pending table as a mapping from sequence number.
    pub open spec fn pending_map(&self) -> Map<u32, PendingModel> {
        keyed_map(self.pending())
    }

    /// The sequences received so far, for duplicate suppression.
    pub closed spec fn received(&self) -> Set<u32> {
        self.received_sequences@.to_set()
    }

    /// The ACK timeout in milliseconds.
    pub closed spec fn spec_ack_timeout_ms(&self) -> u64 {
        self.ack_timeout_ms
    }

    /// The retransmission budget per packet.
    pub closed spec fn spec_max_retries(&self) -> u32 {
        self.max_retries
    }

    /// Pending keys are unique and no retry count exceeds the budget.
    pub open spec fn wf(&self) -> bool {
        unique_keys(self.pending()) && (forall|i: int|
            0 <= i < self.pending().len() ==> (#[trigger] self.pending()[i]).1.retries
                <= self.spec_max_retries())
    }

    /// Everything that a sweep or a send leaves untouched.
    pub open spec fn same_config(&self, other: &Self) -> bool {
        self.spec_ack_timeout_ms() == other.spec_ack_timeout_ms()
            && self.spec_max_retries() == other.spec_max_retries()
    }

    /// A fresh manager: sequence 0, defaults of 100 ms ACK timeout and
    /// 3 retries.
    pub fn new() -> (r: Self)
        ensures
            r.wf(),
            r.spec_sequence_number() == 0,
            r.spec_last_ack() == 0,
            r.pending() == Seq::<(u32, PendingModel)>::empty(),
            r.received() == Set::<u32>::empty(),
            r.spec_ack_timeout_ms() == 100,
            r.spec_max_retries() == 3,
    {
        let r = PacketManager {
            sequence_number: 0,
            last_ack_received: 0,
            pending_acks: Vec::new(),
            received_sequences: Vec::new(),
            ack_timeout_ms: 100,
            max_retries: 3,
        };
        proof {
            assert(r.pending() =~= Seq::<(u32, PendingModel)>::empty());
            assert(r.received() =~= Set::<u32>::empty());
        }
        r
    }

    /// A fresh manager with the given ACK timeout and retry budget.
    pub fn with_config(ack_timeout_ms: u64, max_retries: u32) -> (r: Self)
        ensures
            r.wf(),
            r.spec_sequence_number() == 0,
            r.spec_last_ack() == 0,
            r.pending() == Seq::<(u32, PendingModel)>::empty(),
            r.received() == Set::<u32>::empty(),
            r.spec_ack_timeout_ms() == ack_timeout_ms,
            r.spec_max_retries() == max_retries,
    {
        let mut pm = Self::new();
        pm.ack_timeout_ms = ack_timeout_ms;
        pm.max_retries = max_retries;
        proof {
            assert(pm.pending() =~= Seq::<(u32, PendingModel)>::empty());
        }
        pm
    }

    /// The position of a sequence among the pending entries.
    pub closed spec fn pending_index(&self, seq: u32) -> int {
        choose|i: int| 0 <= i < self.pending().len() && self.pending()[i].0 == seq
    }

    /// Find the storage index of a tracked sequence.
    fn find_pending(&self, seq: u32) -> (r: Option<usize>)
        requires
            unique_keys(self.pending()),
        ensures
            match r {
                Some(i) => i == self.pending_index(seq) && 0 <= i < self.pending().len()
                    && self.pending()[i as int].0 == seq,
                None => forall|i: int| 0 <= i < self.pending().len() ==> (
                #[trigger] self.pending()[i]).0 != seq,
            },
    {
        proof {
            lemma_pending_views(self.pending_acks@);
        }
        let n = self.pending_acks.len();
        let mut i: usize = 0;
        while i < n
            invariant
                i <= n,
                n == self.pending_acks@.len(),
                n == self.pending().len(),
                unique_keys(self.pending()),
                forall|j: int| 0 <= j < i ==> (#[trigger] self.pending()[j]).0 != seq,
                forall|j: int| 0 <= j < n ==> (#[trigger] self.pending()[j]).0
                    == self.pending_acks@[j].0,
            decreases n - i,
        {
            if self.pending_acks[i].0 == seq {
                proof {
                    assert(self.pending()[i as int].0 == seq);
                }
                return Some(i);
            }
            i = i + 1;
        }
        None
    }

    /// Track an outbound packet in the pending table.
    fn track(&mut self, seq: u32, packet: UdpPacket, now_ms: u64)
        requires
            old(self).wf(),
        ensures
            final(self).wf(),
            final(self).pending_map() == old(self).pending_map().insert(
                seq,
                PendingModel { packet: packet@, send_time_ms: now_ms, retries: 0 },
            ),
            !old(self).pending_map().contains_key(seq) ==> final(self).pending() == old(
                self,
            ).pending().push(
                (seq, PendingModel { packet: packet@, send_time_ms: now_ms, retries: 0 }),
            ),
            final(self).spec_sequence_number() == old(self).spec_sequence_number(),
            final(self).spec_last_ack() == old(self).spec_last_ack(),
            final(self).received() == old(self).received(),
            final(self).same_config(old(self)),
    {
        proof {
            lemma_pending_views(self.pending_acks@);
            lemma_keyed_map(self.pending());
        }
        let ghost pre = self.pending();
        let ghost em = PendingModel { packet: packet@, send_time_ms: now_ms, retries: 0 };
        match self.find_pending(seq) {
            Some(i) => {
                let ghost entry_snap = (seq, PendingEntry {
                    packet: packet,
                    send_time_ms: now_ms,
                    retries: 0,
                });
                self.pending_acks.remove(i);
                self.pending_acks.insert(
                    i,
                    (seq, PendingEntry { packet, send_time_ms: now_ms, retries: 0 }),
                );
                proof {
                    assert(self.pending_acks@ =~= old(self).pending_acks@.update(
                        i as int,
                        entry_snap,
                    ));
                    lemma_pending_views(old(self).pending_acks@);
                    lemma_pending_views_eq(self.pending_acks@, pre.update(i as int, (seq, em)));
                    assert(pre[i as int].0 == seq);
                    lemma_keyed_map_update(pre, i as int, em);
                }
            },
            None => {
                self.pending_acks.push((seq, PendingEntry { packet, send_time_ms: now_ms, retries: 0 }));
                proof {
                    lemma_pending_views(old(self).pending_acks@);
                    lemma_pending_views_eq(self.pending_acks@, pre.push((seq, em)));
                    lemma_keyed_map_push(pre, seq, em);
                    lemma_keyed_map(pre);
                }
            },
        }
    }
}

/// Wrapping successor arithmetic: one more step of `seq_plus`.
proof fn lemma_seq_plus_step(s0: u32, k: int)
    requires
        k >= 0,
    ensures
        seq_plus(s0, k + 1) == vstd::wrapping::u32_specs::wrapping_add(seq_plus(s0, k), 1),
{
    let m = 0x1_0000_0000int;
    let cur = seq_plus(s0, k) as int;
    vstd::arithmetic::div_mod::lemma_add_mod_noop(s0 + k, 1, m);
    if cur + 1 < m {
        vstd::arithmetic::div_mod::lemma_small_mod((cur + 1) as nat, m as nat);
    } else {
        vstd::arithmetic::div_mod::lemma_mod_self_0(m);
    }
}

/// Position arithmetic of the fragmentation loop.
proof fn lemma_frag_arith(len: int, k: int)
    requires
        len > 1267,
        k >= 0,
        k * 1267 < len,
    ensures
        0 < num_fragments(len as nat),
        k < num_fragments(len as nat),
        (k * 1267 + 1267 >= len) <==> (k == num_fragments(len as nat) - 1),
{
    let nf = (len + 1266) / 1267;
    vstd::arithmetic::div_mod::lemma_fundamental_div_mod(len + 1266, 1267);
}

/// The fragment flags of one packet.
fn flags_for(is_first: bool, is_last: bool) -> (r: u32)
    ensures
        r == ((if is_first {
            2int
        } else {
            0int
        }) + (if is_last {
            1int
        } else {
            0int
        })) as u32,
{
    let a: u32 = if is_first {
        FRAG_FIRST
    } else {
        0
    };
    let b: u32 = if is_last {
        FRAG_LAST
    } else {
        0
    };
    proof {
        assert(2u32 | 1u32 == 3u32 && 2u32 | 0u32 == 2u32 && 0u32 | 1u32 == 1u32 && 0u32 | 0u32
            == 0u32) by (bit_vector);
    }
    a | b
}

impl PacketManager {
    /// Split a payload into Data packets, consuming one sequence number
    /// per packet and tracking each in the pending table with send time
    /// `now_ms` and no retries.  A payload of at most 1267 bytes becomes
    /// one packet flagged FIRST and LAST; larger payloads are split at
    /// 1267-byte boundaries, FIRST on the first chunk and LAST on the
    /// last.
    #[verifier::loop_isolation(false)]
    #[verifier::rlimit(100)]
    pub fn create_packets(&mut self, data: &[u8], now_ms: u64) -> (r: Vec<UdpPacket>)
        requires
            old(self).wf(),
        ensures
            final(self).wf(),
            r@.len() == num_fragments(data@.len()),
            forall|i: int| 0 <= i < r@.len() ==> ((#[trigger] r@[i])@.packet_type
                == PacketType::Data && r@[i]@.sequence == seq_plus(
                old(self).spec_sequence_number(),
                i,
            ) && r@[i]@.ack_number == old(self).spec_last_ack() && r@[i]@.flags == frag_flags(
                i,
                r@.len() as int,
            ) && r@[i]@.payload == data@.subrange(
                i * 1267,
                if (i + 1) * 1267 <= data@.len() {
                    (i + 1) * 1267
                } else {
                    data@.len() as int
                },
            )),
            final(self).spec_sequence_number() == seq_plus(
                old(self).spec_sequence_number(),
                r@.len() as int,
            ),
            final(self).pending_map() == track_all(
                old(self).pending_map(),
                packet_views(r@),
                now_ms,
            ),
            final(self).spec_last_ack() == old(self).spec_last_ack(),
            final(self).received() == old(self).received(),
            final(self).same_config(old(self)),
    {
        let mut packets: Vec<UdpPacket> = Vec::new();
        let ghost s0 = self.sequence_number;
        let ghost m0 = self.pending_map();
        if data.len() <= MAX_PAYLOAD_SIZE {
            let packet = UdpPacket {
                packet_type: PacketType::Data,
                sequence: self.sequence_number,
                ack_number: self.last_ack_received,
                flags: flags_for(true, true),
                payload: vstd::slice::slice_to_vec(data),
            };
            let seq = self.sequence_number;
            self.track(seq, packet.clone(), now_ms);
            packets.push(packet);
            self.sequence_number = self.sequence_number.wrapping_add(1);
            proof {
                vstd::arithmetic::div_mod::lemma_small_mod(s0 as nat, 0x1_0000_0000nat);
                lemma_seq_plus_step(s0, 0);
                lemma_packet_views_push(Seq::<UdpPacket>::empty(), packets@[0]);
                assert(packets@ =~= Seq::<UdpPacket>::empty().push(packets@[0]));
                assert(packet_views(Seq::<UdpPacket>::empty())
                    =~= Seq::<PacketModel>::empty());
                assert(packet_views(packets@) =~= seq![packets@[0]@]);
                assert(packet_views(packets@).drop_last() =~= Seq::<PacketModel>::empty());
                assert(packet_views(packets@).last() == packets@[0]@);
                assert(track_all(m0, Seq::<PacketModel>::empty(), now_ms) == m0);
                assert(track_all(m0, packet_views(packets@), now_ms) == track_all(
                    m0,
                    packet_views(packets@).drop_last(),
                    now_ms,
                ).insert(
                    packet_views(packets@).last().sequence,
                    PendingModel {
                        packet: packet_views(packets@).last(),
                        send_time_ms: now_ms,
                        retries: 0,
                    },
                ));
                assert(track_all(m0, packet_views(packets@), now_ms) =~= m0.insert(
                    packets@[0]@.sequence,
                    PendingModel { packet: packets@[0]@, send_time_ms: now_ms, retries: 0 },
                ));
                assert(data@.subrange(0, data@.len() as int) =~= data@);
                assert(self.pending_map() =~= track_all(m0, packet_views(packets@), now_ms));
            }
        } else {
            let total = data.len();
            let mut offset: usize = 0;
            while offset < total
                invariant
                    self.wf(),
                    packets@.len() <= num_fragments(data@.len()),
                    packets@.len() < num_fragments(data@.len()) ==> offset == packets@.len()
                        * 1267,
                    packets@.len() == num_fragments(data@.len()) ==> offset == total,
                    offset <= total,
                    offset < total ==> packets@.len() < num_fragments(data@.len()),
                    forall|i: int| 0 <= i < packets@.len() ==> ((
                    #[trigger] packets@[i])@.packet_type == PacketType::Data
                        && packets@[i]@.sequence == seq_plus(s0, i) && packets@[i]@.ack_number
                        == old(self).spec_last_ack() && packets@[i]@.flags == frag_flags(
                        i,
                        num_fragments(data@.len()) as int,
                    ) && packets@[i]@.payload == data@.subrange(
                        i * 1267,
                        if (i + 1) * 1267 <= data@.len() {
                            (i + 1) * 1267
                        } else {
                            data@.len() as int
                        },
                    )),
                    self.spec_sequence_number() == seq_plus(s0, packets@.len() as int),
                    self.pending_map() == track_all(m0, packet_views(packets@), now_ms),
                    self.spec_last_ack() == old(self).spec_last_ack(),
                    self.received() == old(self).received(),
                    self.same_config(old(self)),
                decreases total - offset,
            {
                let ghost k = packets@.len() as int;
                proof {
                    lemma_frag_arith(total as int, k);
                }
                let end = if total - offset > MAX_PAYLOAD_SIZE {
                    offset + MAX_PAYLOAD_SIZE
                } else {
                    total
                };
                let chunk = vstd::slice::slice_to_vec(
                    vstd::slice::slice_subrange(data, offset, end),
                );
                let is_first = offset == 0;
                let is_last = end == total;
                let packet = UdpPacket {
                    packet_type: PacketType::Data,
                    sequence: self.sequence_number,
                    ack_number: self.last_ack_received,
                    flags: flags_for(is_first, is_last),
                    payload: chunk,
                };
                let seq = self.sequence_number;
                let ghost packets_pre = packets@;
                self.track(seq, packet.clone(), now_ms);
                packets.push(packet);
                self.sequence_number = self.sequence_number.wrapping_add(1);
                offset = end;
                proof {
                    lemma_seq_plus_step(s0, k);
                    lemma_packet_views_push(packets_pre, packets@[k]);
                    assert(packet_views(packets@) =~= packet_views(packets_pre) + seq![
                        packets@[k]@,
                    ]);
                    assert(packet_views(packets@).drop_last() =~= packet_views(packets_pre));
                    assert(packet_views(packets@).last() == packets@[k]@);
                    assert(track_all(m0, packet_views(packets@), now_ms) =~= track_all(
                        m0,
                        packet_views(packets_pre),
                        now_ms,
                    ).insert(
                        packets@[k]@.sequence,
                        PendingModel { packet: packets@[k]@, send_time_ms: now_ms, retries: 0 },
                    ));
                    assert(self.pending_map() =~= track_all(
                        m0,
                        packet_views(packets@),
                        now_ms,
                    ));
                    if is_last {
                        assert(packets@.len() == num_fragments(data@.len()));
                    } else {
                        assert(k * 1267 + 1267 < total);
                    }
                }
            }
        }
        packets
    }

    /// Build an ACK packet for a received sequence; not tracked.
    pub fn create_ack_packet(&self, ack_sequence: u32) -> (r: UdpPacket)
        ensures
            r@.packet_type == PacketType::Ack,
            r@.sequence == self.spec_sequence_number(),
            r@.ack_number == ack_sequence,
            r@.flags == 0,
            r@.payload == Seq::<u8>::empty(),
    {
        UdpPacket {
            packet_type: PacketType::Ack,
            sequence: self.sequence_number,
            ack_number: ack_sequence,
            flags: 0,
            payload: Vec::new(),
        }
    }

    /// Build a keep-alive Ping packet carrying the current time in
    /// milliseconds, little-endian, in a 16-byte payload; one sequence
    /// number is consumed.
    pub fn create_ping_packet(&mut self, now_ms: u64) -> (r: UdpPacket)
        requires
            old(self).wf(),
        ensures
            final(self).wf(),
            r@.packet_type == PacketType::Ping,
            r@.sequence == old(self).spec_sequence_number(),
            r@.ack_number == old(self).spec_last_ack(),
            r@.flags == 0,
            r@.payload == ping_payload(now_ms),
            final(self).spec_sequence_number() == seq_plus(old(self).spec_sequence_number(), 1),
            final(self).pending() == old(self).pending(),
            final(self).spec_last_ack() == old(self).spec_last_ack(),
            final(self).received() == old(self).received(),
            final(self).same_config(old(self)),
    {
        let mut payload: Vec<u8> = Vec::with_capacity(16);
        let mut v = now_ms;
        let mut i: usize = 0;
        proof {
            vstd::arithmetic::power::lemma_pow0(256);
        }
        while i < 8
            invariant
                i <= 8,
                v as int == now_ms as int / vstd::arithmetic::power::pow(256, i as nat),
                payload@.len() == i,
                forall|j: int| 0 <= j < i ==> payload@[j] == ping_payload(now_ms)[j],
            decreases 8 - i,
        {
            payload.push((v % 0x100) as u8);
            proof {
                vstd::arithmetic::power::lemma_pow_adds(256, i as nat, 1);
                vstd::arithmetic::power::lemma_pow1(256);
                vstd::arithmetic::power::lemma_pow_positive(256, i as nat);
                vstd::arithmetic::div_mod::lemma_div_denominator(
                    now_ms as int,
                    vstd::arithmetic::power::pow(256, i as nat) as int,
                    256,
                );
            }
            v = v / 0x100;
            i = i + 1;
        }
        proof {
            vstd::arithmetic::power::lemma_pow1(256);
            assert(vstd::arithmetic::power::pow(256, 1) == 256);
            vstd::arithmetic::power::lemma_pow_adds(256, 1, 1);
            assert(vstd::arithmetic::power::pow(256, 2) == 0x1_0000);
            vstd::arithmetic::power::lemma_pow_adds(256, 2, 2);
            assert(vstd::arithmetic::power::pow(256, 4) == 0x1_0000_0000);
            vstd::arithmetic::power::lemma_pow_adds(256, 4, 4);
            assert(vstd::arithmetic::power::pow(256, 8) == 0x1_0000_0000_0000_0000);
            vstd::arithmetic::div_mod::lemma_basic_div(
                now_ms as int,
                0x1_0000_0000_0000_0000,
            );
        }
        while i < 16
            invariant
                8 <= i <= 16,
                v == 0,
                payload@.len() == i,
                forall|j: int| 0 <= j < i ==> payload@[j] == ping_payload(now_ms)[j],
            decreases 16 - i,
        {
            payload.push(0);
            i = i + 1;
        }
        proof {
            assert(payload@ =~= ping_payload(now_ms));
            vstd::arithmetic::div_mod::lemma_small_mod(
                old(self).sequence_number as nat,
                0x1_0000_0000nat,
            );
            lemma_seq_plus_step(old(self).sequence_number, 0);
        }
        let packet = UdpPacket {
            packet_type: PacketType::Ping,
            sequence: self.sequence_number,
            ack_number: self.last_ack_received,
            flags: 0,
            payload,
        };
        self.sequence_number = self.sequence_number.wrapping_add(1);
        packet
    }

    /// Record a received sequence.  Returns true when it is new; a
    /// duplicate returns false and changes nothing.  A fresh sequence
    /// also raises the piggyback acknowledgment number if it is higher.
    #[verifier::loop_isolation(false)]
    pub fn record_received(&mut self, sequence: u32) -> (r: bool)
        requires
            old(self).wf(),
        ensures
            final(self).wf(),
            r == !old(self).received().contains(sequence),
            final(self).received() == old(self).received().insert(sequence),
            final(self).spec_last_ack() == (if r && sequence > old(self).spec_last_ack() {
                sequence
            } else {
                old(self).spec_last_ack()
            }),
            final(self).pending() == old(self).pending(),
            final(self).spec_sequence_number() == old(self).spec_sequence_number(),
            final(self).same_config(old(self)),
    {
        let n = self.received_sequences.len();
        let mut i: usize = 0;
        while i < n
            invariant
                i <= n,
                n == self.received_sequences@.len(),
                forall|j: int| 0 <= j < i ==> self.received_sequences@[j] != sequence,
            decreases n - i,
        {
            if self.received_sequences[i] == sequence {
                proof {
                    assert(self.received().contains(sequence));
                    assert(self.received() =~= self.received().insert(sequence));
                }
                return false;
            }
            i = i + 1;
        }
        proof {
            assert(!self.received().contains(sequence));
        }
        self.received_sequences.push(sequence);
        if sequence > self.last_ack_received {
            self.last_ack_received = sequence;
        }
        proof {
            assert(old(self).received_sequences@.push(sequence).to_set() =~= old(
                self,
            ).received_sequences@.to_set().insert(sequence)) by {
                assert forall|x: u32| old(self).received_sequences@.push(sequence).contains(x)
                    <==> (old(self).received_sequences@.contains(x) || x == sequence) by {
                    if old(self).received_sequences@.push(sequence).contains(x) {
                        let w = choose|w: int| 0 <= w < old(self).received_sequences@.push(
                            sequence,
                        ).len() && old(self).received_sequences@.push(sequence)[w] == x;
                        if w < old(self).received_sequences@.len() {
                            assert(old(self).received_sequences@[w] == x);
                        }
                    }
                    if old(self).received_sequences@.contains(x) {
                        let w = choose|w: int| 0 <= w < old(self).received_sequences@.len()
                            && old(self).received_sequences@[w] == x;
                        assert(old(self).received_sequences@.push(sequence)[w] == x);
                    }
                    if x == sequence {
                        assert(old(self).received_sequences@.push(sequence)[old(
                            self,
                        ).received_sequences@.len() as int] == x);
                    }
                }
            }
        }
        true
    }

    /// Clear the pending entry an incoming ACK settles; returns whether
    /// one was tracked under that sequence.
    pub fn handle_ack(&mut self, ack_number: u32) -> (r: bool)
        requires
            old(self).wf(),
        ensures
            final(self).wf(),
            r == old(self).pending_map().contains_key(ack_number),
            final(self).pending_map() == old(self).pending_map().remove(ack_number),
            final(self).received() == old(self).received(),
            final(self).spec_last_ack() == old(self).spec_last_ack(),
            final(self).spec_sequence_number() == old(self).spec_sequence_number(),
            final(self).same_config(old(self)),
    {
        proof {
            lemma_pending_views(self.pending_acks@);
            lemma_keyed_map(self.pending());
        }
        let ghost pre = self.pending();
        match self.find_pending(ack_number) {
            Some(i) => {
                self.pending_acks.remove(i);
                proof {
                    lemma_pending_views(old(self).pending_acks@);
                    lemma_pending_views_eq(self.pending_acks@, pre.remove(i as int));
                    lemma_keyed_map_remove(pre, i as int);
                }
                true
            },
            None => {
                proof {
                    assert(self.pending_map() =~= self.pending_map().remove(ack_number));
                }
                false
            },
        }
    }

    /// Sweep the pending table at time `now_ms`: every entry older than
    /// the ACK timeout is returned for retransmission with a bumped retry
    /// count and a fresh send time, unless its retry budget is spent, in
    /// which case it is dropped without notice.
    #[verifier::loop_isolation(false)]
    #[verifier::rlimit(100)]
    #[verifier::spinoff_prover]
    pub fn get_retransmit_packets(&mut self, now_ms: u64) -> (r: Vec<(UdpPacket, u32)>)
        requires
            old(self).wf(),
        ensures
            final(self).wf(),
            final(self).pending() == retransmit_keep(
                old(self).pending(),
                now_ms,
                old(self).spec_ack_timeout_ms(),
                old(self).spec_max_retries(),
            ),
            retransmit_views(r@) == retransmit_out(
                old(self).pending(),
                now_ms,
                old(self).spec_ack_timeout_ms(),
                old(self).spec_max_retries(),
            ),
            final(self).received() == old(self).received(),
            final(self).spec_last_ack() == old(self).spec_last_ack(),
            final(self).spec_sequence_number() == old(self).spec_sequence_number(),
            final(self).same_config(old(self)),
    {
        proof {
            lemma_pending_views(self.pending_acks@);
        }
        let ghost pend0 = self.pending();
        let mut kept: Vec<(u32, PendingEntry)> = Vec::new();
        let mut out: Vec<(UdpPacket, u32)> = Vec::new();
        let n = self.pending_acks.len();
        let mut i: usize = 0;
        proof {
            assert(pend0.skip(0) =~= pend0);
            assert(pending_views(kept@) =~= Seq::<(u32, PendingModel)>::empty());
            assert(retransmit_views(out@) =~= Seq::<(PacketModel, u32)>::empty());
            assert(pending_views(kept@) + retransmit_keep(
                pend0.skip(0),
                now_ms,
                self.ack_timeout_ms,
                self.max_retries,
            ) =~= retransmit_keep(pend0, now_ms, self.ack_timeout_ms, self.max_retries));
            assert(retransmit_views(out@) + retransmit_out(
                pend0.skip(0),
                now_ms,
                self.ack_timeout_ms,
                self.max_retries,
            ) =~= retransmit_out(pend0, now_ms, self.ack_timeout_ms, self.max_retries));
        }
        while i < n
            invariant
                i <= n,
                n == self.pending_acks@.len(),
                n == pend0.len(),
                pending_views(kept@) + retransmit_keep(
                    pend0.skip(i as int),
                    now_ms,
                    self.ack_timeout_ms,
                    self.max_retries,
                ) == retransmit_keep(pend0, now_ms, self.ack_timeout_ms, self.max_retries),
                retransmit_views(out@) + retransmit_out(
                    pend0.skip(i as int),
                    now_ms,
                    self.ack_timeout_ms,
                    self.max_retries,
                ) == retransmit_out(pend0, now_ms, self.ack_timeout_ms, self.max_retries),
            decreases n - i,
        {
            let ghost rem = pend0.skip(i as int);
            proof {
                assert(rem[0] == pend0[i as int]);
                assert(rem.drop_first() =~= pend0.skip(i + 1));
                assert(pend0[i as int] == (self.pending_acks@[i as int].0, PendingModel {
                    packet: self.pending_acks@[i as int].1.packet@,
                    send_time_ms: self.pending_acks@[i as int].1.send_time_ms,
                    retries: self.pending_acks@[i as int].1.retries,
                }));
            }
            let entry = &self.pending_acks[i];
            let seq = entry.0;
            let send_time = entry.1.send_time_ms;
            let retries = entry.1.retries;
            let expired = now_ms > send_time && now_ms - send_time > self.ack_timeout_ms;
            if expired {
                if retries < self.max_retries {
                    let ghost kept_pre = kept@;
                    let ghost out_pre = out@;
                    let repacket = entry.1.packet.clone();
                    let resend = entry.1.packet.clone();
                    kept.push(
                        (
                            seq,
                            PendingEntry {
                                packet: repacket,
                                send_time_ms: now_ms,
                                retries: retries + 1,
                            },
                        ),
                    );
                    out.push((resend, retries + 1));
                    proof {
                        assert(kept@ == kept_pre.push(kept@.last()));
                        lemma_pending_views_push_general(kept_pre, kept@.last());
                        assert(out@ == out_pre.push(out@.last()));
                        lemma_retransmit_views_push(out_pre, out@.last());
                        assert(pending_views(kept@) =~= pending_views(kept_pre) + seq![
                            (seq, PendingModel {
                                packet: pend0[i as int].1.packet,
                                send_time_ms: now_ms,
                                retries: (retries + 1) as u32,
                            }),
                        ]);
                        assert(pending_views(kept@) + retransmit_keep(
                            pend0.skip(i + 1),
                            now_ms,
                            self.ack_timeout_ms,
                            self.max_retries,
                        ) =~= pending_views(kept_pre) + retransmit_keep(
                            rem,
                            now_ms,
                            self.ack_timeout_ms,
                            self.max_retries,
                        ));
                        assert(retransmit_views(out@) + retransmit_out(
                            pend0.skip(i + 1),
                            now_ms,
                            self.ack_timeout_ms,
                            self.max_retries,
                        ) =~= retransmit_views(out_pre) + retransmit_out(
                            rem,
                            now_ms,
                            self.ack_timeout_ms,
                            self.max_retries,
                        ));
                    }
                } else {
                    proof {
                        assert(retransmit_keep(
                            rem,
                            now_ms,
                            self.ack_timeout_ms,
                            self.max_retries,
                        ) =~= retransmit_keep(
                            pend0.skip(i + 1),
                            now_ms,
                            self.ack_timeout_ms,
                            self.max_retries,
                        ));
                        assert(retransmit_out(rem, now_ms, self.ack_timeout_ms, self.max_retries)
                            =~= retransmit_out(
                            pend0.skip(i + 1),
                            now_ms,
                            self.ack_timeout_ms,
                            self.max_retries,
                        ));
                    }
                }
            } else {
                let ghost kept_pre = kept@;
                let keep_packet = entry.1.packet.clone();
                kept.push(
                    (seq, PendingEntry { packet: keep_packet, send_time_ms: send_time, retries }),
                );
                proof {
                    assert(kept@ == kept_pre.push(kept@.last()));
                    lemma_pending_views_push_general(kept_pre, kept@.last());
                    assert(pending_views(kept@) =~= pending_views(kept_pre) + seq![
                        pend0[i as int],
                    ]);
                    assert(pending_views(kept@) + retransmit_keep(
                        pend0.skip(i + 1),
                        now_ms,
                        self.ack_timeout_ms,
                        self.max_retries,
                    ) =~= pending_views(kept_pre) + retransmit_keep(
                        rem,
                        now_ms,
                        self.ack_timeout_ms,
                        self.max_retries,
                    ));
                }
            }
            i = i + 1;
        }
        proof {
            assert(pend0.skip(n as int) =~= Seq::<(u32, PendingModel)>::empty());
            assert(pending_views(kept@) + retransmit_keep(
                pend0.skip(n as int),
                now_ms,
                self.ack_timeout_ms,
                self.max_retries,
            ) =~= pending_views(kept@));
            assert(retransmit_views(out@) + retransmit_out(
                pend0.skip(n as int),
                now_ms,
                self.ack_timeout_ms,
                self.max_retries,
            ) =~= retransmit_views(out@));
            lemma_retransmit_keep_wf(pend0, now_ms, self.ack_timeout_ms, self.max_retries);
        }
        self.pending_acks = kept;
        out
    }

    /// Whether any outbound packet is still awaiting acknowledgment.
    pub fn has_pending_acks(&self) -> (r: bool)
        ensures
            r == (self.pending().len() != 0),
    {
        proof {
            lemma_pending_views(self.pending_acks@);
        }
        self.pending_acks.len() != 0
    }

    /// The number of outbound packets awaiting acknowledgment.
    pub fn pending_ack_count(&self) -> (r: usize)
        ensures
            r == self.pending().len(),
    {
        proof {
            lemma_pending_views(self.pending_acks@);
        }
        self.pending_acks.len()
    }

    /// Reset sequencing and tables for a new session; the configuration
    /// is kept.
    pub fn reset(&mut self)
        ensures
            final(self).wf(),
            final(self).spec_sequence_number() == 0,
            final(self).spec_last_ack() == 0,
            final(self).pending() == Seq::<(u32, PendingModel)>::empty(),
            final(self).received() == Set::<u32>::empty(),
            final(self).same_config(old(self)),
    {
        self.sequence_number = 0;
        self.last_ack_received = 0;
        self.pending_acks.clear();
        self.received_sequences.clear();
        proof {
            assert(self.pending() =~= Seq::<(u32, PendingModel)>::empty());
            assert(self.received() =~= Set::<u32>::empty());
        }
    }
}

/// The payload of a Ping packet: the time in milliseconds, little-endian,
/// padded to 16 bytes.
pub open spec fn ping_payload(now_ms: u64) -> Seq<u8> {
    Seq::new(
        16,
        |j: int|
            if j < 8 {
                ((now_ms as int / vstd::arithmetic::power::pow(256, j as nat)) % 256) as u8
            } else {
                0u8
            },
    )
}

/// The models of a retransmission list.
pub open spec fn retransmit_views(s: Seq<(UdpPacket, u32)>) -> Seq<(PacketModel, u32)>
    decreases s,
{
    if s.len() == 0 {
        Seq::empty()
    } else {
        seq![(s[0].0@, s[0].1)] + retransmit_views(s.drop_first())
    }
}

/// Appending to a retransmission list appends its model.
proof fn lemma_retransmit_views_push(s: Seq<(UdpPacket, u32)>, x: (UdpPacket, u32))
    ensures
        retransmit_views(s.push(x)) == retransmit_views(s) + seq![(x.0@, x.1)],
    decreases s.len(),
{
    if s.len() == 0 {
        assert(s.push(x)[0] == x);
        assert(s.push(x).drop_first() =~= Seq::<(UdpPacket, u32)>::empty());
        assert(retransmit_views(Seq::<(UdpPacket, u32)>::empty()) =~= Seq::<(
            PacketModel,
            u32,
        )>::empty());
        assert(retransmit_views(s.push(x)) =~= retransmit_views(s) + seq![(x.0@, x.1)]);
    } else {
        lemma_retransmit_views_push(s.drop_first(), x);
        assert(s.push(x).drop_first() =~= s.drop_first().push(x));
        assert(s.push(x)[0] == s[0]);
        assert(retransmit_views(s.push(x)) =~= retransmit_views(s) + seq![(x.0@, x.1)]);
    }
}

/// Appending to a pending list appends its model.
proof fn lemma_pending_views_push_general(s: Seq<(u32, PendingEntry)>, x: (u32, PendingEntry))
    ensures
        pending_views(s.push(x)) == pending_views(s) + seq![
            (x.0, PendingModel {
                packet: x.1.packet@,
                send_time_ms: x.1.send_time_ms,
                retries: x.1.retries,
            }),
        ],
    decreases s.len(),
{
    if s.len() == 0 {
        assert(s.push(x)[0] == x);
        assert(s.push(x).drop_first() =~= Seq::<(u32, PendingEntry)>::empty());
        assert(pending_views(Seq::<(u32, PendingEntry)>::empty()) =~= Seq::<(
            u32,
            PendingModel,
        )>::empty());
        assert(pending_views(s.push(x)) =~= pending_views(s) + seq![
            (x.0, PendingModel {
                packet: x.1.packet@,
                send_time_ms: x.1.send_time_ms,
                retries: x.1.retries,
            }),
        ]);
    } else {
        lemma_pending_views_push_general(s.drop_first(), x);
        assert(s.push(x).drop_first() =~= s.drop_first().push(x));
        assert(s.push(x)[0] == s[0]);
        assert(pending_views(s.push(x)) =~= pending_views(s) + seq![
            (x.0, PendingModel {
                packet: x.1.packet@,
                send_time_ms: x.1.send_time_ms,
                retries: x.1.retries,
            }),
        ]);
    }
}

/// What a receive loop should do with one incoming packet: a reply to
/// send back, and a payload to hand to reassembly or decoding.
pub struct RecvAction {
    /// An ACK for fresh data, or a Pong answering a Ping.
    pub reply: Option<UdpPacket>,
    /// The payload of a Data packet seen for the first time.
    pub deliver: Option<Vec<u8>>,
}

impl PacketManager {
    /// Dispatch one incoming packet: Data is acknowledged and its payload
    /// delivered unless the sequence is a replay; an Ack settles the
    /// matching pending entry; a Ping is answered with a Pong echoing its
    /// sequence; a Pong changes nothing.
    pub fn handle_packet(&mut self, packet: &UdpPacket) -> (r: RecvAction)
        requires
            old(self).wf(),
        ensures
            final(self).wf(),
            final(self).spec_sequence_number() == old(self).spec_sequence_number(),
            final(self).same_config(old(self)),
            match packet@.packet_type {
                PacketType::Data => {
                    &&& (r.reply matches Some(a) && a@.packet_type == PacketType::Ack
                        && a@.sequence == old(self).spec_sequence_number() && a@.ack_number
                        == packet@.sequence && a@.flags == 0 && a@.payload
                        == Seq::<u8>::empty())
                    &&& (if old(self).received().contains(packet@.sequence) {
                        r.deliver is None
                    } else {
                        r.deliver matches Some(d) && d@ == packet@.payload
                    })
                    &&& final(self).received() == old(self).received().insert(packet@.sequence)
                    &&& final(self).pending() == old(self).pending()
                },
                PacketType::Ack => {
                    &&& r.reply is None
                    &&& r.deliver is None
                    &&& final(self).pending_map() == old(self).pending_map().remove(
                        packet@.ack_number,
                    )
                    &&& final(self).received() == old(self).received()
                },
                PacketType::Ping => {
                    &&& (r.reply matches Some(p) && p@.packet_type == PacketType::Pong
                        && p@.sequence == 0 && p@.ack_number == packet@.sequence && p@.flags
                        == 0 && p@.payload == Seq::<u8>::empty())
                    &&& r.deliver is None
                    &&& final(self).pending() == old(self).pending()
                    &&& final(self).received() == old(self).received()
                },
                PacketType::Pong => {
                    &&& r.reply is None
                    &&& r.deliver is None
                    &&& final(self).pending() == old(self).pending()
                    &&& final(self).received() == old(self).received()
                },
            },
    {
        match packet.packet_type {
            PacketType::Data => {
                let ack = self.create_ack_packet(packet.sequence);
                let fresh = self.record_received(packet.sequence);
                let deliver = if fresh {
                    Some(clone_bytes(&packet.payload))
                } else {
                    None
                };
                RecvAction { reply: Some(ack), deliver }
            },
            PacketType::Ack => {
                self.handle_ack(packet.ack_number);
                RecvAction { reply: None, deliver: None }
            },
            PacketType::Ping => {
                let pong = UdpPacket {
                    packet_type: PacketType::Pong,
                    sequence: 0,
                    ack_number: packet.sequence,
                    flags: 0,
                    payload: Vec::new(),
                };
                RecvAction { reply: Some(pong), deliver: None }
            },
            PacketType::Pong => RecvAction { reply: None, deliver: None },
        }
    }
}

// ---------------------------------------------------------------------------
// Fragment reassembly
// ---------------------------------------------------------------------------

/// The models of the slots of one partially reassembled message.
pub open spec fn slot_views(s: Seq<Option<Vec<u8>>>) -> Seq<Option<Seq<u8>>>
    decreases s,
{
    if s.len() == 0 {
        Seq::empty()
    } else {
        seq![
            match s[0] {
                Some(d) => Some(d@),
                None => None,
            },
        ] + slot_views(s.drop_first())
    }
}

/// `slot_views` is the element-wise model.
proof fn lemma_slot_views(s: Seq<Option<Vec<u8>>>)
    ensures
        slot_views(s).len() == s.len(),
        forall|i: int| 0 <= i < s.len() ==> slot_views(s)[i] == (match #[trigger] s[i] {
            Some(d) => Some(d@),
            None => None,
        }),
    decreases s.len(),
{
    if s.len() > 0 {
        lemma_slot_views(s.drop_first());
        assert forall|i: int| 0 <= i < s.len() implies slot_views(s)[i] == (match
        #[trigger] s[i] {
            Some(d) => Some(d@),
            None => None,
        }) by {
            if i > 0 {
                assert(s.drop_first()[i - 1] == s[i]);
            }
        }
    }
}

/// Slot views, element by element.
proof fn lemma_slot_views_eq(a: Seq<Option<Vec<u8>>>, b: Seq<Option<Seq<u8>>>)
    requires
        a.len() == b.len(),
        forall|i: int| 0 <= i < a.len() ==> b[i] == (match #[trigger] a[i] {
            Some(d) => Some(d@),
            None => None,
        }),
    ensures
        slot_views(a) == b,
{
    lemma_slot_views(a);
    assert forall|i: int| 0 <= i < a.len() implies slot_views(a)[i] == b[i] by {
        assert(b[i] == (match a[i] {
            Some(d) => Some(d@),
            None => None,
        }));
    }
    assert(slot_views(a) =~= b);
}

/// One partially reassembled message as stored: the index its
/// LAST-flagged fragment arrived with, once one has, and the slots
/// filled so far.
struct Partial {
    last_index: Option<u32>,
    slots: Vec<Option<Vec<u8>>>,
}

/// The model of a partially reassembled message.
pub struct PartialModel {
    /// The index the LAST-flagged fragment arrived with, once one has.
    pub last_index: Option<u32>,
    /// The slots filled so far; `None` marks a slot still in flight.
    pub slots: Seq<Option<Seq<u8>>>,
}

/// The model of a stored partial message.
spec fn partial_view_of(p: Partial) -> PartialModel {
    PartialModel { last_index: p.last_index, slots: slot_views(p.slots@) }
}

/// The models of the reassembler's entries.
spec fn partial_views(s: Seq<(u32, Partial)>) -> Seq<(u32, PartialModel)>
    decreases s,
{
    if s.len() == 0 {
        Seq::empty()
    } else {
        seq![(s[0].0, partial_view_of(s[0].1))] + partial_views(s.drop_first())
    }
}

/// `partial_views` is the element-wise model.
proof fn lemma_partial_views(s: Seq<(u32, Partial)>)
    ensures
        partial_views(s).len() == s.len(),
        forall|i: int| 0 <= i < s.len() ==> partial_views(s)[i] == ((#[trigger] s[i]).0,
        partial_view_of(s[i].1)),
    decreases s.len(),
{
    if s.len() > 0 {
        lemma_partial_views(s.drop_first());
        assert forall|i: int| 0 <= i < s.len() implies partial_views(s)[i] == ((
        #[trigger] s[i]).0, partial_view_of(s[i].1)) by {
            if i > 0 {
                assert(s.drop_first()[i - 1] == s[i]);
            }
        }
    }
}

/// Partial views, element by element.
proof fn lemma_partial_views_eq(
    a: Seq<(u32, Partial)>,
    b: Seq<(u32, PartialModel)>,
)
    requires
        a.len() == b.len(),
        forall|i: int| 0 <= i < a.len() ==> b[i] == ((#[trigger] a[i]).0, partial_view_of(a[i].1)),
    ensures
        partial_views(a) == b,
{
    lemma_partial_views(a);
    assert forall|i: int| 0 <= i < a.len() implies partial_views(a)[i] == b[i] by {
        assert(b[i] == (a[i].0, partial_view_of(a[i].1)));
    }
    assert(partial_views(a) =~= b);
}

/// A slot sequence extended with empty slots up to length `n`.
pub open spec fn grow_slots(s: Seq<Option<Seq<u8>>>, n: int) -> Seq<Option<Seq<u8>>> {
    if s.len() >= n {
        s
    } else {
        s + Seq::new((n - s.len()) as nat, |j: int| None)
    }
}

/// A partial message no fragment has reached yet.
pub open spec fn empty_partial() -> PartialModel {
    PartialModel { last_index: None, slots: Seq::empty() }
}

/// Whether a partial message is complete: the index of its LAST-flagged
/// fragment is known and every slot from the first through it is filled.
pub open spec fn burst_complete(p: PartialModel) -> bool {
    &&& p.last_index is Some
    &&& p.last_index->0 < p.slots.len()
    &&& forall|j: int| 0 <= j <= p.last_index->0 ==> (#[trigger] p.slots[j]) is Some
}

/// A partial message after one fragment lands in it: the slots grow to
/// reach the fragment's index, the slot keeps its first arrival, and the
/// LAST index is recorded the first time the LAST flag is seen.
pub open spec fn burst_step(
    p: PartialModel,
    fragment_index: u32,
    is_last: bool,
    data: Seq<u8>,
) -> PartialModel {
    let grown = grow_slots(p.slots, fragment_index + 1);
    PartialModel {
        last_index: if p.last_index is Some {
            p.last_index
        } else if is_last {
            Some(fragment_index)
        } else {
            None
        },
        slots: if grown[fragment_index as int] is None {
            grown.update(fragment_index as int, Some(data))
        } else {
            grown
        },
    }
}

/// A recorded LAST index lies within the slots.
pub open spec fn last_within(p: PartialModel) -> bool {
    p.last_index is Some ==> p.last_index->0 < p.slots.len()
}

/// The filled slots concatenated in index order.
pub open spec fn concat_slots(s: Seq<Option<Seq<u8>>>) -> Seq<u8>
    decreases s.len(),
{
    if s.len() == 0 {
        Seq::empty()
    } else {
        (match s[0] {
            Some(d) => d,
            None => Seq::empty(),
        }) + concat_slots(s.drop_first())
    }
}

/// Extending a prefix of the slots by one appends its bytes.
proof fn lemma_concat_slots_take(s: Seq<Option<Seq<u8>>>, i: int)
    requires
        0 <= i < s.len(),
    ensures
        concat_slots(s.take(i + 1)) == concat_slots(s.take(i)) + (match s[i] {
            Some(d) => d,
            None => Seq::<u8>::empty(),
        }),
    decreases i,
{
    if i == 0 {
        assert(s.take(0).len() == 0);
        assert(s.take(1) =~= seq![s[0]]);
        assert(s.take(1)[0] == s[0]);
        assert(s.take(1).drop_first() =~= Seq::<Option<Seq<u8>>>::empty());
        assert(concat_slots(Seq::<Option<Seq<u8>>>::empty()) =~= Seq::<u8>::empty());
        assert(concat_slots(s.take(1)) =~= concat_slots(s.take(0)) + (match s[0] {
            Some(d) => d,
            None => Seq::<u8>::empty(),
        }));
    } else {
        let d = s.drop_first();
        lemma_concat_slots_take(d, i - 1);
        assert(s.take(i + 1).drop_first() =~= d.take(i));
        assert(s.take(i).drop_first() =~= d.take(i - 1));
        assert(s.take(i + 1)[0] == s[0]);
        assert(s.take(i)[0] == s[0]);
        assert(d[i - 1] == s[i]);
        assert(concat_slots(s.take(i + 1)) =~= concat_slots(s.take(i)) + (match s[i] {
            Some(d2) => d2,
            None => Seq::<u8>::empty(),
        }));
    }
}

/// Reorders and concatenates the fragments of large messages, keyed by a
/// message identifier.  A slot keeps its first arrival; the reassembled
/// buffer is returned once the LAST-flagged slot is known and every slot
/// from the first through it is filled.
pub struct FragmentReassembler {
    incomplete_messages: Vec<(u32, Partial)>,
}

impl View for FragmentReassembler {
    type V = Map<u32, PartialModel>;

    open spec fn view(&self) -> Map<u32, PartialModel> {
        keyed_map(self.partials())
    }
}

impl FragmentReassembler {
    /// The partially reassembled messages, in arrival order.
    pub closed spec fn partials(&self) -> Seq<(u32, PartialModel)> {
        partial_views(self.incomplete_messages@)
    }

    /// Message ids are unique, and every recorded LAST index lies within
    /// its slots.
    pub open spec fn wf(&self) -> bool {
        unique_keys(self.partials()) && (forall|i: int|
            0 <= i < self.partials().len() ==> last_within((#[trigger] self.partials()[i]).1))
    }

    /// A new reassembler with no partial messages.
    pub fn new() -> (r: Self)
        ensures
            r.wf(),
            r@ == Map::<u32, PartialModel>::empty(),
    {
        let r = FragmentReassembler { incomplete_messages: Vec::new() };
        proof {
            assert(r.partials() =~= Seq::<(u32, PartialModel)>::empty());
        }
        r
    }

    /// Find the storage index of a message id.
    fn find_partial(&self, message_id: u32) -> (r: Option<usize>)
        requires
            self.wf(),
        ensures
            match r {
                Some(i) => 0 <= i < self.partials().len() && self.partials()[i as int].0
                    == message_id,
                None => forall|i: int| 0 <= i < self.partials().len() ==> (
                #[trigger] self.partials()[i]).0 != message_id,
            },
    {
        proof {
            lemma_partial_views(self.incomplete_messages@);
        }
        let n = self.incomplete_messages.len();
        let mut i: usize = 0;
        while i < n
            invariant
                i <= n,
                n == self.incomplete_messages@.len(),
                n == self.partials().len(),
                forall|j: int| 0 <= j < i ==> (#[trigger] self.partials()[j]).0 != message_id,
                forall|j: int| 0 <= j < n ==> (#[trigger] self.partials()[j]).0
                    == self.incomplete_messages@[j].0,
            decreases n - i,
        {
            if self.incomplete_messages[i].0 == message_id {
                proof {
                    assert(self.partials()[i as int].0 == message_id);
                }
                return Some(i);
            }
            i = i + 1;
        }
        None
    }

    /// Add a fragment.  The slot keeps its first arrival, and the index
    /// of the LAST-flagged fragment is recorded the first time that flag
    /// is seen.  Once the LAST slot is known and every slot from the
    /// first through it is filled, their concatenation is returned and
    /// the partial entry discarded; until then `None` comes back.
    #[verifier::loop_isolation(false)]
    #[verifier::rlimit(100)]
    pub fn add_fragment(
        &mut self,
        message_id: u32,
        fragment_index: u32,
        _is_first: bool,
        is_last: bool,
        data: Vec<u8>,
    ) -> (r: Option<Vec<u8>>)
        requires
            old(self).wf(),
            fragment_index < 0xFFFF_FFFF,
        ensures
            final(self).wf(),
            ({
                let before = if old(self)@.contains_key(message_id) {
                    old(self)@[message_id]
                } else {
                    empty_partial()
                };
                let after = burst_step(before, fragment_index, is_last, data@);
                match r {
                    Some(out) => burst_complete(after) && out@ == concat_slots(
                        after.slots.take(after.last_index->0 + 1),
                    ) && final(self)@ == old(self)@.remove(message_id),
                    None => !burst_complete(after) && final(self)@ == old(self)@.insert(
                        message_id,
                        after,
                    ),
                }
            }),
    {
        proof {
            lemma_partial_views(self.incomplete_messages@);
            lemma_keyed_map(self.partials());
        }
        let ghost parts0 = self.partials();
        let ghost before = if old(self)@.contains_key(message_id) {
            old(self)@[message_id]
        } else {
            empty_partial()
        };
        let found = self.find_partial(message_id);
        let mut slots: Vec<Option<Vec<u8>>>;
        let mut last_index: Option<u32>;
        match found {
            Some(i) => {
                let (_, existing) = self.incomplete_messages.remove(i);
                last_index = existing.last_index;
                slots = existing.slots;
                proof {
                    lemma_partial_views(old(self).incomplete_messages@);
                    lemma_partial_views_eq(self.incomplete_messages@, parts0.remove(i as int));
                    lemma_keyed_map_remove(parts0, i as int);
                    assert(before == parts0[i as int].1);
                    assert(before.last_index == last_index);
                    assert(before.slots == slot_views(slots@));
                    assert(last_within(before));
                }
            },
            None => {
                slots = Vec::new();
                last_index = None;
                proof {
                    assert(keyed_map(self.partials()) =~= keyed_map(parts0).remove(message_id));
                    assert(slot_views(slots@) =~= Seq::<Option<Seq<u8>>>::empty());
                    assert(before.slots == slot_views(slots@));
                    assert(before.last_index == last_index);
                }
            },
        }
        let had_last = match last_index {
            Some(_) => true,
            None => false,
        };
        if !had_last && is_last {
            last_index = Some(fragment_index);
        }
        let ghost slots0 = slot_views(slots@);
        let idx = fragment_index as usize;
        proof {
            lemma_slot_views(slots@);
            assert(grow_slots(slots0, slots0.len() as int) == slots0);
        }
        while slots.len() <= idx
            invariant
                slot_views(slots@) == grow_slots(slots0, slots@.len() as int),
                slots@.len() >= slots0.len(),
                slots@.len() <= idx + 1 || slots@.len() == slots0.len(),
            decreases idx + 1 - slots@.len(),
        {
            let ghost pre = slots@;
            slots.push(None);
            proof {
                lemma_slot_views(pre);
                lemma_slot_views(slots@);
                assert(slots@ =~= pre.push(None));
                let target = grow_slots(slots0, slots@.len() as int);
                assert(target.len() == slots@.len());
                assert forall|q: int| 0 <= q < slots@.len() implies slot_views(slots@)[q]
                    == target[q] by {
                    if q < pre.len() {
                        assert(slots@[q] == pre[q]);
                        assert(slot_views(pre)[q] == grow_slots(slots0, pre.len() as int)[q]);
                    } else {
                        assert(slots@[q] is None);
                    }
                }
                assert(slot_views(slots@) =~= target);
            }
        }
        let ghost grown = slot_views(slots@);
        proof {
            assert(grown == grow_slots(slots0, fragment_index + 1)) by {
                if slots0.len() >= fragment_index + 1 {
                    assert(grow_slots(slots0, slots0.len() as int) =~= slots0);
                } else {
                    assert(slots@.len() == fragment_index + 1);
                }
            }
            lemma_slot_views(slots@);
        }
        let slot_empty = match &slots[idx] {
            None => true,
            Some(_) => false,
        };
        if slot_empty {
            let ghost pre = slots@;
            slots.remove(idx);
            slots.insert(idx, Some(data));
            proof {
                assert(slots@ =~= pre.update(idx as int, Some(data)));
                lemma_slot_views(pre);
                lemma_slot_views_eq(slots@, grown.update(idx as int, Some(data@)));
            }
        }
        let ghost slots1 = slot_views(slots@);
        let ghost after = burst_step(before, fragment_index, is_last, data@);
        proof {
            lemma_slot_views(slots@);
            assert(after.slots == slots1);
            assert(after.last_index == last_index);
            assert(slots1.len() >= slots0.len());
            assert(slots1.len() >= fragment_index + 1);
        }
        // the LAST index, if known, lies within the slots
        proof {
            assert(last_within(after)) by {
                if before.last_index is Some {
                    assert(last_within(before));
                }
            }
        }
        // check completeness: the LAST slot must be known and every slot
        // through it filled
        let n = slots.len();
        let mut complete = false;
        let mut limit: usize = 0;
        match last_index {
            Some(l) => {
                proof {
                    assert(l < slots1.len());
                }
                limit = l as usize + 1;
                complete = true;
                let mut j: usize = 0;
                while j < limit
                    invariant
                        j <= limit,
                        limit <= n,
                        n == slots@.len(),
                        slots1 == slot_views(slots@),
                        complete == (forall|q: int| 0 <= q < j ==> (#[trigger] slots1[q]) is Some),
                    decreases limit - j,
                {
                    let missing = match &slots[j] {
                        None => true,
                        Some(_) => false,
                    };
                    if missing {
                        complete = false;
                    }
                    j = j + 1;
                }
            },
            None => {
            },
        }
        proof {
            assert(complete == burst_complete(after));
        }
        if complete {
            let mut out: Vec<u8> = Vec::new();
            let mut q: usize = 0;
            while q < limit
                invariant
                    q <= limit,
                    limit <= n,
                    n == slots@.len(),
                    slots1 == slot_views(slots@),
                    forall|w: int| 0 <= w < limit ==> (#[trigger] slots1[w]) is Some,
                    out@ == concat_slots(slots1.take(q as int)),
                decreases limit - q,
            {
                proof {
                    lemma_concat_slots_take(slots1, q as int);
                }
                match &slots[q] {
                    Some(d) => {
                        let m = d.len();
                        let mut w: usize = 0;
                        let ghost out_pre = out@;
                        while w < m
                            invariant
                                w <= m,
                                m == d@.len(),
                                out@ == out_pre + d@.take(w as int),
                            decreases m - w,
                        {
                            out.push(d[w]);
                            proof {
                                assert(d@.take(w + 1) =~= d@.take(w as int).push(d@[w as int]));
                            }
                            w = w + 1;
                        }
                        proof {
                            assert(d@.take(m as int) =~= d@);
                        }
                    },
                    None => {
                        proof {
                            assert(slots1[q as int] is Some);
                            assert(false);
                        }
                    },
                }
                q = q + 1;
            }
            proof {
                assert(out@ == concat_slots(after.slots.take(after.last_index->0 + 1)));
                if !old(self)@.contains_key(message_id) {
                    assert(self@ =~= old(self)@.remove(message_id));
                }
            }
            Some(out)
        } else {
            let ghost parts_mid = self.partials();
            self.incomplete_messages.push((message_id, Partial { last_index, slots }));
            proof {
                lemma_partial_views(self.incomplete_messages@);
                lemma_partial_views_eq(self.incomplete_messages@, parts_mid.push((
                message_id,
                after,
                )));
                lemma_keyed_map_push(parts_mid, message_id, after);
                assert(self@ =~= old(self)@.insert(message_id, after));
            }
            None
        }
    }

    /// Drop stale partial messages.  Staleness tracking is reserved; the
    /// current policy keeps every partial message.
    pub fn cleanup(&mut self)
        ensures
            final(self).wf() == old(self).wf(),
            final(self)@ == old(self)@,
    {
    }
}

/// Append the four big-endian bytes of a `u32`.
fn push_be_u32(buf: &mut Vec<u8>, x: u32)
    ensures
        final(buf)@ == old(buf)@ + be_bytes_u32(x),
{
    buf.push((x / 0x100_0000) as u8);
    buf.push(((x / 0x1_0000) % 0x100) as u8);
    buf.push(((x / 0x100) % 0x100) as u8);
    buf.push((x % 0x100) as u8);
    proof {
        assert(old(buf)@ + be_bytes_u32(x) =~= buf@);
    }
}

/// Read a big-endian `u32` from four bytes of a slice.
fn read_be_u32(data: &[u8], start: usize) -> (r: u32)
    requires
        start + 4 <= data@.len(),
    ensures
        r == u32_of_be(data@[start as int], data@[start + 1], data@[start + 2], data@[start + 3]),
{
    let n = data.len();
    proof {
        assert(start + 4 <= n);
    }
    let b0 = *vstd::slice::slice_index_get(data, start);
    let b1 = *vstd::slice::slice_index_get(data, start + 1);
    let b2 = *vstd::slice::slice_index_get(data, start + 2);
    let b3 = *vstd::slice::slice_index_get(data, start + 3);
    (b0 as u32) * 0x100_0000 + (b1 as u32) * 0x1_0000 + (b2 as u32) * 0x100 + (b3 as u32)
}

} // verus!
