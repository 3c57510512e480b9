//! The XMODEM protocol engine: the packet wire format, the 8-bit wrapping
//! checksum, and the retry-bounded session state machine for the transmit
//! and the receive role.
//!
//! A packet travels as `SOH, n, 255 - n, 128 payload bytes, checksum`; the
//! final packet of a transfer is zero-padded to 128 bytes, and the logical
//! end of data is signalled by the `EOT` handshake, never by a short
//! packet. A session reports the just-acknowledged packet's own sequence
//! byte through its progress sink, in both roles.

use vstd::prelude::*;

use crate::error::Error;
use crate::progress::{Progress, ProgressSink, NoProgress};
use crate::transport::Transport;

verus! {

use vstd::arithmetic::div_mod::{
    lemma_add_mod_noop,
    lemma_small_mod,
    lemma_mod_self_0,
    lemma_fundamental_div_mod_converse,
    lemma_basic_div,
    lemma_div_multiples_vanish,
    lemma_div_is_ordered,
};

/// Start of header: introduces each data packet.
pub const SOH: u8 = 0x01;
/// End of transmission: sent twice to close a transfer.
pub const EOT: u8 = 0x04;
/// Positive acknowledgement.
pub const ACK: u8 = 0x06;
/// Negative acknowledgement: the initial handshake byte, and the
/// retry-request after a corrupt packet.
pub const NAK: u8 = 0x15;
/// Cancel: either side may send it to abort the session.
pub const CAN: u8 = 0x18;

/// How many times one packet exchange is attempted before the transfer
/// fails with `Error::BrokenPipe`.
pub const RETRY_BOUND: usize = 10;

/// The complement byte that accompanies sequence byte `n` on the wire.
pub open spec fn complement(n: u8) -> u8 {
    (255 - n) as u8
}

/// The 8-bit wrapping sum of a byte sequence: the packet checksum.
pub open spec fn checksum_of(s: Seq<u8>) -> u8
    decreases s.len(),
{
    if s.len() == 0 {
        0
    } else {
        ((checksum_of(s.drop_last()) + s.last()) % 256) as u8
    }
}

/// `p` zero-padded up to 128 bytes; sequences of 128 bytes or more are
/// returned unchanged.
pub open spec fn pad128(p: Seq<u8>) -> Seq<u8> {
    if p.len() >= 128 {
        p
    } else {
        p + Seq::new((128 - p.len()) as nat, |i: int| 0u8)
    }
}

/// The 132 wire bytes of one data packet with sequence byte `n` and
/// payload `p` (zero-padded to 128 bytes): start byte, sequence byte,
/// complement byte, padded payload, checksum over the padded payload.
pub open spec fn packet_wire(n: u8, p: Seq<u8>) -> Seq<u8> {
    seq![SOH, n, complement(n)] + pad128(p) + seq![checksum_of(pad128(p))]
}

/// The sequence byte of the `k`-th packet of a transfer, counting from 1:
/// sequence bytes start at 1 and wrap modulo 256.
pub open spec fn seq_of_packet(k: nat) -> u8 {
    (k % 256) as u8
}

/// The sequence byte that follows `n`: increment with wraparound.
pub open spec fn wrap_inc(n: u8) -> u8 {
    if n == 255 {
        0
    } else {
        (n + 1) as u8
    }
}

/// Everything a transmitter writes for payload `p` when every packet is
/// acknowledged first try, with packets numbered from `k`: each 128-byte
/// chunk as one packet (the last chunk zero-padded), then the two-step
/// `EOT` termination handshake.
pub open spec fn wire_from(p: Seq<u8>, k: nat) -> Seq<u8>
    decreases p.len(),
{
    if p.len() == 0 {
        seq![EOT, EOT]
    } else if p.len() <= 128 {
        packet_wire(seq_of_packet(k), p) + seq![EOT, EOT]
    } else {
        packet_wire(seq_of_packet(k), p.take(128)) + wire_from(p.skip(128), k + 1)
    }
}

/// Everything a transmitter writes for payload `p` on a clean channel:
/// packets numbered from 1.
pub open spec fn wire_of(p: Seq<u8>) -> Seq<u8> {
    wire_from(p, 1)
}

/// How many packets payload length `len` needs: its length in 128-byte
/// chunks, rounded up.
pub open spec fn num_packets(len: nat) -> nat {
    (len + 127) / 128
}

/// `p` zero-padded up to the next multiple of 128 bytes: the payload a
/// receiver accumulates, since every packet carries exactly 128 bytes.
pub open spec fn pad_whole(p: Seq<u8>) -> Seq<u8> {
    if p.len() % 128 == 0 {
        p
    } else {
        p + Seq::new((128 - p.len() % 128) as nat, |i: int| 0u8)
    }
}

/// Everything a receiver sends back during a clean `n`-packet transfer,
/// and therefore also everything a transmitter of `n` packets must see to
/// finish cleanly: the handshake `NAK`, one `ACK` per packet, then the
/// `NAK`, `ACK` pair of the termination handshake.
pub open spec fn clean_acks(n: nat) -> Seq<u8> {
    seq![NAK] + Seq::new(n, |i: int| ACK) + seq![NAK, ACK]
}

/// The progress events of `n` cleanly acknowledged packets, in order:
/// `Packet(1), Packet(2), ...` with sequence bytes wrapping modulo 256.
pub open spec fn packet_events(n: nat) -> Seq<Progress> {
    Seq::new(n, |i: int| Progress::Packet(seq_of_packet((i + 1) as nat)))
}

/// `s` repeated `n` times, end to end: what a transmitter leaves on the
/// wire when the same packet is attempted `n` times.
pub open spec fn repeated(s: Seq<u8>, n: nat) -> Seq<u8>
    decreases n,
{
    if n == 0 {
        Seq::empty()
    } else {
        repeated(s, (n - 1) as nat) + s
    }
}

/// The payload of the first packet of `p`: its first 128 bytes, or all of
/// `p` when it is shorter.
pub open spec fn head_chunk(p: Seq<u8>) -> Seq<u8> {
    if p.len() <= 128 {
        p
    } else {
        p.take(128)
    }
}

/// What a receiver expecting sequence byte `n` extracts from incoming
/// bytes `s` when `s` is exactly one clean transfer: the concatenation of
/// the packets' 128-byte payloads, or `None` if `s` deviates anywhere
/// from the clean wire format.
pub open spec fn clean_payload(s: Seq<u8>, n: u8) -> Option<Seq<u8>>
    decreases s.len(),
{
    if s.len() == 2 && s[0] == EOT && s[1] == EOT {
        Some(Seq::empty())
    } else if s.len() >= 132 && s[0] == SOH && s[1] == n && s[2] == complement(n)
        && s[131] == checksum_of(s.subrange(3, 131)) {
        match clean_payload(s.skip(132), wrap_inc(n)) {
            Some(rest) => Some(s.subrange(3, 131) + rest),
            None => None,
        }
    } else {
        None
    }
}

/// The responses a receiver has sent after `n` cleanly received packets,
/// the initial handshake `NAK` aside: one `ACK` per packet.
pub open spec fn ack_block(n: nat) -> Seq<u8> {
    Seq::new(n, |i: int| ACK)
}

/// The progress events a receiver reports for a clean `n`-packet
/// transfer: nothing at all for an empty transfer, else `Started` once
/// the first packet's start byte arrives, then one `Packet` event per
/// packet.
pub open spec fn rx_events(n: nat) -> Seq<Progress> {
    if n == 0 {
        Seq::empty()
    } else {
        seq![Progress::Started] + packet_events(n)
    }
}

/// Repeating a 132-byte block `n` times yields `132 * n` bytes.
pub proof fn lemma_repeated_len(c: Seq<u8>, n: nat)
    requires
        c.len() == 132,
    ensures
        repeated(c, n).len() == 132 * n,
    decreases n,
{
    if n > 0 {
        lemma_repeated_len(c, (n - 1) as nat);
    }
}

/// Every 132-byte block of a stream that begins with `n` repetitions of
/// the 132-byte block `c` is `c` itself.
pub proof fn lemma_repeated_block(s: Seq<u8>, c: Seq<u8>, n: nat, a: int)
    requires
        c.len() == 132,
        s.len() >= 132 * n,
        s.take(132 * n as int) == repeated(c, n),
        0 <= a < n,
    ensures
        s.subrange(132 * a, 132 * a + 132) == c,
    decreases n,
{
    lemma_repeated_len(c, (n - 1) as nat);
    if a == n - 1 {
        assert(repeated(c, n) == repeated(c, (n - 1) as nat) + c);
        assert forall|i: int| 0 <= i < 132 implies s.subrange(132 * a, 132 * a + 132)[i]
            == c[i] by {
            assert(s[132 * a + i] == s.take(132 * n as int)[132 * a + i]);
            assert(repeated(c, n)[132 * a + i] == c[i]);
        };
        assert(s.subrange(132 * a, 132 * a + 132) =~= c);
    } else {
        assert(s.take(132 * (n - 1) as int) =~= repeated(c, (n - 1) as nat));
        lemma_repeated_block(s, c, (n - 1) as nat, a);
    }
}

/// An incoming stream on which every attempt at the first packet is
/// corrupt: its first `RETRY_BOUND` 132-byte blocks are the same data
/// packet for sequence byte 1, whose checksum byte does not match its
/// payload.
pub open spec fn all_attempts_corrupt(s: Seq<u8>) -> bool {
    s.len() >= 132 * (RETRY_BOUND as int) && s.take(132 * (RETRY_BOUND as int)) == repeated(
        s.take(132),
        RETRY_BOUND as nat,
    ) && s[0] == SOH && s[1] == 1 && s[2] == complement(1) && checksum_of(s.subrange(3, 131))
        != s[131]
}

/// On an `all_attempts_corrupt` stream, the bytes facing the receiver at
/// attempt `a` are again the same corrupt packet.
#[verifier::rlimit(100)]
pub proof fn lemma_corrupt_attempt(s_all: Seq<u8>, a: int, s_cur: Seq<u8>)
    requires
        all_attempts_corrupt(s_all),
        0 <= a < RETRY_BOUND,
        s_cur == s_all.skip(132 * a),
    ensures
        s_cur.len() >= 132,
        s_cur[0] == SOH,
        s_cur[1] == 1,
        s_cur[2] == complement(1),
        checksum_of(s_cur.subrange(3, 131)) != s_cur[131],
        s_cur.skip(132) == s_all.skip(132 * (a + 1)),
{
    let c = s_all.take(132);
    lemma_repeated_block(s_all, c, RETRY_BOUND as nat, a);
    let blk = s_all.subrange(132 * a, 132 * a + 132);
    assert forall|i: int| 0 <= i < 132 implies s_cur[i] == s_all[i] by {
        assert(s_cur[i] == s_all[132 * a + i]);
        assert(blk[i] == s_all[132 * a + i]);
        assert(blk[i] == c[i]);
        assert(c[i] == s_all[i]);
    };
    assert(s_cur.subrange(3, 131) =~= s_all.subrange(3, 131));
    assert(s_cur.skip(132) =~= s_all.skip(132 * (a + 1)));
}

/// What a fresh receiver's first packet exchange does when it fails
/// without consuming a retry attempt: the fatal fault, how many incoming
/// bytes the exchange consumed, the bytes it answered (after the
/// initiating `NAK`), and the progress events it reported. `None` when
/// the first exchange is a clean packet, a clean termination, or the
/// retryable checksum mismatch.
pub open spec fn rx_first_fault(s: Seq<u8>) -> Option<(Error, int, Seq<u8>, Seq<Progress>)> {
    if s.len() == 0 {
        Some((Error::TimedOut, 0int, Seq::<u8>::empty(), Seq::<Progress>::empty()))
    } else if s[0] == CAN {
        Some((Error::ConnectionAborted, 1int, Seq::<u8>::empty(), Seq::<Progress>::empty()))
    } else if s[0] == SOH {
        if s.len() < 3 {
            Some((Error::TimedOut, s.len() as int, Seq::<u8>::empty(), seq![Progress::Started]))
        } else if s[1] != 1 || s[2] != complement(1) {
            Some((Error::InvalidData, 3int, seq![NAK], seq![Progress::Started]))
        } else if s.len() < 132 {
            Some((Error::TimedOut, s.len() as int, Seq::<u8>::empty(), seq![Progress::Started]))
        } else {
            None
        }
    } else if s[0] == EOT {
        if s.len() < 2 {
            Some((Error::TimedOut, s.len() as int, seq![NAK], Seq::<Progress>::empty()))
        } else if s[1] != EOT {
            Some((Error::InvalidData, 2int, seq![NAK], Seq::<Progress>::empty()))
        } else {
            None
        }
    } else {
        Some((Error::InvalidData, 1int, seq![NAK], Seq::<Progress>::empty()))
    }
}

/// A prefix of a byte history is still a prefix after one more byte.
pub proof fn lemma_prefix_push(a: Seq<u8>, b: Seq<u8>, x: u8)
    requires
        a.is_prefix_of(b),
    ensures
        a.is_prefix_of(b.push(x)),
{
    assert(b.push(x).subrange(0, a.len() as int) =~= b.subrange(0, a.len() as int));
}

/// The 8-bit wrapping sum of `buf`: the checksum a packet carries for its
/// 128 payload bytes.
pub fn get_checksum(buf: &[u8]) -> (r: u8)
    ensures
        r == checksum_of(buf@),
{
    let mut acc: u8 = 0;
    let mut i: usize = 0;
    while i < buf.len()
        invariant
            i <= buf@.len(),
            acc == checksum_of(buf@.take(i as int)),
        decreases buf@.len() - i,
    {
        let sum: u16 = acc as u16 + buf[i] as u16;
        acc = (sum % 256) as u8;
        proof {
            assert(buf@.take(i + 1).drop_last() =~= buf@.take(i as int));
            assert(buf@.take(i + 1).last() == buf@[i as int]);
        }
        i = i + 1;
    }
    proof {
        assert(buf@.take(buf@.len() as int) =~= buf@);
    }
    acc
}

/// Sequence bytes advance by wrapping increment: the byte of packet
/// `k + 1` is the wrapped successor of the byte of packet `k`.
pub proof fn lemma_seq_of_packet_inc(k: nat)
    ensures
        seq_of_packet(k + 1) == wrap_inc(seq_of_packet(k)),
{
    lemma_add_mod_noop(k as int, 1, 256);
    lemma_small_mod(1, 256);
    if k % 256 == 255 {
        lemma_mod_self_0(256);
    } else {
        lemma_small_mod((k % 256 + 1) as nat, 256);
    }
}

/// The length of the clean wire for payload `p`: 132 bytes for each of
/// its packets, plus the two `EOT` bytes.
pub proof fn lemma_wire_length(p: Seq<u8>, k: nat)
    ensures
        wire_from(p, k).len() == 132 * num_packets(p.len()) + 2,
    decreases p.len(),
{
    if p.len() == 0 {
        lemma_basic_div(127, 128);
    } else if p.len() <= 128 {
        lemma_fundamental_div_mod_converse(p.len() as int + 127, 128, 1, p.len() - 1);
    } else {
        lemma_wire_length(p.skip(128), k + 1);
        let m = num_packets((p.len() - 128) as nat);
        vstd::arithmetic::div_mod::lemma_fundamental_div_mod((p.len() - 1) as int, 128);
        lemma_fundamental_div_mod_converse(
            p.len() as int + 127,
            128,
            m as int + 1,
            (p.len() - 1) % 128,
        );
        lemma_fundamental_div_mod_converse(
            p.len() - 1,
            128,
            m as int,
            (p.len() - 1) % 128,
        );
    }
}

/// Where packet `j` (counting from 0) lies on the clean wire for payload
/// `p`, and what it holds: the 132-byte group starting at byte `132 * j`
/// is exactly `packet_wire` of sequence byte `k + j` and the `j`-th
/// 128-byte chunk of `p`.
pub proof fn lemma_wire_packet(p: Seq<u8>, k: nat, j: nat)
    requires
        128 * j < p.len(),
    ensures
        wire_from(p, k).subrange(132 * j as int, 132 * j as int + 132) == packet_wire(
            seq_of_packet(k + j),
            p.subrange(
                128 * j as int,
                if 128 * j + 128 <= p.len() {
                    128 * j as int + 128
                } else {
                    p.len() as int
                },
            ),
        ),
    decreases j,
{
    if j == 0 {
        if p.len() <= 128 {
            assert(p.subrange(0, p.len() as int) =~= p);
            assert((packet_wire(seq_of_packet(k), p) + seq![EOT, EOT]).subrange(0, 132)
                =~= packet_wire(seq_of_packet(k), p));
        } else {
            assert(p.subrange(0, 128) =~= p.take(128));
            assert((packet_wire(seq_of_packet(k), p.take(128)) + wire_from(p.skip(128), k + 1))
                .subrange(0, 132) =~= packet_wire(seq_of_packet(k), p.take(128)));
        }
    } else {
        lemma_wire_packet(p.skip(128), k + 1, (j - 1) as nat);
        let rest = p.skip(128);
        let pw = packet_wire(seq_of_packet(k), p.take(128));
        assert(pw.len() == 132);
        lemma_wire_length(rest, k + 1);
        assert(num_packets(rest.len()) >= j) by {
            lemma_div_multiples_vanish(j as int, 128);
            lemma_div_is_ordered(128 * j as int, rest.len() as int + 127, 128);
        };
        assert(wire_from(rest, k + 1).len() >= 132 * j as int);
        assert(wire_from(p, k).subrange(132 * j as int, 132 * j as int + 132) =~= wire_from(
            rest,
            k + 1,
        ).subrange(132 * (j - 1) as int, 132 * (j - 1) as int + 132));
        assert(rest.subrange(
            128 * (j - 1) as int,
            if 128 * (j - 1) + 128 <= rest.len() {
                128 * (j - 1) as int + 128
            } else {
                rest.len() as int
            },
        ) =~= p.subrange(
            128 * j as int,
            if 128 * j + 128 <= p.len() {
                128 * j as int + 128
            } else {
                p.len() as int
            },
        ));
    }
}

/// Sequence bytes wrap modulo 256: packet `j + 256` of any transfer
/// carries the same sequence byte as packet `j`; in particular packet 257
/// reuses sequence byte 1, whose complement byte is 254.
pub proof fn lemma_sequence_wraps(j: nat)
    ensures
        seq_of_packet(j + 256) == seq_of_packet(j),
        seq_of_packet(257) == 1,
        complement(1) == 254,
{
    vstd::arithmetic::div_mod::lemma_mod_add_multiples_vanish(j as int, 256);
    vstd::arithmetic::div_mod::lemma_mod_add_multiples_vanish(1, 256);
    lemma_small_mod(1, 256);
}

/// A payload whose length is not a multiple of 128 bytes is transmitted
/// with its final packet zero-padded to exactly 128 bytes, and that
/// packet's checksum is computed over the padded 128 bytes, not over the
/// original short tail.
pub proof fn lemma_final_packet_zero_padded(p: Seq<u8>)
    requires
        p.len() % 128 != 0,
    ensures
        ({
            let n = num_packets(p.len());
            let tail = p.skip(128 * (n - 1) as int);
            let padded = pad128(tail);
            let pkt = wire_of(p).subrange(132 * (n - 1) as int, 132 * (n - 1) as int + 132);
            wire_of(p).len() == 132 * n + 2 && 0 < tail.len() < 128 && padded.len() == 128
                && pkt.subrange(3, 131) == padded && padded.take(tail.len() as int) == tail && (
            forall|i: int| tail.len() <= i < 128 ==> padded[i] == 0u8) && pkt[131] == checksum_of(
                padded,
            )
        }),
{
    let len = p.len();
    let n = num_packets(len);
    vstd::arithmetic::div_mod::lemma_fundamental_div_mod(len as int, 128);
    lemma_fundamental_div_mod_converse(
        len as int + 127,
        128,
        len as int / 128 + 1,
        len as int % 128 - 1,
    );
    assert(n == len / 128 + 1);
    assert(128 * (n - 1) < len);
    lemma_wire_length(p, 1);
    lemma_wire_packet(p, 1, (n - 1) as nat);
    let tail = p.skip(128 * (n - 1) as int);
    assert(tail =~= p.subrange(128 * (n - 1) as int, len as int));
    let padded = pad128(tail);
    let pkt = wire_of(p).subrange(132 * (n - 1) as int, 132 * (n - 1) as int + 132);
    assert(pkt =~= packet_wire(seq_of_packet(n), tail));
    assert(pkt.subrange(3, 131) =~= padded);
    assert(padded.take(tail.len() as int) =~= tail);
}

/// A clean wire decodes back to the payload it was built from: for a
/// payload that is a whole number of 128-byte packets, parsing
/// `wire_from(p, k)` while expecting the sequence byte of packet `k`
/// yields exactly `p`.
pub proof fn lemma_clean_wire_decodes(p: Seq<u8>, k: nat)
    requires
        p.len() % 128 == 0,
    ensures
        clean_payload(wire_from(p, k), seq_of_packet(k)) == Some(p),
    decreases p.len(),
{
    let n = seq_of_packet(k);
    let s = wire_from(p, k);
    if p.len() == 0 {
        assert(p =~= Seq::<u8>::empty());
    } else if p.len() == 128 {
        let pw = packet_wire(n, p);
        assert(pad128(p) == p);
        assert(s.len() == 134);
        assert(s[0] == SOH && s[1] == n && s[2] == complement(n));
        assert(s.subrange(3, 131) =~= p);
        assert(s[131] == checksum_of(p));
        assert(s.skip(132) =~= seq![EOT, EOT]);
        assert(clean_payload(s.skip(132), wrap_inc(n)) == Some(Seq::<u8>::empty()));
        assert(s.subrange(3, 131) + Seq::<u8>::empty() =~= p);
        assert(clean_payload(s, n) == Some(p));
    } else {
        assert(p.len() > 128) by {
            vstd::arithmetic::div_mod::lemma_fundamental_div_mod(p.len() as int, 128);
            if p.len() < 128 {
                lemma_basic_div(p.len() as int, 128);
            }
        };
        let head = p.take(128);
        let rest = p.skip(128);
        assert(pad128(head) == head);
        assert(rest.len() % 128 == 0) by {
            vstd::arithmetic::div_mod::lemma_mod_sub_multiples_vanish(p.len() as int, 128);
        };
        lemma_seq_of_packet_inc(k);
        lemma_clean_wire_decodes(rest, k + 1);
        assert(s[0] == SOH && s[1] == n && s[2] == complement(n));
        assert(s.subrange(3, 131) =~= head);
        assert(s[131] == checksum_of(head));
        assert(s.skip(132) =~= wire_from(rest, k + 1));
        assert(s.len() >= 132 + 2);
        assert(clean_payload(s.skip(132), wrap_inc(n)) == Some(rest));
        assert(s.subrange(3, 131) + rest =~= p);
        assert(clean_payload(s, n) == Some(p));
    }
}

/// Padding does not change the wire: the transmitter pads each short
/// final chunk inside the packet, so the wire for `p` and the wire for
/// `p` padded to a whole number of packets are the same bytes.
pub proof fn lemma_wire_ignores_padding(p: Seq<u8>, k: nat)
    ensures
        wire_from(p, k) == wire_from(pad_whole(p), k),
    decreases p.len(),
{
    if p.len() % 128 == 0 {
    } else if p.len() < 128 {
        let w = pad_whole(p);
        assert(w.len() == 128);
        assert(pad128(p) =~= w);
        assert(pad128(w) == w);
    } else if p.len() == 128 {
    } else {
        let w = pad_whole(p);
        assert(w.len() > 128);
        assert(w.take(128) =~= p.take(128));
        assert(w.skip(128) =~= pad_whole(p.skip(128))) by {
            vstd::arithmetic::div_mod::lemma_mod_sub_multiples_vanish(p.len() as int, 128);
        };
        lemma_wire_ignores_padding(p.skip(128), k + 1);
    }
}

/// The round trip: the bytes a clean transmitter of payload `p` puts on
/// the wire decode, on the receive side expecting sequence byte 1, to
/// exactly `p` padded to a whole number of 128-byte packets; the first
/// `p.len()` bytes of what the receiver accumulates are `p` itself, and
/// when `p` is already a whole number of packets the receiver reproduces
/// `p` exactly.
pub proof fn lemma_round_trip(p: Seq<u8>)
    ensures
        clean_payload(wire_of(p), 1) == Some(pad_whole(p)),
        pad_whole(p).take(p.len() as int) == p,
        p.len() % 128 == 0 ==> pad_whole(p) == p,
        pad_whole(p).len() == 128 * num_packets(p.len()),
{
    let w = pad_whole(p);
    assert(w.len() % 128 == 0) by {
        vstd::arithmetic::div_mod::lemma_fundamental_div_mod(p.len() as int, 128);
        if p.len() % 128 != 0 {
            lemma_mod_self_0(128);
            vstd::arithmetic::div_mod::lemma_mod_add_multiples_vanish(0, 128);
            lemma_fundamental_div_mod_converse(
                w.len() as int,
                128,
                p.len() as int / 128 + 1,
                0,
            );
        } else {
            vstd::arithmetic::div_mod::lemma_mod_multiples_basic(p.len() as int / 128, 128);
        }
    };
    lemma_wire_ignores_padding(p, 1);
    lemma_small_mod(1, 256);
    lemma_clean_wire_decodes(w, 1);
    assert(w.take(p.len() as int) =~= p);
    assert(w.len() == 128 * num_packets(p.len())) by {
        vstd::arithmetic::div_mod::lemma_fundamental_div_mod(p.len() as int, 128);
        if p.len() % 128 == 0 {
            lemma_fundamental_div_mod_converse(
                p.len() as int + 127,
                128,
                p.len() as int / 128,
                127,
            );
        } else {
            lemma_fundamental_div_mod_converse(
                p.len() as int + 127,
                128,
                p.len() as int / 128 + 1,
                p.len() as int % 128 - 1,
            );
        }
    };
}

/// A transmitter's fate after it has read response byte `b` for a data
/// packet: acknowledged, retry requested, cancelled, or a protocol
/// violation.
pub open spec fn data_response(b: u8) -> Result<usize, Error> {
    if b == ACK {
        Ok(128usize)
    } else if b == NAK {
        Err(Error::Interrupted)
    } else if b == CAN {
        Err(Error::ConnectionAborted)
    } else {
        Err(Error::InvalidData)
    }
}

/// The fate of a read that expected control byte `expected` and saw `b`:
/// a cancel byte aborts, anything else unexpected is a protocol violation.
pub open spec fn response_to(b: u8, expected: u8) -> Result<u8, Error> {
    if b == expected {
        Ok(b)
    } else if b == CAN {
        Err(Error::ConnectionAborted)
    } else {
        Err(Error::InvalidData)
    }
}

/// Two session states that agree on everything a caller can observe: the
/// sequence counter, the started flag, the transport's two byte streams,
/// and the progress history.
pub open spec fn same_view<T: Transport, P: ProgressSink>(
    os: Xmodem<T, P>,
    fs: Xmodem<T, P>,
) -> bool {
    fs.seq_num() == os.seq_num() && fs.is_started() == os.is_started() && fs.stream()
        == os.stream() && fs.sent() == os.sent() && fs.events() == os.events()
}

/// What `write_packet` does in a session that has already completed the
/// handshake, starting from sequence byte `seqn`, incoming bytes `s`,
/// written bytes `sent0` and progress history `ev0`.
///
/// An empty `buf` runs the termination handshake: `EOT`, expect `NAK`,
/// `EOT`, expect `ACK`. A 128-byte `buf` goes out as one packet, and the
/// single response byte decides its fate: `ACK` advances the sequence
/// counter (wrapping) and reports `Packet` with the just-acknowledged
/// packet's own sequence byte; `NAK` is the retryable `Interrupted` fault
/// with the counter unmoved; `CAN` aborts; anything else is `InvalidData`.
pub open spec fn wp_data<T: Transport, P: ProgressSink>(
    seqn: u8,
    s: Seq<u8>,
    sent0: Seq<u8>,
    ev0: Seq<Progress>,
    buf: Seq<u8>,
    fs: Xmodem<T, P>,
    r: Result<usize, Error>,
) -> bool {
    fs.is_started() && if buf.len() == 0 {
        fs.seq_num() == seqn && fs.events() == ev0 && if s.len() == 0 {
            r == Err::<usize, Error>(Error::TimedOut) && fs.stream() == s && fs.sent()
                == sent0.push(EOT)
        } else if s[0] != NAK {
            r == Err::<usize, Error>(
                if s[0] == CAN {
                    Error::ConnectionAborted
                } else {
                    Error::InvalidData
                },
            ) && fs.stream() == s.drop_first() && fs.sent() == sent0.push(EOT)
        } else if s.len() == 1 {
            r == Err::<usize, Error>(Error::TimedOut) && fs.stream() == Seq::<u8>::empty()
                && fs.sent() == sent0.push(EOT).push(EOT)
        } else {
            r == (if s[1] == ACK {
                Ok::<usize, Error>(0)
            } else if s[1] == CAN {
                Err::<usize, Error>(Error::ConnectionAborted)
            } else {
                Err::<usize, Error>(Error::InvalidData)
            }) && fs.stream() == s.skip(2) && fs.sent() == sent0.push(EOT).push(EOT)
        }
    } else {
        fs.sent() == sent0 + packet_wire(seqn, buf) && if s.len() == 0 {
            r == Err::<usize, Error>(Error::TimedOut) && fs.stream() == s && fs.seq_num() == seqn
                && fs.events() == ev0
        } else {
            fs.stream() == s.drop_first() && r == data_response(s[0]) && if s[0] == ACK {
                fs.seq_num() == wrap_inc(seqn) && fs.events() == ev0.push(Progress::Packet(seqn))
            } else {
                fs.seq_num() == seqn && fs.events() == ev0
            }
        }
    }
}

/// The full contract of `write_packet`: a buffer that is neither empty
/// nor exactly 128 bytes is refused outright; a session that has not yet
/// started reports `Waiting` and performs the handshake first; then
/// `wp_data` describes the exchange.
pub open spec fn wp_post<T: Transport, P: ProgressSink>(
    os: Xmodem<T, P>,
    buf: Seq<u8>,
    fs: Xmodem<T, P>,
    r: Result<usize, Error>,
) -> bool {
    let s = os.stream();
    if buf.len() != 128 && buf.len() != 0 {
        r == Err::<usize, Error>(Error::UnexpectedEof) && same_view(os, fs)
    } else if os.is_started() {
        wp_data(os.seq_num(), s, os.sent(), os.events(), buf, fs, r)
    } else if s.len() == 0 {
        r == Err::<usize, Error>(Error::TimedOut) && !fs.is_started() && fs.seq_num()
            == os.seq_num() && fs.stream() == s && fs.sent() == os.sent() && fs.events()
            == os.events().push(Progress::Waiting)
    } else if s[0] == NAK {
        wp_data(
            os.seq_num(),
            s.drop_first(),
            os.sent(),
            os.events().push(Progress::Waiting).push(Progress::Started),
            buf,
            fs,
            r,
        )
    } else {
        r == Err::<usize, Error>(
            if s[0] == CAN {
                Error::ConnectionAborted
            } else {
                Error::InvalidData
            },
        ) && !fs.is_started() && fs.seq_num() == os.seq_num() && fs.stream() == s.drop_first()
            && fs.sent() == os.sent() && fs.events() == os.events().push(Progress::Waiting)
    }
}

/// The full contract of `read_packet`, relating the old session `os` and
/// buffer `buf0` to the final session `fs`, final buffer `buff` and
/// result `r`.
///
/// The first incoming byte decides everything: a cancel byte aborts; a
/// start byte leads through the sequence-byte and complement check (a
/// mismatch is answered with `NAK` and is fatal), the 128 payload bytes
/// and the checksum byte (a mismatch is answered with `NAK` and is the
/// retryable `Interrupted` fault); the first `EOT` is answered with `NAK`
/// and the second, once confirmed, with `ACK`, ending the transfer; any
/// other byte is answered with `NAK` and is fatal. The buffer's first 128
/// bytes hold the payload exactly when `Ok(128)` is returned; the incoming
/// stream running dry anywhere is the transport timeout.
pub open spec fn rp_post<T: Transport, P: ProgressSink>(
    os: Xmodem<T, P>,
    buf0: Seq<u8>,
    fs: Xmodem<T, P>,
    buff: Seq<u8>,
    r: Result<usize, Error>,
) -> bool {
    let s = os.stream();
    buff.len() == buf0.len() && if buf0.len() < 128 {
        r == Err::<usize, Error>(Error::UnexpectedEof) && same_view(os, fs) && buff == buf0
    } else if s.len() == 0 {
        r == Err::<usize, Error>(Error::TimedOut) && same_view(os, fs) && buff == buf0
    } else if s[0] == CAN {
        r == Err::<usize, Error>(Error::ConnectionAborted) && fs.stream() == s.drop_first()
            && fs.sent() == os.sent() && fs.seq_num() == os.seq_num() && fs.is_started()
            == os.is_started() && fs.events() == os.events() && buff == buf0
    } else if s[0] == SOH {
        let ev0 = if os.is_started() {
            os.events()
        } else {
            os.events().push(Progress::Started)
        };
        fs.is_started() && if s.len() < 3 {
            r == Err::<usize, Error>(Error::TimedOut) && fs.stream().len() == 0 && fs.sent()
                == os.sent() && fs.seq_num() == os.seq_num() && fs.events() == ev0 && buff == buf0
        } else if s[1] != os.seq_num() || s[2] != complement(os.seq_num()) {
            r == Err::<usize, Error>(Error::InvalidData) && fs.stream() == s.skip(3) && fs.sent()
                == os.sent().push(NAK) && fs.seq_num() == os.seq_num() && fs.events() == ev0
                && buff == buf0
        } else if s.len() < 132 {
            r == Err::<usize, Error>(Error::TimedOut) && fs.stream().len() == 0 && fs.sent()
                == os.sent() && fs.seq_num() == os.seq_num() && fs.events() == ev0 && buff == buf0
        } else if checksum_of(s.subrange(3, 131)) != s[131] {
            r == Err::<usize, Error>(Error::Interrupted) && fs.stream() == s.skip(132) && fs.sent()
                == os.sent().push(NAK) && fs.seq_num() == os.seq_num() && fs.events() == ev0
                && buff == buf0
        } else {
            r == Ok::<usize, Error>(128) && fs.stream() == s.skip(132) && fs.sent()
                == os.sent().push(ACK) && fs.seq_num() == wrap_inc(os.seq_num()) && fs.events()
                == ev0.push(Progress::Packet(os.seq_num())) && buff == s.subrange(3, 131)
                + buf0.skip(128)
        }
    } else if s[0] == EOT {
        fs.seq_num() == os.seq_num() && fs.is_started() == os.is_started() && fs.events()
            == os.events() && buff == buf0 && if s.len() < 2 {
            r == Err::<usize, Error>(Error::TimedOut) && fs.stream().len() == 0 && fs.sent()
                == os.sent().push(NAK)
        } else if s[1] != EOT {
            r == Err::<usize, Error>(Error::InvalidData) && fs.stream() == s.skip(2) && fs.sent()
                == os.sent().push(NAK)
        } else {
            r == Ok::<usize, Error>(0) && fs.stream() == s.skip(2) && fs.sent()
                == os.sent().push(NAK).push(ACK)
        }
    } else {
        r == Err::<usize, Error>(Error::InvalidData) && fs.stream() == s.drop_first() && fs.sent()
            == os.sent().push(NAK) && fs.seq_num() == os.seq_num() && fs.is_started()
            == os.is_started() && fs.events() == os.events() && buff == buf0
    }
}

/// A single refused packet causes exactly one retransmission: when the
/// response to a data packet is `NAK` and the response to the next
/// attempt is `ACK`, the two exchanges (described by `wp_data`, the
/// contract of `write_packet` in a started session) put the same 132 wire
/// bytes on the transport twice with the same sequence byte, the first
/// attempt is the retryable `Interrupted` fault that reports no `Packet`
/// event and leaves the sequence counter unmoved, and only the second
/// attempt reports the packet and advances the counter.
pub proof fn lemma_single_retry_retransmits_unchanged<T: Transport, P: ProgressSink>(
    seqn: u8,
    s: Seq<u8>,
    sent0: Seq<u8>,
    ev0: Seq<Progress>,
    buf: Seq<u8>,
    fs1: Xmodem<T, P>,
    r1: Result<usize, Error>,
    fs2: Xmodem<T, P>,
    r2: Result<usize, Error>,
)
    requires
        buf.len() == 128,
        s.len() >= 2,
        s[0] == NAK,
        s[1] == ACK,
        wp_data(seqn, s, sent0, ev0, buf, fs1, r1),
        wp_data(fs1.seq_num(), fs1.stream(), fs1.sent(), fs1.events(), buf, fs2, r2),
    ensures
        r1 == Err::<usize, Error>(Error::Interrupted),
        r2 == Ok::<usize, Error>(128),
        fs1.seq_num() == seqn,
        fs1.events() == ev0,
        fs1.sent() == sent0 + packet_wire(seqn, buf),
        fs2.sent() == sent0 + packet_wire(seqn, buf) + packet_wire(seqn, buf),
        fs2.seq_num() == wrap_inc(seqn),
        fs2.events() == ev0.push(Progress::Packet(seqn)),
{
    assert(fs1.stream()[0] == s[1]);
}

/// One XMODEM session: a sequence counter, a started flag, the owned
/// transport it drives, and the progress sink it reports to. A session is
/// built per transfer and drives it to completion or failure.
pub struct Xmodem<T, P> {
    packet: u8,
    started: bool,
    inner: T,
    progress: P,
}

impl<T: Transport, P: ProgressSink> Xmodem<T, P> {
    /// The sequence byte the next data packet will carry.
    pub closed spec fn seq_num(&self) -> u8 {
        self.packet
    }

    /// Whether the initial handshake byte has been exchanged.
    pub closed spec fn is_started(&self) -> bool {
        self.started
    }

    /// The bytes the transport will still deliver to this session.
    pub closed spec fn stream(&self) -> Seq<u8> {
        self.inner.to_read()
    }

    /// The bytes this session has written to its transport so far.
    pub closed spec fn sent(&self) -> Seq<u8> {
        self.inner.written()
    }

    /// The progress events reported so far.
    pub closed spec fn events(&self) -> Seq<Progress> {
        self.progress.events()
    }

    /// A session around `inner` that reports progress to `f`. The sequence
    /// counter starts at 1 and the handshake has not yet happened.
    pub fn new_with_progress(inner: T, f: P) -> (r: Xmodem<T, P>)
        ensures
            r.seq_num() == 1,
            !r.is_started(),
            r.stream() == inner.to_read(),
            r.sent() == inner.written(),
            r.events() == f.events(),
    {
        Xmodem { packet: 1, started: false, inner, progress: f }
    }

    /// Give the transport and the progress sink back, for a caller that
    /// wants to inspect what was written or reported.
    pub fn into_parts(self) -> (r: (T, P))
        ensures
            r.0.to_read() == self.stream(),
            r.0.written() == self.sent(),
            r.1.events() == self.events(),
    {
        (self.inner, self.progress)
    }

    /// Flush the transport.
    pub fn flush(&mut self)
        ensures
            final(self).seq_num() == old(self).seq_num(),
            final(self).is_started() == old(self).is_started(),
            final(self).stream() == old(self).stream(),
            final(self).sent() == old(self).sent(),
            final(self).events() == old(self).events(),
    {
        self.inner.flush();
    }

    /// Read one byte; when `abort_on_can` is set, a cancel byte becomes a
    /// `ConnectionAborted` fault instead of data.
    fn read_byte(&mut self, abort_on_can: bool) -> (r: Result<u8, Error>)
        ensures
            final(self).seq_num() == old(self).seq_num(),
            final(self).is_started() == old(self).is_started(),
            final(self).sent() == old(self).sent(),
            final(self).events() == old(self).events(),
            old(self).stream().len() == 0 ==> r == Err::<u8, Error>(Error::TimedOut)
                && final(self).stream() == old(self).stream(),
            old(self).stream().len() > 0 ==> final(self).stream() == old(self).stream().drop_first()
                && r == (if abort_on_can && old(self).stream()[0] == CAN {
                    Err::<u8, Error>(Error::ConnectionAborted)
                } else {
                    Ok::<u8, Error>(old(self).stream()[0])
                }),
    {
        let b = match self.inner.read_one() {
            Ok(b) => b,
            Err(e) => {
                return Err(e);
            },
        };
        if abort_on_can && b == CAN {
            return Err(Error::ConnectionAborted);
        }
        Ok(b)
    }

    /// Write one byte and flush.
    fn write_byte(&mut self, byte: u8)
        ensures
            final(self).seq_num() == old(self).seq_num(),
            final(self).is_started() == old(self).is_started(),
            final(self).stream() == old(self).stream(),
            final(self).events() == old(self).events(),
            final(self).sent() == old(self).sent().push(byte),
    {
        let one: [u8; 1] = [byte];
        self.inner.write_all(one.as_slice());
        self.inner.flush();
        proof {
            assert(one@ =~= seq![byte]);
            assert(old(self).sent() + seq![byte] =~= old(self).sent().push(byte));
        }
    }

    /// Read one byte and demand that it is `byte`: a cancel byte aborts
    /// the session, any other unexpected byte is a protocol violation.
    fn expect_byte(&mut self, byte: u8) -> (r: Result<u8, Error>)
        ensures
            final(self).seq_num() == old(self).seq_num(),
            final(self).is_started() == old(self).is_started(),
            final(self).sent() == old(self).sent(),
            final(self).events() == old(self).events(),
            old(self).stream().len() == 0 ==> r == Err::<u8, Error>(Error::TimedOut)
                && final(self).stream() == old(self).stream(),
            old(self).stream().len() > 0 ==> final(self).stream() == old(self).stream().drop_first()
                && r == response_to(old(self).stream()[0], byte),
    {
        let received = match self.read_byte(false) {
            Ok(b) => b,
            Err(e) => {
                return Err(e);
            },
        };
        if received == byte {
            Ok(received)
        } else if received == CAN {
            Err(Error::ConnectionAborted)
        } else {
            Err(Error::InvalidData)
        }
    }

    /// Like `expect_byte`, but answer an unexpected byte with a cancel
    /// byte of our own before failing.
    #[allow(dead_code)]
    fn expect_byte_or_cancel(&mut self, byte: u8) -> (r: Result<u8, Error>)
        ensures
            final(self).seq_num() == old(self).seq_num(),
            final(self).is_started() == old(self).is_started(),
            final(self).events() == old(self).events(),
            old(self).stream().len() == 0 ==> r == Err::<u8, Error>(Error::TimedOut)
                && final(self).stream() == old(self).stream()
                && final(self).sent() == old(self).sent(),
            old(self).stream().len() > 0 ==> final(self).stream() == old(self).stream().drop_first()
                && r == response_to(old(self).stream()[0], byte)
                && final(self).sent() == (if old(self).stream()[0] == byte {
                    old(self).sent()
                } else {
                    old(self).sent().push(CAN)
                }),
    {
        let received = match self.read_byte(false) {
            Ok(b) => b,
            Err(e) => {
                return Err(e);
            },
        };
        if received == byte {
            Ok(received)
        } else {
            self.write_byte(CAN);
            if received == CAN {
                Err(Error::ConnectionAborted)
            } else {
                Err(Error::InvalidData)
            }
        }
    }

    /// The transmit-side handshake: report `Waiting`, block for the
    /// receiver's initial `NAK`, then report `Started`. Any other byte is
    /// fatal; a cancel byte aborts.
    fn handshake(&mut self) -> (r: Result<(), Error>)
        requires
            !old(self).is_started(),
        ensures
            final(self).seq_num() == old(self).seq_num(),
            final(self).sent() == old(self).sent(),
            ({
                let s = old(self).stream();
                if s.len() == 0 {
                    r == Err::<(), Error>(Error::TimedOut)
                        && !final(self).is_started()
                        && final(self).stream() == s
                        && final(self).events() == old(self).events().push(Progress::Waiting)
                } else if s[0] == NAK {
                    r == Ok::<(), Error>(())
                        && final(self).is_started()
                        && final(self).stream() == s.drop_first()
                        && final(self).events() == old(self).events().push(Progress::Waiting).push(
                        Progress::Started)
                } else {
                    r == Err::<(), Error>(if s[0] == CAN {
                        Error::ConnectionAborted
                    } else {
                        Error::InvalidData
                    })
                        && !final(self).is_started()
                        && final(self).stream() == s.drop_first()
                        && final(self).events() == old(self).events().push(Progress::Waiting)
                }
            }),
    {
        self.progress.on_event(Progress::Waiting);
        match self.expect_byte(NAK) {
            Ok(_) => {},
            Err(e) => {
                return Err(e);
            },
        }
        self.started = true;
        self.progress.on_event(Progress::Started);
        Ok(())
    }

    /// Send one packet and read its response byte, running the initial
    /// handshake first if it has not happened yet.
    ///
    /// `buf` must hold exactly the 128 payload bytes of one packet, or be
    /// empty to run the termination handshake instead; any other length is
    /// refused with `UnexpectedEof`. On `ACK` the sequence counter
    /// advances (wrapping) and `Packet` is reported with the acknowledged
    /// packet's own sequence byte; a `NAK` response is the retryable
    /// `Interrupted` fault; a cancel byte aborts the session.
    pub fn write_packet(&mut self, buf: &[u8]) -> (r: Result<usize, Error>)
        ensures
            wp_post(*old(self), buf@, *final(self), r),
    {
        if buf.len() != 128 && buf.len() != 0 {
            return Err(Error::UnexpectedEof);
        }
        if !self.started {
            match self.handshake() {
                Ok(_) => {},
                Err(e) => {
                    return Err(e);
                },
            }
        }
        if buf.len() == 0 {
            let ghost s = if old(self).is_started() {
                old(self).stream()
            } else {
                old(self).stream().drop_first()
            };
            self.write_byte(EOT);
            match self.expect_byte(NAK) {
                Ok(_) => {},
                Err(e) => {
                    return Err(e);
                },
            }
            proof {
                if s.len() >= 2 {
                    assert(s.skip(2) =~= s.drop_first().drop_first());
                }
                if s.len() == 1 {
                    assert(s.drop_first() =~= Seq::<u8>::empty());
                }
            }
            self.write_byte(EOT);
            match self.expect_byte(ACK) {
                Ok(_) => {},
                Err(e) => {
                    return Err(e);
                },
            }
            return Ok(0);
        }
        let ghost sent0 = self.sent();
        self.write_byte(SOH);
        self.write_byte(self.packet);
        self.write_byte(255 - self.packet);
        self.inner.flush();
        self.inner.write_all(buf);
        let ck = get_checksum(buf);
        self.write_byte(ck);
        proof {
            assert(self.sent() =~= sent0 + packet_wire(self.seq_num(), buf@));
        }
        match self.read_byte(false) {
            Ok(b) => {
                if b == ACK {
                    let seqn = self.packet;
                    self.packet = if self.packet == 255 {
                        0
                    } else {
                        self.packet + 1
                    };
                    self.progress.on_event(Progress::Packet(seqn));
                    Ok(128)
                } else if b == NAK {
                    Err(Error::Interrupted)
                } else if b == CAN {
                    Err(Error::ConnectionAborted)
                } else {
                    Err(Error::InvalidData)
                }
            },
            Err(e) => Err(e),
        }
    }

    /// Read one packet exchange into the first 128 bytes of `buf`, which
    /// must be at least 128 bytes long.
    ///
    /// Returns `Ok(128)` for a data packet that passed every check (it was
    /// answered with `ACK`, `Packet` was reported with its sequence byte,
    /// and the expected sequence advanced), `Ok(0)` for a completed
    /// `EOT` termination handshake, `Err(Error::Interrupted)` for a
    /// checksum mismatch (answered with `NAK`, retryable), and a fatal
    /// fault for a cancel byte, a framing error, or an unexpected byte.
    /// The buffer changes only when `Ok(128)` is returned.
    #[verifier::loop_isolation(false)]
    #[verifier::rlimit(60)]
    pub fn read_packet(&mut self, buf: &mut Vec<u8>) -> (r: Result<usize, Error>)
        ensures
            rp_post(*old(self), old(buf)@, *final(self), final(buf)@, r),
    {
        if buf.len() < 128 {
            return Err(Error::UnexpectedEof);
        }
        let ghost s = old(self).stream();
        let first = match self.read_byte(true) {
            Ok(b) => b,
            Err(e) => {
                return Err(e);
            },
        };
        if first == SOH {
            if !self.started {
                self.started = true;
                self.progress.on_event(Progress::Started);
            }
            let ghost ev0 = self.events();
            let b1 = match self.read_byte(false) {
                Ok(b) => b,
                Err(e) => {
                    return Err(e);
                },
            };
            proof {
                assert(self.stream() =~= s.skip(2));
            }
            let b2 = match self.read_byte(false) {
                Ok(b) => b,
                Err(e) => {
                    return Err(e);
                },
            };
            proof {
                assert(self.stream() =~= s.skip(3));
            }
            if b1 != self.packet || b2 != 255 - self.packet {
                self.write_byte(NAK);
                return Err(Error::InvalidData);
            }
            let ghost s3 = s.skip(3);
            let mut payload: Vec<u8> = Vec::new();
            let mut i: usize = 0;
            while i < 128
                invariant
                    i == payload@.len(),
                    i <= 128,
                    i <= s3.len(),
                    payload@ == s3.take(i as int),
                    self.stream() == s3.skip(i as int),
                    self.sent() == old(self).sent(),
                    self.seq_num() == old(self).seq_num(),
                    self.is_started(),
                    self.events() == ev0,
                decreases 128 - i,
            {
                let b = match self.read_byte(false) {
                    Ok(b) => b,
                    Err(e) => {
                        proof {
                            assert(s.len() == 3 + s3.len());
                        }
                        return Err(e);
                    },
                };
                payload.push(b);
                proof {
                    assert(s3.take(i + 1) =~= s3.take(i as int).push(s3[i as int]));
                    assert(s3.skip(i as int).drop_first() =~= s3.skip(i + 1));
                }
                i = i + 1;
            }
            proof {
                assert(payload@ =~= s.subrange(3, 131));
                assert(s3.skip(128) =~= s.skip(131));
            }
            let ck = match self.read_byte(false) {
                Ok(b) => b,
                Err(e) => {
                    return Err(e);
                },
            };
            proof {
                assert(s.skip(131).drop_first() =~= s.skip(132));
                assert(s[131] == s.skip(131)[0]);
            }
            if get_checksum(payload.as_slice()) != ck {
                self.write_byte(NAK);
                return Err(Error::Interrupted);
            }
            self.write_byte(ACK);
            let seqn = self.packet;
            self.progress.on_event(Progress::Packet(seqn));
            self.packet = if self.packet == 255 {
                0
            } else {
                self.packet + 1
            };
            let mut j: usize = 0;
            while j < 128
                invariant
                    j <= 128,
                    payload@.len() == 128,
                    buf@.len() == old(buf)@.len(),
                    buf@.len() >= 128,
                    buf@ == payload@.take(j as int) + old(buf)@.skip(j as int),
                decreases 128 - j,
            {
                proof {
                    assert(buf@[j as int] == old(buf)@[j as int]);
                }
                buf[j] = payload[j];
                proof {
                    assert(buf@ =~= payload@.take(j + 1) + old(buf)@.skip(j + 1));
                }
                j = j + 1;
            }
            proof {
                assert(buf@ =~= payload@ + old(buf)@.skip(128));
            }
            Ok(128)
        } else if first == EOT {
            self.write_byte(NAK);
            let b = match self.read_byte(false) {
                Ok(b) => b,
                Err(e) => {
                    return Err(e);
                },
            };
            proof {
                assert(self.stream() =~= s.skip(2));
            }
            if b != EOT {
                return Err(Error::InvalidData);
            }
            self.write_byte(ACK);
            Ok(0)
        } else {
            self.write_byte(NAK);
            Err(Error::InvalidData)
        }
    }

    /// Transmit all of `data`: run the handshake, send each 128-byte chunk
    /// as one packet (the last chunk zero-padded), retrying each packet up
    /// to the retry bound on the retryable fault, then run the two-step
    /// `EOT` termination handshake. Returns the number of payload bytes
    /// sent, which on success is all of `data`.
    ///
    /// When the incoming bytes are exactly the clean responses
    /// (`clean_acks` of the packet count), the session writes exactly
    /// `wire_of(data)` and reports `Waiting`, `Started`, then one `Packet`
    /// event per packet. When every response to the first packet is `NAK`,
    /// the packet is sent exactly `RETRY_BOUND` times and the transfer
    /// fails with `BrokenPipe`, with nothing further sent. A cancel byte
    /// in place of the handshake aborts with nothing sent.
    #[verifier::loop_isolation(false)]
    #[verifier::rlimit(100)]
    pub fn transmit(&mut self, data: &[u8]) -> (r: Result<usize, Error>)
        requires
            old(self).seq_num() == 1,
            !old(self).is_started(),
        ensures
            r matches Ok(n) ==> n == data@.len() && final(self).events() == old(
                self,
            ).events().push(Progress::Waiting).push(Progress::Started) + packet_events(
                num_packets(data@.len()),
            ),
            ({
                let s = old(self).stream();
                let n = num_packets(data@.len());
                clean_acks(n).is_prefix_of(s) ==> r == Ok::<usize, Error>(data@.len() as usize)
                    && final(self).sent() == old(self).sent() + wire_of(data@)
                    && final(self).stream() == s.skip(n as int + 3)
                    && final(self).events() == old(self).events().push(Progress::Waiting).push(
                    Progress::Started,
                ) + packet_events(n)
            }),
            ({
                let s = old(self).stream();
                (data@.len() > 0 && s.len() >= RETRY_BOUND + 1 && (forall|q: int|
                    0 <= q < RETRY_BOUND as int + 1 ==> s[q] == NAK)) ==> r == Err::<usize, Error>(
                    Error::BrokenPipe,
                )
                    && final(self).sent() == old(self).sent() + repeated(
                    packet_wire(1, head_chunk(data@)),
                    RETRY_BOUND as nat,
                )
                    && final(self).stream() == s.skip(RETRY_BOUND as int + 1)
                    && final(self).events() == old(self).events().push(Progress::Waiting).push(
                    Progress::Started,
                )
            }),
            ({
                let s = old(self).stream();
                (s.len() > 0 && s[0] == CAN) ==> r == Err::<usize, Error>(Error::ConnectionAborted)
                    && final(self).sent() == old(self).sent()
                    && final(self).stream() == s.drop_first()
                    && final(self).events() == old(self).events().push(Progress::Waiting)
            }),
    {
        let ghost s_all = old(self).stream();
        let ghost sent0 = old(self).sent();
        let ghost ev_hs = old(self).events().push(Progress::Waiting).push(Progress::Started);
        let ghost n_total = num_packets(data@.len());
        let ghost clean = clean_acks(n_total).is_prefix_of(s_all);
        let ghost allnak = data@.len() > 0 && s_all.len() >= RETRY_BOUND + 1 && (forall|q: int|
            0 <= q < RETRY_BOUND as int + 1 ==> s_all[q] == NAK);
        proof {
            if clean {
                assert(s_all.len() >= n_total as int + 3);
                assert(s_all[0] == clean_acks(n_total)[0]);
                assert(clean_acks(n_total)[0] == NAK);
            }
        }
        match self.handshake() {
            Ok(_) => {},
            Err(e) => {
                return Err(e);
            },
        }
        proof {
            assert(self.stream() =~= s_all.skip(1));
            assert(data@.skip(0) =~= data@);
            assert(packet_events(0) =~= Seq::<Progress>::empty());
            assert(ev_hs + packet_events(0) =~= ev_hs);
            lemma_small_mod(1, 256);
            if data@.len() == 0 {
                lemma_basic_div(127, 128);
            }
        }
        let mut offset: usize = 0;
        let ghost mut pd: nat = 0;
        while offset < data.len()
            invariant
                offset <= data@.len(),
                offset < data@.len() ==> offset == 128 * pd,
                offset == data@.len() ==> pd == n_total,
                self.is_started(),
                self.seq_num() == seq_of_packet(pd + 1),
                self.events() == ev_hs + packet_events(pd),
                clean ==> self.stream() == s_all.skip(1 + pd as int) && sent0 + wire_of(data@)
                    == self.sent() + wire_from(data@.skip(offset as int), pd + 1)
                    && self.seq_num() == seq_of_packet(pd + 1) && self.events() == ev_hs
                    + packet_events(pd),
                allnak ==> offset == 0 && pd == 0 && self.stream() == s_all.skip(1) && self.sent()
                    == sent0 && self.seq_num() == 1 && self.events() == ev_hs,
            decreases data@.len() - offset,
        {
            let end = if data.len() - offset >= 128 {
                offset + 128
            } else {
                data.len()
            };
            let ghost chunk = data@.subrange(offset as int, end as int);
            let mut pkt: Vec<u8> = Vec::new();
            let mut i: usize = offset;
            while i < end
                invariant
                    offset <= i <= end,
                    pkt@ == data@.subrange(offset as int, i as int),
                decreases end - i,
            {
                pkt.push(data[i]);
                proof {
                    assert(data@.subrange(offset as int, i + 1) =~= data@.subrange(
                        offset as int,
                        i as int,
                    ).push(data@[i as int]));
                }
                i = i + 1;
            }
            while pkt.len() < 128
                invariant
                    chunk.len() <= pkt@.len() <= 128,
                    pkt@.take(chunk.len() as int) == chunk,
                    forall|q: int| chunk.len() <= q < pkt@.len() ==> pkt@[q] == 0u8,
                decreases 128 - pkt@.len(),
            {
                pkt.push(0);
            }
            proof {
                assert(pkt@ =~= pad128(chunk));
                if clean {
                    assert(pd < n_total) by {
                        lemma_div_multiples_vanish(pd as int + 1, 128);
                        assert(128 * (pd as int + 1) <= data@.len() + 127);
                        lemma_div_is_ordered(128 * (pd as int + 1), data@.len() as int + 127, 128);
                    };
                }
            }
            let mut attempt: usize = 0;
            let mut acked = false;
            while attempt < RETRY_BOUND && !acked
                invariant
                    attempt <= RETRY_BOUND,
                    self.is_started(),
                    (if acked {
                        self.seq_num() == seq_of_packet(pd + 2) && self.events() == ev_hs
                            + packet_events(pd + 1)
                    } else {
                        self.seq_num() == seq_of_packet(pd + 1) && self.events() == ev_hs
                            + packet_events(pd)
                    }),
                    clean ==> (if acked {
                        self.stream() == s_all.skip(pd as int + 2) && sent0 + wire_of(data@)
                            == self.sent() + wire_from(data@.skip(end as int), pd + 2)
                            && self.seq_num() == seq_of_packet(pd + 2) && self.events() == ev_hs
                            + packet_events(pd + 1)
                    } else {
                        attempt == 0 && self.stream() == s_all.skip(1 + pd as int) && sent0 + wire_of(
                            data@,
                        ) == self.sent() + wire_from(data@.skip(offset as int), pd + 1)
                            && self.seq_num() == seq_of_packet(pd + 1) && self.events() == ev_hs
                            + packet_events(pd)
                    }),
                    allnak ==> offset == 0 && pd == 0 && (if acked {
                        false
                    } else {
                        self.stream() == s_all.skip(1 + attempt as int) && self.sent() == sent0
                            + repeated(packet_wire(1, head_chunk(data@)), attempt as nat)
                            && self.seq_num() == 1 && self.events() == ev_hs
                    }),
                decreases RETRY_BOUND - attempt + (if acked {
                    0int
                } else {
                    1int
                }),
            {
                let ghost pre = *self;
                match self.write_packet(pkt.as_slice()) {
                    Ok(_) => {
                        acked = true;
                        proof {
                            lemma_seq_of_packet_inc(pd + 1);
                            assert(packet_events(pd + 1) =~= packet_events(pd).push(
                                Progress::Packet(seq_of_packet(pd + 1)),
                            ));
                            if clean {
                                assert(s_all.skip(1 + pd as int).drop_first() =~= s_all.skip(pd as int + 2));
                                assert(s_all[1 + pd as int] == clean_acks(n_total)[1 + pd as int]);
                                assert(pre.sent() + packet_wire(seq_of_packet(pd + 1), pkt@)
                                    =~= pre.sent() + packet_wire(seq_of_packet(pd + 1), chunk));
                                let rem = data@.skip(offset as int);
                                assert(rem.len() == data@.len() - offset);
                                if rem.len() <= 128 {
                                    assert(chunk =~= rem);
                                    assert(data@.skip(end as int) =~= Seq::<u8>::empty());
                                } else {
                                    assert(chunk =~= rem.take(128));
                                    assert(rem.skip(128) =~= data@.skip(end as int));
                                }
                            }
                        }
                    },
                    Err(e) => {
                        proof {
                            if clean {
                                assert(pre.stream()[0] == s_all[1 + pd as int]);
                                assert(s_all[1 + pd as int] == clean_acks(n_total)[1 + pd as int]);
                            }
                        }
                        if matches!(e, Error::Interrupted) {
                            proof {
                                if allnak {
                                    assert(s_all.skip(1 + attempt as int).drop_first() =~= s_all.skip(
                                        1 + attempt + 1,
                                    ));
                                    assert(pre.sent() + packet_wire(1, pkt@) =~= pre.sent()
                                        + packet_wire(1, head_chunk(data@)));
                                }
                            }
                            attempt = attempt + 1;
                        } else {
                            return Err(e);
                        }
                    },
                }
            }
            if !acked {
                return Err(Error::BrokenPipe);
            }
            proof {
                pd = pd + 1;
                if end == data.len() {
                    if end - offset == 128 {
                        lemma_fundamental_div_mod_converse(
                            (data@.len() + 127) as int,
                            128,
                            pd as int,
                            127,
                        );
                    } else {
                        lemma_fundamental_div_mod_converse(
                            (data@.len() + 127) as int,
                            128,
                            pd as int,
                            (data@.len() - offset - 1) as int,
                        );
                    }
                }
            }
            offset = end;
        }
        let eot_buf: Vec<u8> = Vec::new();
        let ghost pre = *self;
        match self.write_packet(eot_buf.as_slice()) {
            Ok(_) => {},
            Err(e) => {
                proof {
                    if clean {
                        assert(s_all[1 + n_total as int] == clean_acks(n_total)[1 + n_total as int]);
                        assert(s_all.skip(1 + n_total as int)[0] == s_all[1 + n_total as int]);
                        assert(s_all.skip(1 + n_total as int)[1] == s_all[2 + n_total as int]);
                        assert(s_all[2 + n_total as int] == clean_acks(n_total)[2 + n_total as int]);
                    }
                }
                return Err(e);
            },
        }
        proof {
            if clean {
                assert(data@.skip(data@.len() as int) =~= Seq::<u8>::empty());
                assert(s_all[1 + n_total as int] == clean_acks(n_total)[1 + n_total as int]);
                assert(s_all[2 + n_total as int] == clean_acks(n_total)[2 + n_total as int]);
                assert(pre.stream()[0] == s_all[1 + n_total as int]);
                assert(pre.stream()[1] == s_all[2 + n_total as int]);
                assert(pre.stream().skip(2) =~= s_all.skip(n_total as int + 3));
                assert(pre.sent().push(EOT).push(EOT) =~= pre.sent() + seq![EOT, EOT]);
            }
        }
        Ok(offset)
    }

    /// Receive a whole transfer, appending each accepted packet's 128
    /// payload bytes to `into`: send the initial handshake `NAK`, accept
    /// packets in sequence (retrying each up to the retry bound on the
    /// retryable checksum fault), and finish on the two-step `EOT`
    /// termination handshake. Returns how many bytes were appended.
    ///
    /// When the incoming bytes are exactly one clean transfer (they parse
    /// as `clean_payload`), the appended bytes are exactly that payload,
    /// the responses sent are exactly `clean_acks` of the packet count,
    /// and the events reported are `Started` followed by one `Packet`
    /// event per packet.
    #[verifier::loop_isolation(false)]
    #[verifier::rlimit(100)]
    pub fn receive(&mut self, into: &mut Vec<u8>) -> (r: Result<usize, Error>)
        requires
            old(self).seq_num() == 1,
            !old(self).is_started(),
        ensures
            old(into)@.is_prefix_of(final(into)@),
            (final(into)@.len() - old(into)@.len()) % 128 == 0,
            old(self).sent().push(NAK).is_prefix_of(final(self).sent()),
            r matches Ok(n) ==> n == final(into)@.len() - old(into)@.len() && n % 128 == 0,
            ({
                let s = old(self).stream();
                rx_first_fault(s) matches Some(f) ==> r == Err::<usize, Error>(f.0)
                    && final(into)@ == old(into)@
                    && final(self).sent() == old(self).sent().push(NAK) + f.2
                    && final(self).stream() == s.skip(f.1)
                    && final(self).events() == old(self).events() + f.3
            }),
            ({
                let s = old(self).stream();
                clean_payload(s, 1) matches Some(q) ==> r == Ok::<usize, Error>(q.len() as usize)
                    && final(into)@ == old(into)@ + q
                    && final(self).sent() == old(self).sent() + clean_acks((q.len() / 128) as nat)
                    && final(self).stream().len() == 0
                    && final(self).events() == old(self).events() + rx_events(
                    (q.len() / 128) as nat,
                )
            }),
            ({
                let s = old(self).stream();
                all_attempts_corrupt(s) ==> r == Err::<usize, Error>(Error::BrokenPipe)
                    && final(into)@ == old(into)@
                    && final(self).sent() == old(self).sent().push(NAK) + Seq::new(
                    RETRY_BOUND as nat,
                    |i: int| NAK,
                )
                    && final(self).stream() == s.skip(132 * (RETRY_BOUND as int))
                    && final(self).events() == old(self).events().push(Progress::Started)
            }),
    {
        let ghost s_all = old(self).stream();
        let ghost sent0 = old(self).sent();
        let ghost ev0 = old(self).events();
        let ghost cleanq = clean_payload(s_all, 1);
        let ghost clean = cleanq is Some;
        let ghost q: Seq<u8> = match cleanq {
            Some(qq) => qq,
            None => Seq::empty(),
        };
        let ghost bad = all_attempts_corrupt(s_all);
        let ghost firstf = rx_first_fault(s_all);
        self.write_byte(NAK);
        let start_len = into.len();
        let mut packet: Vec<u8> = Vec::new();
        while packet.len() < 128
            invariant
                packet@.len() <= 128,
            decreases 128 - packet@.len(),
        {
            packet.push(0);
        }
        let ghost mut pd: nat = 0;
        proof {
            lemma_small_mod(1, 256);
            assert(q.skip(0) =~= q);
            assert(q.take(0) =~= Seq::<u8>::empty());
            assert(into@ =~= old(into)@ + q.take(0));
            assert(sent0.push(NAK) =~= sent0 + ack_block(0) + seq![NAK]);
            assert(sent0.push(NAK) + Seq::new(0, |i: int| NAK) =~= sent0.push(NAK));
            assert(sent0.push(NAK).is_prefix_of(sent0.push(NAK))) by {
                assert(sent0.push(NAK).subrange(0, sent0.push(NAK).len() as int) =~= sent0.push(
                    NAK,
                ));
            };
        }
        loop
            invariant
                packet@.len() == 128,
                into@.len() == old(into)@.len() + 128 * pd,
                start_len == old(into)@.len(),
                old(into)@.is_prefix_of(into@),
                self.seq_num() == seq_of_packet(pd + 1),
                sent0.push(NAK).is_prefix_of(self.sent()),
                bad ==> pd == 0 && self.stream() == s_all && self.sent() == sent0.push(NAK)
                    && self.events() == ev0 && !self.is_started(),
                firstf is Some ==> pd == 0 && self.stream() == s_all && self.sent() == sent0.push(
                    NAK,
                ) && self.events() == ev0 && !self.is_started(),
                clean ==> 128 * pd <= q.len() && clean_payload(self.stream(), self.seq_num())
                    == Some(q.skip(128 * pd as int)) && into@ == old(into)@ + q.take(128 * pd as int)
                    && self.sent() == sent0.push(NAK) + ack_block(pd) && self.events() == ev0 + (
                if pd == 0 {
                    Seq::<Progress>::empty()
                } else {
                    seq![Progress::Started] + packet_events(pd)
                }) && self.is_started() == (pd > 0),
            decreases self.stream().len(),
        {
            let ghost n_head = self.stream().len();
            let ghost head_state = *self;
            let mut attempt: usize = 0;
            let mut done = false;
            let mut eot = false;
            while attempt < RETRY_BOUND && !done
                invariant
                    packet@.len() == 128,
                    attempt <= RETRY_BOUND,
                    into@.len() == old(into)@.len() + 128 * pd,
                    old(into)@.is_prefix_of(into@),
                    !done ==> !eot,
                    !done ==> self.stream().len() + attempt <= n_head,
                    done ==> self.stream().len() < n_head,
                    !done ==> self.seq_num() == seq_of_packet(pd + 1),
                    sent0.push(NAK).is_prefix_of(self.sent()),
                    firstf is Some ==> pd == 0 && !done && attempt == 0 && self.stream() == s_all
                        && self.sent() == sent0.push(NAK) && self.events() == ev0
                        && !self.is_started(),
                    bad ==> pd == 0 && !done && self.stream() == s_all.skip(
                        132 * attempt as int,
                    ) && self.sent() == sent0.push(NAK) + Seq::new(attempt as nat, |i: int| NAK)
                        && self.seq_num() == 1 && (if attempt == 0 {
                        self.events() == ev0 && !self.is_started()
                    } else {
                        self.events() == ev0.push(Progress::Started) && self.is_started()
                    }),
                    clean && !done ==> attempt == 0 && *self == head_state,
                    clean && done && !eot ==> 128 * pd + 128 <= q.len() && clean_payload(
                        self.stream(),
                        self.seq_num(),
                    ) == Some(q.skip(128 * pd as int + 128)) && packet@ == q.subrange(
                        128 * pd as int,
                        128 * pd as int + 128,
                    ) && self.sent() == sent0.push(NAK) + ack_block(pd + 1) && self.events() == ev0
                        + seq![Progress::Started] + packet_events(pd + 1) && self.seq_num()
                        == seq_of_packet(pd + 2) && self.is_started(),
                    done && !eot ==> self.seq_num() == seq_of_packet(pd + 2),
                    clean && done && eot ==> 128 * pd == q.len(),
                    clean && done && eot ==> self.stream().len() == 0,
                    clean && done && eot ==> self.sent() == sent0.push(NAK) + ack_block(pd)
                        + seq![NAK, ACK],
                    clean && done && eot ==> self.events() == ev0 + (if pd == 0 {
                        Seq::<Progress>::empty()
                    } else {
                        seq![Progress::Started] + packet_events(pd)
                    }),
                    done && eot ==> into@.len() == old(into)@.len() + 128 * pd,
                decreases RETRY_BOUND - attempt + (if done {
                    0int
                } else {
                    1int
                }),
            {
                let ghost pre = *self;
                proof {
                    if clean {
                        let qrem = q.skip(128 * pd as int);
                        if qrem.len() == 0 {
                            assert(clean_payload(pre.stream(), pre.seq_num()) == Some(
                                Seq::<u8>::empty(),
                            ));
                        }
                    }
                    if bad {
                        lemma_corrupt_attempt(s_all, attempt as int, pre.stream());
                    }
                }
                match self.read_packet(&mut packet) {
                    Ok(n) => {
                        proof {
                            lemma_prefix_push(sent0.push(NAK), pre.sent(), NAK);
                            lemma_prefix_push(sent0.push(NAK), pre.sent(), ACK);
                            lemma_prefix_push(sent0.push(NAK), pre.sent().push(NAK), ACK);
                        }
                        done = true;
                        if n == 0 {
                            eot = true;
                            proof {
                                if clean {
                                    let qrem = q.skip(128 * pd as int);
                                    let s = pre.stream();
                                    assert(qrem.len() == 0) by {
                                        if qrem.len() > 0 {
                                            assert(s[0] == SOH);
                                        }
                                    };
                                    if s.len() != 2 || s[0] != EOT || s[1] != EOT {
                                        assert(s.subrange(3, 131).len() == 128);
                                        assert(false);
                                    }
                                    assert(128 * pd == q.len());
                                    assert(pre.sent().push(NAK).push(ACK) =~= sent0.push(NAK)
                                        + ack_block(pd) + seq![NAK, ACK]);
                                }
                            }
                        } else {
                            proof {
                                lemma_seq_of_packet_inc(pd + 1);
                                if clean {
                                    let qrem = q.skip(128 * pd as int);
                                    let s = pre.stream();
                                    assert(qrem.len() > 0) by {
                                        if qrem.len() == 0 {
                                            assert(pre.stream().len() == 2);
                                        }
                                    };
                                    match clean_payload(s.skip(132), wrap_inc(pre.seq_num())) {
                                        Some(x) => {
                                            assert(s.subrange(3, 131) + x == qrem);
                                            assert(x =~= qrem.skip(128));
                                            assert(qrem.skip(128) =~= q.skip(
                                                128 * pd as int + 128,
                                            ));
                                            assert(s.subrange(3, 131) =~= qrem.take(128));
                                        },
                                        None => {
                                            assert(false);
                                        },
                                    }
                                    assert(packet@ =~= s.subrange(3, 131));
                                    assert(qrem.take(128) =~= q.subrange(
                                        128 * pd as int,
                                        128 * pd as int + 128,
                                    ));
                                    assert(pre.sent().push(ACK) =~= sent0.push(NAK) + ack_block(
                                        pd + 1,
                                    ));
                                    assert(ev0 + Seq::<Progress>::empty() =~= ev0);
                                    if pd == 0 {
                                        assert(ev0.push(Progress::Started).push(
                                            Progress::Packet(seq_of_packet(1)),
                                        ) =~= ev0 + seq![Progress::Started] + packet_events(1));
                                    } else {
                                        assert((ev0 + (seq![Progress::Started] + packet_events(
                                            pd,
                                        ))).push(Progress::Packet(seq_of_packet(pd + 1))) =~= ev0
                                            + seq![Progress::Started] + packet_events(pd + 1));
                                    }
                                }
                            }
                        }
                    },
                    Err(e) => {
                        proof {
                            lemma_prefix_push(sent0.push(NAK), pre.sent(), NAK);
                            lemma_prefix_push(sent0.push(NAK), pre.sent(), ACK);
                            lemma_prefix_push(sent0.push(NAK), pre.sent().push(NAK), ACK);
                        }
                        if matches!(e, Error::Interrupted) {
                            proof {
                                if bad {
                                    assert(sent0.push(NAK) + Seq::new(
                                        attempt as nat,
                                        |i: int| NAK,
                                    ).push(NAK) =~= sent0.push(NAK) + Seq::new(
                                        attempt as nat + 1,
                                        |i: int| NAK,
                                    ));
                                }
                            }
                            attempt = attempt + 1;
                        } else {
                            proof {
                                vstd::arithmetic::div_mod::lemma_mod_multiples_basic(
                                    pd as int,
                                    128,
                                );
                                if firstf is Some {
                                    assert(pre.sent() + Seq::<u8>::empty() =~= pre.sent());
                                    assert(ev0 + Seq::<Progress>::empty() =~= ev0);
                                    assert(ev0.push(Progress::Started) =~= ev0 + seq![
                                        Progress::Started,
                                    ]);
                                    assert(pre.sent().push(NAK) =~= pre.sent() + seq![NAK]);
                                    if s_all.len() == 0 {
                                        assert(s_all.skip(0) =~= s_all);
                                    } else if s_all[0] == CAN {
                                        assert(s_all.skip(1) =~= s_all.drop_first());
                                    } else if s_all[0] == SOH {
                                        if self.stream().len() == 0 {
                                            assert(self.stream() =~= s_all.skip(
                                                s_all.len() as int,
                                            ));
                                        }
                                    } else if s_all[0] == EOT {
                                        if self.stream().len() == 0 {
                                            assert(self.stream() =~= s_all.skip(
                                                s_all.len() as int,
                                            ));
                                        }
                                    } else {
                                        assert(s_all.skip(1) =~= s_all.drop_first());
                                    }
                                    assert(into@ =~= old(into)@);
                                }
                            }
                            return Err(e);
                        }
                    },
                }
            }
            if !done {
                proof {
                    vstd::arithmetic::div_mod::lemma_mod_multiples_basic(pd as int, 128);
                    if bad {
                        assert(into@ =~= old(into)@);
                    }
                }
                return Err(Error::BrokenPipe);
            }
            if eot {
                proof {
                    if clean {
                        lemma_div_multiples_vanish(pd as int, 128);
                        assert(sent0.push(NAK) + ack_block(pd) + seq![NAK, ACK] =~= sent0
                            + clean_acks(pd));
                        if pd == 0 {
                            assert(ev0 + Seq::<Progress>::empty() =~= ev0 + rx_events(0));
                            assert(q.take(0) =~= q);
                        } else {
                            assert(ev0 + (seq![Progress::Started] + packet_events(pd)) =~= ev0
                                + rx_events(pd));
                            assert(q.take(128 * pd as int) =~= q);
                        }
                    }
                    vstd::arithmetic::div_mod::lemma_mod_multiples_basic(pd as int, 128);
                }
                return Ok(into.len() - start_len);
            }
            let mut j: usize = 0;
            while j < 128
                invariant
                    j <= 128,
                    packet@.len() == 128,
                    into@ == old(into)@ + q.take(128 * pd as int) + packet@.take(j as int) || !clean,
                    into@.len() == old(into)@.len() + 128 * pd + j,
                    old(into)@.is_prefix_of(into@),
                decreases 128 - j,
            {
                into.push(packet[j]);
                proof {
                    assert(packet@.take(j + 1) =~= packet@.take(j as int).push(packet@[j as int]));
                }
                j = j + 1;
            }
            proof {
                if clean {
                    assert(packet@.take(128) =~= packet@);
                    assert(old(into)@ + q.take(128 * pd as int) + packet@ =~= old(into)@ + q.take(
                        128 * (pd as int + 1),
                    ));
                }
                pd = pd + 1;
            }
        }
    }
}

impl<T: Transport> Xmodem<T, NoProgress> {
    /// A session around `inner` that reports progress nowhere.
    pub fn new(inner: T) -> (r: Xmodem<T, NoProgress>)
        ensures
            r.seq_num() == 1,
            !r.is_started(),
            r.stream() == inner.to_read(),
            r.sent() == inner.written(),
            r.events() == Seq::<Progress>::empty(),
    {
        Xmodem { packet: 1, started: false, inner, progress: NoProgress::new() }
    }
}

} // verus!
