use xmodem::error::Error;
use xmodem::progress::{EventLog, Progress};
use xmodem::transport::ScriptedTransport;
use xmodem::xmodem::{get_checksum, Xmodem, ACK, CAN, EOT, NAK, SOH};

/// The clean responses a transmitter of `n` packets sees: the handshake
/// NAK, one ACK per packet, then NAK and ACK for the termination phase.
fn acks(n: usize) -> Vec<u8> {
    let mut v = vec![NAK];
    for _ in 0..n {
        v.push(ACK);
    }
    v.push(NAK);
    v.push(ACK);
    v
}

/// One wire packet for sequence byte `seq` and payload `chunk` (at most
/// 128 bytes), zero-padded.
fn packet(seq: u8, chunk: &[u8]) -> Vec<u8> {
    let mut padded = chunk.to_vec();
    while padded.len() < 128 {
        padded.push(0);
    }
    let mut v = vec![SOH, seq, 255 - seq];
    v.extend_from_slice(&padded);
    v.push(get_checksum(&padded));
    v
}

#[test]
fn checksum_concrete_values() {
    assert_eq!(get_checksum(&[]), 0);
    assert_eq!(get_checksum(&[0x41, 0x42, 0x43]), 0xC6);
    assert_eq!(get_checksum(&[0xFF, 0x01]), 0);
    assert_eq!(get_checksum(&[0xFF, 0xFF]), 0xFE);
}

#[test]
fn three_byte_payload_single_packet() {
    // Transmitting [0x41, 0x42, 0x43] produces one packet:
    // SOH 01 FE 'A' 'B' 'C' followed by 125 zeros and checksum 0xC6,
    // then EOT/NAK, EOT/ACK, reporting 3 bytes written.
    let to = ScriptedTransport::new(acks(1));
    let mut session = Xmodem::new_with_progress(to, EventLog::new());
    let r = session.transmit(&[0x41, 0x42, 0x43]);
    assert_eq!(r, Ok(3));
    let (to, log) = session.into_parts();
    let wire = to.written_bytes();
    let mut expected = vec![SOH, 0x01, 0xFE, 0x41, 0x42, 0x43];
    for _ in 0..125 {
        expected.push(0);
    }
    assert_eq!((0x41u16 + 0x42 + 0x43) % 256, 0xC6);
    expected.push(0xC6);
    expected.push(EOT);
    expected.push(EOT);
    assert_eq!(wire, &expected);
    assert_eq!(
        log.log,
        vec![Progress::Waiting, Progress::Started, Progress::Packet(1)]
    );
}

#[test]
fn final_packet_zero_padded_and_checksummed_over_padding() {
    // 130 bytes: two packets, the second holding 2 bytes and 126 zeros,
    // its checksum computed over the padded 128 bytes.
    let mut data = Vec::new();
    for i in 0..130u32 {
        data.push((i % 251) as u8);
    }
    let to = ScriptedTransport::new(acks(2));
    let mut session = Xmodem::new(to);
    assert_eq!(session.transmit(&data), Ok(130));
    let (to, _) = session.into_parts();
    let wire = to.written_bytes();
    assert_eq!(wire.len(), 2 * 132 + 2);
    let second = &wire[132..264];
    assert_eq!(second[0], SOH);
    assert_eq!(second[1], 2);
    assert_eq!(second[2], 253);
    assert_eq!(&second[3..5], &data[128..130]);
    for i in 5..131 {
        assert_eq!(second[i], 0, "padding byte {} not zero", i);
    }
    let mut padded = data[128..130].to_vec();
    padded.resize(128, 0);
    assert_eq!(second[131], get_checksum(&padded));
}

#[test]
fn round_trip_exact_multiple_of_packet_size() {
    let mut data = Vec::new();
    for i in 0..256u32 {
        data.push((i * 7 % 256) as u8);
    }
    let to = ScriptedTransport::new(acks(2));
    let mut tx = Xmodem::new(to);
    assert_eq!(tx.transmit(&data), Ok(256));
    let (to, _) = tx.into_parts();
    let wire = to.written_bytes().clone();

    let from = ScriptedTransport::new(wire);
    let mut rx = Xmodem::new_with_progress(from, EventLog::new());
    let mut sink = Vec::new();
    assert_eq!(rx.receive(&mut sink), Ok(256));
    assert_eq!(sink, data);
    let (from, log) = rx.into_parts();
    assert_eq!(from.written_bytes(), &acks(2));
    assert_eq!(from.remaining(), 0);
    assert_eq!(
        log.log,
        vec![Progress::Started, Progress::Packet(1), Progress::Packet(2)]
    );
}

#[test]
fn round_trip_pads_short_final_packet() {
    // The receiver accumulates whole packets, so a 3-byte payload comes
    // back as 128 bytes whose prefix is the payload and whose tail is
    // zeros; the reported total is the padded size.
    let data = vec![0x41, 0x42, 0x43];
    let to = ScriptedTransport::new(acks(1));
    let mut tx = Xmodem::new(to);
    assert_eq!(tx.transmit(&data), Ok(3));
    let (to, _) = tx.into_parts();

    let from = ScriptedTransport::new(to.written_bytes().clone());
    let mut rx = Xmodem::new(from);
    let mut sink = Vec::new();
    assert_eq!(rx.receive(&mut sink), Ok(128));
    assert_eq!(&sink[..3], &data[..]);
    assert!(sink[3..].iter().all(|&b| b == 0));
}

#[test]
fn empty_payload_round_trip() {
    let to = ScriptedTransport::new(acks(0));
    let mut tx = Xmodem::new_with_progress(to, EventLog::new());
    assert_eq!(tx.transmit(&[]), Ok(0));
    let (to, log) = tx.into_parts();
    assert_eq!(to.written_bytes(), &vec![EOT, EOT]);
    assert_eq!(log.log, vec![Progress::Waiting, Progress::Started]);

    let from = ScriptedTransport::new(vec![EOT, EOT]);
    let mut rx = Xmodem::new_with_progress(from, EventLog::new());
    let mut sink = Vec::new();
    assert_eq!(rx.receive(&mut sink), Ok(0));
    assert!(sink.is_empty());
    let (from, log) = rx.into_parts();
    assert_eq!(from.written_bytes(), &vec![NAK, NAK, ACK]);
    assert!(log.log.is_empty());
}

#[test]
fn sequence_numbers_wrap_modulo_256() {
    // A payload of 257 packets: packet 256 carries sequence byte 0 and
    // packet 257 reuses sequence byte 1 with complement 254.
    let data = vec![0xA5u8; 257 * 128];
    let to = ScriptedTransport::new(acks(257));
    let mut session = Xmodem::new(to);
    assert_eq!(session.transmit(&data), Ok(257 * 128));
    let (to, _) = session.into_parts();
    let wire = to.written_bytes();
    assert_eq!(wire.len(), 257 * 132 + 2);
    let p256 = &wire[132 * 255..132 * 256];
    assert_eq!(p256[1], 0);
    assert_eq!(p256[2], 255);
    let p257 = &wire[132 * 256..132 * 257];
    assert_eq!(p257[0], SOH);
    assert_eq!(p257[1], 1);
    assert_eq!(p257[2], 254);
}

#[test]
fn single_nak_causes_one_retransmission_without_progress_event() {
    // Packet 2 of 3 is refused once: it is sent again with the same
    // sequence byte, and the corrupted attempt advances no Packet event.
    let mut data = Vec::new();
    for i in 0..384u32 {
        data.push((i % 256) as u8);
    }
    let incoming = vec![NAK, ACK, NAK, ACK, ACK, NAK, ACK];
    let to = ScriptedTransport::new(incoming);
    let mut session = Xmodem::new_with_progress(to, EventLog::new());
    assert_eq!(session.transmit(&data), Ok(384));
    let (to, log) = session.into_parts();
    let wire = to.written_bytes();
    // packets: 1, 2, 2 again, 3, then the two EOT bytes
    assert_eq!(wire.len(), 4 * 132 + 2);
    assert_eq!(wire[132 + 1], 2);
    assert_eq!(wire[2 * 132 + 1], 2);
    assert_eq!(&wire[132..2 * 132], &wire[2 * 132..3 * 132]);
    assert_eq!(wire[3 * 132 + 1], 3);
    assert_eq!(
        log.log,
        vec![
            Progress::Waiting,
            Progress::Started,
            Progress::Packet(1),
            Progress::Packet(2),
            Progress::Packet(3),
        ]
    );
}

#[test]
fn receiver_naks_corrupt_checksum_then_accepts_retransmission() {
    let chunk = [0x10u8; 16];
    let mut bad = packet(1, &chunk);
    let last = bad.len() - 1;
    bad[last] = bad[last].wrapping_add(1);
    let mut incoming = bad;
    incoming.extend_from_slice(&packet(1, &chunk));
    incoming.push(EOT);
    incoming.push(EOT);
    let from = ScriptedTransport::new(incoming);
    let mut rx = Xmodem::new_with_progress(from, EventLog::new());
    let mut sink = Vec::new();
    assert_eq!(rx.receive(&mut sink), Ok(128));
    assert_eq!(&sink[..16], &chunk[..]);
    let (from, log) = rx.into_parts();
    // handshake NAK, NAK for the corrupt packet, ACK for the good one,
    // then NAK and ACK for the termination handshake
    assert_eq!(from.written_bytes(), &vec![NAK, NAK, ACK, NAK, ACK]);
    assert_eq!(log.log, vec![Progress::Started, Progress::Packet(1)]);
}

#[test]
fn retry_bound_exhaustion_is_broken_pipe() {
    // Every attempt of packet 1 is refused: ten retransmissions, then the
    // broken-pipe fault, with nothing sent afterwards.
    let mut incoming = vec![NAK];
    for _ in 0..10 {
        incoming.push(NAK);
    }
    incoming.push(ACK);
    let to = ScriptedTransport::new(incoming);
    let mut session = Xmodem::new(to);
    let data = [0x55u8; 64];
    assert_eq!(session.transmit(&data), Err(Error::BrokenPipe));
    let (to, _) = session.into_parts();
    let wire = to.written_bytes();
    assert_eq!(wire.len(), 10 * 132);
    for k in 0..10 {
        assert_eq!(wire[k * 132], SOH);
        assert_eq!(wire[k * 132 + 1], 1);
    }
    // the trailing ACK of the script was never read
    assert_eq!(to.remaining(), 1);
}

#[test]
fn receiver_retry_bound_exhaustion_is_broken_pipe() {
    let chunk = [0x77u8; 8];
    let mut bad = packet(1, &chunk);
    let last = bad.len() - 1;
    bad[last] = bad[last].wrapping_add(1);
    let mut incoming = Vec::new();
    for _ in 0..10 {
        incoming.extend_from_slice(&bad);
    }
    incoming.extend_from_slice(&packet(1, &chunk));
    let from = ScriptedTransport::new(incoming);
    let mut rx = Xmodem::new(from);
    let mut sink = Vec::new();
    assert_eq!(rx.receive(&mut sink), Err(Error::BrokenPipe));
    assert!(sink.is_empty());
    let (from, _) = rx.into_parts();
    // handshake NAK plus one NAK per corrupt attempt; the good copy was
    // never read
    assert_eq!(from.written_bytes(), &vec![NAK; 11]);
    assert_eq!(from.remaining(), 132);
}

#[test]
fn cancel_at_handshake_aborts_with_nothing_sent() {
    let to = ScriptedTransport::new(vec![CAN]);
    let mut session = Xmodem::new(to);
    assert_eq!(session.transmit(&[1, 2, 3]), Err(Error::ConnectionAborted));
    let (to, _) = session.into_parts();
    assert!(to.written_bytes().is_empty());
}

#[test]
fn cancel_mid_transfer_aborts_after_current_packet() {
    let to = ScriptedTransport::new(vec![NAK, CAN]);
    let mut session = Xmodem::new(to);
    assert_eq!(session.transmit(&[9u8; 200]), Err(Error::ConnectionAborted));
    let (to, _) = session.into_parts();
    // exactly the first packet went out, nothing after the cancel
    assert_eq!(to.written_bytes().len(), 132);
}

#[test]
fn cancel_at_termination_aborts() {
    let to = ScriptedTransport::new(vec![NAK, ACK, CAN]);
    let mut session = Xmodem::new(to);
    assert_eq!(session.transmit(&[9u8; 100]), Err(Error::ConnectionAborted));
    let (to, _) = session.into_parts();
    // one packet, then the first EOT of the termination handshake
    assert_eq!(to.written_bytes().len(), 133);
    assert_eq!(*to.written_bytes().last().unwrap(), EOT);
}

#[test]
fn receiver_cancel_aborts() {
    let from = ScriptedTransport::new(vec![CAN]);
    let mut rx = Xmodem::new(from);
    let mut sink = Vec::new();
    assert_eq!(rx.receive(&mut sink), Err(Error::ConnectionAborted));
    let (from, _) = rx.into_parts();
    // only the initiating NAK was sent before the cancel arrived
    assert_eq!(from.written_bytes(), &vec![NAK]);
}

#[test]
fn receiver_empty_stream_times_out() {
    // The initiating NAK goes out before anything is read; a stream that
    // never delivers a byte is the first-byte timeout.
    let from = ScriptedTransport::new(Vec::new());
    let mut rx = Xmodem::new(from);
    let mut sink = Vec::new();
    assert_eq!(rx.receive(&mut sink), Err(Error::TimedOut));
    assert!(sink.is_empty());
    let (from, _) = rx.into_parts();
    assert_eq!(from.written_bytes(), &vec![NAK]);
}

#[test]
fn receiver_unknown_first_byte_is_invalid_data() {
    let from = ScriptedTransport::new(vec![0x7F]);
    let mut rx = Xmodem::new(from);
    let mut sink = Vec::new();
    assert_eq!(rx.receive(&mut sink), Err(Error::InvalidData));
    assert!(sink.is_empty());
    let (from, _) = rx.into_parts();
    // the initiating NAK, then the NAK answering the unknown byte
    assert_eq!(from.written_bytes(), &vec![NAK, NAK]);
}

#[test]
fn unexpected_handshake_byte_is_invalid_data() {
    let to = ScriptedTransport::new(vec![0x00]);
    let mut session = Xmodem::new(to);
    assert_eq!(session.transmit(&[1u8]), Err(Error::InvalidData));
}

#[test]
fn empty_script_times_out() {
    let to = ScriptedTransport::new(Vec::new());
    let mut session = Xmodem::new(to);
    assert_eq!(session.transmit(&[1u8]), Err(Error::TimedOut));
}

#[test]
fn write_packet_rejects_wrong_length() {
    let to = ScriptedTransport::new(vec![NAK]);
    let mut session = Xmodem::new(to);
    assert_eq!(session.write_packet(&[0u8; 5]), Err(Error::UnexpectedEof));
}

#[test]
fn write_packet_nak_is_interrupted() {
    let to = ScriptedTransport::new(vec![NAK, NAK]);
    let mut session = Xmodem::new(to);
    assert_eq!(session.write_packet(&[0u8; 128]), Err(Error::Interrupted));
}

#[test]
fn read_packet_rejects_small_buffer() {
    let from = ScriptedTransport::new(vec![EOT, EOT]);
    let mut rx = Xmodem::new(from);
    let mut buf = vec![0u8; 64];
    assert_eq!(rx.read_packet(&mut buf), Err(Error::UnexpectedEof));
}

#[test]
fn read_packet_wrong_sequence_is_invalid_data() {
    let mut incoming = packet(2, &[1, 2, 3]);
    incoming.extend_from_slice(&[EOT, EOT]);
    let from = ScriptedTransport::new(incoming);
    let mut rx = Xmodem::new(from);
    let mut buf = vec![0u8; 128];
    assert_eq!(rx.read_packet(&mut buf), Err(Error::InvalidData));
    let (from, _) = rx.into_parts();
    assert_eq!(from.written_bytes(), &vec![NAK]);
}

#[test]
fn read_packet_bad_complement_is_invalid_data() {
    let mut incoming = packet(1, &[1, 2, 3]);
    incoming[2] = 0x00;
    let from = ScriptedTransport::new(incoming);
    let mut rx = Xmodem::new(from);
    let mut buf = vec![0u8; 128];
    assert_eq!(rx.read_packet(&mut buf), Err(Error::InvalidData));
}

#[test]
fn receiver_lone_eot_is_invalid_data() {
    // A first EOT must be confirmed by a second one.
    let from = ScriptedTransport::new(vec![EOT, SOH]);
    let mut rx = Xmodem::new(from);
    let mut sink = Vec::new();
    assert_eq!(rx.receive(&mut sink), Err(Error::InvalidData));
}

#[test]
fn error_descriptions_are_distinct() {
    let all = [
        Error::TimedOut,
        Error::ConnectionAborted,
        Error::InvalidData,
        Error::Interrupted,
        Error::BrokenPipe,
        Error::UnexpectedEof,
    ];
    for (i, a) in all.iter().enumerate() {
        for (j, b) in all.iter().enumerate() {
            if i != j {
                assert_ne!(a.describe(), b.describe());
            }
        }
    }
}

#[test]
fn flush_changes_nothing() {
    let to = ScriptedTransport::new(vec![NAK]);
    let mut session = Xmodem::new(to);
    session.flush();
    let (to, _) = session.into_parts();
    assert!(to.written_bytes().is_empty());
    assert_eq!(to.remaining(), 1);
}
