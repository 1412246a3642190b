use mtproto_transport::abridged::Abridged;
use mtproto_transport::codec::{get_le32, prepend, put_le32};
use mtproto_transport::full::{checksum, Full};
use mtproto_transport::intermediate::Intermediate;
use mtproto_transport::transport::{Transport, UnpackError, UnpackedOffset, MAX_PAYLOAD_LEN};

fn round_trip<T: Transport>(sender: &mut T, receiver: &mut T, payload: &[u8]) -> Vec<u8> {
    let mut wire = payload.to_vec();
    sender.pack(&mut wire);
    receiver.deobfuscate(&mut wire);
    let found = receiver.unpack(&wire).unwrap();
    assert_eq!(found.next_offset, wire.len());
    wire[found.data_start..found.data_end].to_vec()
}

#[test]
fn le32_writes_least_significant_first() {
    let mut out = vec![0xaa];
    put_le32(&mut out, 0x0403_0201);
    assert_eq!(out, vec![0xaa, 1, 2, 3, 4]);
    put_le32(&mut out, u32::MAX);
    assert_eq!(&out[5..], &[255, 255, 255, 255]);
}

#[test]
fn le32_reads_at_offset() {
    let bytes = [9u8, 0x78, 0x56, 0x34, 0x12, 9];
    assert_eq!(get_le32(&bytes, 1), 0x1234_5678);
    assert_eq!(get_le32(&[255, 255, 255, 255], 0), u32::MAX);
    assert_eq!(get_le32(&[0, 0, 0, 0], 0), 0);
}

#[test]
fn prepend_puts_prefix_in_front() {
    let mut buffer = vec![4u8, 5];
    prepend(&mut buffer, &[1, 2, 3]);
    assert_eq!(buffer, vec![1, 2, 3, 4, 5]);
    prepend(&mut buffer, &[]);
    assert_eq!(buffer, vec![1, 2, 3, 4, 5]);
}

#[test]
fn intermediate_first_packet_carries_tag() {
    let mut transport = Intermediate::new();
    let mut buffer = vec![1u8, 2, 3, 4, 5, 6, 7, 8];
    transport.pack(&mut buffer);
    assert_eq!(buffer, vec![0xee, 0xee, 0xee, 0xee, 8, 0, 0, 0, 1, 2, 3, 4, 5, 6, 7, 8]);
    let mut second = vec![9u8, 9, 9, 9];
    transport.pack(&mut second);
    assert_eq!(second, vec![4, 0, 0, 0, 9, 9, 9, 9]);
}

#[test]
fn intermediate_tag_handed_over_is_not_sent() {
    let mut transport = Intermediate::new();
    assert_eq!(transport.obfuscated_tag(), [0xee, 0xee, 0xee, 0xee]);
    let mut buffer = vec![7u8];
    transport.pack(&mut buffer);
    assert_eq!(buffer, vec![1, 0, 0, 0, 7]);
    transport.reset().unwrap();
    let mut buffer = vec![7u8];
    transport.pack(&mut buffer);
    assert_eq!(buffer, vec![0xee, 0xee, 0xee, 0xee, 1, 0, 0, 0, 7]);
}

#[test]
fn intermediate_unpack_reports_bounds() {
    let mut transport = Intermediate::new();
    let wire = vec![4u8, 0, 0, 0, 9, 9, 9, 9, 77];
    assert_eq!(
        transport.unpack(&wire),
        Ok(UnpackedOffset { data_start: 4, data_end: 8, next_offset: 8 })
    );
    assert_eq!(transport.unpack(&wire[..7]), Err(UnpackError::NeedMoreData));
    assert_eq!(transport.unpack(&wire[..3]), Err(UnpackError::NeedMoreData));
    assert_eq!(transport.unpack(&[]), Err(UnpackError::NeedMoreData));
    assert_eq!(
        transport.unpack(&[0, 0, 0, 0]),
        Ok(UnpackedOffset { data_start: 4, data_end: 4, next_offset: 4 })
    );
}

#[test]
fn intermediate_rejects_oversized_length() {
    let mut transport = Intermediate::new();
    assert_eq!(
        transport.unpack(&[1, 0, 0, 1, 0]),
        Err(UnpackError::BadLen { got: 0x0100_0001 })
    );
    assert_eq!(
        transport.unpack(&[0xee, 0xee, 0xee, 0xee]),
        Err(UnpackError::BadLen { got: 0xeeee_eeee })
    );
    // The bound itself is accepted.
    assert_eq!(transport.unpack(&[0, 0, 0, 1, 0]), Err(UnpackError::NeedMoreData));
    assert!(UnpackError::BadLen { got: 1 }.is_framing_violation());
    assert!(!UnpackError::NeedMoreData.is_framing_violation());
}

#[test]
fn intermediate_round_trip() {
    let mut sender = Intermediate { announced: true };
    let mut receiver = Intermediate::new();
    for len in [0usize, 1, 3, 4, 255, 256, 70000] {
        let payload: Vec<u8> = (0..len).map(|i| (i % 251) as u8).collect();
        assert_eq!(round_trip(&mut sender, &mut receiver, &payload), payload);
    }
    let largest = vec![5u8; MAX_PAYLOAD_LEN];
    assert_eq!(round_trip(&mut sender, &mut receiver, &largest), largest);
}

#[test]
fn abridged_short_and_long_headers() {
    let mut transport = Abridged::new();
    let mut buffer = vec![1u8, 2, 3, 4];
    transport.pack(&mut buffer);
    assert_eq!(buffer, vec![0xef, 1, 1, 2, 3, 4]);

    let mut buffer = vec![3u8; 126 * 4];
    transport.pack(&mut buffer);
    assert_eq!(buffer.len(), 1 + 126 * 4);
    assert_eq!(buffer[0], 126);

    let mut buffer = vec![3u8; 127 * 4];
    transport.pack(&mut buffer);
    assert_eq!(buffer.len(), 4 + 127 * 4);
    assert_eq!(&buffer[..4], &[0x7f, 127, 0, 0]);

    let mut buffer = vec![3u8; 0x1_0203 * 4];
    transport.pack(&mut buffer);
    assert_eq!(&buffer[..4], &[0x7f, 0x03, 0x02, 0x01]);
}

#[test]
fn abridged_tag_handed_over_is_not_sent() {
    let mut transport = Abridged::new();
    assert_eq!(transport.obfuscated_tag(), [0xef, 0xef, 0xef, 0xef]);
    let mut buffer = vec![];
    transport.pack(&mut buffer);
    assert_eq!(buffer, vec![0]);
}

#[test]
fn abridged_unpack_reports_bounds() {
    let mut transport = Abridged::new();
    assert_eq!(transport.unpack(&[]), Err(UnpackError::NeedMoreData));
    assert_eq!(
        transport.unpack(&[1, 9, 9, 9, 9, 5]),
        Ok(UnpackedOffset { data_start: 1, data_end: 5, next_offset: 5 })
    );
    assert_eq!(transport.unpack(&[1, 9, 9, 9]), Err(UnpackError::NeedMoreData));
    assert_eq!(transport.unpack(&[0x7f, 1, 0]), Err(UnpackError::NeedMoreData));
    assert_eq!(
        transport.unpack(&[0x7f, 1, 0, 0, 9, 9, 9, 9]),
        Ok(UnpackedOffset { data_start: 4, data_end: 8, next_offset: 8 })
    );
    assert_eq!(transport.unpack(&[0x80, 0, 0, 0]), Err(UnpackError::BadLen { got: 0x80 }));
    assert_eq!(
        transport.unpack(&[0x7f, 1, 0, 0x40]),
        Err(UnpackError::BadLen { got: 0x0100_0004 })
    );
}

#[test]
fn abridged_round_trip() {
    let mut sender = Abridged { announced: true };
    let mut receiver = Abridged::new();
    for words in [0usize, 1, 126, 127, 128, 255, 256, 65535, 65536] {
        let payload: Vec<u8> = (0..4 * words).map(|i| (i % 253) as u8).collect();
        assert_eq!(round_trip(&mut sender, &mut receiver, &payload), payload);
    }
    let largest = vec![5u8; MAX_PAYLOAD_LEN];
    assert_eq!(round_trip(&mut sender, &mut receiver, &largest), largest);
}

#[test]
fn checksum_of_known_bytes() {
    assert_eq!(checksum(b"123456789"), 0xcbf4_3926);
    assert_eq!(checksum(&[]), 0);
    assert_eq!(checksum(&[0]), 0xd202_ef8d);
    assert_eq!(checksum(b"a"), 0xe8b7_be43);
}

#[test]
fn checksum_agrees_with_reference() {
    let mut bytes = Vec::new();
    for i in 0..600u32 {
        assert_eq!(checksum(&bytes), crc32fast::hash(&bytes));
        bytes.push((i.wrapping_mul(2_654_435_761) >> 13) as u8);
    }
}

#[test]
fn can_pack_tells_the_supported_range() {
    let intermediate = Intermediate::new();
    assert!(intermediate.can_pack(&[]));
    assert!(intermediate.can_pack(&[1, 2, 3]));
    assert!(intermediate.can_pack(&vec![0u8; MAX_PAYLOAD_LEN]));
    assert!(!intermediate.can_pack(&vec![0u8; MAX_PAYLOAD_LEN + 1]));

    let abridged = Abridged::new();
    assert!(abridged.can_pack(&[]));
    assert!(abridged.can_pack(&[1, 2, 3, 4]));
    assert!(!abridged.can_pack(&[1, 2, 3]));
    assert!(abridged.can_pack(&vec![0u8; MAX_PAYLOAD_LEN]));
    assert!(!abridged.can_pack(&vec![0u8; MAX_PAYLOAD_LEN + 4]));

    let full = Full::new();
    assert!(full.can_pack(&[1]));
    assert!(!full.can_pack(&vec![0u8; MAX_PAYLOAD_LEN + 1]));
}

#[test]
fn packs_within_counts_the_wire_bytes() {
    let mut intermediate = Intermediate::new();
    assert!(intermediate.packs_within(&[9, 9], 10));
    assert!(!intermediate.packs_within(&[9, 9], 9));
    intermediate.pack(&mut vec![1]);
    assert!(intermediate.packs_within(&[9, 9], 6));
    assert!(!intermediate.packs_within(&[9, 9], 5));
    assert!(!intermediate.packs_within(&vec![0u8; MAX_PAYLOAD_LEN + 1], u64::MAX));

    let abridged = Abridged { announced: true };
    assert!(abridged.packs_within(&[0; 4], 5));
    assert!(!abridged.packs_within(&[0; 4], 4));
    assert!(abridged.packs_within(&[0; 127 * 4], 4 + 127 * 4));
    assert!(!abridged.packs_within(&[0; 127 * 4], 3 + 127 * 4));
    assert!(!abridged.packs_within(&[0; 3], u64::MAX));
    assert!(Abridged::new().packs_within(&[0; 4], 6));
    assert!(!Abridged::new().packs_within(&[0; 4], 5));

    let full = Full::new();
    assert!(full.packs_within(&[1, 2], 14));
    assert!(!full.packs_within(&[1, 2], 13));
}

#[test]
fn full_frame_layout_and_checksum() {
    let mut transport = Full::new();
    let mut buffer = vec![1u8, 2, 3, 4, 5, 6, 7, 8];
    transport.pack(&mut buffer);
    assert_eq!(
        buffer,
        vec![20, 0, 0, 0, 0, 0, 0, 0, 1, 2, 3, 4, 5, 6, 7, 8, 224, 110, 69, 132]
    );
    assert_eq!(transport.send_seq, 1);
    let mut buffer = vec![9u8, 9, 9, 9];
    transport.pack(&mut buffer);
    assert_eq!(buffer, vec![16, 0, 0, 0, 1, 0, 0, 0, 9, 9, 9, 9, 229, 92, 160, 97]);
    assert_eq!(transport.send_seq, 2);
}

#[test]
fn full_unpack_checks_length_sequence_and_checksum() {
    let frame = vec![16u8, 0, 0, 0, 1, 0, 0, 0, 9, 9, 9, 9, 229, 92, 160, 97];
    let mut transport = Full { send_seq: 0, recv_seq: 1 };
    assert_eq!(transport.unpack(&frame[..3]), Err(UnpackError::NeedMoreData));
    assert_eq!(transport.unpack(&frame[..15]), Err(UnpackError::NeedMoreData));
    assert_eq!(transport.recv_seq, 1);
    assert_eq!(
        transport.unpack(&frame),
        Ok(UnpackedOffset { data_start: 8, data_end: 12, next_offset: 16 })
    );
    assert_eq!(transport.recv_seq, 2);
    assert_eq!(transport.unpack(&frame), Err(UnpackError::BadSeq { expected: 2, got: 1 }));
    assert_eq!(transport.recv_seq, 2);

    let mut damaged = frame.clone();
    damaged[9] = 8;
    let mut transport = Full { send_seq: 0, recv_seq: 1 };
    assert_eq!(
        transport.unpack(&damaged),
        Err(UnpackError::BadCrc { expected: 0x61a0_5ce5, got: crc32fast::hash(&damaged[..12]) })
    );
    assert_eq!(transport.unpack(&[11, 0, 0, 0]), Err(UnpackError::BadLen { got: 11 }));
    assert_eq!(
        transport.unpack(&[13, 0, 0, 1]),
        Err(UnpackError::BadLen { got: 0x0100_000d })
    );
}

#[test]
fn full_frame_len_and_check_frame() {
    let frame = vec![12u8, 0, 0, 0, 7, 0, 0, 0, 0x44, 0x33, 0x22, 0x11];
    assert_eq!(Full::frame_len(&frame), Ok(12));
    assert_eq!(Full::frame_len(&frame[..11]), Err(UnpackError::NeedMoreData));
    assert_eq!(
        Full::check_frame(&frame, 12, 7, 0x1122_3344),
        Ok(UnpackedOffset { data_start: 8, data_end: 8, next_offset: 12 })
    );
    assert_eq!(
        Full::check_frame(&frame, 12, 8, 0x1122_3344),
        Err(UnpackError::BadSeq { expected: 8, got: 7 })
    );
    assert_eq!(
        Full::check_frame(&frame, 12, 7, 5),
        Err(UnpackError::BadCrc { expected: 0x1122_3344, got: 5 })
    );
}

#[test]
fn full_round_trip_in_step() {
    let mut sender = Full::new();
    let mut receiver = Full::new();
    for len in [0usize, 4, 5, 1000] {
        let payload: Vec<u8> = (0..len).map(|i| (i % 250) as u8).collect();
        assert_eq!(round_trip(&mut sender, &mut receiver, &payload), payload);
    }
    assert_eq!(sender.send_seq, 4);
    assert_eq!(receiver.recv_seq, 4);
}

#[test]
fn full_sequence_wraps() {
    let mut sender = Full { send_seq: u32::MAX, recv_seq: 0 };
    let mut receiver = Full { send_seq: 0, recv_seq: u32::MAX };
    assert_eq!(round_trip(&mut sender, &mut receiver, &[1, 2]), vec![1, 2]);
    assert_eq!(sender.send_seq, 0);
    assert_eq!(receiver.recv_seq, 0);
}

#[test]
fn full_reset_restarts_sequences() {
    let mut transport = Full { send_seq: 5, recv_seq: 9 };
    transport.reset().unwrap();
    assert_eq!(transport.send_seq, 0);
    assert_eq!(transport.recv_seq, 0);
}
