use aes::cipher::{KeyIvInit, StreamCipher, StreamCipherSeek};
use mtproto_transport::abridged::Abridged;
use mtproto_transport::intermediate::Intermediate;
use mtproto_transport::keystream::Keystream;
use mtproto_transport::obfuscated::{
    derive_keys, directions, draw_block, is_acceptable, judge_draw, settle_draw, splice_tail,
    tag_block, Drawing, Obfuscated, MAX_DRAWS,
};
use mtproto_transport::transport::{KeyError, Transport, UnpackedOffset};

type Aes256Ctr = ctr::Ctr128BE<aes::Aes256>;

fn sample_block() -> [u8; 64] {
    let mut block = [0u8; 64];
    for (i, b) in block.iter_mut().enumerate() {
        *b = (i as u8).wrapping_mul(7).wrapping_add(3);
    }
    block
}

fn block_starting(prefix: [u8; 4]) -> [u8; 64] {
    let mut block = sample_block();
    block[..4].copy_from_slice(&prefix);
    block
}

fn unhex(text: &str) -> Vec<u8> {
    (0..text.len() / 2)
        .map(|i| u8::from_str_radix(&text[2 * i..2 * i + 2], 16).unwrap())
        .collect()
}

#[test]
fn keystream_matches_published_vector() {
    let key: [u8; 32] =
        unhex("603deb1015ca71be2b73aef0857d77811f352c073b6108d72d9810a30914dff4")
            .try_into()
            .unwrap();
    let iv: [u8; 16] = unhex("f0f1f2f3f4f5f6f7f8f9fafbfcfdfeff").try_into().unwrap();
    let mut stream = Keystream::new(key, iv);
    let mut data = unhex("6bc1bee22e409f96e93d7e117393172a");
    stream.apply(&mut data);
    assert_eq!(data, unhex("601ec313775789a5b7a7f504bbf3d228"));
    assert_eq!(stream.position, 16);
    let mut more = unhex("ae2d8a571e03ac9c9eb76fac45af8e51");
    stream.apply(&mut more);
    assert_eq!(more, unhex("f443e3ca4d62b59aca84e990cacaf5c5"));
    assert_eq!(stream.position, 32);
}

#[test]
fn keystream_in_pieces_equals_keystream_at_once() {
    let key = [0x42u8; 32];
    let iv = [0x24u8; 16];
    let plain: Vec<u8> = (0..100u8).collect();

    let mut whole = plain.clone();
    Aes256Ctr::new(&key.into(), &iv.into()).apply_keystream(&mut whole);

    let mut stream = Keystream::new(key, iv);
    let mut pieces = Vec::new();
    for chunk in [&plain[..5], &plain[5..16], &plain[16..17], &plain[17..70], &plain[70..]] {
        let mut part = chunk.to_vec();
        assert!(stream.can_apply(part.len()));
        stream.apply(&mut part);
        pieces.extend_from_slice(&part);
    }
    assert_eq!(pieces, whole);
    assert_ne!(pieces, plain);
    assert_eq!(stream.position, 100);
}

#[test]
fn keystream_applied_twice_restores() {
    let mut first = Keystream::new([7; 32], [9; 16]);
    let mut second = first;
    let mut data = vec![1u8, 2, 3, 4, 5, 6, 7];
    first.apply(&mut data);
    assert_ne!(data, vec![1u8, 2, 3, 4, 5, 6, 7]);
    second.apply(&mut data);
    assert_eq!(data, vec![1u8, 2, 3, 4, 5, 6, 7]);
}

#[test]
fn keystream_room_ends_at_last_position() {
    let stream = Keystream { key: [0; 32], iv: [0; 16], position: u64::MAX - 3 };
    assert!(stream.can_apply(3));
    assert!(!stream.can_apply(4));
}

#[test]
fn reserved_prefixes_are_turned_down() {
    let reserved: [[u8; 4]; 9] = [
        [0x44, 0x41, 0x45, 0x48],
        [0x54, 0x53, 0x4f, 0x50],
        [0x20, 0x54, 0x45, 0x47],
        [0x49, 0x54, 0x50, 0x4f],
        [0x02, 0x01, 0x03, 0x16],
        [0xdd, 0xdd, 0xdd, 0xdd],
        [0xee, 0xee, 0xee, 0xee],
        [0x50, 0x4f, 0x53, 0x54],
        [0x47, 0x45, 0x54, 0x20],
    ];
    for prefix in reserved {
        assert!(!is_acceptable(&block_starting(prefix)));
        let mut near = prefix;
        near[3] ^= 1;
        assert!(is_acceptable(&block_starting(near)));
    }
}

#[test]
fn first_byte_ef_is_turned_down() {
    assert!(!is_acceptable(&block_starting([0xef, 1, 2, 3])));
    assert!(is_acceptable(&block_starting([0xee, 1, 2, 3])));
}

#[test]
fn zero_second_word_is_turned_down() {
    let mut block = sample_block();
    block[4..8].copy_from_slice(&[0, 0, 0, 0]);
    assert!(!is_acceptable(&block));
    block[7] = 1;
    assert!(is_acceptable(&block));
    assert!(!is_acceptable(&[0u8; 64]));
}

#[test]
fn sample_block_is_acceptable() {
    assert!(is_acceptable(&sample_block()));
}

#[test]
fn tag_is_written_at_offset_56() {
    let block = sample_block();
    let plain = tag_block(block, [1, 2, 3, 4]);
    assert_eq!(&plain[56..60], &[1, 2, 3, 4]);
    assert_eq!(&plain[..56], &block[..56]);
    assert_eq!(&plain[60..], &block[60..]);
}

#[test]
fn directions_read_the_block_both_ways() {
    let block = sample_block();
    let (rx, tx) = directions(&block);
    assert_eq!(&tx.key[..], &block[8..40]);
    assert_eq!(&tx.iv[..], &block[40..56]);
    let reversed: Vec<u8> = block.iter().rev().copied().collect();
    assert_eq!(&rx.key[..], &reversed[8..40]);
    assert_eq!(&rx.iv[..], &reversed[40..56]);
    assert_eq!(rx.position, 0);
    assert_eq!(tx.position, 0);
    assert_ne!(rx.key, tx.key);
}

#[test]
fn splice_takes_the_last_eight_bytes() {
    let block = [1u8; 64];
    let encrypted: Vec<u8> = (100..164u8).collect();
    let header = splice_tail(block, &encrypted);
    assert_eq!(&header[..56], &[1u8; 56][..]);
    assert_eq!(&header[56..], &[156u8, 157, 158, 159, 160, 161, 162, 163]);
}

#[test]
fn derived_header_carries_tag_for_the_peer() {
    let block = sample_block();
    let keys = derive_keys(block, [0x01, 0x02, 0x03, 0x04]);
    assert_eq!(&keys.header[..56], &block[..56]);
    assert!(is_acceptable(&keys.header));
    assert_eq!(keys.tx.position, 64);
    assert_eq!(keys.rx.position, 0);
    assert_eq!(&keys.tx.key[..], &keys.header[8..40]);
    assert_eq!(&keys.tx.iv[..], &keys.header[40..56]);

    // The peer reads key and vector from the header and decrypts all of it.
    let mut cipher = Aes256Ctr::new_from_slices(&keys.header[8..40], &keys.header[40..56]).unwrap();
    let mut seen = keys.header.to_vec();
    cipher.apply_keystream(&mut seen);
    assert_eq!(&seen[56..60], &[0x01, 0x02, 0x03, 0x04]);
    assert_eq!(&seen[60..64], &block[60..64]);
    // On the wire the tag is not in the clear.
    assert_ne!(&keys.header[56..60], &[0x01, 0x02, 0x03, 0x04]);
}

#[test]
fn derived_header_equals_reference_computation() {
    let block = sample_block();
    let mut init = block;
    init[56..60].copy_from_slice(&[0xee, 0xee, 0xee, 0xee]);
    let mut cipher = Aes256Ctr::new_from_slices(&init[8..40], &init[40..56]).unwrap();
    let mut encrypted = init.to_vec();
    cipher.apply_keystream(&mut encrypted);
    init[56..64].copy_from_slice(&encrypted[56..64]);

    let keys = derive_keys(block, [0xee, 0xee, 0xee, 0xee]);
    assert_eq!(keys.header, init);
}

#[test]
fn end_to_end_header_once_then_frames() {
    let mut transport = Obfuscated::from_block(Intermediate::new(), sample_block()).unwrap();
    assert!(transport.header_pending());
    assert!(transport.get_ref().announced);
    let payload = vec![10u8, 20, 30, 40];
    let mut first = payload.clone();
    transport.pack(&mut first);
    let framed_len = 4 + payload.len();
    assert_eq!(first.len(), 64 + framed_len);
    assert!(!transport.header_pending());
    assert_eq!(transport.tx_keystream().position, 64 + framed_len as u64);

    let mut cipher = Aes256Ctr::new_from_slices(&first[8..40], &first[40..56]).unwrap();
    let mut seen = first.clone();
    cipher.apply_keystream(&mut seen);
    assert_eq!(&seen[56..60], &[0xee, 0xee, 0xee, 0xee]);
    assert_eq!(&seen[64..], &[4, 0, 0, 0, 10, 20, 30, 40]);

    let mut second = vec![50u8, 60, 70, 80];
    transport.pack(&mut second);
    assert_eq!(second.len(), 8);
    cipher.apply_keystream(&mut second);
    assert_eq!(second, vec![4, 0, 0, 0, 50, 60, 70, 80]);
}

#[test]
fn received_bytes_are_deobfuscated_in_order() {
    let mut transport = Obfuscated::from_block(Abridged::new(), sample_block()).unwrap();
    let rx = transport.rx_keystream();

    // What the peer sends: abridged frames under the receiving keystream.
    let mut peer = Aes256Ctr::new(&rx.key.into(), &rx.iv.into());
    let clear = vec![1u8, 9, 8, 7, 6, 2, 1, 2, 3, 4, 5, 6, 7, 8];
    let mut sent = clear.clone();
    peer.apply_keystream(&mut sent);

    let mut first = sent[..3].to_vec();
    transport.deobfuscate(&mut first);
    let mut rest = sent[3..].to_vec();
    transport.deobfuscate(&mut rest);
    first.extend_from_slice(&rest);
    assert_eq!(first, clear);
    assert_eq!(transport.rx_keystream().position, 14);

    assert_eq!(
        transport.unpack(&first),
        Ok(UnpackedOffset { data_start: 1, data_end: 5, next_offset: 5 })
    );
    assert_eq!(
        transport.unpack(&first[5..]),
        Ok(UnpackedOffset { data_start: 1, data_end: 9, next_offset: 9 })
    );
}

#[test]
fn directions_are_not_interchangeable() {
    let mut transport = Obfuscated::from_block(Intermediate::new(), sample_block()).unwrap();
    let payload = vec![1u8, 2, 3, 4, 5, 6, 7, 8];
    let mut packet = payload.clone();
    transport.pack(&mut packet);
    let mut body = packet[64..].to_vec();
    // Decrypting with the receiving keystream what the sending one encrypted.
    transport.deobfuscate(&mut body);
    assert_ne!(&body[4..], &payload[..]);
    let intact = UnpackedOffset { data_start: 4, data_end: 12, next_offset: 12 };
    assert!(transport.unpack(&body) != Ok(intact));
}

#[test]
fn unacceptable_block_is_rejected() {
    let outcome = Obfuscated::from_block(Intermediate::new(), block_starting([0xef, 0, 0, 0]));
    assert!(matches!(outcome, Err(KeyError::Rejected)));
    let outcome = Obfuscated::from_block(Intermediate::new(), [0u8; 64]);
    assert!(matches!(outcome, Err(KeyError::Rejected)));
}

#[test]
fn draws_are_judged() {
    assert_eq!(judge_draw(Ok(sample_block())), Ok(Some(sample_block())));
    assert_eq!(judge_draw(Ok(block_starting([0xdd, 0xdd, 0xdd, 0xdd]))), Ok(None));
    assert_eq!(judge_draw(Ok([0u8; 64])), Ok(None));
    assert_eq!(judge_draw(Err(getrandom::Error::UNSUPPORTED)), Err(KeyError::RandomSource));
}

#[test]
fn acceptable_draw_is_kept_whatever_is_left() {
    for left in [1usize, 2, 100, MAX_DRAWS] {
        assert_eq!(settle_draw(Ok(sample_block()), left), Drawing::Keep(sample_block()));
    }
}

#[test]
fn rejected_draw_is_followed_by_another() {
    let rejected = block_starting([0xef, 1, 2, 3]);
    for left in [2usize, 3, 100, MAX_DRAWS] {
        assert_eq!(settle_draw(Ok(rejected), left), Drawing::Again);
        assert_eq!(settle_draw(Ok([0u8; 64]), left), Drawing::Again);
    }
}

#[test]
fn last_rejected_draw_gives_up() {
    assert_eq!(MAX_DRAWS, 256);
    let rejected = block_starting([0x50, 0x4f, 0x53, 0x54]);
    assert_eq!(settle_draw(Ok(rejected), 1), Drawing::GiveUp(KeyError::Rejected));
    assert_eq!(settle_draw(Ok(rejected), 0), Drawing::GiveUp(KeyError::Rejected));
}

#[test]
fn failing_source_ends_the_drawing() {
    for left in [1usize, 2, MAX_DRAWS] {
        assert_eq!(
            settle_draw(Err(getrandom::Error::UNSUPPORTED), left),
            Drawing::GiveUp(KeyError::RandomSource)
        );
    }
}

#[test]
fn obfuscated_can_pack_follows_inner_and_keystream_room() {
    let mut transport = Obfuscated::from_block(Abridged::new(), sample_block()).unwrap();
    assert!(transport.can_pack(&[1, 2, 3, 4]));
    assert!(!transport.can_pack(&[1, 2, 3]));
    // Header and one-byte length come on top of the payload.
    assert!(transport.packs_within(&[1, 2, 3, 4], 69));
    assert!(!transport.packs_within(&[1, 2, 3, 4], 68));
    assert!(!transport.packs_within(&[1, 2, 3, 4], 63));
    let mut packet = vec![1u8, 2, 3, 4];
    transport.pack(&mut packet);
    assert_eq!(packet.len(), 69);
    assert!(transport.packs_within(&[1, 2, 3, 4], 5));
    assert!(!transport.packs_within(&[1, 2, 3, 4], 4));
}

#[test]
fn drawn_blocks_are_acceptable() {
    for _ in 0..200 {
        let block = draw_block().unwrap();
        assert!(is_acceptable(&block));
    }
}

#[test]
fn drawn_blocks_differ() {
    let a = draw_block().unwrap();
    let b = draw_block().unwrap();
    assert_ne!(a, b);
}

#[test]
fn new_transport_has_pending_acceptable_header() {
    let mut transport = Obfuscated::new(Intermediate::new()).unwrap();
    let header = transport.pending_header().unwrap();
    assert!(is_acceptable(&header));
    assert_eq!(transport.tx_keystream().position, 64);
    assert_eq!(transport.rx_keystream().position, 0);
    assert_eq!(&transport.tx_keystream().key[..], &header[8..40]);
    assert_eq!(&transport.tx_keystream().iv[..], &header[40..56]);

    let mut cipher = Aes256Ctr::new_from_slices(&header[8..40], &header[40..56]).unwrap();
    cipher.seek(56u64);
    let mut tag = header[56..60].to_vec();
    cipher.apply_keystream(&mut tag);
    assert_eq!(tag, vec![0xee, 0xee, 0xee, 0xee]);

    let mut packet = vec![1u8, 2, 3, 4];
    transport.pack(&mut packet);
    assert_eq!(&packet[..64], &header[..]);
    assert_eq!(packet.len(), 72);
}

#[test]
fn rekey_replaces_header_and_keystreams() {
    let mut transport = Obfuscated::from_block(Intermediate::new(), sample_block()).unwrap();
    let mut packet = vec![1u8, 2, 3, 4];
    transport.pack(&mut packet);
    let mut received = vec![0u8; 10];
    transport.deobfuscate(&mut received);
    assert!(!transport.header_pending());

    let mut block = sample_block();
    block[20] ^= 0x55;
    assert_eq!(transport.rekey(block), Ok(()));
    let expected = derive_keys(block, [0xee, 0xee, 0xee, 0xee]);
    assert_eq!(transport.pending_header(), Some(expected.header));
    assert_eq!(transport.tx_keystream().key, expected.tx.key);
    assert_eq!(transport.tx_keystream().iv, expected.tx.iv);
    assert_eq!(transport.tx_keystream().position, 64);
    assert_eq!(transport.rx_keystream().key, expected.rx.key);
    assert_eq!(transport.rx_keystream().iv, expected.rx.iv);
    assert_eq!(transport.rx_keystream().position, 0);
    assert!(transport.get_ref().announced);

    let mut packet = vec![1u8, 2, 3, 4];
    transport.pack(&mut packet);
    assert_eq!(packet.len(), 64 + 8);
    assert_eq!(&packet[..64], &expected.header[..]);
}

#[test]
fn rekey_turns_unacceptable_block_down_and_changes_nothing() {
    let mut transport = Obfuscated::from_block(Abridged::new(), sample_block()).unwrap();
    let mut packet = vec![1u8, 2, 3, 4];
    transport.pack(&mut packet);
    let tx = transport.tx_keystream();
    let rx = transport.rx_keystream();

    assert_eq!(transport.rekey(block_starting([0x47, 0x45, 0x54, 0x20])), Err(KeyError::Rejected));
    assert_eq!(transport.rekey([0u8; 64]), Err(KeyError::Rejected));
    assert!(!transport.header_pending());
    assert_eq!(transport.tx_keystream().key, tx.key);
    assert_eq!(transport.tx_keystream().position, tx.position);
    assert_eq!(transport.rx_keystream().key, rx.key);
    assert_eq!(transport.rx_keystream().position, rx.position);
}

#[test]
fn reset_brings_new_header_and_keys() {
    let mut transport = Obfuscated::new(Abridged::new()).unwrap();
    let before = transport.pending_header().unwrap();
    let mut packet = vec![1u8, 2, 3, 4];
    transport.pack(&mut packet);
    assert!(!transport.header_pending());
    let mut received = vec![0u8; 10];
    transport.deobfuscate(&mut received);
    assert_eq!(transport.rx_keystream().position, 10);

    transport.reset().unwrap();
    let after = transport.pending_header().unwrap();
    assert_ne!(before, after);
    let mut cipher = Aes256Ctr::new_from_slices(&after[8..40], &after[40..56]).unwrap();
    let mut seen = after.to_vec();
    cipher.apply_keystream(&mut seen);
    assert_eq!(&seen[56..60], &[0xef, 0xef, 0xef, 0xef]);
    assert!(is_acceptable(&after));
    assert_eq!(transport.tx_keystream().position, 64);
    assert_eq!(transport.rx_keystream().position, 0);
    assert!(transport.get_ref().announced);

    let mut packet = vec![1u8, 2, 3, 4];
    transport.pack(&mut packet);
    assert_eq!(packet.len(), 64 + 5);
    assert_eq!(&packet[..64], &after[..]);
}
