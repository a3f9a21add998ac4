use hibike_packet::{checksum, cobs_decode};

/// A plain COBS encoder: each run of bytes up to a zero becomes groups of at
/// most 254 bytes, each behind a code byte.
fn cobs_encode(message: &[u8]) -> Vec<u8> {
    let mut output = vec![0u8];
    let mut code_at = 0usize;
    let mut code = 1u8;
    let mut remaining = message.len();
    for &byte in message {
        remaining -= 1;
        if byte != 0 {
            output.push(byte);
            code += 1;
        }
        if byte == 0 || code == 0xff {
            output[code_at] = code;
            code = 1;
            code_at = output.len();
            if byte == 0 || remaining > 0 {
                output.push(0);
            }
        }
    }
    if code_at < output.len() {
        output[code_at] = code;
    }
    output
}

#[test]
fn it_works() {
    assert_eq!(2 + 2, 4);
}

#[test]
fn checksum_of_nothing_is_zero() {
    assert_eq!(checksum(&[]), 0);
}

#[test]
fn checksum_is_the_xor_of_all_bytes() {
    assert_eq!(checksum(&[0x13]), 0x13);
    assert_eq!(checksum(&[0x13, 0x01, 0x2a]), 0x38);
    assert_eq!(checksum(&[0xff, 0x0f, 0xf0]), 0x00);
    assert_eq!(checksum(&[1, 2, 4, 8, 16, 32, 64, 128]), 0xff);
}

#[test]
fn checksum_ignores_order() {
    let bytes = [0x10u8, 0x22, 0x37, 0xfe, 0x00, 0x81];
    let mut reversed = bytes;
    reversed.reverse();
    assert_eq!(checksum(&bytes), checksum(&reversed));
    assert_eq!(checksum(&bytes), 0x10 ^ 0x22 ^ 0x37 ^ 0xfe ^ 0x81);
}

#[test]
fn checksum_of_message_with_its_checksum_is_zero() {
    let mut message = vec![0x14u8, 0x03, 0xaa, 0xbb, 0xcc];
    let sum = checksum(&message);
    message.push(sum);
    assert_eq!(*message.last().unwrap(), checksum(&message[..message.len() - 1]));
    assert_eq!(checksum(&message), 0);
}

#[test]
fn cobs_decode_of_nothing_is_nothing() {
    assert_eq!(cobs_decode(&[]), Vec::<u8>::new());
}

#[test]
fn cobs_decode_known_blocks() {
    assert_eq!(cobs_decode(&[0x01]), Vec::<u8>::new());
    assert_eq!(cobs_decode(&[0x01, 0x01]), vec![0x00]);
    assert_eq!(cobs_decode(&[0x02, 0x11]), vec![0x11]);
    assert_eq!(cobs_decode(&[0x03, 0x11, 0x22, 0x02, 0x33]), vec![0x11, 0x22, 0x00, 0x33]);
    assert_eq!(cobs_decode(&[0x02, 0x11, 0x01, 0x01, 0x01]), vec![0x11, 0x00, 0x00, 0x00]);
    assert_eq!(cobs_decode(&[0x05, 0x13, 0x01, 0x2a, 0x38]), vec![0x13, 0x01, 0x2a, 0x38]);
}

#[test]
fn cobs_decode_rejects_a_block_that_claims_too_much() {
    assert_eq!(cobs_decode(&[0x03, 0x11]), Vec::<u8>::new());
    assert_eq!(cobs_decode(&[0x02, 0x11, 0x05, 0x01]), Vec::<u8>::new());
    assert_eq!(cobs_decode(&[0xff, 0x01, 0x02]), Vec::<u8>::new());
}

#[test]
fn cobs_decode_rejects_a_zero_code() {
    assert_eq!(cobs_decode(&[0x00]), Vec::<u8>::new());
    assert_eq!(cobs_decode(&[0x02, 0x11, 0x00, 0x22]), Vec::<u8>::new());
}

#[test]
fn cobs_decode_full_group_has_no_implied_zero() {
    let mut block = vec![0xffu8];
    block.extend((1..=254u32).map(|i| i as u8));
    block.extend([0x02, 0x77]);
    let mut expected: Vec<u8> = (1..=254u32).map(|i| i as u8).collect();
    expected.push(0x77);
    assert_eq!(cobs_decode(&block), expected);
}

#[test]
fn cobs_decode_short_group_implies_a_zero() {
    let mut block = vec![0xfeu8];
    block.extend((1..=253u32).map(|i| i as u8));
    block.extend([0x02, 0x77]);
    let mut expected: Vec<u8> = (1..=253u32).map(|i| i as u8).collect();
    expected.push(0x00);
    expected.push(0x77);
    assert_eq!(cobs_decode(&block), expected);
}

#[test]
fn cobs_round_trip_short_messages() {
    let messages: Vec<Vec<u8>> = vec![
        vec![],
        vec![0x00],
        vec![0x00, 0x00],
        vec![0x11],
        vec![0x11, 0x00],
        vec![0x00, 0x11],
        vec![0x11, 0x22, 0x00, 0x33],
        vec![0x13, 0x01, 0x2a, 0x38],
        vec![0xff; 7],
    ];
    for message in messages {
        let stuffed = cobs_encode(&message);
        assert!(!stuffed.contains(&0), "stuffed block holds a zero");
        if message.is_empty() {
            assert_eq!(stuffed, vec![0x01]);
        }
        assert_eq!(cobs_decode(&stuffed), message);
    }
}

#[test]
fn cobs_round_trip_long_runs() {
    for len in [253usize, 254, 255, 256, 507, 508, 509, 600] {
        let message: Vec<u8> = (0..len).map(|i| (i % 255) as u8 + 1).collect();
        let stuffed = cobs_encode(&message);
        assert!(!stuffed.contains(&0));
        assert_eq!(cobs_decode(&stuffed), message, "run of {}", len);

        let mut with_zero = message.clone();
        with_zero.push(0);
        with_zero.extend_from_slice(&message);
        let stuffed = cobs_encode(&with_zero);
        assert!(!stuffed.contains(&0));
        assert_eq!(cobs_decode(&stuffed), with_zero, "run of {} twice", len);
    }
}

#[test]
fn cobs_encoder_of_the_tests_is_canonical() {
    assert_eq!(cobs_encode(&[0x11, 0x22, 0x00, 0x33]), vec![0x03, 0x11, 0x22, 0x02, 0x33]);
    assert_eq!(cobs_encode(&[0x00]), vec![0x01, 0x01]);
    let run: Vec<u8> = vec![0x55; 254];
    let mut expected = vec![0xffu8];
    expected.extend_from_slice(&run);
    assert_eq!(cobs_encode(&run), expected);
}
