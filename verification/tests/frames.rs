use small_world::protocol::{decode_header, encode_frame, MAX_FRAME_BYTES};
use small_world::text::{decimal_text, numbered};

#[test]
fn a_frame_announces_the_length_of_its_payload() {
    let payload: Vec<u8> = (0..=255u8).cycle().take(70_000).collect();
    let frame = encode_frame(payload.clone()).unwrap();
    assert_eq!(frame[..4], [0x00, 0x01, 0x11, 0x70]);
    assert_eq!(frame[4..], payload[..]);
    assert_eq!(decode_header(&frame[..4]), Ok(Some(70_000)));
    assert_eq!(encode_frame(Vec::new()).unwrap(), vec![0, 0, 0, 0]);
}

#[test]
fn a_cut_off_header_is_the_end_of_the_stream() {
    assert_eq!(decode_header(&[]), Ok(None));
    assert_eq!(decode_header(&[0, 0, 1]), Ok(None));
}

#[test]
fn frames_above_the_limit_are_refused() {
    assert_eq!(decode_header(&[0x10, 0, 0, 0]), Ok(Some(MAX_FRAME_BYTES)));
    assert_eq!(
        decode_header(&[0x10, 0, 0, 1]).unwrap_err(),
        "incoming protocol frame is 268435457 bytes"
    );
    assert_eq!(
        encode_frame(vec![0; MAX_FRAME_BYTES + 1]).unwrap_err(),
        "protocol frame exceeds 268435456 bytes"
    );
}

#[test]
fn numbers_are_written_in_decimal() {
    assert_eq!(decimal_text(0), "0");
    assert_eq!(decimal_text(9), "9");
    assert_eq!(decimal_text(10), "10");
    assert_eq!(decimal_text(u64::MAX), u64::MAX.to_string());
    assert_eq!(numbered("a ", 907, " b"), "a 907 b");
}

#[test]
fn frames_are_read_back_in_order_until_the_stream_ends() {
    let payloads: Vec<Vec<u8>> = vec![vec![7; 300], Vec::new(), vec![1, 2, 3]];
    let mut stream = Vec::new();
    for payload in &payloads {
        stream.extend(encode_frame(payload.clone()).unwrap());
    }
    let mut rest = &stream[..];
    let mut read = Vec::new();
    while let Some(length) = decode_header(&rest[..rest.len().min(4)]).unwrap() {
        read.push(rest[4..4 + length].to_vec());
        rest = &rest[4 + length..];
    }
    assert_eq!(read, payloads);
    assert!(rest.is_empty());
}
