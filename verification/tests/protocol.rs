use recm2tv::protocol::{
    aes_cbc, build_bcas_apdu, build_secure_command, parse_bcas_response, sha1_bytes, swap_dwords, swap_words,
};
use recm2tv::Error;

#[test]
fn secure_header_encoding_is_word_swapped() {
    let c = build_secure_command(0x01010000, 8, &[1, 2]);
    assert_eq!(&c[..4], &[1, 1, 0, 0]);
    assert_eq!(&c[8..12], &[0, 0, 8, 0]);
}

#[test]
fn swap_rejects_odd_length() {
    assert!(swap_words(&mut [1, 2, 3], 3).is_err());
}

#[test]
fn aes_round_trip() {
    let input = [7u8; 32];
    let key = [3u8; 16];
    assert_eq!(aes_cbc(&key, &aes_cbc(&key, &input, false).unwrap(), true).unwrap(), input);
}

#[test]
fn secure_command_layout_and_truncation() {
    let params: Vec<u8> = (0..600u32).map(|i| (i % 251) as u8).collect();
    let c = build_secure_command(0x0701_0600, 3, &params);
    assert_eq!(&c[..4], &[0x01, 0x07, 0x00, 0x06]);
    assert_eq!(&c[4..8], &[0, 0, 0, 0]);
    assert_eq!(&c[8..12], &[0, 0, 3, 0]);
    assert_eq!(&c[12..16], &[0xff; 4]);
    assert_eq!(&c[16..512], &params[..496]);
    let short = build_secure_command(0, 0, &[9, 8, 7]);
    assert_eq!(&short[16..19], &[9, 8, 7]);
    assert!(short[19..].iter().all(|b| *b == 0));
}

#[test]
fn swap_words_swaps_pairs_and_clamps() {
    let mut d = [1u8, 2, 3, 4, 5, 6];
    swap_words(&mut d, 4).unwrap();
    assert_eq!(d, [2, 1, 4, 3, 5, 6]);
    let mut e = [1u8, 2, 3, 4];
    swap_words(&mut e, 100).unwrap();
    assert_eq!(e, [2, 1, 4, 3]);
    let mut f = [1u8, 2, 3];
    assert_eq!(swap_words(&mut f, 10), Err(Error::InvalidArgument("word-swap length must be even")));
    assert_eq!(f, [1, 2, 3]);
}

#[test]
fn swap_words_twice_is_identity() {
    let orig = [9u8, 8, 7, 6, 5, 4, 3, 2];
    let mut d = orig;
    swap_words(&mut d, 8).unwrap();
    swap_words(&mut d, 8).unwrap();
    assert_eq!(d, orig);
}

#[test]
fn swap_dwords_reverses_words() {
    assert_eq!(swap_dwords(&[1, 2, 3, 4, 5, 6, 7, 8]).unwrap(), vec![4, 3, 2, 1, 8, 7, 6, 5]);
    let once = swap_dwords(&[1, 2, 3, 4, 5, 6, 7, 8]).unwrap();
    assert_eq!(swap_dwords(&once).unwrap(), vec![1, 2, 3, 4, 5, 6, 7, 8]);
    assert_eq!(
        swap_dwords(&[1, 2, 3]),
        Err(Error::InvalidArgument("dword-swap length must be a multiple of four"))
    );
    assert_eq!(swap_dwords(&[]).unwrap(), Vec::<u8>::new());
}

#[test]
fn aes_cbc_matches_fips197_vector() {
    let key: Vec<u8> = (0u8..16).collect();
    let plain = [0x00u8, 0x11, 0x22, 0x33, 0x44, 0x55, 0x66, 0x77, 0x88, 0x99, 0xaa, 0xbb, 0xcc, 0xdd, 0xee, 0xff];
    let expected = [0x69u8, 0xc4, 0xe0, 0xd8, 0x6a, 0x7b, 0x04, 0x30, 0xd8, 0xcd, 0xb7, 0x80, 0x70, 0xb4, 0xc5, 0x5a];
    assert_eq!(aes_cbc(&key, &plain, false).unwrap(), expected);
    assert_eq!(aes_cbc(&key, &expected, true).unwrap(), plain);
}

#[test]
fn aes_cbc_chains_blocks() {
    let key: Vec<u8> = (0u8..16).collect();
    let plain = [0x00u8, 0x11, 0x22, 0x33, 0x44, 0x55, 0x66, 0x77, 0x88, 0x99, 0xaa, 0xbb, 0xcc, 0xdd, 0xee, 0xff];
    let first = [0x69u8, 0xc4, 0xe0, 0xd8, 0x6a, 0x7b, 0x04, 0x30, 0xd8, 0xcd, 0xb7, 0x80, 0x70, 0xb4, 0xc5, 0x5a];
    let mut two = plain.to_vec();
    two.extend_from_slice(&plain);
    let enc = aes_cbc(&key, &two, false).unwrap();
    assert_eq!(&enc[..16], &first);
    assert_ne!(&enc[16..], &first);
    let mut chained = [0u8; 16];
    for i in 0..16 {
        chained[i] = plain[i] ^ first[i];
    }
    assert_eq!(&enc[16..], &aes_cbc(&key, &chained, false).unwrap()[..]);
    assert_eq!(aes_cbc(&key, &enc, true).unwrap(), two);
}

#[test]
fn aes_cbc_rejects_bad_sizes() {
    let err = Err(Error::InvalidArgument("AES-128 CBC requires a 16-byte key and block-aligned input"));
    assert_eq!(aes_cbc(&[0u8; 15], &[0u8; 16], false), err);
    assert_eq!(aes_cbc(&[0u8; 16], &[0u8; 17], true), err);
    assert_eq!(aes_cbc(&[0u8; 16], &[], false).unwrap(), Vec::<u8>::new());
}

#[test]
fn sha1_of_concatenated_parts() {
    let expected = [
        0xa9u8, 0x99, 0x3e, 0x36, 0x47, 0x06, 0x81, 0x6a, 0xba, 0x3e, 0x25, 0x71, 0x78, 0x50, 0xc2, 0x6c, 0x9c, 0xd0,
        0xd8, 0x9d,
    ];
    assert_eq!(sha1_bytes(&[b"abc"]), expected);
    assert_eq!(sha1_bytes(&[b"a", b"", b"bc"]), expected);
    let empty = [
        0xdau8, 0x39, 0xa3, 0xee, 0x5e, 0x6b, 0x4b, 0x0d, 0x32, 0x55, 0xbf, 0xef, 0x95, 0x60, 0x18, 0x90, 0xaf, 0xd8,
        0x07, 0x09,
    ];
    assert_eq!(sha1_bytes(&[]), empty);
}

#[test]
fn bcas_frame_round_trips_through_response_parser() {
    let key = [0x5au8; 16];
    let apdu = [0x90u8, 0x30, 0, 0, 0];
    let (wire, total) = build_bcas_apdu(&apdu, &key).unwrap();
    assert_eq!(total, 10);
    assert_eq!(wire.len(), 16);
    let body = parse_bcas_response(&wire, &key, wire.len()).unwrap();
    assert_eq!(body, vec![0x30, 0x90, 0, 0, 0, 0, 0, 0, 0, 0, 0, 0]);
    let mut frame = vec![0xffu8, 0, 0xff, 0];
    frame.extend_from_slice(&body);
    let mut expected = aes_cbc(&key, &frame, false).unwrap();
    swap_words(&mut expected, 16).unwrap();
    assert_eq!(wire, expected);
}

#[test]
fn bcas_apdu_length_limits() {
    let key = [1u8; 16];
    let out_of_range = Err(Error::InvalidArgument("B-CAS APDU length out of range"));
    assert_eq!(build_bcas_apdu(&[], &key), out_of_range);
    assert_eq!(build_bcas_apdu(&[0u8; 0x10d], &key), out_of_range);
    let (wire, total) = build_bcas_apdu(&[0u8; 0x10c], &key).unwrap();
    assert_eq!(total, 272);
    assert_eq!(wire.len(), 0x110);
    let (wire, total) = build_bcas_apdu(&[7u8; 3], &key).unwrap();
    assert_eq!(total, 8);
    assert_eq!(wire.len(), 16);
    assert_eq!(
        build_bcas_apdu(&[1u8], &[0u8; 8]),
        Err(Error::InvalidArgument("AES-128 CBC requires a 16-byte key and block-aligned input"))
    );
}

#[test]
fn bcas_response_rejections() {
    let key = [2u8; 16];
    let bad_len = Err(Error::InvalidArgument("invalid B-CAS response length"));
    assert_eq!(parse_bcas_response(&[0u8; 32], &key, 0), bad_len);
    assert_eq!(parse_bcas_response(&[0u8; 32], &key, 33), bad_len);
    assert_eq!(parse_bcas_response(&[0u8; 32], &key, 17), bad_len);
    assert_eq!(parse_bcas_response(&[0u8; 600], &key, 528), bad_len);
    assert_eq!(
        parse_bcas_response(&[0u8; 16], &key, 16),
        Err(Error::ProtocolUnavailable("B-CAS response header validation failed"))
    );
}
