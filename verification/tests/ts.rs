use aes::cipher::generic_array::GenericArray;
use aes::cipher::{BlockDecrypt, BlockEncrypt, KeyInit};
use aes::Aes128;
use recm2tv::ts::{decrypt_packet, synchronize, IV, TS_PACKET_SIZE};

#[test]
fn sync_keeps_partial_packet() {
    let mut c = vec![1, 2];
    let p = vec![0x47; 188];
    let out = synchronize(&p[..100], &mut c);
    assert!(out.is_empty());
    let out = synchronize(&p[100..], &mut c);
    assert_eq!(out.len(), 1);
}

#[test]
fn decrypt_rejects_bad_bounds() {
    assert!(!decrypt_packet(&mut [0; 188], &[0; 16]));
    assert!(!decrypt_packet(&mut [0x47; 188], &[0; 15]));
}

fn packet(fill: u8) -> Vec<u8> {
    let mut p = vec![fill; TS_PACKET_SIZE];
    p[0] = 0x47;
    p
}

#[test]
fn sync_skips_garbage_and_keeps_tail() {
    let mut carry = Vec::new();
    let mut stream = vec![0u8, 1, 2];
    stream.extend(packet(0x11));
    stream.push(9);
    stream.extend(packet(0x22));
    stream.extend_from_slice(&[0x47, 5, 6]);
    let out = synchronize(&stream, &mut carry);
    assert_eq!(out.len(), 2);
    assert_eq!(out[0].to_vec(), packet(0x11));
    assert_eq!(out[1].to_vec(), packet(0x22));
    assert_eq!(carry, vec![0x47, 5, 6]);
}

#[test]
fn sync_in_pieces_equals_sync_at_once() {
    let mut stream = vec![3u8, 4];
    for k in 0..5u8 {
        stream.extend(packet(k));
        stream.push(0xaa);
    }
    let mut whole_carry = Vec::new();
    let whole = synchronize(&stream, &mut whole_carry);
    for cut in [0usize, 1, 50, 188, 190, 400, stream.len()] {
        let mut carry = Vec::new();
        let mut pieces = synchronize(&stream[..cut], &mut carry);
        pieces.extend(synchronize(&stream[cut..], &mut carry));
        assert_eq!(pieces, whole);
        assert_eq!(carry, whole_carry);
    }
    assert_eq!(whole.len(), 5);
}

fn reference_descramble(p: &[u8], key: &[u8; 16], offset: usize) -> Vec<u8> {
    let cipher = Aes128::new(GenericArray::from_slice(key));
    let mut out = p.to_vec();
    out[3] &= 0x3f;
    let len = TS_PACKET_SIZE - offset;
    let cbc_len = len / 16 * 16;
    let mut prev = IV;
    for b in 0..cbc_len / 16 {
        let start = offset + 16 * b;
        let mut block = GenericArray::clone_from_slice(&p[start..start + 16]);
        cipher.decrypt_block(&mut block);
        for i in 0..16 {
            out[start + i] = block[i] ^ prev[i];
        }
        prev.copy_from_slice(&p[start..start + 16]);
    }
    let ofb: [u8; 16] = if cbc_len >= 16 {
        p[offset + cbc_len - 16..offset + cbc_len].try_into().unwrap()
    } else {
        IV
    };
    let mut stream = GenericArray::clone_from_slice(&ofb);
    cipher.encrypt_block(&mut stream);
    for i in 0..len - cbc_len {
        out[offset + cbc_len + i] = p[offset + cbc_len + i] ^ stream[i];
    }
    out
}

#[test]
fn decrypt_payload_only_packet() {
    let key = [0x42u8; 16];
    let mut p: Vec<u8> = (0..TS_PACKET_SIZE).map(|i| (i * 7 + 3) as u8).collect();
    p[0] = 0x47;
    p[3] = 0x80 | 0x10 | 0x05;
    let expected = reference_descramble(&p, &key, 4);
    let mut q = p.clone();
    assert!(decrypt_packet(&mut q, &key));
    assert_eq!(q, expected);
    assert_eq!(q[3], 0x15);
    assert_ne!(q[4..], p[4..]);
    // A descrambled packet is left alone.
    let again = q.clone();
    assert!(!decrypt_packet(&mut q, &key));
    assert_eq!(q, again);
}

#[test]
fn decrypt_packet_with_adaptation_field() {
    let key: [u8; 16] = core::array::from_fn(|i| i as u8);
    let mut p: Vec<u8> = (0..TS_PACKET_SIZE).map(|i| (i * 13) as u8).collect();
    p[0] = 0x47;
    p[3] = 0xc0 | 0x30;
    p[4] = 20;
    let expected = reference_descramble(&p, &key, 25);
    let mut q = p.clone();
    assert!(decrypt_packet(&mut q, &key));
    assert_eq!(q, expected);
    assert_eq!(&q[..3], &p[..3]);
    assert_eq!(&q[4..25], &p[4..25]);
}

#[test]
fn decrypt_short_payload_uses_iv_stream() {
    let key = [9u8; 16];
    let mut p = vec![0u8; TS_PACKET_SIZE];
    p[0] = 0x47;
    p[3] = 0x80 | 0x30;
    p[4] = 170; // payload starts at 175: 13 bytes, no whole block
    let expected = reference_descramble(&p, &key, 175);
    let mut q = p.clone();
    assert!(decrypt_packet(&mut q, &key));
    assert_eq!(q, expected);
}

#[test]
fn decrypt_refusals_leave_packet_unchanged() {
    let key = [1u8; 16];
    let mut clear = packet(5);
    clear[3] = 0x10;
    let before = clear.clone();
    assert!(!decrypt_packet(&mut clear, &key));
    assert_eq!(clear, before);

    let mut adaptation_only = packet(5);
    adaptation_only[3] = 0x80 | 0x20;
    let before = adaptation_only.clone();
    assert!(!decrypt_packet(&mut adaptation_only, &key));
    assert_eq!(adaptation_only, before);

    let mut offset_outside = packet(5);
    offset_outside[3] = 0x80 | 0x30;
    offset_outside[4] = 183;
    assert!(!decrypt_packet(&mut offset_outside, &key));

    let mut short = vec![0x47u8; 100];
    short[3] = 0x90;
    assert!(!decrypt_packet(&mut short, &key));
}
