//! MPEG-TS packet synchronisation and descrambling of scrambled packets.

use crate::crypto::{aes128_encrypt_block, aes128_encrypt_spec};
use crate::protocol::{block_of, cbc_decrypt_blocks, cbc_decrypt_spec, xor_spec};
use vstd::prelude::*;

verus! {

pub const TS_PACKET_SIZE: usize = 188;

/// The fixed initialisation vector of the scrambled-payload cipher.
pub const IV: [u8; 16] = [
    0xec, 0x8f, 0x4b, 0x6a, 0xd9, 0x2a, 0x36, 0x89, 0x2b, 0xdf, 0xb6, 0x18, 0xfc, 0x25, 0x5e, 0xfc,
];

/// Splits a byte stream into transport packets: a packet is taken wherever
/// a sync byte (0x47) starts 188 available bytes, the scan resumes right after
/// it, and any other byte is skipped.  The scan stops when fewer than 188
/// bytes remain; those bytes are returned as the leftover.
pub open spec fn sync_scan(buf: Seq<u8>) -> (Seq<Seq<u8>>, Seq<u8>)
    decreases buf.len(),
{
    if buf.len() < TS_PACKET_SIZE {
        (Seq::empty(), buf)
    } else if buf[0] != 0x47u8 {
        sync_scan(buf.drop_first())
    } else {
        let rest = sync_scan(buf.skip(TS_PACKET_SIZE as int));
        (seq![buf.take(TS_PACKET_SIZE as int)] + rest.0, rest.1)
    }
}

/// The byte contents of a list of packets.
pub open spec fn packet_views(v: Seq<[u8; TS_PACKET_SIZE]>) -> Seq<Seq<u8>> {
    v.map_values(|p: [u8; TS_PACKET_SIZE]| p@)
}

/// Appends `input` to the bytes carried over from earlier calls and cuts
/// out every complete packet that starts with the sync byte.  The bytes
/// after the last packet that cannot yet form one stay in `carry`.
pub fn synchronize(input: &[u8], carry: &mut Vec<u8>) -> (out: Vec<[u8; TS_PACKET_SIZE]>)
    requires
        old(carry)@.len() + input@.len() <= usize::MAX,
    ensures
        packet_views(out@) == sync_scan(old(carry)@ + input@).0,
        final(carry)@ == sync_scan(old(carry)@ + input@).1,
        final(carry)@.len() < TS_PACKET_SIZE,
        final(carry)@.is_suffix_of(old(carry)@ + input@),
{
    proof {
        lemma_sync_packets_well_formed(old(carry)@ + input@);
        lemma_sync_leftover_suffix(old(carry)@ + input@);
    }
    carry.extend_from_slice(input);
    let ghost buf = carry@;
    assert(buf =~= old(carry)@ + input@);
    let len = carry.len();
    let mut out: Vec<[u8; TS_PACKET_SIZE]> = Vec::new();
    let mut pos: usize = 0;
    assert(buf.skip(0) =~= buf);
    assert(packet_views(out@) + sync_scan(buf).0 =~= sync_scan(buf).0);
    while pos < len && len - pos >= TS_PACKET_SIZE
        invariant
            carry@ == buf,
            len == buf.len(),
            pos <= len,
            sync_scan(buf) == (packet_views(out@) + sync_scan(buf.skip(pos as int)).0, sync_scan(buf.skip(pos as int)).1),
        decreases len - pos,
    {
        let ghost rest = buf.skip(pos as int);
        if carry[pos] != 0x47 {
            assert(rest.drop_first() =~= buf.skip(pos + 1));
            pos = pos + 1;
        } else {
            let mut p = [0u8; TS_PACKET_SIZE];
            let mut k: usize = 0;
            while k < TS_PACKET_SIZE
                invariant
                    carry@ == buf,
                    len == buf.len(),
                    pos + TS_PACKET_SIZE <= len,
                    k <= TS_PACKET_SIZE,
                    forall|j: int| 0 <= j < k ==> p@[j] == buf[pos + j],
                decreases TS_PACKET_SIZE - k,
            {
                p[k] = carry[pos + k];
                k = k + 1;
            }
            assert(p@ =~= rest.take(TS_PACKET_SIZE as int));
            assert(rest.skip(TS_PACKET_SIZE as int) =~= buf.skip(pos + TS_PACKET_SIZE));
            let ghost before = out@;
            out.push(p);
            assert(packet_views(out@) =~= packet_views(before).push(p@));
            let ghost tail = sync_scan(buf.skip(pos + TS_PACKET_SIZE));
            assert(packet_views(before) + (seq![p@] + tail.0) =~= packet_views(out@) + tail.0);
            pos = pos + TS_PACKET_SIZE;
        }
    }
    assert(buf.skip(pos as int).len() < TS_PACKET_SIZE);
    assert(packet_views(out@) + Seq::<Seq<u8>>::empty() =~= packet_views(out@));
    let mut rest: Vec<u8> = Vec::new();
    let mut k: usize = pos;
    while k < len
        invariant
            carry@ == buf,
            len == buf.len(),
            pos <= k <= len,
            rest@ == buf.subrange(pos as int, k as int),
        decreases len - k,
    {
        rest.push(carry[k]);
        assert(buf.subrange(pos as int, k + 1) =~= buf.subrange(pos as int, k as int).push(buf[k as int]));
        k = k + 1;
    }
    assert(rest@ =~= buf.skip(pos as int));
    *carry = rest;
    out
}

/// Where the payload of a packet starts: after the 4-byte header, and after
/// the adaptation field when the packet carries one before its payload.
pub open spec fn payload_offset(p: Seq<u8>) -> int {
    if (p[3] >> 4u8) & 3u8 == 3u8 {
        5 + p[4]
    } else {
        4
    }
}

/// Whether `decrypt_packet` descrambles `p` under `key`: a whole packet that
/// starts with the sync byte, a 16-byte key, scrambling-control bits set, a
/// payload present, and a payload offset inside the packet.
pub open spec fn descramble_applies(p: Seq<u8>, key: Seq<u8>) -> bool {
    &&& p.len() == TS_PACKET_SIZE
    &&& p[0] == 0x47u8
    &&& key.len() == 16
    &&& p[3] >> 6u8 != 0u8
    &&& (p[3] >> 4u8) & 3u8 != 2u8
    &&& payload_offset(p) < TS_PACKET_SIZE
}

/// The descrambled packet: the whole 16-byte blocks of the payload are
/// AES-128-CBC decrypted from `IV`; the residual bytes are XORed with the
/// encryption of the last ciphertext block (or of `IV` when there is no whole
/// block); the scrambling-control bits of the header are cleared.
pub open spec fn descrambled(p: Seq<u8>, key: Seq<u8>) -> Seq<u8> {
    let off = payload_offset(p);
    let payload = p.skip(off);
    let cbc_len: int = (payload.len() / 16 * 16) as int;
    let ofb_iv = if cbc_len >= 16 { payload.subrange(cbc_len - 16, cbc_len) } else { IV@ };
    p.take(off).update(3, p[3] & 0x3fu8) + cbc_decrypt_spec(key, IV@, payload.take(cbc_len))
        + xor_spec(payload.skip(cbc_len), aes128_encrypt_spec(key, ofb_iv))
}

/// Descrambles one packet in place.  Returns false, leaving the packet as it
/// was, unless the packet is a scrambled 188-byte packet with a payload that
/// starts inside it and the key has 16 bytes.
pub fn decrypt_packet(packet: &mut [u8], key: &[u8]) -> (r: bool)
    ensures
        r == descramble_applies(old(packet)@, key@),
        r == (old(packet)@.len() == TS_PACKET_SIZE && old(packet)@[0] == 0x47u8 && key@.len() == 16
            && old(packet)@[3] >> 6u8 != 0u8 && (old(packet)@[3] >> 4u8) & 3u8 != 2u8 && (if (old(packet)@[3] >> 4u8)
            & 3u8 == 3u8 {
            5 + old(packet)@[4]
        } else {
            4
        }) < TS_PACKET_SIZE),
        r ==> final(packet)@ == descrambled(old(packet)@, key@),
        !r ==> final(packet)@ == old(packet)@,
{
    if packet.len() != TS_PACKET_SIZE || packet[0] != 0x47 || key.len() != 16 || packet[3] >> 6 == 0 {
        return false;
    }
    let adapt = (packet[3] >> 4) & 3;
    if adapt == 2 {
        return false;
    }
    let offset: usize = if adapt == 3 { 5 + packet[4] as usize } else { 4 };
    if offset >= TS_PACKET_SIZE {
        return false;
    }
    let ghost p = packet@;
    let len = TS_PACKET_SIZE - offset;
    let cbc_len = len & !15usize;
    assert(cbc_len == len / 16 * 16) by (bit_vector)
        requires
            len <= 188,
            cbc_len == len & !15usize,
    ;
    let ofb_iv = if cbc_len >= 16 {
        block_of(&packet[offset + cbc_len - 16..offset + cbc_len])
    } else {
        IV
    };
    let plain = cbc_decrypt_blocks(key, &IV, &packet[offset..offset + cbc_len]);
    let mut i: usize = 0;
    while i < cbc_len
        invariant
            packet@.len() == TS_PACKET_SIZE,
            p.len() == TS_PACKET_SIZE,
            offset + cbc_len <= TS_PACKET_SIZE,
            plain@.len() == cbc_len,
            i <= cbc_len,
            forall|k: int| 0 <= k < offset ==> packet@[k] == p[k],
            forall|k: int| offset + cbc_len <= k < TS_PACKET_SIZE ==> packet@[k] == p[k],
            forall|k: int| offset <= k < offset + i ==> packet@[k] == plain@[k - offset],
            forall|k: int| offset + i <= k < offset + cbc_len ==> packet@[k] == p[k],
        decreases cbc_len - i,
    {
        packet[offset + i] = plain[i];
        i = i + 1;
    }
    let ghost mid = packet@;
    let ghost stream_spec = aes128_encrypt_spec(key@, ofb_iv@);
    if len > cbc_len {
        let stream = aes128_encrypt_block(key, &ofb_iv);
        let rest = len - cbc_len;
        let mut j: usize = 0;
        while j < rest
            invariant
                mid.len() == TS_PACKET_SIZE,
                forall|k: int| offset + cbc_len <= k < TS_PACKET_SIZE ==> mid[k] == p[k],
                packet@.len() == TS_PACKET_SIZE,
                p.len() == TS_PACKET_SIZE,
                offset + cbc_len + rest == TS_PACKET_SIZE,
                rest < 16,
                stream@.len() == 16,
                stream@ == stream_spec,
                j <= rest,
                forall|k: int| 0 <= k < offset + cbc_len ==> packet@[k] == mid[k],
                forall|k: int| offset + cbc_len <= k < offset + cbc_len + j ==> packet@[k] == p[k] ^ stream_spec[k - offset - cbc_len],
                forall|k: int| offset + cbc_len + j <= k < TS_PACKET_SIZE ==> packet@[k] == p[k],
            decreases rest - j,
        {
            let b = packet[offset + cbc_len + j];
            packet[offset + cbc_len + j] = b ^ stream[j];
            j = j + 1;
        }
    }
    assert(forall|k: int| 0 <= k < offset + cbc_len ==> packet@[k] == mid[k]);
    assert(forall|k: int| offset + cbc_len <= k < TS_PACKET_SIZE ==> packet@[k] == p[k] ^ stream_spec[k - offset - cbc_len]);
    assert(forall|k: int| 0 <= k < offset ==> mid[k] == p[k]);
    assert(forall|k: int| offset <= k < offset + cbc_len ==> mid[k] == plain@[k - offset]);
    let ghost before_header = packet@;
    packet[3] = packet[3] & 0x3f;
    proof {
        let ghost payload = p.skip(offset as int);
        assert(payload.take(cbc_len as int) =~= p.subrange(offset as int, offset + cbc_len));
        if cbc_len >= 16 {
            assert(payload.subrange(cbc_len - 16, cbc_len as int) =~= p.subrange(offset + cbc_len - 16, offset + cbc_len));
        }
        assert(payload_offset(p) == offset);
        assert(payload.len() == len);
        let ghost ofb = if cbc_len >= 16 { payload.subrange(cbc_len - 16, cbc_len as int) } else { IV@ };
        assert(ofb == ofb_iv@);
        let ghost plain_spec = cbc_decrypt_spec(key@, IV@, payload.take(cbc_len as int));
        assert(plain_spec == plain@);
        assert(forall|k: int| 0 <= k < offset && k != 3 ==> packet@[k] == p[k]);
        assert forall|k: int| offset <= k < offset + cbc_len implies packet@[k] == plain_spec[k - offset] by {
            assert(packet@[k] == before_header[k]);
            assert(before_header[k] == mid[k]);
            assert(mid[k] == plain@[k - offset]);
        }
        assert(forall|k: int| offset + cbc_len <= k < TS_PACKET_SIZE ==> packet@[k] == p[k] ^ aes128_encrypt_spec(key@, ofb)[k - offset - cbc_len]);
        lemma_descrambled_pointwise(p, key@, packet@);
    }
    true
}

/// A descrambled packet has its scrambling-control bits cleared, so
/// `decrypt_packet` leaves it alone when it is handed over a second time.
pub proof fn lemma_descrambled_is_clear(p: Seq<u8>, key: Seq<u8>)
    requires
        descramble_applies(p, key),
    ensures
        descrambled(p, key)[3] >> 6u8 == 0u8,
        !descramble_applies(descrambled(p, key), key),
{
    let off = payload_offset(p);
    let a = p.take(off).update(3, p[3] & 0x3fu8);
    assert(a.len() == off);
    assert(descrambled(p, key)[3] == a[3]);
    let x = p[3];
    assert((x & 0x3fu8) >> 6u8 == 0u8) by (bit_vector);
}

/// A packet that agrees with `descrambled(p, key)` byte by byte is equal to it.
proof fn lemma_descrambled_pointwise(p: Seq<u8>, key: Seq<u8>, q: Seq<u8>)
    requires
        descramble_applies(p, key),
        q.len() == TS_PACKET_SIZE,
        ({
            let off = payload_offset(p);
            let payload = p.skip(off);
            let cbc_len: int = (payload.len() / 16 * 16) as int;
            let ofb = if cbc_len >= 16 { payload.subrange(cbc_len - 16, cbc_len) } else { IV@ };
            let plain = cbc_decrypt_spec(key, IV@, payload.take(cbc_len));
            let stream = aes128_encrypt_spec(key, ofb);
            &&& plain.len() == cbc_len
            &&& q[3] == p[3] & 0x3fu8
            &&& forall|k: int| 0 <= k < off && k != 3 ==> q[k] == p[k]
            &&& forall|k: int| off <= k < off + cbc_len ==> q[k] == plain[k - off]
            &&& forall|k: int| off + cbc_len <= k < TS_PACKET_SIZE ==> q[k] == p[k] ^ stream[k - off - cbc_len]
        }),
    ensures
        q == descrambled(p, key),
{
    let off = payload_offset(p);
    let payload = p.skip(off);
    let cbc_len: int = (payload.len() / 16 * 16) as int;
    let ofb = if cbc_len >= 16 { payload.subrange(cbc_len - 16, cbc_len) } else { IV@ };
    let plain = cbc_decrypt_spec(key, IV@, payload.take(cbc_len));
    let stream = aes128_encrypt_spec(key, ofb);
    let a = p.take(off).update(3, p[3] & 0x3fu8);
    let c = xor_spec(payload.skip(cbc_len), stream);
    let d = descrambled(p, key);
    assert(d == a + plain + c);
    assert forall|k: int| 0 <= k < TS_PACKET_SIZE implies #[trigger] q[k] == d[k] by {
        if k < off {
            assert(d[k] == a[k]);
        } else if k < off + cbc_len {
            assert(d[k] == plain[k - off]);
        } else {
            assert(d[k] == c[k - off - cbc_len]);
        }
    }
    assert(q =~= d);
}

/// A packet is descrambled exactly when it is a 188-byte packet with the
/// sync byte, the key has 16 bytes, the scrambling-control bits (top two of
/// byte 3) are set, the adaptation-field control (next two bits) is not
/// "adaptation field only", and the payload starts inside the packet: at 4,
/// or at 5 plus the adaptation-field length (byte 4) when an adaptation
/// field precedes the payload.
pub proof fn law_descramble_condition(p: Seq<u8>, key: Seq<u8>)
    ensures
        descramble_applies(p, key) == (p.len() == 188 && p[0] == 0x47u8 && key.len() == 16 && p[3] >> 6u8 != 0u8
            && (p[3] >> 4u8) & 3u8 != 2u8 && (if (p[3] >> 4u8) & 3u8 == 3u8 {
            5 + p[4]
        } else {
            4
        }) < 188),
{
}

/// Whether a packet is descrambled does not depend on its bytes 1 and 2
/// (error, payload-start and priority flags, PID) nor on any byte past the
/// adaptation-field length: two packets that agree on bytes 0, 3 and 4 are
/// descrambled alike.
pub proof fn law_descramble_ignores_pid(p: Seq<u8>, q: Seq<u8>, key: Seq<u8>)
    requires
        p.len() == TS_PACKET_SIZE,
        q.len() == TS_PACKET_SIZE,
        p[0] == q[0],
        p[3] == q[3],
        p[4] == q[4],
    ensures
        descramble_applies(p, key) == descramble_applies(q, key),
{
}

/// The packets the scan cuts out, with where they start: each is the 188
/// bytes of the stream from its offset, which holds the sync byte, and the
/// packets follow one another without overlapping.
pub proof fn law_sync_packets_are_stream_slices(buf: Seq<u8>) -> (offsets: Seq<int>)
    ensures
        offsets.len() == sync_scan(buf).0.len(),
        forall|k: int| 0 <= k < offsets.len() ==> {
            &&& 0 <= #[trigger] offsets[k]
            &&& offsets[k] + 188 <= buf.len()
            &&& buf[offsets[k]] == 0x47u8
            &&& sync_scan(buf).0[k] == buf.subrange(offsets[k], offsets[k] + 188)
        },
        forall|k: int, j: int| 0 <= k < j < offsets.len() ==> #[trigger] offsets[k] + 188 <= #[trigger] offsets[j],
    decreases buf.len(),
{
    if buf.len() < TS_PACKET_SIZE {
        Seq::empty()
    } else if buf[0] != 0x47u8 {
        let t = buf.drop_first();
        let o = law_sync_packets_are_stream_slices(t);
        let offs = o.map_values(|x: int| x + 1);
        assert forall|k: int| 0 <= k < offs.len() implies {
            &&& 0 <= #[trigger] offs[k]
            &&& offs[k] + 188 <= buf.len()
            &&& buf[offs[k]] == 0x47u8
            &&& sync_scan(buf).0[k] == buf.subrange(offs[k], offs[k] + 188)
        } by {
            assert(o[k] >= 0);
            assert(t[o[k]] == buf[o[k] + 1]);
            assert(t.subrange(o[k], o[k] + 188) =~= buf.subrange(offs[k], offs[k] + 188));
        }
        assert forall|k: int, j: int| 0 <= k < j < offs.len() implies #[trigger] offs[k] + 188 <= #[trigger] offs[j] by {
            assert(o[k] + 188 <= o[j]);
        }
        offs
    } else {
        let t = buf.skip(TS_PACKET_SIZE as int);
        let o = law_sync_packets_are_stream_slices(t);
        let offs = seq![0int] + o.map_values(|x: int| x + 188);
        let pk = sync_scan(buf).0;
        assert(pk == seq![buf.take(TS_PACKET_SIZE as int)] + sync_scan(t).0);
        assert forall|k: int| 0 <= k < offs.len() implies {
            &&& 0 <= #[trigger] offs[k]
            &&& offs[k] + 188 <= buf.len()
            &&& buf[offs[k]] == 0x47u8
            &&& sync_scan(buf).0[k] == buf.subrange(offs[k], offs[k] + 188)
        } by {
            if k == 0 {
                assert(buf.take(TS_PACKET_SIZE as int) =~= buf.subrange(0, 188));
            } else {
                let m = k - 1;
                assert(offs[k] == o[m] + 188);
                assert(o[m] >= 0);
                assert(pk[k] == sync_scan(t).0[m]);
                assert(t[o[m]] == buf[o[m] + 188]);
                assert(t.subrange(o[m], o[m] + 188) =~= buf.subrange(offs[k], offs[k] + 188));
            }
        }
        assert forall|k: int, j: int| 0 <= k < j < offs.len() implies #[trigger] offs[k] + 188 <= #[trigger] offs[j] by {
            if k == 0 {
                assert(o[j - 1] >= 0);
            } else {
                assert(o[k - 1] + 188 <= o[j - 1]);
            }
        }
        offs
    }
}

/// What the recorder writes for a synchronised packet: the descrambled
/// packet when `decrypt_packet` applies to it, the packet itself otherwise.
pub open spec fn descramble_or_keep(p: Seq<u8>, key: Seq<u8>) -> Seq<u8> {
    if descramble_applies(p, key) {
        descrambled(p, key)
    } else {
        p
    }
}

/// Synchronises a chunk read from the tuner (see `synchronize`) and
/// descrambles each packet cut from it that is scrambled.
pub fn descramble_chunk(input: &[u8], carry: &mut Vec<u8>, key: &[u8]) -> (out: Vec<[u8; TS_PACKET_SIZE]>)
    requires
        old(carry)@.len() + input@.len() <= usize::MAX,
    ensures
        out@.len() == sync_scan(old(carry)@ + input@).0.len(),
        forall|i: int| 0 <= i < out@.len() ==> (#[trigger] out@[i])@ == descramble_or_keep(
            sync_scan(old(carry)@ + input@).0[i],
            key@,
        ),
        final(carry)@ == sync_scan(old(carry)@ + input@).1,
{
    let packets = synchronize(input, carry);
    let ghost scanned = sync_scan(old(carry)@ + input@).0;
    assert(packet_views(packets@).len() == packets@.len());
    let mut out: Vec<[u8; TS_PACKET_SIZE]> = Vec::new();
    let mut i: usize = 0;
    while i < packets.len()
        invariant
            i <= packets@.len(),
            packet_views(packets@) == scanned,
            out@.len() == i,
            forall|j: int| 0 <= j < i ==> (#[trigger] out@[j])@ == descramble_or_keep(scanned[j], key@),
        decreases packets@.len() - i,
    {
        let mut p = packets[i];
        assert(p@ == scanned[i as int]);
        decrypt_packet(&mut p, key);
        out.push(p);
        i = i + 1;
    }
    out
}

/// Each packet cut by the scan has 188 bytes and starts with the sync byte,
/// and the leftover is shorter than a packet.
pub proof fn lemma_sync_packets_well_formed(buf: Seq<u8>)
    ensures
        forall|i: int| 0 <= i < sync_scan(buf).0.len() ==> {
            &&& (#[trigger] sync_scan(buf).0[i]).len() == TS_PACKET_SIZE
            &&& sync_scan(buf).0[i][0] == 0x47u8
        },
        sync_scan(buf).1.len() < TS_PACKET_SIZE,
    decreases buf.len(),
{
    if buf.len() < TS_PACKET_SIZE {
    } else if buf[0] != 0x47u8 {
        lemma_sync_packets_well_formed(buf.drop_first());
    } else {
        lemma_sync_packets_well_formed(buf.skip(TS_PACKET_SIZE as int));
        let rest = sync_scan(buf.skip(TS_PACKET_SIZE as int));
        let all = seq![buf.take(TS_PACKET_SIZE as int)] + rest.0;
        assert forall|i: int| 0 <= i < all.len() implies (#[trigger] all[i]).len() == TS_PACKET_SIZE && all[i][0] == 0x47u8 by {
            if i > 0 {
                assert(all[i] == rest.0[i - 1]);
            }
        }
    }
}

/// What the scan leaves over is the end of the stream.
pub proof fn lemma_sync_leftover_suffix(buf: Seq<u8>)
    ensures
        sync_scan(buf).1.is_suffix_of(buf),
    decreases buf.len(),
{
    let left = sync_scan(buf).1;
    if buf.len() < TS_PACKET_SIZE {
        assert(left =~= buf.subrange(0, buf.len() as int));
    } else if buf[0] != 0x47u8 {
        let t = buf.drop_first();
        lemma_sync_leftover_suffix(t);
        assert(left =~= buf.subrange(buf.len() - left.len(), buf.len() as int));
    } else {
        let t = buf.skip(TS_PACKET_SIZE as int);
        lemma_sync_leftover_suffix(t);
        assert(left =~= buf.subrange(buf.len() - left.len(), buf.len() as int));
    }
}

/// Scanning a stream that arrives in two pieces gives the packets of the
/// first piece, then those of its leftover followed by the second piece:
/// the same packets and leftover as scanning the whole stream at once.
pub proof fn lemma_sync_scan_append(x: Seq<u8>, y: Seq<u8>)
    ensures
        sync_scan(x + y) == (
            sync_scan(x).0 + sync_scan(sync_scan(x).1 + y).0,
            sync_scan(sync_scan(x).1 + y).1,
        ),
    decreases x.len(),
{
    if x.len() < TS_PACKET_SIZE {
        assert(sync_scan(x).0 + sync_scan(x + y).0 =~= sync_scan(x + y).0);
    } else if x[0] != 0x47u8 {
        assert((x + y).drop_first() =~= x.drop_first() + y);
        lemma_sync_scan_append(x.drop_first(), y);
    } else {
        assert((x + y).take(TS_PACKET_SIZE as int) =~= x.take(TS_PACKET_SIZE as int));
        assert((x + y).skip(TS_PACKET_SIZE as int) =~= x.skip(TS_PACKET_SIZE as int) + y);
        lemma_sync_scan_append(x.skip(TS_PACKET_SIZE as int), y);
        let r = sync_scan(x.skip(TS_PACKET_SIZE as int));
        let t = sync_scan(r.1 + y);
        assert(seq![x.take(TS_PACKET_SIZE as int)] + (r.0 + t.0) =~= (seq![x.take(TS_PACKET_SIZE as int)] + r.0) + t.0);
    }
}

/// Feeding `a` and then `b` to `synchronize` yields the same packets, in the
/// same order, and the same carry as feeding `a` followed by `b` at once.
pub proof fn law_synchronize_chunking(carry: Seq<u8>, a: Seq<u8>, b: Seq<u8>)
    ensures
        ({
            let first = sync_scan(carry + a);
            let second = sync_scan(first.1 + b);
            sync_scan(carry + (a + b)) == (first.0 + second.0, second.1)
        }),
{
    assert(carry + (a + b) =~= (carry + a) + b);
    lemma_sync_scan_append(carry + a, b);
}

} // verus!
