//! The B-CAS card relay: command framing over the secure channel, polling
//! decisions, and the ECM and Contents Key exchanges' payloads.

use crate::device::{
    added, data_reply, duration_from_secs, extends, lemma_added_push, lemma_history_start, lemma_history_step, plain,
    ran_prefix, stops_at_failure, unit_reply, Exchange, History, Reply, Request, Step, Transport,
};
use crate::protocol::{
    bcas_response_spec, build_bcas_apdu, cbc_encrypt_spec, lemma_cbc_encrypt_blocks, parse_bcas_response, relay_encrypted_len, relay_frame_spec,
    relay_total_len, swap_pairs_spec, zero_block,
};
use crate::Error;
use core::time::Duration;
use vstd::prelude::*;
use vstd::slice::slice_to_vec;

verus! {

pub const STATUS: u32 = 0x822ac;
pub const RESPONSE: u32 = 0x822ae;
pub const BCASTX: u32 = 0x8219c;

/// How many times the relay status is polled before giving up.
pub const READY_POLLS: usize = 30;

/// A B-CAS session: the Contents Key that ECM requests are sent under.
pub struct Bcas {
    pub contents_key: [u8; 16],
}

/// The API command that hands a relay frame of `total` bytes to the card.
pub open spec fn relay_trigger_spec(total: u16) -> Seq<u8> {
    seq![0u8, 0u8, 0x0au8, 0x10u8, (total / 256) as u8, total as u8]
}

/// Builds the API command that hands a relay frame of `total` bytes to the
/// card: the length goes big-endian into the last two bytes.
pub fn relay_trigger(total: u16) -> (r: [u8; 6])
    ensures
        r@ == relay_trigger_spec(total),
{
    let r: [u8; 6] = [0, 0, 0x0a, 0x10, (total >> 8) as u8, total as u8];
    assert((total >> 8u16) as u8 == (total / 256) as u8) by (bit_vector);
    assert(r@ =~= relay_trigger_spec(total));
    r
}

/// The encrypted relay frame of an APDU, as it is written to the relay
/// buffer: the frame (`relay_frame_spec`) encrypted with AES-128-CBC under
/// `key` from a zero IV, with the bytes of each 16-bit word exchanged.
pub open spec fn relay_wire_spec(key: Seq<u8>, apdu: Seq<u8>) -> Seq<u8> {
    let elen = relay_encrypted_len(apdu.len() as int);
    swap_pairs_spec(cbc_encrypt_spec(key, zero_block(), relay_frame_spec(apdu, elen)), elen)
}

/// The encrypted relay frame of an APDU is `relay_encrypted_len` bytes long.
pub proof fn lemma_relay_wire_len(key: Seq<u8>, apdu: Seq<u8>)
    ensures
        relay_wire_spec(key, apdu).len() == relay_encrypted_len(apdu.len() as int),
{
    let elen = relay_encrypted_len(apdu.len() as int);
    assert(elen % 16 == 0 && elen >= 0);
    lemma_cbc_encrypt_blocks(key, zero_block(), relay_frame_spec(apdu, elen));
}

/// The requests that hand an encrypted relay frame to the card: the frame
/// written to the relay buffer, then the trigger command for `total` bytes.
pub open spec fn relay_plan(wire: Seq<u8>, total: u16) -> Seq<Step> {
    seq![
        plain(Request::RegWrite { reg: BCASTX, data: wire }),
        plain(Request::ApiCommand { command: relay_trigger_spec(total) }),
    ]
}

/// What `command` does on a connection: `ops` carry out `relay_plan`,
/// stopping at the first request that fails, whose error is returned; when
/// both went through, one acknowledgement is read within three seconds,
/// whatever it brings, and the result is success.
pub open spec fn sends_command(ops: History, wire: Seq<u8>, total: u16, r: Result<(), Error>) -> bool {
    ||| stops_at_failure(ops, relay_plan(wire, total), r)
    ||| {
        &&& ops.len() == 3
        &&& ran_prefix(ops.take(2), relay_plan(wire, total), 2)
        &&& ops[2].request == (Request::Ack { timeout: duration_from_secs(3) })
        &&& r is Ok
    }
}

/// Sends an APDU to the card: writes its encrypted relay frame
/// (`build_bcas_apdu`) to the relay buffer, triggers the relay with
/// `relay_trigger`, and reads (and ignores) one acknowledgement.  An APDU
/// that cannot be framed is refused before anything is sent.
pub fn command<T: Transport>(transport: &mut T, key: &[u8; 16], apdu: &[u8]) -> (r: Result<(), Error>)
    ensures
        extends(old(transport).history(), final(transport).history()),
        (apdu@.len() == 0 || apdu@.len() > 0x10c) ==> r == Err::<(), Error>(
            Error::InvalidArgument("B-CAS APDU length out of range"),
        ) && final(transport).history() == old(transport).history(),
        (1 <= apdu@.len() <= 0x10c) ==> sends_command(
            added(old(transport).history(), final(transport).history()),
            relay_wire_spec(key@, apdu@),
            relay_total_len(apdu@.len() as int) as u16,
            r,
        ),
{
    let ghost h0 = transport.history();
    let (wire, size) = match build_bcas_apdu(apdu, key) {
        Ok(x) => x,
        Err(e) => {
            proof { lemma_history_start(h0, Seq::<Step>::empty()); }
            return Err(e);
        },
    };
    let ghost plan = relay_plan(wire@, size);
    proof { lemma_history_start(h0, plan); }
    let w = transport.reg_write(BCASTX, wire.as_slice());
    proof { lemma_history_step(h0, h0, plan, Exchange { request: Request::RegWrite { reg: BCASTX, data: wire@ }, reply: unit_reply(w) }); }
    w?;
    let trigger = relay_trigger(size);
    let ghost h1 = transport.history();
    let a = transport.api_command(&trigger);
    proof { lemma_history_step(h0, h1, plan, Exchange { request: Request::ApiCommand { command: trigger@ }, reply: unit_reply(a) }); }
    a?;
    let ghost h2 = transport.history();
    let timeout = Duration::from_secs(3);
    let _ = transport.ack(timeout);
    proof {
        let h3 = transport.history();
        lemma_added_push(h0, h2, h3.last());
        assert(h3 =~= h2.push(h3.last()));
        assert(added(h0, h3).take(2) =~= added(h0, h2));
    }
    Ok(())
}

/// The command that powers the card up.
pub open spec fn card_power_command() -> Seq<u8> {
    seq![0u8, 0u8, 0x0au8, 0u8, 0u8, 1u8]
}

/// The command that resets the card.
pub open spec fn card_reset_command() -> Seq<u8> {
    seq![0u8, 0u8, 0x0au8, 1u8, 0u8, 1u8]
}

/// What `start_card` does on a connection: the power-up command, an
/// acknowledgement read within two seconds whatever it brings, the reset
/// command, and another such acknowledgement.  A failed command ends it with
/// its error; otherwise the result is success.
pub open spec fn starts_card(ops: History, r: Result<(), Error>) -> bool {
    let ack = Request::Ack { timeout: duration_from_secs(2) };
    &&& ops.len() >= 1
    &&& ops[0].request == (Request::ApiCommand { command: card_power_command() })
    &&& match ops[0].reply {
        Reply::Failed(e) => ops.len() == 1 && r == Err::<(), Error>(e),
        _ => {
            &&& ops.len() >= 3
            &&& ops[1].request == ack
            &&& ops[2].request == (Request::ApiCommand { command: card_reset_command() })
            &&& match ops[2].reply {
                Reply::Failed(e) => ops.len() == 3 && r == Err::<(), Error>(e),
                _ => ops.len() == 4 && ops[3].request == ack && r is Ok,
            }
        },
    }
}

/// Powers the card up and resets it, reading (and ignoring) the
/// acknowledgement of each command.
pub fn start_card<T: Transport>(transport: &mut T) -> (r: Result<(), Error>)
    ensures
        extends(old(transport).history(), final(transport).history()),
        starts_card(added(old(transport).history(), final(transport).history()), r),
{
    let ghost h0 = transport.history();
    proof { lemma_history_start(h0, Seq::<Step>::empty()); }
    let power: [u8; 6] = [0, 0, 0x0a, 0, 0, 1];
    let reset: [u8; 6] = [0, 0, 0x0a, 1, 0, 1];
    assert(power@ =~= card_power_command());
    assert(reset@ =~= card_reset_command());
    let a = transport.api_command(&power);
    let ghost x1 = Exchange { request: Request::ApiCommand { command: power@ }, reply: unit_reply(a) };
    proof {
        lemma_added_push(h0, h0, x1);
        assert(added(h0, h0.push(x1)) =~= seq![x1]);
    }
    a?;
    let ghost h1 = transport.history();
    let _ = transport.ack(Duration::from_secs(2));
    let ghost h2 = transport.history();
    proof {
        lemma_added_push(h0, h1, h2.last());
        assert(h2 =~= h1.push(h2.last()));
    }
    let a = transport.api_command(&reset);
    let ghost x3 = Exchange { request: Request::ApiCommand { command: reset@ }, reply: unit_reply(a) };
    proof {
        lemma_added_push(h0, h2, x3);
        assert(added(h0, h2.push(x3)) =~= seq![x1, h2.last(), x3]);
    }
    a?;
    let ghost h3 = transport.history();
    let _ = transport.ack(Duration::from_secs(2));
    proof {
        let h4 = transport.history();
        lemma_added_push(h0, h3, h4.last());
        assert(h4 =~= h3.push(h4.last()));
        assert(added(h0, h4) =~= seq![x1, h2.last(), x3, h4.last()]);
    }
    Ok(())
}

/// What to do after a poll of the relay status register.
pub enum ReadyStep {
    /// The relay is ready.
    Ready,
    /// Stop with this error now.
    Fail(Error),
    /// The relay is busy: pause, then poll again as attempt `next_attempt`.
    PauseThenPoll { next_attempt: usize },
    /// The relay is still busy after the last attempt: pause, then stop
    /// with this error.
    PauseThenFail(Error),
}

/// The relay state in the high nibble of the first status byte.
pub open spec fn relay_state(status: Seq<u8>) -> u8 {
    status[0] >> 4u8
}

/// Decides what follows poll number `attempt` (counting from 0) of the
/// relay status: a malformed status or a state other than 2 (busy) or 3
/// (ready) ends the wait with an error; a busy relay is polled again after
/// a pause, `READY_POLLS` times in all.
pub fn ready_step(attempt: usize, status: &[u8]) -> (r: ReadyStep)
    requires
        attempt < READY_POLLS,
    ensures
        status@.len() != 2 ==> r == ReadyStep::Fail((Error::ShortTransfer { expected: 2, actual: status@.len() as usize })),
        status@.len() == 2 && relay_state(status@) == 3 ==> r == ReadyStep::Ready,
        status@.len() == 2 && relay_state(status@) != 3 && relay_state(status@) != 2 ==> r == ReadyStep::Fail(
            Error::ProtocolUnavailable("unexpected B-CAS state"),
        ),
        status@.len() == 2 && relay_state(status@) == 2 && attempt + 1 < READY_POLLS ==> r == (ReadyStep::PauseThenPoll {
            next_attempt: (attempt + 1) as usize,
        }),
        status@.len() == 2 && relay_state(status@) == 2 && attempt + 1 == READY_POLLS ==> r == ReadyStep::PauseThenFail(
            Error::ProtocolUnavailable("B-CAS ready timeout"),
        ),
{
    if status.len() != 2 {
        return ReadyStep::Fail(Error::ShortTransfer { expected: 2, actual: status.len() });
    }
    let n = status[0] >> 4;
    if n == 3 {
        return ReadyStep::Ready;
    }
    if n != 2 {
        return ReadyStep::Fail(Error::ProtocolUnavailable("unexpected B-CAS state"));
    }
    if attempt + 1 < READY_POLLS {
        ReadyStep::PauseThenPoll { next_attempt: attempt + 1 }
    } else {
        ReadyStep::PauseThenFail(Error::ProtocolUnavailable("B-CAS ready timeout"))
    }
}

/// The response length announced by the status register: 12 bits, the
/// low nibble of the first byte being the high part.
pub open spec fn announced_len(status: Seq<u8>) -> int {
    (status[0] % 16) * 256 + status[1]
}

/// The number of bytes to read for the response a status announces, or
/// why there is no response to read.  Bytes after the first two are not
/// part of the status.
pub open spec fn response_read_len_spec(status: Seq<u8>) -> Result<usize, Error> {
    if status.len() < 2 {
        Err(Error::ShortTransfer { expected: 2, actual: status.len() as usize })
    } else if !(16 <= announced_len(status) <= 512) {
        Err(Error::InvalidArgument("invalid B-CAS response size"))
    } else {
        Ok(((announced_len(status) + 15) / 16 * 16) as usize)
    }
}

/// The number of bytes to read for the response the status announces: the
/// announced length (16 to 512) rounded up to whole AES blocks.  The status
/// is its first two bytes; fewer than two are a short transfer.
pub fn response_read_len(status: &[u8]) -> (r: Result<usize, Error>)
    ensures
        r == response_read_len_spec(status@),
        status@.len() < 2 ==> r == Err::<usize, Error>(Error::ShortTransfer { expected: 2, actual: status@.len() as usize }),
        status@.len() >= 2 && !(16 <= announced_len(status@) <= 512) ==> r == Err::<usize, Error>(
            Error::InvalidArgument("invalid B-CAS response size"),
        ),
        status@.len() >= 2 && 16 <= announced_len(status@) <= 512 ==> r == Ok::<usize, Error>(
            ((announced_len(status@) + 15) / 16 * 16) as usize,
        ),
{
    if status.len() < 2 {
        return Err(Error::ShortTransfer { expected: 2, actual: status.len() });
    }
    let s0 = status[0];
    let lo = status[1];
    let hi = s0 & 0x0f;
    let len: usize = ((hi as usize) << 8) | (lo as usize);
    assert(len == (s0 % 16) * 256 + lo) by (bit_vector)
        requires
            hi == s0 & 0x0fu8,
            len == ((hi as usize) << 8usize) | (lo as usize),
    ;
    if len < 16 || len > 512 {
        return Err(Error::InvalidArgument("invalid B-CAS response size"));
    }
    let b: usize = len + 15;
    let enc = b & !15usize;
    assert(enc == b / 16 * 16) by (bit_vector)
        requires
            b <= 0x400,
            enc == b & !15usize,
    ;
    Ok(enc)
}

/// A byte result taken by its view.
pub open spec fn bytes_result(r: Result<Vec<u8>, Error>) -> Result<Seq<u8>, Error> {
    match r {
        Ok(v) => Ok(v@),
        Err(e) => Err(e),
    }
}

/// What `read_response` does on a connection: `ops` start with a read of the
/// two status bytes; a failed read, or a status that announces no valid
/// response (`response_read_len_spec`), ends it there with that error.
/// Otherwise the announced number of bytes is read from the response
/// register, and `r` is that read's error or the response opened with
/// `key` (`bcas_response_spec`).
pub open spec fn reads_response(ops: History, key: Seq<u8>, r: Result<Seq<u8>, Error>) -> bool {
    &&& ops.len() >= 1
    &&& ops[0].request == (Request::RegRead { reg: STATUS, len: 2 })
    &&& match ops[0].reply {
        Reply::Failed(e) => ops.len() == 1 && r == Err::<Seq<u8>, Error>(e),
        Reply::Data(status) => match response_read_len_spec(status) {
            Err(e) => ops.len() == 1 && r == Err::<Seq<u8>, Error>(e),
            Ok(enc) => {
                &&& ops.len() == 2
                &&& ops[1].request == (Request::RegRead { reg: RESPONSE, len: enc })
                &&& match ops[1].reply {
                    Reply::Failed(e) => r == Err::<Seq<u8>, Error>(e),
                    Reply::Data(raw) => r == bcas_response_spec(raw, key, enc as int),
                    _ => false,
                }
            },
        },
        _ => false,
    }
}

/// Reads a response once the relay is ready: the status register again,
/// then the number of bytes `response_read_len` derives from it from the
/// response register, which are opened with `parse_bcas_response`.
pub fn read_response<T: Transport>(transport: &mut T, key: &[u8; 16]) -> (r: Result<Vec<u8>, Error>)
    ensures
        extends(old(transport).history(), final(transport).history()),
        reads_response(added(old(transport).history(), final(transport).history()), key@, bytes_result(r)),
{
    let ghost h0 = transport.history();
    let status = transport.reg_read(STATUS, 2);
    let ghost x1 = Exchange { request: Request::RegRead { reg: STATUS, len: 2 }, reply: data_reply(status) };
    proof {
        assert(h0.take(h0.len() as int) =~= h0);
        lemma_added_push(h0, h0, x1);
        assert(added(h0, h0) =~= Seq::<Exchange>::empty());
        assert(added(h0, h0.push(x1)) =~= seq![x1]);
    }
    let status = match status {
        Ok(s) => s,
        Err(e) => return Err(e),
    };
    let enc = match response_read_len(&status) {
        Ok(n) => n,
        Err(e) => return Err(e),
    };
    let ghost h1 = transport.history();
    let raw = transport.reg_read(RESPONSE, enc);
    let ghost x2 = Exchange { request: Request::RegRead { reg: RESPONSE, len: enc }, reply: data_reply(raw) };
    proof {
        lemma_added_push(h0, h1, x2);
        assert(added(h0, h1.push(x2)) =~= seq![x1, x2]);
    }
    let raw = match raw {
        Ok(v) => v,
        Err(e) => return Err(e),
    };
    parse_bcas_response(&raw, key, enc)
}

/// The card command that asks for the scramble keys of an ECM.
pub open spec fn ecm_command_spec(ecm: Seq<u8>) -> Seq<u8> {
    seq![0x90u8, 0x34u8, 0u8, 0u8, ecm.len() as u8] + ecm + seq![0u8]
}

/// Builds the ECM request APDU; an ECM longer than 255 bytes is refused.
pub fn ecm_command(ecm: &[u8]) -> (r: Result<Vec<u8>, Error>)
    ensures
        ecm@.len() > 255 ==> r == Err::<Vec<u8>, Error>(Error::InvalidArgument("ECM is too large")),
        ecm@.len() <= 255 ==> (r matches Ok(apdu) && apdu@ == ecm_command_spec(ecm@)),
{
    if ecm.len() > 255 {
        return Err(Error::InvalidArgument("ECM is too large"));
    }
    let mut apdu: Vec<u8> = Vec::new();
    apdu.push(0x90);
    apdu.push(0x34);
    apdu.push(0);
    apdu.push(0);
    apdu.push(ecm.len() as u8);
    let ghost head = apdu@;
    apdu.extend_from_slice(ecm);
    apdu.push(0);
    assert(apdu@ =~= ecm_command_spec(ecm@));
    Ok(apdu)
}

/// The odd and even scramble keys in an ECM response: bytes 10..18 and
/// 18..26 of the card's reply.
pub fn ecm_keys_from_reply(plain: &[u8]) -> (r: Result<([u8; 8], [u8; 8]), Error>)
    ensures
        plain@.len() < 26 ==> r == Err::<([u8; 8], [u8; 8]), Error>(Error::ProtocolUnavailable("ECM response truncated")),
        plain@.len() >= 26 ==> (r matches Ok((odd, even)) && odd@ == plain@.subrange(10, 18)
            && even@ == plain@.subrange(18, 26)),
{
    if plain.len() < 26 {
        return Err(Error::ProtocolUnavailable("ECM response truncated"));
    }
    let mut odd = [0u8; 8];
    let mut even = [0u8; 8];
    let mut i: usize = 0;
    while i < 8
        invariant
            plain@.len() >= 26,
            i <= 8,
            forall|k: int| 0 <= k < i ==> odd@[k] == plain@[10 + k] && even@[k] == plain@[18 + k],
        decreases 8 - i,
    {
        odd[i] = plain[10 + i];
        even[i] = plain[18 + i];
        i = i + 1;
    }
    assert(odd@ =~= plain@.subrange(10, 18));
    assert(even@ =~= plain@.subrange(18, 26));
    Ok((odd, even))
}

/// The Contents Key in the reply to the Contents Key request: bytes 16..32.
pub fn contents_key_from_reply(raw: &[u8]) -> (r: Result<Bcas, Error>)
    ensures
        raw@.len() < 32 ==> r == Err::<Bcas, Error>(Error::ProtocolUnavailable("Contents Key response truncated")),
        raw@.len() >= 32 ==> (r matches Ok(b) && b.contents_key@ == raw@.subrange(16, 32)),
{
    if raw.len() < 32 {
        return Err(Error::ProtocolUnavailable("Contents Key response truncated"));
    }
    let mut contents_key = [0u8; 16];
    let mut i: usize = 0;
    while i < 16
        invariant
            raw@.len() >= 32,
            i <= 16,
            forall|k: int| 0 <= k < i ==> contents_key@[k] == raw@[16 + k],
        decreases 16 - i,
    {
        contents_key[i] = raw[16 + i];
        i = i + 1;
    }
    assert(contents_key@ =~= raw@.subrange(16, 32));
    Ok(Bcas { contents_key })
}

} // verus!
