//! The device transport interface and the checks made on what crosses it.

use crate::ts::TS_PACKET_SIZE;
use crate::Error;
use core::time::Duration;
use vstd::prelude::*;
use vstd::slice::slice_to_vec;

verus! {

/// The span of `secs` whole seconds, as `Duration::from_secs` builds it.
pub uninterp spec fn duration_from_secs(secs: u64) -> Duration;

/// The span of `millis` milliseconds, as `Duration::from_millis` builds it.
pub uninterp spec fn duration_from_millis(millis: u64) -> Duration;

/// `Duration::from_secs` (never panics).  Claims: the result depends on
/// `secs` alone; it is named `duration_from_secs(secs)`, so that the
/// timeouts handed to `Transport::ack` can be told apart in contracts.
pub assume_specification[ core::time::Duration::from_secs ](secs: u64) -> (r: Duration)
    ensures
        r == duration_from_secs(secs),
;

/// `Duration::from_millis` (never panics).  Claims: the result depends on
/// `millis` alone; it is named `duration_from_millis(millis)`.
pub assume_specification[ core::time::Duration::from_millis ](millis: u64) -> (r: Duration)
    ensures
        r == duration_from_millis(millis),
;

pub const VID: u16 = 0x04bb;
pub const PID: u16 = 0x053a;

/// A request the library makes of the device.
pub enum Request {
    RegRead { reg: u32, len: usize },
    RegWrite { reg: u32, data: Seq<u8> },
    ApiCommand { command: Seq<u8> },
    Ack { timeout: Duration },
    Firmware { data: Seq<u8> },
    I2cWrite { data: Seq<u8> },
    I2cRead { register: u8, len: usize },
    TsRead { timeout: Duration },
}

/// What a request got back: bytes, a count, plain success, or an error.
pub enum Reply {
    Data(Seq<u8>),
    Count(usize),
    Done,
    Failed(Error),
}

/// One request and its reply.
pub struct Exchange {
    pub request: Request,
    pub reply: Reply,
}

/// The exchanges carried over a connection, oldest first.
pub type History = Seq<Exchange>;

/// The reply recorded for a request that returns bytes.
pub open spec fn data_reply(r: Result<Vec<u8>, Error>) -> Reply {
    match r {
        Ok(v) => Reply::Data(v@),
        Err(e) => Reply::Failed(e),
    }
}

/// The reply recorded for a request that returns nothing.
pub open spec fn unit_reply(r: Result<(), Error>) -> Reply {
    match r {
        Ok(_) => Reply::Done,
        Err(e) => Reply::Failed(e),
    }
}

/// The reply recorded for a request that returns a count.
pub open spec fn count_reply(r: Result<usize, Error>) -> Reply {
    match r {
        Ok(n) => Reply::Count(n),
        Err(e) => Reply::Failed(e),
    }
}

/// A connection to the tuner.  `history` is the sequence of exchanges the
/// connection has carried; it describes the connection for the contracts
/// of the library and is never computed.  Each method makes exactly one
/// request of the device and adds that request with the reply it returns
/// to the history; nothing is claimed of what the device answers.
pub trait Transport {
    spec fn history(&self) -> History;

    fn reg_read(&mut self, reg: u32, len: usize) -> (r: Result<Vec<u8>, Error>)
        ensures
            final(self).history() == old(self).history().push(
                (Exchange { request: Request::RegRead { reg, len }, reply: data_reply(r) }),
            ),
    ;

    fn reg_write(&mut self, reg: u32, data: &[u8]) -> (r: Result<(), Error>)
        ensures
            final(self).history() == old(self).history().push(
                (Exchange { request: Request::RegWrite { reg, data: data@ }, reply: unit_reply(r) }),
            ),
    ;

    fn api_command(&mut self, command: &[u8]) -> (r: Result<(), Error>)
        ensures
            final(self).history() == old(self).history().push(
                (Exchange { request: Request::ApiCommand { command: command@ }, reply: unit_reply(r) }),
            ),
    ;

    fn ack(&mut self, timeout: Duration) -> (r: Result<Vec<u8>, Error>)
        ensures
            final(self).history() == old(self).history().push(
                (Exchange { request: Request::Ack { timeout }, reply: data_reply(r) }),
            ),
    ;

    fn firmware(&mut self, data: &[u8]) -> (r: Result<(), Error>)
        ensures
            final(self).history() == old(self).history().push(
                (Exchange { request: Request::Firmware { data: data@ }, reply: unit_reply(r) }),
            ),
    ;

    fn i2c_write(&mut self, data: &[u8]) -> (r: Result<(), Error>)
        ensures
            final(self).history() == old(self).history().push(
                (Exchange { request: Request::I2cWrite { data: data@ }, reply: unit_reply(r) }),
            ),
    ;

    fn i2c_read(&mut self, register: u8, len: usize) -> (r: Result<Vec<u8>, Error>)
        ensures
            final(self).history() == old(self).history().push(
                (Exchange { request: Request::I2cRead { register, len }, reply: data_reply(r) }),
            ),
    ;

    fn ts_read(&mut self, data: &mut [u8], timeout: Duration) -> (r: Result<usize, Error>)
        ensures
            final(self).history() == old(self).history().push(
                (Exchange { request: Request::TsRead { timeout }, reply: count_reply(r) }),
            ),
    ;
}

/// `after` is `before` with more exchanges added at the end.
pub open spec fn extends(before: History, after: History) -> bool {
    &&& before.len() <= after.len()
    &&& after.take(before.len() as int) == before
}

/// The exchanges added to `before` to make `after`.
pub open spec fn added(before: History, after: History) -> History {
    after.skip(before.len() as int)
}

/// Adding one more exchange extends the history by it.
pub proof fn lemma_added_push(before: History, mid: History, x: Exchange)
    requires
        extends(before, mid),
    ensures
        extends(before, mid.push(x)),
        added(before, mid.push(x)) == added(before, mid).push(x),
{
    assert(mid.push(x).take(before.len() as int) =~= mid.take(before.len() as int));
    assert(added(before, mid.push(x)) =~= added(before, mid).push(x));
}

/// Extending in two steps: what was added is the two parts in order.
pub proof fn lemma_added_concat(h0: History, h1: History, h2: History)
    requires
        extends(h0, h1),
        extends(h1, h2),
    ensures
        extends(h0, h2),
        added(h0, h2) == added(h0, h1) + added(h1, h2),
{
    assert(h2.take(h0.len() as int) =~= h1.take(h0.len() as int));
    assert(added(h0, h2) =~= added(h0, h1) + added(h1, h2));
}

/// A step of a fixed request sequence: the request, and whether its reply
/// must hold at least one byte.
pub struct Step {
    pub request: Request,
    pub nonempty_reply: bool,
}

/// A step that only has to succeed.
pub open spec fn plain(request: Request) -> Step {
    Step { request, nonempty_reply: false }
}

/// Whether a step went through, given the reply it got: a failed request
/// fails the step with its error, an empty reply where bytes are required
/// fails it with "empty device ACK".
pub open spec fn step_outcome(step: Step, reply: Reply) -> Result<(), Error> {
    match reply {
        Reply::Failed(e) => Err(e),
        Reply::Data(d) => if step.nonempty_reply && d.len() == 0 {
            Err(Error::ProtocolUnavailable("empty device ACK"))
        } else {
            Ok(())
        },
        _ => Ok(()),
    }
}

/// `ops` are the first `k` steps of `plan`, all gone through.
pub open spec fn ran_prefix(ops: History, plan: Seq<Step>, k: int) -> bool {
    &&& ops.len() == k
    &&& k <= plan.len()
    &&& forall|i: int| 0 <= i < k ==> (#[trigger] ops[i]).request == plan[i].request && step_outcome(plan[i], ops[i].reply) is Ok
}

/// `ops` go through the first steps of `plan` and stop at one that failed,
/// with `r` its outcome.
pub open spec fn stops_at_failure(ops: History, plan: Seq<Step>, r: Result<(), Error>) -> bool {
    &&& 1 <= ops.len() <= plan.len()
    &&& ran_prefix(ops.drop_last(), plan, ops.len() - 1)
    &&& ops.last().request == plan[ops.len() - 1].request
    &&& step_outcome(plan[ops.len() - 1], ops.last().reply) == r
    &&& r is Err
}

/// `ops` carry out `plan` in order, stopping at the first step that fails,
/// and `r` is what that run returns: success when every step went through,
/// else the failed step's error.
pub open spec fn follows_plan(ops: History, plan: Seq<Step>, r: Result<(), Error>) -> bool {
    ||| (r is Ok && ran_prefix(ops, plan, plan.len() as int))
    ||| stops_at_failure(ops, plan, r)
}

/// One more step of a plan: it either goes through or ends the run.
pub proof fn lemma_plan_step(ops: History, plan: Seq<Step>, x: Exchange)
    requires
        ran_prefix(ops, plan, ops.len() as int),
        ops.len() < plan.len(),
        x.request == plan[ops.len() as int].request,
    ensures
        step_outcome(plan[ops.len() as int], x.reply) is Ok ==> ran_prefix(ops.push(x), plan, ops.len() + 1int),
        step_outcome(plan[ops.len() as int], x.reply) is Err ==> stops_at_failure(
            ops.push(x),
            plan,
            step_outcome(plan[ops.len() as int], x.reply),
        ),
{
    assert(ops.push(x).drop_last() =~= ops);
    assert forall|i: int| 0 <= i < ops.len() + 1 implies (#[trigger] ops.push(x)[i]).request == plan[i].request
        && (i < ops.len() ==> step_outcome(plan[i], ops.push(x)[i].reply) is Ok) by {
        if i < ops.len() {
            assert(ops.push(x)[i] == ops[i]);
        }
    }
}

/// One more exchange of a run of `plan` on a connection: the run either
/// goes on or ends with the step's failure.
pub proof fn lemma_history_step(h0: History, h: History, plan: Seq<Step>, x: Exchange)
    requires
        extends(h0, h),
        ran_prefix(added(h0, h), plan, added(h0, h).len() as int),
        added(h0, h).len() < plan.len(),
        x.request == plan[added(h0, h).len() as int].request,
    ensures
        extends(h0, h.push(x)),
        added(h0, h.push(x)) == added(h0, h).push(x),
        step_outcome(plan[added(h0, h).len() as int], x.reply) is Ok ==> ran_prefix(
            added(h0, h.push(x)),
            plan,
            added(h0, h).len() + 1int,
        ),
        step_outcome(plan[added(h0, h).len() as int], x.reply) is Err ==> follows_plan(
            added(h0, h.push(x)),
            plan,
            step_outcome(plan[added(h0, h).len() as int], x.reply),
        ),
{
    lemma_added_push(h0, h, x);
    lemma_plan_step(added(h0, h), plan, x);
}

/// A history extended by exactly one exchange is the old one with it pushed.
pub proof fn lemma_single_added(h: History, h2: History)
    requires
        extends(h, h2),
        added(h, h2).len() == 1,
    ensures
        h2 == h.push(added(h, h2)[0]),
{
    assert(h2 =~= h.push(added(h, h2)[0]));
}

/// The start of a run: nothing added yet.
pub proof fn lemma_history_start(h0: History, plan: Seq<Step>)
    ensures
        extends(h0, h0),
        ran_prefix(added(h0, h0), plan, 0),
{
    assert(h0.take(h0.len() as int) =~= h0);
    assert(added(h0, h0) =~= Seq::<Exchange>::empty());
}

/// The firmware image header every valid image starts with (`MB8AC018`).
pub open spec fn firmware_magic() -> Seq<u8> {
    seq![0x4du8, 0x42u8, 0x38u8, 0x41u8, 0x43u8, 0x30u8, 0x31u8, 0x38u8]
}

/// Accepts a firmware image that starts with the `MB8AC018` header.
pub fn validate_firmware(data: &[u8]) -> (r: Result<(), Error>)
    ensures
        (data@.len() >= 8 && data@.take(8) == firmware_magic()) ==> r is Ok,
        !(data@.len() >= 8 && data@.take(8) == firmware_magic()) ==> r == Err::<(), Error>(Error::InvalidFirmware),
{
    let magic: [u8; 8] = [0x4d, 0x42, 0x38, 0x41, 0x43, 0x30, 0x31, 0x38];
    if data.len() < 8 {
        return Err(Error::InvalidFirmware);
    }
    let mut i: usize = 0;
    while i < 8
        invariant
            data@.len() >= 8,
            magic@ == firmware_magic(),
            i <= 8,
            forall|k: int| 0 <= k < i ==> data@[k] == firmware_magic()[k],
        decreases 8 - i,
    {
        if data[i] != magic[i] {
            assert(data@.take(8)[i as int] != firmware_magic()[i as int]);
            return Err(Error::InvalidFirmware);
        }
        i = i + 1;
    }
    assert(data@.take(8) =~= firmware_magic());
    Ok(())
}

/// The USB control-transfer `value` and `index` that address a device
/// register: bits 18..21 of the register in the high byte of `value`
/// (0x82008 is addressed with value 0x200), the low 16 bits in `index`.
pub fn reg_value(reg: u32) -> (r: (u16, u16))
    ensures
        r.0 == ((reg >> 10u32) & 0xf00u32) as u16,
        r.1 == (reg & 0xffffu32) as u16,
{
    (((reg >> 10) & 0xf00) as u16, (reg & 0xffff) as u16)
}

/// The bytes sent for an API command: the six command bytes with the
/// second replaced by the running sequence number, and the sequence number
/// for the next command (counting modulo 0x3f).
pub fn frame_api_command(command: &[u8], sequence: u8) -> (r: Result<(Vec<u8>, u8), Error>)
    requires
        sequence < 0xff,
    ensures
        command@.len() != 6 ==> r == Err::<(Vec<u8>, u8), Error>(Error::InvalidArgument("API commands must be six bytes")),
        command@.len() == 6 ==> (r matches Ok((data, next)) && data@ == command@.update(1, sequence)
            && next == (sequence + 1) % 0x3f),
{
    if command.len() != 6 {
        return Err(Error::InvalidArgument("API commands must be six bytes"));
    }
    let mut data = slice_to_vec(command);
    data.set(1, sequence);
    Ok((data, (sequence + 1) % 0x3f))
}

/// The sequence number that the API commands of a connection carry: the
/// first command carries 0, and each framed command advances it by one,
/// modulo 0x3f, whatever becomes of its transfer.
pub struct ApiSequence {
    next: u8,
}

/// The sequence number after `k` framed commands.
pub open spec fn sequence_after(k: nat) -> u8 {
    (k % 0x3f) as u8
}

impl ApiSequence {
    #[verifier::type_invariant]
    spec fn below_modulus(self) -> bool {
        self.next < 0x3f
    }

    /// The number the next framed command carries.
    pub closed spec fn number(self) -> u8 {
        self.next
    }

    /// A new connection's sequence: no command framed yet.
    pub fn new() -> (s: Self)
        ensures
            s.number() == sequence_after(0),
    {
        ApiSequence { next: 0 }
    }

    /// Frames an API command (`frame_api_command`) with the current number
    /// and advances the number.  A command that is not six bytes long is
    /// refused and leaves the number as it was.
    pub fn frame(&mut self, command: &[u8]) -> (r: Result<Vec<u8>, Error>)
        ensures
            final(self).number() < 0x3f,
            command@.len() != 6 ==> r == Err::<Vec<u8>, Error>(Error::InvalidArgument("API commands must be six bytes"))
                && final(self).number() == old(self).number(),
            command@.len() == 6 ==> (r matches Ok(data) && data@ == command@.update(1, old(self).number())
                && final(self).number() == (old(self).number() + 1) % 0x3f),
    {
        proof { use_type_invariant(&*self); }
        match frame_api_command(command, self.next) {
            Ok((data, next)) => {
                self.next = next;
                Ok(data)
            },
            Err(e) => Err(e),
        }
    }
}

/// The sequence number counts the framed commands modulo 0x3f: framing one
/// more command after `k` of them moves the number from `sequence_after(k)`
/// to `sequence_after(k + 1)`.
pub proof fn lemma_sequence_counts(k: nat)
    ensures
        (sequence_after(k) + 1) % 0x3f == sequence_after(k + 1),
{
}

/// Checks that a transfer moved the number of bytes requested.
pub fn check_transfer(expected: usize, actual: usize) -> (r: Result<(), Error>)
    ensures
        actual == expected ==> r is Ok,
        actual != expected ==> r == Err::<(), Error>(Error::ShortTransfer { expected, actual }),
{
    if actual != expected {
        return Err(Error::ShortTransfer { expected, actual });
    }
    Ok(())
}

/// Checks the length of an I2C write: between 1 and 255 bytes.
pub fn check_i2c_write(data: &[u8]) -> (r: Result<(), Error>)
    ensures
        (1 <= data@.len() <= 255) ==> r is Ok,
        !(1 <= data@.len() <= 255) ==> r == Err::<(), Error>(Error::InvalidArgument("I2C write length out of range")),
{
    if data.len() == 0 || data.len() > 255 {
        return Err(Error::InvalidArgument("I2C write length out of range"));
    }
    Ok(())
}

/// Checks the length of an I2C read: between 1 and 255 bytes.
pub fn check_i2c_read(len: usize) -> (r: Result<(), Error>)
    ensures
        (1 <= len <= 255) ==> r is Ok,
        !(1 <= len <= 255) ==> r == Err::<(), Error>(Error::InvalidArgument("I2C read length out of range")),
{
    if len == 0 || len > 255 {
        return Err(Error::InvalidArgument("I2C read length out of range"));
    }
    Ok(())
}

/// Whether a buffer can hold one transport packet.
pub fn validate_packet_buffer(data: &[u8]) -> (r: bool)
    ensures
        r == (data@.len() >= TS_PACKET_SIZE),
{
    data.len() >= TS_PACKET_SIZE
}

} // verus!
