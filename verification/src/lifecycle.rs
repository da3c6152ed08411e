//! Tuner bring-up: firmware boot, GPIO and tuner setup, channel tuning, TRC
//! activation and stream start.

use crate::device::{
    added, duration_from_millis, duration_from_secs, extends, follows_plan, lemma_added_concat, lemma_added_push, lemma_history_start, lemma_history_step,
    lemma_single_added, plain, ran_prefix, step_outcome, stops_at_failure, Exchange, History, Reply, Request, Step,
    Transport,
};
use crate::Error;
use core::time::Duration;
use vstd::prelude::*;

verus! {

pub const REG_STATE: u32 = 0x82008;
pub const REG_BOOT: u32 = 0x90070;
pub const REG_IRQ_STATUS: u32 = 0x90074;
pub const REG_IRQ_ENABLE: u32 = 0x90078;
pub const REG_GPIO_CNT: u32 = 0x90014;
pub const REG_GPIO_OUT: u32 = 0x90018;

/// The device state word: the two register bytes, big-endian.
pub open spec fn decode_state_spec(state: Seq<u8>) -> Result<u16, Error> {
    if state.len() != 2 {
        Err(Error::ShortTransfer { expected: 2, actual: state.len() as usize })
    } else {
        Ok((state[0] * 256 + state[1]) as u16)
    }
}

/// Decodes the device state word: the two register bytes, big-endian.
pub fn decode_state(state: &[u8]) -> (r: Result<u16, Error>)
    ensures
        r == decode_state_spec(state@),
        state@.len() != 2 ==> r == Err::<u16, Error>(Error::ShortTransfer { expected: 2, actual: state@.len() as usize }),
        state@.len() == 2 ==> r == Ok::<u16, Error>((state@[0] * 256 + state@[1]) as u16),
{
    if state.len() != 2 {
        return Err(Error::ShortTransfer { expected: 2, actual: state.len() });
    }
    Ok((state[0] as u16) * 256 + state[1] as u16)
}

/// The state a read of the state register gives: the decoded bytes, or the
/// transport's error.
pub open spec fn state_of_reply(reply: Reply) -> Result<u16, Error> {
    match reply {
        Reply::Data(d) => decode_state_spec(d),
        Reply::Failed(e) => Err(e),
        _ => decode_state_spec(Seq::empty()),
    }
}

/// `ops` are one read of the two state-register bytes, and `r` is the state
/// it gives.
pub open spec fn reads_state(ops: History, r: Result<u16, Error>) -> bool {
    &&& ops.len() == 1
    &&& ops[0].request == (Request::RegRead { reg: REG_STATE, len: 2 })
    &&& r == state_of_reply(ops[0].reply)
}

/// Reads the device state register and decodes it with `decode_state`.
pub fn read_state<T: Transport>(transport: &mut T) -> (r: Result<u16, Error>)
    ensures
        extends(old(transport).history(), final(transport).history()),
        reads_state(added(old(transport).history(), final(transport).history()), r),
{
    let ghost h0 = transport.history();
    let state = transport.reg_read(REG_STATE, 2);
    proof {
        lemma_history_start(h0, Seq::<Step>::empty());
        crate::device::lemma_added_push(h0, h0, Exchange { request: Request::RegRead { reg: REG_STATE, len: 2 }, reply: crate::device::data_reply(state) });
        assert(added(h0, h0) =~= Seq::<Exchange>::empty());
    }
    let state = state?;
    decode_state(&state)
}


/// The requests that boot the device: acknowledge the interrupt status,
/// download the firmware, start it.
pub open spec fn boot_plan(firmware: Seq<u8>) -> Seq<Step> {
    seq![
        plain(Request::RegWrite { reg: REG_IRQ_STATUS, data: seq![0u8, 4u8] }),
        plain(Request::Firmware { data: firmware }),
        plain(Request::RegWrite { reg: REG_BOOT, data: seq![0u8, 4u8] }),
    ]
}

/// What `prepare_firmware` does on a connection: `ops` start with the read
/// of the state; a failed read or a state other than 0 ends it there and is
/// returned; state 0 is followed by `boot_plan`, and then 0 is returned, or
/// the error of the first boot request that failed.
pub open spec fn prepares_firmware(ops: History, firmware: Seq<u8>, r: Result<u16, Error>) -> bool {
    &&& ops.len() >= 1
    &&& ops[0].request == (Request::RegRead { reg: REG_STATE, len: 2 })
    &&& match state_of_reply(ops[0].reply) {
        Err(e) => ops.len() == 1 && r == Err::<u16, Error>(e),
        Ok(s) => if s != 0 {
            ops.len() == 1 && r == Ok::<u16, Error>(s)
        } else {
            &&& follows_plan(ops.skip(1), boot_plan(firmware), match r { Ok(_) => Ok(()), Err(e) => Err(e) })
            &&& r is Ok ==> r == Ok::<u16, Error>(0)
        },
    }
}

/// Sends the boot requests, stopping at the first that fails.
fn boot<T: Transport>(transport: &mut T, firmware: &[u8]) -> (r: Result<(), Error>)
    ensures
        extends(old(transport).history(), final(transport).history()),
        follows_plan(added(old(transport).history(), final(transport).history()), boot_plan(firmware@), r),
{
    let ghost h0 = transport.history();
    let ghost plan = boot_plan(firmware@);
    let v: [u8; 2] = [0, 4];
    assert(v@ =~= seq![0u8, 4u8]);
    proof { lemma_history_start(h0, plan); }
    let w = transport.reg_write(REG_IRQ_STATUS, &v);
    proof { lemma_history_step(h0, h0, plan, Exchange { request: Request::RegWrite { reg: REG_IRQ_STATUS, data: v@ }, reply: crate::device::unit_reply(w) }); }
    w?;
    let ghost h = transport.history();
    let f = transport.firmware(firmware);
    proof { lemma_history_step(h0, h, plan, Exchange { request: Request::Firmware { data: firmware@ }, reply: crate::device::unit_reply(f) }); }
    f?;
    let ghost h = transport.history();
    let b = transport.reg_write(REG_BOOT, &v);
    proof { lemma_history_step(h0, h, plan, Exchange { request: Request::RegWrite { reg: REG_BOOT, data: v@ }, reply: crate::device::unit_reply(b) }); }
    b
}

/// Reads the device state and, if the device has not booted (state 0),
/// acknowledges the interrupt status, downloads `firmware` and starts it.
/// Returns the state read.
pub fn prepare_firmware<T: Transport>(transport: &mut T, firmware: &[u8]) -> (r: Result<u16, Error>)
    ensures
        extends(old(transport).history(), final(transport).history()),
        prepares_firmware(added(old(transport).history(), final(transport).history()), firmware@, r),
{
    let ghost h0 = transport.history();
    let state = read_state(transport)?;
    if state == 0 {
        let ghost h1 = transport.history();
        let b = boot(transport, firmware);
        proof {
            let ghost h2 = transport.history();
            lemma_added_concat(h0, h1, h2);
            let ghost ops = added(h0, h2);
            assert(ops.skip(1) =~= added(h1, h2));
            assert(ops[0] == added(h0, h1)[0]);
        }
        b?;
    }
    Ok(state)
}

/// The request that enables the secure-channel interrupts.
pub open spec fn secure_interrupt_plan() -> Seq<Step> {
    seq![plain(Request::RegWrite { reg: REG_IRQ_ENABLE, data: seq![8u8, 4u8] })]
}

/// Enables the secure-channel interrupts.
pub fn enable_secure_interrupts<T: Transport>(transport: &mut T) -> (r: Result<(), Error>)
    ensures
        extends(old(transport).history(), final(transport).history()),
        follows_plan(added(old(transport).history(), final(transport).history()), secure_interrupt_plan(), r),
{
    let ghost h0 = transport.history();
    let v: [u8; 2] = [8, 4];
    assert(v@ =~= seq![8u8, 4u8]);
    proof { lemma_history_start(h0, secure_interrupt_plan()); }
    let w = transport.reg_write(REG_IRQ_ENABLE, &v);
    proof { lemma_history_step(h0, h0, secure_interrupt_plan(), Exchange { request: Request::RegWrite { reg: REG_IRQ_ENABLE, data: v@ }, reply: crate::device::unit_reply(w) }); }
    w
}

/// Whether an acknowledgement reports a state change (first byte 0x20).
pub fn is_state_change_ack(ack: &[u8]) -> (r: bool)
    ensures
        r == (ack@.len() > 0 && ack@[0] == 0x20u8),
{
    ack.len() > 0 && ack[0] == 0x20
}

/// Whether an acknowledgement reply reports a state change.
pub open spec fn state_change_reply(reply: Reply) -> bool {
    reply matches Reply::Data(d) && d.len() > 0 && d[0] == 0x20u8
}

/// What waiting for a state change does on a connection: `ops` are at most
/// `tries` acknowledgement reads, each with `timeout`; each but the last got bytes that report
/// no state change.  Success comes with a last reply that reports one; a
/// failed read ends the wait with its error; `tries` reads without a state
/// change end it with "expected state-change ACK was not received".
pub open spec fn waits_for_state_change(ops: History, timeout: Duration, tries: nat, r: Result<(), Error>) -> bool {
    &&& ops.len() <= tries
    &&& forall|i: int| 0 <= i < ops.len() ==> (#[trigger] ops[i]).request == (Request::Ack { timeout })
    &&& forall|i: int| 0 <= i < ops.len() - 1 ==> (#[trigger] ops[i]).reply is Data && !state_change_reply(ops[i].reply)
    &&& match r {
        Ok(_) => ops.len() > 0 && state_change_reply(ops.last().reply),
        Err(e) => if ops.len() > 0 && ops.last().reply is Failed {
            ops.last().reply == Reply::Failed(e)
        } else {
            &&& ops.len() == tries
            &&& e == Error::ProtocolUnavailable("expected state-change ACK was not received")
            &&& ops.len() > 0 ==> (ops.last().reply is Data && !state_change_reply(ops.last().reply))
        },
    }
}

/// Reads acknowledgements until one reports a state change
/// (`is_state_change_ack`), at most `tries` of them.
pub fn wait_state_change<T: Transport>(transport: &mut T, timeout: Duration, tries: usize) -> (r: Result<(), Error>)
    ensures
        tries == 0 ==> r == Err::<(), Error>(Error::ProtocolUnavailable("expected state-change ACK was not received")),
        extends(old(transport).history(), final(transport).history()),
        waits_for_state_change(added(old(transport).history(), final(transport).history()), timeout, tries as nat, r),
{
    let ghost h0 = transport.history();
    proof { lemma_history_start(h0, Seq::<Step>::empty()); }
    let mut i: usize = 0;
    while i < tries
        invariant
            i <= tries,
            h0 == old(transport).history(),
            extends(h0, transport.history()),
            added(h0, transport.history()).len() == i,
            forall|j: int| 0 <= j < i ==> (#[trigger] added(h0, transport.history())[j]).request == (Request::Ack { timeout })
                && added(h0, transport.history())[j].reply is Data
                && !state_change_reply(added(h0, transport.history())[j].reply),
        decreases tries - i,
    {
        let ghost h = transport.history();
        let ack = transport.ack(timeout);
        proof { lemma_added_push(h0, h, Exchange { request: Request::Ack { timeout }, reply: crate::device::data_reply(ack) }); }
        let ack = ack?;
        if is_state_change_ack(&ack) {
            return Ok(());
        }
        i = i + 1;
    }
    Err(Error::ProtocolUnavailable("expected state-change ACK was not received"))
}

/// `ops` carry out `plan` as `follows_plan` says; when every step went
/// through, they go on waiting for a state change with at most `tries`
/// acknowledgement reads of `timeout` each, and `r` is the outcome of that wait.
pub open spec fn follows_plan_then_wait(ops: History, plan: Seq<Step>, timeout: Duration, tries: nat, r: Result<(), Error>) -> bool {
    ||| stops_at_failure(ops, plan, r)
    ||| {
        &&& plan.len() <= ops.len()
        &&& ran_prefix(ops.take(plan.len() as int), plan, plan.len() as int)
        &&& waits_for_state_change(ops.skip(plan.len() as int), timeout, tries, r)
    }
}

/// A completed plan followed by a wait is a run of the plan and the wait.
proof fn lemma_plan_then_wait(h0: History, h1: History, h2: History, plan: Seq<Step>, timeout: Duration, tries: nat, r: Result<(), Error>)
    requires
        extends(h0, h1),
        ran_prefix(added(h0, h1), plan, plan.len() as int),
        extends(h1, h2),
        waits_for_state_change(added(h1, h2), timeout, tries, r),
    ensures
        extends(h0, h2),
        follows_plan_then_wait(added(h0, h2), plan, timeout, tries, r),
{
    lemma_added_concat(h0, h1, h2);
    assert(added(h0, h2).take(plan.len() as int) =~= added(h0, h1));
    assert(added(h0, h2).skip(plan.len() as int) =~= added(h1, h2));
}


/// The command that switches the device to idle.
pub open spec fn idle_plan() -> Seq<Step> {
    seq![plain(Request::ApiCommand { command: seq![0u8, 0u8, 1u8, 0u8, 0u8, 0u8] })]
}

/// Switches the device to idle and waits for the state change (up to 30
/// acknowledgements of 500 ms each).
pub fn send_idle<T: Transport>(transport: &mut T) -> (r: Result<(), Error>)
    ensures
        extends(old(transport).history(), final(transport).history()),
        follows_plan_then_wait(added(old(transport).history(), final(transport).history()), idle_plan(), duration_from_millis(500), 30, r),
{
    let ghost h0 = transport.history();
    let cmd: [u8; 6] = [0, 0, 1, 0, 0, 0];
    assert(cmd@ =~= seq![0u8, 0u8, 1u8, 0u8, 0u8, 0u8]);
    proof { lemma_history_start(h0, idle_plan()); }
    let a = transport.api_command(&cmd);
    proof { lemma_history_step(h0, h0, idle_plan(), Exchange { request: Request::ApiCommand { command: cmd@ }, reply: crate::device::unit_reply(a) }); }
    a?;
    let ghost h1 = transport.history();
    let r = wait_state_change(transport, Duration::from_millis(500), 30);
    proof { lemma_plan_then_wait(h0, h1, transport.history(), idle_plan(), duration_from_millis(500), 30, r); }
    r
}


/// The GPIO direction and output settings.
pub open spec fn gpio_plan() -> Seq<Step> {
    seq![
        plain(Request::RegWrite { reg: REG_GPIO_CNT, data: seq![0x02u8, 0xf4u8] }),
        plain(Request::RegWrite { reg: REG_GPIO_OUT, data: seq![0x03u8, 0xffu8] }),
    ]
}

/// Configures the GPIO pins.
pub fn setup_gpio<T: Transport>(transport: &mut T) -> (r: Result<(), Error>)
    ensures
        extends(old(transport).history(), final(transport).history()),
        follows_plan(added(old(transport).history(), final(transport).history()), gpio_plan(), r),
{
    let ghost h0 = transport.history();
    let cnt: [u8; 2] = [0x02, 0xf4];
    let out: [u8; 2] = [0x03, 0xff];
    assert(cnt@ =~= seq![0x02u8, 0xf4u8]);
    assert(out@ =~= seq![0x03u8, 0xffu8]);
    proof { lemma_history_start(h0, gpio_plan()); }
    let w = transport.reg_write(REG_GPIO_CNT, &cnt);
    proof { lemma_history_step(h0, h0, gpio_plan(), Exchange { request: Request::RegWrite { reg: REG_GPIO_CNT, data: cnt@ }, reply: crate::device::unit_reply(w) }); }
    w?;
    let ghost h = transport.history();
    let w = transport.reg_write(REG_GPIO_OUT, &out);
    proof { lemma_history_step(h0, h, gpio_plan(), Exchange { request: Request::RegWrite { reg: REG_GPIO_OUT, data: out@ }, reply: crate::device::unit_reply(w) }); }
    w
}


/// The tuner initialisation writes, in order.
pub open spec fn tuner_init_table() -> Seq<Seq<u8>> {
    seq![
        seq![0xfeu8, 0xc0u8, 0xffu8],
        seq![0x03u8, 0x80u8],
        seq![0x09u8, 0x10u8],
        seq![0x11u8, 0x26u8],
        seq![0x12u8, 0x0cu8],
        seq![0x13u8, 0x2bu8],
        seq![0x14u8, 0x40u8],
        seq![0x1cu8, 0x2au8],
        seq![0x1du8, 0xa0u8],
        seq![0x1eu8, 0xa8u8],
        seq![0x1fu8, 0xa8u8],
        seq![0x30u8, 0x00u8],
        seq![0x31u8, 0x0du8],
        seq![0x32u8, 0x79u8],
        seq![0x34u8, 0x0fu8],
        seq![0x38u8, 0x00u8],
        seq![0x39u8, 0x94u8],
        seq![0x3au8, 0x20u8],
        seq![0x3bu8, 0x21u8],
        seq![0x3cu8, 0x3fu8],
        seq![0x71u8, 0x00u8],
        seq![0x75u8, 0x28u8],
        seq![0x76u8, 0x0cu8],
        seq![0x77u8, 0x01u8],
        seq![0x7du8, 0x80u8],
        seq![0xefu8, 0x01u8],
        seq![0xfeu8, 0xc0u8, 0x00u8, 0x3fu8, 0x02u8, 0x00u8, 0x03u8, 0x48u8, 0x04u8, 0x00u8, 0x05u8, 0x04u8, 0x06u8, 0x10u8, 0x2eu8, 0x15u8, 0x30u8, 0x10u8, 0x45u8, 0x58u8, 0x48u8, 0x19u8, 0x52u8, 0x03u8, 0x53u8, 0x44u8, 0x6au8, 0x4bu8, 0x76u8, 0x00u8, 0x78u8, 0x18u8, 0x7au8, 0x17u8, 0x85u8, 0x06u8],
        seq![0xfeu8, 0xc0u8, 0x01u8, 0x01u8]
    ]
}


/// The tuner initialisation writes as byte vectors.
fn tuner_init_writes() -> (r: Vec<Vec<u8>>)
    ensures
        r@.len() == tuner_init_table().len(),
        forall|i: int| 0 <= i < r@.len() ==> (#[trigger] r@[i])@ == tuner_init_table()[i],
{
    let r = vec![
        vec![0xfeu8, 0xc0u8, 0xffu8],
        vec![0x03u8, 0x80u8],
        vec![0x09u8, 0x10u8],
        vec![0x11u8, 0x26u8],
        vec![0x12u8, 0x0cu8],
        vec![0x13u8, 0x2bu8],
        vec![0x14u8, 0x40u8],
        vec![0x1cu8, 0x2au8],
        vec![0x1du8, 0xa0u8],
        vec![0x1eu8, 0xa8u8],
        vec![0x1fu8, 0xa8u8],
        vec![0x30u8, 0x00u8],
        vec![0x31u8, 0x0du8],
        vec![0x32u8, 0x79u8],
        vec![0x34u8, 0x0fu8],
        vec![0x38u8, 0x00u8],
        vec![0x39u8, 0x94u8],
        vec![0x3au8, 0x20u8],
        vec![0x3bu8, 0x21u8],
        vec![0x3cu8, 0x3fu8],
        vec![0x71u8, 0x00u8],
        vec![0x75u8, 0x28u8],
        vec![0x76u8, 0x0cu8],
        vec![0x77u8, 0x01u8],
        vec![0x7du8, 0x80u8],
        vec![0xefu8, 0x01u8],
        vec![0xfeu8, 0xc0u8, 0x00u8, 0x3fu8, 0x02u8, 0x00u8, 0x03u8, 0x48u8, 0x04u8, 0x00u8, 0x05u8, 0x04u8, 0x06u8, 0x10u8, 0x2eu8, 0x15u8, 0x30u8, 0x10u8, 0x45u8, 0x58u8, 0x48u8, 0x19u8, 0x52u8, 0x03u8, 0x53u8, 0x44u8, 0x6au8, 0x4bu8, 0x76u8, 0x00u8, 0x78u8, 0x18u8, 0x7au8, 0x17u8, 0x85u8, 0x06u8],
        vec![0xfeu8, 0xc0u8, 0x01u8, 0x01u8]
    ];
    assert forall|i: int| 0 <= i < r@.len() implies (#[trigger] r@[i])@ == tuner_init_table()[i] by {
        assert(r@[i]@ =~= tuner_init_table()[i]);
    }
    r
}

/// The I2C writes of the tuner initialisation, in order.
pub open spec fn tuner_init_plan() -> Seq<Step> {
    tuner_init_table().map_values(|d: Seq<u8>| plain(Request::I2cWrite { data: d }))
}

/// Sends the tuner initialisation writes (`tuner_init_table`) in order.
pub fn init_tuner<T: Transport>(transport: &mut T) -> (r: Result<(), Error>)
    ensures
        extends(old(transport).history(), final(transport).history()),
        follows_plan(added(old(transport).history(), final(transport).history()), tuner_init_plan(), r),
{
    let ghost h0 = transport.history();
    let ghost plan = tuner_init_plan();
    proof { lemma_history_start(h0, plan); }
    let table = tuner_init_writes();
    let mut i: usize = 0;
    while i < table.len()
        invariant
            i <= table@.len(),
            table@.len() == tuner_init_table().len(),
            forall|j: int| 0 <= j < table@.len() ==> (#[trigger] table@[j])@ == tuner_init_table()[j],
            plan == tuner_init_plan(),
            h0 == old(transport).history(),
            extends(h0, transport.history()),
            ran_prefix(added(h0, transport.history()), plan, i as int),
        decreases table@.len() - i,
    {
        let ghost h = transport.history();
        let w = transport.i2c_write(table[i].as_slice());
        proof {
            assert(plan[i as int] == plain(Request::I2cWrite { data: tuner_init_table()[i as int] }));
            lemma_history_step(h0, h, plan, Exchange { request: Request::I2cWrite { data: table@[i as int]@ }, reply: crate::device::unit_reply(w) });
        }
        w?;
        i = i + 1;
    }
    Ok(())
}

/// The PLL divider of a UHF channel: 64 steps per MHz of the channel
/// frequency (395.143 MHz + 6 MHz per channel), rounded up.
pub open spec fn pll_divider_spec(channel: u8) -> int {
    ((channel * 6000 + 395143) * 64 + 999) / 1000
}

/// The PLL divider of UHF channels 13 to 62.
pub fn pll_divider(channel: u8) -> (r: Result<u16, Error>)
    ensures
        !(13 <= channel <= 62) ==> r == Err::<u16, Error>(Error::InvalidArgument("channel must be between 13 and 62")),
        (13 <= channel <= 62) ==> r == Ok::<u16, Error>(pll_divider_spec(channel) as u16),
        (13 <= channel <= 62) ==> pll_divider_spec(channel) <= u16::MAX,
{
    if channel < 13 || channel > 62 {
        return Err(Error::InvalidArgument("channel must be between 13 and 62"));
    }
    let frequency_khz: u32 = (channel as u32) * 6000 + 395143;
    Ok(((frequency_khz * 64 + 999) / 1000) as u16)
}

/// The I2C writes that tune the tuner to a PLL divider.
pub open spec fn tuning_writes_spec(divider: u16) -> Seq<Seq<u8>> {
    seq![
        seq![0xfeu8, 0xc0u8, 0x0cu8, 0x15u8],
        seq![0xfeu8, 0xc0u8, 0x0du8, divider as u8, 0x0eu8, (divider / 256) as u8],
        seq![0xfeu8, 0xc0u8, 0x0fu8, 0x01u8],
        seq![0x01u8, 0x40u8],
        seq![0x23u8, 0x4cu8],
    ]
}

/// The I2C writes for a PLL divider: the divider goes into tuner registers
/// 0x0d (low byte) and 0x0e (high byte).
pub fn tuning_writes(divider: u16) -> (r: Vec<Vec<u8>>)
    ensures
        r@.len() == 5,
        forall|i: int| 0 <= i < 5 ==> (#[trigger] r@[i])@ == tuning_writes_spec(divider)[i],
{
    let r = vec![
        vec![0xfeu8, 0xc0, 0x0c, 0x15],
        vec![0xfeu8, 0xc0, 0x0d, divider as u8, 0x0e, (divider >> 8) as u8],
        vec![0xfeu8, 0xc0, 0x0f, 1],
        vec![1u8, 0x40],
        vec![0x23u8, 0x4c],
    ];
    assert((divider >> 8u16) as u8 == (divider / 256) as u8) by (bit_vector);
    assert forall|i: int| 0 <= i < 5 implies (#[trigger] r@[i])@ == tuning_writes_spec(divider)[i] by {
        assert(r@[i]@ =~= tuning_writes_spec(divider)[i]);
    }
    r
}

/// The divider write of the tuning sequence (the second write) goes to
/// tuner registers 0x0d and 0x0e and carries the whole divider: its low
/// byte and its high byte recombine to the divider, for every divider.
pub proof fn law_tuning_carries_divider(divider: u16)
    ensures
        tuning_writes_spec(divider)[1].len() == 6,
        tuning_writes_spec(divider)[1][2] == 0x0du8,
        tuning_writes_spec(divider)[1][4] == 0x0eu8,
        tuning_writes_spec(divider)[1][3] + 256 * tuning_writes_spec(divider)[1][5] == divider,
{
    let lo = divider as u8;
    let hi = (divider / 256) as u8;
    assert(lo + 256 * hi == divider) by (bit_vector)
        requires
            lo == divider as u8,
            hi == (divider / 256) as u8,
    ;
}

/// Tuning to a channel writes the channel's PLL divider, whole, to tuner
/// registers 0x0d (low byte) and 0x0e (high byte).
pub proof fn law_tuning_writes_channel_divider(channel: u8)
    requires
        13 <= channel <= 62,
    ensures
        tuning_plan(channel)[1] == plain(Request::I2cWrite { data: tuning_writes_spec(pll_divider_spec(channel) as u16)[1] }),
        tuning_writes_spec(pll_divider_spec(channel) as u16)[1][3] + 256 * tuning_writes_spec(
            pll_divider_spec(channel) as u16,
        )[1][5] == pll_divider_spec(channel),
{
    assert(0 <= pll_divider_spec(channel) <= 0xffff) by (nonlinear_arith)
        requires
            13 <= channel <= 62,
            pll_divider_spec(channel) == ((channel * 6000 + 395143) * 64 + 999) / 1000,
    ;
    law_tuning_carries_divider(pll_divider_spec(channel) as u16);
}

/// The I2C writes that tune to a channel, in order.
pub open spec fn tuning_plan(channel: u8) -> Seq<Step> {
    tuning_writes_spec(pll_divider_spec(channel) as u16).map_values(|d: Seq<u8>| plain(Request::I2cWrite { data: d }))
}

/// Tunes to UHF channel 13 to 62: sends `tuning_writes` of the channel's
/// PLL divider, stopping at the first that fails.  Any other channel is
/// refused before anything is sent.
pub fn tune_channel<T: Transport>(transport: &mut T, channel: u8) -> (r: Result<(), Error>)
    ensures
        extends(old(transport).history(), final(transport).history()),
        !(13 <= channel <= 62) ==> r == Err::<(), Error>(Error::InvalidArgument("channel must be between 13 and 62"))
            && final(transport).history() == old(transport).history(),
        (13 <= channel <= 62) ==> follows_plan(
            added(old(transport).history(), final(transport).history()),
            tuning_plan(channel),
            r,
        ),
{
    let ghost h0 = transport.history();
    let ghost plan = tuning_plan(channel);
    proof { lemma_history_start(h0, plan); }
    if channel < 13 || channel > 62 {
        return Err(Error::InvalidArgument("channel must be between 13 and 62"));
    }
    let divider = pll_divider(channel)?;
    let writes = tuning_writes(divider);
    let mut i: usize = 0;
    while i < writes.len()
        invariant
            13 <= channel <= 62,
            i <= writes@.len(),
            writes@.len() == 5,
            divider == pll_divider_spec(channel) as u16,
            forall|j: int| 0 <= j < 5 ==> (#[trigger] writes@[j])@ == tuning_writes_spec(divider)[j],
            plan == tuning_plan(channel),
            h0 == old(transport).history(),
            extends(h0, transport.history()),
            ran_prefix(added(h0, transport.history()), plan, i as int),
        decreases writes@.len() - i,
    {
        let ghost h = transport.history();
        let w = transport.i2c_write(writes[i].as_slice());
        proof {
            assert(plan[i as int] == plain(Request::I2cWrite { data: tuning_writes_spec(divider)[i as int] }));
            lemma_history_step(h0, h, plan, Exchange { request: Request::I2cWrite { data: writes@[i as int]@ }, reply: crate::device::unit_reply(w) });
        }
        w?;
        i = i + 1;
    }
    Ok(())
}

/// A required acknowledgement, read with `timeout`: one that must hold at
/// least one byte.
pub open spec fn ack_step(timeout: Duration) -> Step {
    Step { request: Request::Ack { timeout }, nonempty_reply: true }
}

/// Reads one acknowledgement, waiting at most `timeout`, and refuses an
/// empty one.
pub fn require_ack<T: Transport>(transport: &mut T, timeout: Duration) -> (r: Result<(), Error>)
    ensures
        extends(old(transport).history(), final(transport).history()),
        added(old(transport).history(), final(transport).history()).len() == 1,
        added(old(transport).history(), final(transport).history())[0].request == (Request::Ack { timeout }),
        r == step_outcome(ack_step(timeout), added(old(transport).history(), final(transport).history())[0].reply),
{
    let ghost h0 = transport.history();
    let ack = transport.ack(timeout);
    proof {
        lemma_history_start(h0, Seq::<Step>::empty());
        crate::device::lemma_added_push(h0, h0, Exchange { request: Request::Ack { timeout }, reply: crate::device::data_reply(ack) });
        assert(added(h0, h0) =~= Seq::<Exchange>::empty());
    }
    let ack = ack?;
    if ack.len() == 0 {
        Err(Error::ProtocolUnavailable("empty device ACK"))
    } else {
        Ok(())
    }
}


/// The requests that start the transport stream: the start command and a
/// required acknowledgement, read within one second.
pub open spec fn stream_plan() -> Seq<Step> {
    seq![plain(Request::ApiCommand { command: seq![0u8, 0u8, 5u8, 0u8, 0u8, 2u8] }), ack_step(duration_from_secs(1))]
}

/// Starts the transport stream and requires the device to acknowledge it.
pub fn start_stream<T: Transport>(transport: &mut T) -> (r: Result<(), Error>)
    ensures
        extends(old(transport).history(), final(transport).history()),
        follows_plan(added(old(transport).history(), final(transport).history()), stream_plan(), r),
{
    let ghost h0 = transport.history();
    let cmd: [u8; 6] = [0, 0, 5, 0, 0, 2];
    assert(cmd@ =~= seq![0u8, 0u8, 5u8, 0u8, 0u8, 2u8]);
    proof { lemma_history_start(h0, stream_plan()); }
    let a = transport.api_command(&cmd);
    proof { lemma_history_step(h0, h0, stream_plan(), Exchange { request: Request::ApiCommand { command: cmd@ }, reply: crate::device::unit_reply(a) }); }
    a?;
    let ghost h = transport.history();
    let r = require_ack(transport, Duration::from_secs(1));
    proof {
        let ghost x = added(h, transport.history())[0];
        lemma_added_concat(h0, h, transport.history());
        assert(added(h, transport.history()) =~= seq![x]);
        assert(transport.history() =~= h.push(x));
        lemma_history_step(h0, h, stream_plan(), x);
    }
    r
}

/// The TRC registers set after clearing the TRC register block: register,
/// high byte, low byte.
pub open spec fn trc_settings_spec() -> Seq<(u32, u8, u8)> {
    seq![
        (0x1002u32, 0x84u8, 0x04u8),
        (0x1004u32, 0x01u8, 0x84u8),
        (0x100au32, 0x00u8, 0x20u8),
        (0x100cu32, 0x00u8, 0x10u8),
        (0x101au32, 0xb3u8, 0x00u8),
        (0x101cu32, 0x02u8, 0x0fu8),
        (0x104cu32, 0x9fu8, 0xc8u8),
        (0x1050u32, 0x80u8, 0x10u8),
        (0x1062u32, 0x81u8, 0xf0u8),
        (0x1102u32, 0x00u8, 0x02u8),
        (0x1104u32, 0x61u8, 0xa8u8),
        (0x1136u32, 0x01u8, 0x41u8),
        (0x113au32, 0x02u8, 0x0fu8)
    ]
}




/// The TRC settings as a list.
fn trc_settings() -> (r: Vec<(u32, u8, u8)>)
    ensures
        r@ == trc_settings_spec(),
{
    let r = vec![
        (0x1002u32, 0x84u8, 0x04u8),
        (0x1004u32, 0x01u8, 0x84u8),
        (0x100au32, 0x00u8, 0x20u8),
        (0x100cu32, 0x00u8, 0x10u8),
        (0x101au32, 0xb3u8, 0x00u8),
        (0x101cu32, 0x02u8, 0x0fu8),
        (0x104cu32, 0x9fu8, 0xc8u8),
        (0x1050u32, 0x80u8, 0x10u8),
        (0x1062u32, 0x81u8, 0xf0u8),
        (0x1102u32, 0x00u8, 0x02u8),
        (0x1104u32, 0x61u8, 0xa8u8),
        (0x1136u32, 0x01u8, 0x41u8),
        (0x113au32, 0x02u8, 0x0fu8)
    ];
    assert(r@ =~= trc_settings_spec());
    r
}

/// The requests of the TRC activation before its final wait: zero every
/// register from 0x1000 to 0x14fe, write the TRC settings, announce the
/// firmware (with a required acknowledgement, read within one second),
/// download it, start it (with another such acknowledgement).
pub open spec fn trc_plan(firmware: Seq<u8>) -> Seq<Step> {
    Seq::new(0x280, |i: int| plain(Request::RegWrite { reg: (0x1000 + 2 * i) as u32, data: seq![0u8, 0u8] }))
        + trc_settings_spec().map_values(|e: (u32, u8, u8)| plain(Request::RegWrite { reg: e.0, data: seq![e.1, e.2] }))
        + seq![
            plain(Request::ApiCommand { command: seq![0u8, 0u8, 4u8, 0u8, 0u8, 0u8] }),
            ack_step(duration_from_secs(1)),
            plain(Request::Firmware { data: firmware }),
            plain(Request::ApiCommand { command: seq![0u8, 0u8, 4u8, 0x20u8, 0u8, 0u8] }),
            ack_step(duration_from_secs(1)),
        ]
}

/// Whatever the firmware, the TRC activation clears registers 0x1000 to
/// 0x14fe with zero writes, then writes these thirteen settings, in this
/// order: 0x1002 = 84 04, 0x1004 = 01 84, 0x100a = 00 20, 0x100c = 00 10,
/// 0x101a = b3 00, 0x101c = 02 0f, 0x104c = 9f c8, 0x1050 = 80 10,
/// 0x1062 = 81 f0, 0x1102 = 00 02, 0x1104 = 61 a8, 0x1136 = 01 41,
/// 0x113a = 02 0f.
pub proof fn law_trc_register_writes(firmware: Seq<u8>)
    ensures
        trc_plan(firmware).len() == 0x280 + 13 + 5,
        forall|i: int| 0 <= i < 0x280 ==> #[trigger] trc_plan(firmware)[i] == plain(
            Request::RegWrite { reg: (0x1000 + 2 * i) as u32, data: seq![0u8, 0u8] },
        ),
        trc_plan(firmware).subrange(0x280, 0x28d) == seq![
            plain(Request::RegWrite { reg: 0x1002u32, data: seq![0x84u8, 0x04u8] }),
            plain(Request::RegWrite { reg: 0x1004u32, data: seq![0x01u8, 0x84u8] }),
            plain(Request::RegWrite { reg: 0x100au32, data: seq![0x00u8, 0x20u8] }),
            plain(Request::RegWrite { reg: 0x100cu32, data: seq![0x00u8, 0x10u8] }),
            plain(Request::RegWrite { reg: 0x101au32, data: seq![0xb3u8, 0x00u8] }),
            plain(Request::RegWrite { reg: 0x101cu32, data: seq![0x02u8, 0x0fu8] }),
            plain(Request::RegWrite { reg: 0x104cu32, data: seq![0x9fu8, 0xc8u8] }),
            plain(Request::RegWrite { reg: 0x1050u32, data: seq![0x80u8, 0x10u8] }),
            plain(Request::RegWrite { reg: 0x1062u32, data: seq![0x81u8, 0xf0u8] }),
            plain(Request::RegWrite { reg: 0x1102u32, data: seq![0x00u8, 0x02u8] }),
            plain(Request::RegWrite { reg: 0x1104u32, data: seq![0x61u8, 0xa8u8] }),
            plain(Request::RegWrite { reg: 0x1136u32, data: seq![0x01u8, 0x41u8] }),
            plain(Request::RegWrite { reg: 0x113au32, data: seq![0x02u8, 0x0fu8] }),
        ],
{
    let plan = trc_plan(firmware);
    let expected = seq![
        plain(Request::RegWrite { reg: 0x1002u32, data: seq![0x84u8, 0x04u8] }),
        plain(Request::RegWrite { reg: 0x1004u32, data: seq![0x01u8, 0x84u8] }),
        plain(Request::RegWrite { reg: 0x100au32, data: seq![0x00u8, 0x20u8] }),
        plain(Request::RegWrite { reg: 0x100cu32, data: seq![0x00u8, 0x10u8] }),
        plain(Request::RegWrite { reg: 0x101au32, data: seq![0xb3u8, 0x00u8] }),
        plain(Request::RegWrite { reg: 0x101cu32, data: seq![0x02u8, 0x0fu8] }),
        plain(Request::RegWrite { reg: 0x104cu32, data: seq![0x9fu8, 0xc8u8] }),
        plain(Request::RegWrite { reg: 0x1050u32, data: seq![0x80u8, 0x10u8] }),
        plain(Request::RegWrite { reg: 0x1062u32, data: seq![0x81u8, 0xf0u8] }),
        plain(Request::RegWrite { reg: 0x1102u32, data: seq![0x00u8, 0x02u8] }),
        plain(Request::RegWrite { reg: 0x1104u32, data: seq![0x61u8, 0xa8u8] }),
        plain(Request::RegWrite { reg: 0x1136u32, data: seq![0x01u8, 0x41u8] }),
        plain(Request::RegWrite { reg: 0x113au32, data: seq![0x02u8, 0x0fu8] }),
    ];
    assert forall|k: int| 0 <= k < 13 implies #[trigger] plan.subrange(0x280, 0x28d)[k] == expected[k] by {
        assert(plan[0x280 + k] == plain(Request::RegWrite {
            reg: trc_settings_spec()[k].0,
            data: seq![trc_settings_spec()[k].1, trc_settings_spec()[k].2],
        }));
    }
    assert(plan.subrange(0x280, 0x28d) =~= expected);
}

/// Runs a required acknowledgement as step `k` of a plan.
proof fn lemma_ack_step(h0: History, h: History, h2: History, plan: Seq<Step>, timeout: Duration)
    requires
        extends(h0, h),
        ran_prefix(added(h0, h), plan, added(h0, h).len() as int),
        added(h0, h).len() < plan.len(),
        plan[added(h0, h).len() as int] == ack_step(timeout),
        extends(h, h2),
        added(h, h2).len() == 1,
        added(h, h2)[0].request == (Request::Ack { timeout }),
    ensures
        extends(h0, h2),
        step_outcome(ack_step(timeout), added(h, h2)[0].reply) is Ok ==> ran_prefix(added(h0, h2), plan, added(h0, h).len() + 1int),
        step_outcome(ack_step(timeout), added(h, h2)[0].reply) is Err ==> follows_plan(
            added(h0, h2),
            plan,
            step_outcome(ack_step(timeout), added(h, h2)[0].reply),
        ),
{
    lemma_single_added(h, h2);
    lemma_history_step(h0, h, plan, added(h, h2)[0]);
}

/// Clears the TRC register block (0x1000 to 0x14fe), writes the TRC
/// settings, announces and downloads the TRC firmware, starts it, and waits
/// for the state change (up to 20 acknowledgements of 500 ms each).
pub fn activate_trc<T: Transport>(transport: &mut T, firmware: &[u8]) -> (r: Result<(), Error>)
    ensures
        extends(old(transport).history(), final(transport).history()),
        follows_plan_then_wait(added(old(transport).history(), final(transport).history()), trc_plan(firmware@), duration_from_millis(500), 20, r),
{
    let ghost h0 = transport.history();
    let ghost plan = trc_plan(firmware@);
    proof { lemma_history_start(h0, plan); }
    let zero: [u8; 2] = [0, 0];
    assert(zero@ =~= seq![0u8, 0u8]);
    let mut reg: u32 = 0x1000;
    while reg < 0x1500
        invariant
            0x1000 <= reg <= 0x1500,
            reg % 2 == 0,
            zero@ == seq![0u8, 0u8],
            plan == trc_plan(firmware@),
            h0 == old(transport).history(),
            extends(h0, transport.history()),
            ran_prefix(added(h0, transport.history()), plan, (reg - 0x1000) / 2),
        decreases 0x1500 - reg,
    {
        let ghost h = transport.history();
        let w = transport.reg_write(reg, &zero);
        proof {
            let k = (reg - 0x1000) / 2;
            assert(plan[k] == plain(Request::RegWrite { reg, data: seq![0u8, 0u8] }));
            lemma_history_step(h0, h, plan, Exchange { request: Request::RegWrite { reg, data: zero@ }, reply: crate::device::unit_reply(w) });
        }
        w?;
        reg = reg + 2;
    }
    let settings = trc_settings();
    let mut i: usize = 0;
    while i < settings.len()
        invariant
            i <= settings@.len(),
            settings@ == trc_settings_spec(),
            plan == trc_plan(firmware@),
            h0 == old(transport).history(),
            extends(h0, transport.history()),
            ran_prefix(added(h0, transport.history()), plan, 0x280 + i),
        decreases settings@.len() - i,
    {
        let (reg, hi, lo) = settings[i];
        let v: [u8; 2] = [hi, lo];
        let ghost h = transport.history();
        let w = transport.reg_write(reg, &v);
        proof {
            assert(v@ =~= seq![hi, lo]);
            assert(plan[0x280 + i] == plain(Request::RegWrite { reg, data: seq![hi, lo] }));
            lemma_history_step(h0, h, plan, Exchange { request: Request::RegWrite { reg, data: v@ }, reply: crate::device::unit_reply(w) });
        }
        w?;
        i = i + 1;
    }
    let load: [u8; 6] = [0, 0, 4, 0, 0, 0];
    let start: [u8; 6] = [0, 0, 4, 0x20, 0, 0];
    assert(load@ =~= seq![0u8, 0u8, 4u8, 0u8, 0u8, 0u8]);
    assert(start@ =~= seq![0u8, 0u8, 4u8, 0x20u8, 0u8, 0u8]);
    let ghost h = transport.history();
    let a = transport.api_command(&load);
    proof { lemma_history_step(h0, h, plan, Exchange { request: Request::ApiCommand { command: load@ }, reply: crate::device::unit_reply(a) }); }
    a?;
    let ghost h = transport.history();
    let a = require_ack(transport, Duration::from_secs(1));
    proof { lemma_ack_step(h0, h, transport.history(), plan, duration_from_secs(1)); }
    a?;
    let ghost h = transport.history();
    let f = transport.firmware(firmware);
    proof { lemma_history_step(h0, h, plan, Exchange { request: Request::Firmware { data: firmware@ }, reply: crate::device::unit_reply(f) }); }
    f?;
    let ghost h = transport.history();
    let a = transport.api_command(&start);
    proof { lemma_history_step(h0, h, plan, Exchange { request: Request::ApiCommand { command: start@ }, reply: crate::device::unit_reply(a) }); }
    a?;
    let ghost h = transport.history();
    let a = require_ack(transport, Duration::from_secs(1));
    proof { lemma_ack_step(h0, h, transport.history(), plan, duration_from_secs(1)); }
    a?;
    let ghost h1 = transport.history();
    let r = wait_state_change(transport, Duration::from_millis(500), 20);
    proof { lemma_plan_then_wait(h0, h1, transport.history(), plan, duration_from_millis(500), 20, r); }
    r
}

} // verus!
