use recm2tv::device::Transport;
use recm2tv::lifecycle::{
    activate_trc, decode_state, enable_secure_interrupts, init_tuner, is_state_change_ack, pll_divider,
    prepare_firmware, read_state, send_idle, setup_gpio, start_stream, tune_channel, wait_state_change,
};
use recm2tv::Error;
use std::collections::VecDeque;
use std::time::Duration;

#[derive(Debug, Clone, PartialEq)]
enum Op {
    RegRead(u32, usize),
    RegWrite(u32, Vec<u8>),
    Api(Vec<u8>),
    Ack(Duration),
    Firmware(usize),
    I2cWrite(Vec<u8>),
}

#[derive(Default)]
struct Mock {
    ops: Vec<Op>,
    reads: VecDeque<Vec<u8>>,
    acks: VecDeque<Vec<u8>>,
}

impl Transport for Mock {
    fn history(&self) -> recm2tv::device::History {
        panic!("the exchange history is a view for proofs and is never evaluated")
    }
    fn reg_read(&mut self, reg: u32, len: usize) -> Result<Vec<u8>, Error> {
        self.ops.push(Op::RegRead(reg, len));
        Ok(self.reads.pop_front().unwrap_or_else(|| vec![0; len]))
    }
    fn reg_write(&mut self, reg: u32, data: &[u8]) -> Result<(), Error> {
        self.ops.push(Op::RegWrite(reg, data.to_vec()));
        Ok(())
    }
    fn api_command(&mut self, command: &[u8]) -> Result<(), Error> {
        self.ops.push(Op::Api(command.to_vec()));
        Ok(())
    }
    fn ack(&mut self, timeout: Duration) -> Result<Vec<u8>, Error> {
        self.ops.push(Op::Ack(timeout));
        self.acks.pop_front().ok_or(Error::Usb(recm2tv::UsbError::Timeout))
    }
    fn firmware(&mut self, data: &[u8]) -> Result<(), Error> {
        self.ops.push(Op::Firmware(data.len()));
        Ok(())
    }
    fn i2c_write(&mut self, data: &[u8]) -> Result<(), Error> {
        self.ops.push(Op::I2cWrite(data.to_vec()));
        Ok(())
    }
    fn i2c_read(&mut self, _register: u8, len: usize) -> Result<Vec<u8>, Error> {
        Ok(vec![0; len])
    }
    fn ts_read(&mut self, _data: &mut [u8], _timeout: Duration) -> Result<usize, Error> {
        Ok(0)
    }
}

#[test]
fn channel_frequency_is_bounded_and_encoded() {
    assert_eq!(pll_divider(13).unwrap(), 0x764a);
    assert!(pll_divider(12).is_err());
    assert!(pll_divider(63).is_err());
}

#[test]
fn pll_divider_range_ends() {
    let err = Err(Error::InvalidArgument("channel must be between 13 and 62"));
    assert_eq!(pll_divider(0), err);
    assert_eq!(pll_divider(255), err);
    assert_eq!(pll_divider(62).unwrap(), 49098);
}

#[test]
fn state_is_big_endian() {
    assert_eq!(decode_state(&[0x12, 0x34]), Ok(0x1234));
    assert_eq!(decode_state(&[1]), Err(Error::ShortTransfer { expected: 2, actual: 1 }));
    let mut t = Mock::default();
    t.reads.push_back(vec![0, 7]);
    assert_eq!(read_state(&mut t), Ok(7));
    assert_eq!(t.ops, vec![Op::RegRead(0x82008, 2)]);
}

#[test]
fn firmware_is_loaded_only_in_state_zero() {
    let mut t = Mock::default();
    t.reads.push_back(vec![0, 0]);
    assert_eq!(prepare_firmware(&mut t, b"MB8AC018xyz"), Ok(0));
    assert_eq!(
        t.ops,
        vec![
            Op::RegRead(0x82008, 2),
            Op::RegWrite(0x90074, vec![0, 4]),
            Op::Firmware(11),
            Op::RegWrite(0x90070, vec![0, 4]),
        ]
    );
    let mut booted = Mock::default();
    booted.reads.push_back(vec![0, 3]);
    assert_eq!(prepare_firmware(&mut booted, b"MB8AC018xyz"), Ok(3));
    assert_eq!(booted.ops, vec![Op::RegRead(0x82008, 2)]);
}

#[test]
fn simple_register_sequences() {
    let mut t = Mock::default();
    enable_secure_interrupts(&mut t).unwrap();
    setup_gpio(&mut t).unwrap();
    assert_eq!(
        t.ops,
        vec![
            Op::RegWrite(0x90078, vec![8, 4]),
            Op::RegWrite(0x90014, vec![0x02, 0xf4]),
            Op::RegWrite(0x90018, vec![0x03, 0xff]),
        ]
    );
}

#[test]
fn state_change_wait() {
    assert!(is_state_change_ack(&[0x20, 1]));
    assert!(!is_state_change_ack(&[0x21]));
    assert!(!is_state_change_ack(&[]));
    let mut t = Mock::default();
    t.acks.extend([vec![1], vec![], vec![0x20]]);
    assert_eq!(wait_state_change(&mut t, Duration::from_millis(1), 5), Ok(()));
    let ms = Op::Ack(Duration::from_millis(1));
    assert_eq!(t.ops, vec![ms.clone(), ms.clone(), ms]);
    let mut never = Mock::default();
    never.acks.extend([vec![1], vec![2]]);
    assert_eq!(
        wait_state_change(&mut never, Duration::from_millis(1), 2),
        Err(Error::ProtocolUnavailable("expected state-change ACK was not received"))
    );
    let mut none = Mock::default();
    assert_eq!(
        wait_state_change(&mut none, Duration::from_millis(1), 0),
        Err(Error::ProtocolUnavailable("expected state-change ACK was not received"))
    );
    assert!(none.ops.is_empty());
}

#[test]
fn idle_and_stream_commands() {
    let mut t = Mock::default();
    t.acks.push_back(vec![0x20]);
    send_idle(&mut t).unwrap();
    assert_eq!(t.ops, vec![Op::Api(vec![0, 0, 1, 0, 0, 0]), Op::Ack(Duration::from_millis(500))]);
    let mut s = Mock::default();
    s.acks.push_back(vec![1]);
    start_stream(&mut s).unwrap();
    assert_eq!(s.ops, vec![Op::Api(vec![0, 0, 5, 0, 0, 2]), Op::Ack(Duration::from_secs(1))]);
    let mut empty = Mock::default();
    empty.acks.push_back(vec![]);
    assert_eq!(start_stream(&mut empty), Err(Error::ProtocolUnavailable("empty device ACK")));
}

#[test]
fn tuner_init_and_tuning_writes() {
    let mut t = Mock::default();
    init_tuner(&mut t).unwrap();
    assert_eq!(t.ops.len(), 28);
    assert_eq!(t.ops[0], Op::I2cWrite(vec![0xfe, 0xc0, 0xff]));
    assert_eq!(t.ops[27], Op::I2cWrite(vec![0xfe, 0xc0, 1, 1]));
    let mut c = Mock::default();
    tune_channel(&mut c, 13).unwrap();
    assert_eq!(
        c.ops,
        vec![
            Op::I2cWrite(vec![0xfe, 0xc0, 0x0c, 0x15]),
            Op::I2cWrite(vec![0xfe, 0xc0, 0x0d, 0x4a, 0x0e, 0x76]),
            Op::I2cWrite(vec![0xfe, 0xc0, 0x0f, 1]),
            Op::I2cWrite(vec![1, 0x40]),
            Op::I2cWrite(vec![0x23, 0x4c]),
        ]
    );
    let mut bad = Mock::default();
    assert_eq!(tune_channel(&mut bad, 70), Err(Error::InvalidArgument("channel must be between 13 and 62")));
    assert!(bad.ops.is_empty());
}

#[test]
fn trc_activation_sequence() {
    let mut t = Mock::default();
    t.acks.extend([vec![1], vec![1], vec![0], vec![0x20]]);
    activate_trc(&mut t, b"MB8AC018trc").unwrap();
    assert_eq!(t.ops.len(), 640 + 13 + 5 + 2);
    assert_eq!(t.ops[0], Op::RegWrite(0x1000, vec![0, 0]));
    assert_eq!(t.ops[639], Op::RegWrite(0x14fe, vec![0, 0]));
    assert_eq!(t.ops[640], Op::RegWrite(0x1002, vec![0x84, 4]));
    assert_eq!(t.ops[652], Op::RegWrite(0x113a, vec![2, 0x0f]));
    assert_eq!(t.ops[653], Op::Api(vec![0, 0, 4, 0, 0, 0]));
    assert_eq!(t.ops[655], Op::Firmware(11));
    assert_eq!(t.ops[656], Op::Api(vec![0, 0, 4, 0x20, 0, 0]));
    assert_eq!(t.ops[654], Op::Ack(Duration::from_secs(1)));
    assert_eq!(t.ops[657], Op::Ack(Duration::from_secs(1)));
    assert_eq!(t.ops[658], Op::Ack(Duration::from_millis(500)));
    assert_eq!(t.ops[659], Op::Ack(Duration::from_millis(500)));
}
