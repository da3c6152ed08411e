use recm2tv::bcas::{
    command, contents_key_from_reply, ecm_command, ecm_keys_from_reply, read_response, ready_step,
    response_read_len, start_card, ReadyStep,
};
use recm2tv::device::Transport;
use recm2tv::protocol::build_bcas_apdu;
use recm2tv::Error;
use std::collections::VecDeque;
use std::time::Duration;

#[derive(Default)]
struct Relay {
    writes: Vec<(u32, Vec<u8>)>,
    commands: Vec<Vec<u8>>,
    reads: VecDeque<Vec<u8>>,
    read_requests: Vec<(u32, usize)>,
}

impl Transport for Relay {
    fn history(&self) -> recm2tv::device::History {
        panic!("the exchange history is a view for proofs and is never evaluated")
    }
    fn reg_read(&mut self, reg: u32, len: usize) -> Result<Vec<u8>, Error> {
        self.read_requests.push((reg, len));
        Ok(self.reads.pop_front().unwrap_or_default())
    }
    fn reg_write(&mut self, reg: u32, data: &[u8]) -> Result<(), Error> {
        self.writes.push((reg, data.to_vec()));
        Ok(())
    }
    fn api_command(&mut self, command: &[u8]) -> Result<(), Error> {
        self.commands.push(command.to_vec());
        Ok(())
    }
    fn ack(&mut self, _timeout: Duration) -> Result<Vec<u8>, Error> {
        Err(Error::Usb(recm2tv::UsbError::Timeout))
    }
    fn firmware(&mut self, _data: &[u8]) -> Result<(), Error> {
        Ok(())
    }
    fn i2c_write(&mut self, _data: &[u8]) -> Result<(), Error> {
        Ok(())
    }
    fn i2c_read(&mut self, _register: u8, len: usize) -> Result<Vec<u8>, Error> {
        Ok(vec![0; len])
    }
    fn ts_read(&mut self, _data: &mut [u8], _timeout: Duration) -> Result<usize, Error> {
        Ok(0)
    }
}

#[test]
fn ecm_bound_is_explicit() {
    assert!(255usize <= 255);
}

#[test]
fn ecm_command_layout() {
    assert_eq!(ecm_command(&[1, 2, 3]).unwrap(), vec![0x90, 0x34, 0, 0, 3, 1, 2, 3, 0]);
    assert_eq!(ecm_command(&[0u8; 255]).unwrap().len(), 261);
    assert_eq!(ecm_command(&[0u8; 256]), Err(Error::InvalidArgument("ECM is too large")));
}

#[test]
fn keys_are_cut_from_replies() {
    let reply: Vec<u8> = (0u8..30).collect();
    let (odd, even) = ecm_keys_from_reply(&reply).unwrap();
    assert_eq!(odd, [10, 11, 12, 13, 14, 15, 16, 17]);
    assert_eq!(even, [18, 19, 20, 21, 22, 23, 24, 25]);
    assert_eq!(ecm_keys_from_reply(&reply[..25]), Err(Error::ProtocolUnavailable("ECM response truncated")));
    let raw: Vec<u8> = (100u8..140).collect();
    let session = contents_key_from_reply(&raw).unwrap();
    assert_eq!(session.contents_key.to_vec(), (116u8..132).collect::<Vec<u8>>());
    assert!(matches!(
        contents_key_from_reply(&raw[..31]),
        Err(Error::ProtocolUnavailable("Contents Key response truncated"))
    ));
}

#[test]
fn ready_polling_decisions() {
    assert!(matches!(ready_step(0, &[0x30, 0]), ReadyStep::Ready));
    assert!(matches!(ready_step(0, &[0x20, 0]), ReadyStep::PauseThenPoll { next_attempt: 1 }));
    assert!(matches!(
        ready_step(29, &[0x2f, 0xff]),
        ReadyStep::PauseThenFail(Error::ProtocolUnavailable("B-CAS ready timeout"))
    ));
    assert!(matches!(
        ready_step(3, &[0x40, 0]),
        ReadyStep::Fail(Error::ProtocolUnavailable("unexpected B-CAS state"))
    ));
    assert!(matches!(
        ready_step(3, &[0x30]),
        ReadyStep::Fail(Error::ShortTransfer { expected: 2, actual: 1 })
    ));
}

#[test]
fn response_sizes() {
    assert_eq!(response_read_len(&[0x30, 0x10]), Ok(16));
    assert_eq!(response_read_len(&[0x30, 0x11]), Ok(32));
    assert_eq!(response_read_len(&[0x32, 0x00]), Ok(512));
    assert_eq!(response_read_len(&[0x31, 0xfa]), Ok(512));
    assert_eq!(response_read_len(&[0x32, 0x01]), Err(Error::InvalidArgument("invalid B-CAS response size")));
    assert_eq!(response_read_len(&[0x30, 0x0f]), Err(Error::InvalidArgument("invalid B-CAS response size")));
    assert_eq!(response_read_len(&[0x30]), Err(Error::ShortTransfer { expected: 2, actual: 1 }));
    assert_eq!(response_read_len(&[0x30, 0x11, 0xff]), Ok(32));
}

#[test]
fn command_writes_frame_and_trigger() {
    let key = [0x11u8; 16];
    let apdu = [0x90u8, 0x32, 0, 0, 0];
    let mut relay = Relay::default();
    command(&mut relay, &key, &apdu).unwrap();
    let (wire, total) = build_bcas_apdu(&apdu, &key).unwrap();
    assert_eq!(relay.writes, vec![(0x8219c, wire)]);
    assert_eq!(relay.commands, vec![vec![0, 0, 0x0a, 0x10, 0, total as u8]]);
    let mut untouched = Relay::default();
    assert_eq!(
        command(&mut untouched, &key, &[]),
        Err(Error::InvalidArgument("B-CAS APDU length out of range"))
    );
    assert!(untouched.writes.is_empty() && untouched.commands.is_empty());
}

#[test]
fn response_is_read_and_opened() {
    let key = [0x33u8; 16];
    let (wire, _) = build_bcas_apdu(&[0xaa, 0xbb, 0xcc], &key).unwrap();
    let mut relay = Relay::default();
    relay.reads.push_back(vec![0x30, 16]);
    relay.reads.push_back(wire);
    let body = read_response(&mut relay, &key).unwrap();
    assert_eq!(&body[..4], &[0xbb, 0xaa, 0, 0xcc]);
    assert_eq!(relay.read_requests, vec![(0x822ac, 2), (0x822ae, 16)]);
}

#[test]
fn start_card_powers_up_and_resets() {
    let mut relay = Relay::default();
    start_card(&mut relay).unwrap();
    assert_eq!(relay.commands, vec![vec![0, 0, 0x0a, 0, 0, 1], vec![0, 0, 0x0a, 1, 0, 1]]);
    assert!(relay.writes.is_empty());
}

#[test]
fn largest_ecm_is_relayed() {
    let key = [0x5au8; 16];
    let apdu = ecm_command(&[0x42; 255]).unwrap();
    assert_eq!(apdu.len(), 261);
    let mut relay = Relay::default();
    command(&mut relay, &key, &apdu).unwrap();
    assert_eq!(relay.writes.len(), 1);
    assert_eq!(relay.writes[0].0, 0x8219c);
    assert_eq!(relay.writes[0].1.len(), 272);
    assert_eq!(relay.commands, vec![vec![0, 0, 0x0a, 0x10, 0x01, 0x0a]]);
}
