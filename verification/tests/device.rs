use recm2tv::device::{
    check_i2c_read, check_i2c_write, check_transfer, frame_api_command, ApiSequence, reg_value, validate_firmware,
    validate_packet_buffer,
};
use recm2tv::Error;

#[test]
fn firmware_header_is_checked_without_logging_contents() {
    assert!(validate_firmware(b"MB8AC018payload").is_ok());
    assert!(matches!(validate_firmware(b"bad"), Err(Error::InvalidFirmware)));
}

#[test]
fn register_fields_match_usb_encoding() {
    assert_eq!(reg_value(0x82008), (0x200, 0x2008));
}

#[test]
fn firmware_header_edge_cases() {
    assert!(validate_firmware(b"MB8AC018").is_ok());
    assert_eq!(validate_firmware(b"MB8AC01"), Err(Error::InvalidFirmware));
    assert_eq!(validate_firmware(b"MB8AC019payload"), Err(Error::InvalidFirmware));
    assert_eq!(validate_firmware(b""), Err(Error::InvalidFirmware));
}

#[test]
fn register_value_and_index() {
    assert_eq!(reg_value(0x9_0074), (0x200, 0x0074));
    assert_eq!(reg_value(0x8_219c), (0x200, 0x219c));
    assert_eq!(reg_value(0x1000), (0, 0x1000));
    assert_eq!(reg_value(0xffff_ffff), (0xf00, 0xffff));
}

#[test]
fn api_command_framing() {
    let (data, next) = frame_api_command(&[0, 0, 0x0a, 0, 0, 1], 7).unwrap();
    assert_eq!(data, vec![0, 7, 0x0a, 0, 0, 1]);
    assert_eq!(next, 8);
    let (_, wrapped) = frame_api_command(&[0; 6], 0x3e).unwrap();
    assert_eq!(wrapped, 0);
    assert_eq!(
        frame_api_command(&[0; 5], 0),
        Err(Error::InvalidArgument("API commands must be six bytes"))
    );
}

#[test]
fn api_sequence_counts_framed_commands() {
    let mut sequence = ApiSequence::new();
    assert_eq!(sequence.frame(&[0, 0, 0x0a, 0, 0, 1]).unwrap(), vec![0, 0, 0x0a, 0, 0, 1]);
    assert_eq!(
        sequence.frame(&[0; 5]),
        Err(Error::InvalidArgument("API commands must be six bytes"))
    );
    assert_eq!(sequence.frame(&[9; 6]).unwrap(), vec![9, 1, 9, 9, 9, 9]);
    for k in 2..0x3f {
        assert_eq!(sequence.frame(&[0; 6]).unwrap()[1], k as u8);
    }
    assert_eq!(sequence.frame(&[0; 6]).unwrap()[1], 0);
}

#[test]
fn transfer_and_i2c_checks() {
    assert_eq!(check_transfer(4, 4), Ok(()));
    assert_eq!(check_transfer(4, 3), Err(Error::ShortTransfer { expected: 4, actual: 3 }));
    assert_eq!(check_i2c_write(&[1]), Ok(()));
    assert_eq!(check_i2c_write(&[]), Err(Error::InvalidArgument("I2C write length out of range")));
    assert_eq!(check_i2c_write(&[0; 256]), Err(Error::InvalidArgument("I2C write length out of range")));
    assert_eq!(check_i2c_read(255), Ok(()));
    assert_eq!(check_i2c_read(0), Err(Error::InvalidArgument("I2C read length out of range")));
}

#[test]
fn packet_buffer_size() {
    assert!(validate_packet_buffer(&[0; 188]));
    assert!(!validate_packet_buffer(&[0; 187]));
}
