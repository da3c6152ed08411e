//! Host-side protocol library for the I-O DATA GV-M2TV (04bb:053a) tuner:
//! secure-command and B-CAS relay framing, MPEG-TS packet synchronisation and
//! descrambling, firmware checks and the tuner bring-up sequence.

pub mod bcas;
pub mod crypto;
pub mod protocol;
pub mod ts;
pub mod device;
pub mod lifecycle;

use vstd::prelude::*;

verus! {

/// Failure reasons of a USB transfer, one for each error code of libusb.
#[derive(Debug, Clone, Copy, PartialEq, Eq)]
pub enum UsbError {
    Io,
    InvalidParam,
    Access,
    NoDevice,
    NotFound,
    Busy,
    Timeout,
    Overflow,
    Pipe,
    Interrupted,
    NoMem,
    NotSupported,
    BadDescriptor,
    Other,
}

/// Errors of every operation of the library.
#[derive(Debug, Clone, PartialEq, Eq)]
pub enum Error {
    /// A USB transfer failed.
    Usb(UsbError),
    /// No device with the tuner's vendor and product id is attached.
    DeviceNotFound,
    /// The firmware image does not start with the `MB8AC018` header.
    InvalidFirmware,
    /// The device moved fewer (or more) bytes than requested.
    ShortTransfer { expected: usize, actual: usize },
    /// The device answered in a way the protocol does not allow.
    ProtocolUnavailable(&'static str),
    /// A caller-supplied value is out of range.
    InvalidArgument(&'static str),
    /// A host I/O operation failed; the text describes the failure.
    Io(String),
}

} // verus!
