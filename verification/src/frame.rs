//! The wire format of the meter: the two-byte commands that are written to
//! it and the 65-byte replies that are read back.
//!
//! The meter answers asynchronously. A reply is the answer to a request only
//! if its first byte repeats the request's opcode; any other reply, a stale
//! answer to an earlier request included, means "nothing yet" and is no
//! error.

use vstd::prelude::*;

use crate::decimal::{field_milliunits, is_absent, to_milliunits};
use crate::error::HospError;

verus! {

/// USB vendor id of the meter.
pub const VENDOR_ID: u16 = 0x04d8;

/// USB product id of the meter.
pub const PRODUCT_ID: u16 = 0x003f;

/// Opcode that asks for the measured data.
pub const REQUEST_DATA: u8 = 0x37;

/// Opcode that toggles between started and stopped.
pub const REQUEST_STARTSTOP: u8 = 0x80;

/// Opcode that asks for the status flags.
pub const REQUEST_STATUS: u8 = 0x81;

/// Opcode that toggles the output on and off.
pub const REQUEST_ONOFF: u8 = 0x82;

/// Opcode that asks for the version string.
pub const REQUEST_VERSION: u8 = 0x83;

/// Value of the on flag of a status reply when the output is on.
pub const STATUS_ON: u8 = 0x01;

/// Value of the started flag of a status reply when the meter is started.
pub const STATUS_STARTED: u8 = 0x01;

/// Length of a reply in bytes.
pub const BUF_SIZE: usize = 65;

/// First byte of the version string in a version reply.
pub const VERSION_FROM: usize = 1;

/// End of the version string in a version reply.
pub const VERSION_TO: usize = 17;

/// First byte of the volts field in a data reply.
pub const VOLTS_FROM: usize = 2;

/// End of the volts field in a data reply.
pub const VOLTS_TO: usize = 7;

/// First byte of the amps field in a data reply.
pub const AMPS_FROM: usize = 10;

/// End of the amps field in a data reply.
pub const AMPS_TO: usize = 15;

/// First byte of the watts field in a data reply.
pub const WATTS_FROM: usize = 17;

/// End of the watts field in a data reply.
pub const WATTS_TO: usize = 23;

/// First byte of the watt-hours field in a data reply.
pub const WATT_HOURS_FROM: usize = 24;

/// End of the watt-hours field in a data reply.
pub const WATT_HOURS_TO: usize = 31;

/// The requests that the meter understands.
#[derive(Clone, Copy, Debug, PartialEq, Eq)]
pub enum Request {
    /// Read the measured data.
    Data,
    /// Toggle between started and stopped.
    StartStop,
    /// Read the status flags.
    Status,
    /// Toggle the output on and off.
    OnOff,
    /// Read the version string.
    Version,
}

/// Status flags of the meter.
#[derive(Clone, Copy, Debug, PartialEq, Eq)]
pub struct HospStatus {
    pub on: bool,
    pub started: bool,
}

/// Measured data. The optional quantities are absent while the output of
/// the meter is off; the voltage is always there.
#[derive(Clone, Copy, Debug, PartialEq, Eq)]
pub struct HospData {
    pub m_volts: u32,
    pub m_amps: Option<u32>,
    pub m_watts: Option<u32>,
    pub m_watt_hours: Option<u32>,
}

impl Request {
    /// The byte that stands for the request on the wire.
    pub open spec fn opcode_of(self) -> u8 {
        match self {
            Request::Data => REQUEST_DATA,
            Request::StartStop => REQUEST_STARTSTOP,
            Request::Status => REQUEST_STATUS,
            Request::OnOff => REQUEST_ONOFF,
            Request::Version => REQUEST_VERSION,
        }
    }

    /// The byte that stands for the request on the wire.
    #[verifier::when_used_as_spec(opcode_of)]
    pub fn opcode(self) -> (code: u8)
        ensures
            code == self.opcode_of(),
    {
        match self {
            Request::Data => REQUEST_DATA,
            Request::StartStop => REQUEST_STARTSTOP,
            Request::Status => REQUEST_STATUS,
            Request::OnOff => REQUEST_ONOFF,
            Request::Version => REQUEST_VERSION,
        }
    }

    /// The report that sends the request: report id 0, then the opcode.
    pub fn command(self) -> (report: [u8; 2])
        ensures
            report@ == seq![0u8, self.opcode_of()],
    {
        let report: [u8; 2] = [0, self.opcode()];
        assert(report@ =~= seq![0u8, self.opcode_of()]);
        report
    }

    /// The buffer to read the reply into: zeros, but for the opcode in
    /// byte 1. Its first byte is no opcode, so a read that stores nothing
    /// leaves a buffer that is not taken for an answer.
    pub fn reply_buffer(self) -> (buf: [u8; BUF_SIZE])
        ensures
            buf@ == Seq::new(
                BUF_SIZE as nat,
                |i: int|
                    if i == 1 {
                        self.opcode_of()
                    } else {
                        0u8
                    },
            ),
            accepted(buf@, self) is None,
    {
        let mut buf: [u8; BUF_SIZE] = [0u8; BUF_SIZE];
        buf[1] = self.opcode();
        assert(buf@ =~= Seq::new(
            BUF_SIZE as nat,
            |i: int|
                if i == 1 {
                    self.opcode_of()
                } else {
                    0u8
                },
        ));
        buf
    }
}

/// The reply as an answer to `request`: the frame itself if its first byte
/// repeats the opcode, nothing otherwise.
pub open spec fn accepted(frame: Seq<u8>, request: Request) -> Option<Seq<u8>> {
    if frame[0] == request.opcode_of() {
        Some(frame)
    } else {
        None
    }
}

/// The status flags that a status reply holds.
pub open spec fn status_of(frame: Seq<u8>) -> HospStatus {
    HospStatus { on: frame[2] == STATUS_ON, started: frame[1] == STATUS_STARTED }
}

/// The measured data that a data reply holds.
///
/// Each of the four fields is decoded on its own. The reply is malformed,
/// `Err(HospError::Parse)`, if one of them is not a number, or if the volts
/// field holds the mark of an absent quantity, which the meter never sends
/// there.
pub open spec fn data_of(frame: Seq<u8>) -> Result<HospData, HospError> {
    let volts = field_milliunits(frame.subrange(VOLTS_FROM as int, VOLTS_TO as int));
    let amps = field_milliunits(frame.subrange(AMPS_FROM as int, AMPS_TO as int));
    let watts = field_milliunits(frame.subrange(WATTS_FROM as int, WATTS_TO as int));
    let watt_hours = field_milliunits(
        frame.subrange(WATT_HOURS_FROM as int, WATT_HOURS_TO as int),
    );
    if volts is Ok && volts.unwrap() is Some && amps is Ok && watts is Ok && watt_hours is Ok {
        Ok(
            HospData {
                m_volts: volts.unwrap().unwrap(),
                m_amps: amps.unwrap(),
                m_watts: watts.unwrap(),
                m_watt_hours: watt_hours.unwrap(),
            },
        )
    } else {
        Err(HospError::Parse)
    }
}

/// The text that `String::from_utf8_lossy` makes of `bytes`.
pub uninterp spec fn utf8_lossy(bytes: Seq<u8>) -> Seq<char>;

/// The version string that a version reply holds.
pub open spec fn version_of(frame: Seq<u8>) -> Seq<char> {
    utf8_lossy(frame.subrange(VERSION_FROM as int, VERSION_TO as int))
}

/// Calls `String::from_utf8_lossy` and takes ownership of the text.
///
/// Trusted: the text is a function of the bytes alone, and where the bytes
/// are valid UTF-8 it is the text that they encode. What std puts in the
/// place of invalid bytes is not stated.
#[verifier::external_body]
fn string_from_utf8_lossy(bytes: &[u8]) -> (text: String)
    ensures
        text@ == utf8_lossy(bytes@),
        vstd::utf8::valid_utf8(bytes@) ==> text@ == vstd::utf8::decode_utf8(bytes@),
{
    String::from_utf8_lossy(bytes).into_owned()
}

/// Takes a reply as the answer to `request`, or as no answer yet.
pub fn accept_reply(frame: [u8; BUF_SIZE], request: Request) -> (r: Option<[u8; BUF_SIZE]>)
    ensures
        r is Some <==> frame@[0] == request.opcode_of(),
        r is Some ==> r.unwrap() == frame,
        accepted(frame@, request) == match r {
            Some(f) => Some(f@),
            None => None,
        },
{
    if frame[0] == request.opcode() {
        Some(frame)
    } else {
        None
    }
}

/// Reads the version string out of a version reply.
pub fn decode_version(frame: &[u8; BUF_SIZE]) -> (version: String)
    ensures
        version@ == version_of(frame@),
        vstd::utf8::valid_utf8(frame@.subrange(VERSION_FROM as int, VERSION_TO as int))
            ==> version@ == vstd::utf8::decode_utf8(
            frame@.subrange(VERSION_FROM as int, VERSION_TO as int),
        ),
{
    let bytes: &[u8] = frame.as_slice();
    string_from_utf8_lossy(vstd::slice::slice_subrange(bytes, VERSION_FROM, VERSION_TO))
}

/// Reads the status flags out of a status reply.
pub fn decode_status(frame: &[u8; BUF_SIZE]) -> (status: HospStatus)
    ensures
        status == status_of(frame@),
{
    HospStatus { on: frame[2] == STATUS_ON, started: frame[1] == STATUS_STARTED }
}

/// Reads the measured data out of a data reply.
pub fn decode_data(frame: &[u8; BUF_SIZE]) -> (r: Result<HospData, HospError>)
    ensures
        r == data_of(frame@),
{
    let bytes: &[u8] = frame.as_slice();
    let volts = to_milliunits(vstd::slice::slice_subrange(bytes, VOLTS_FROM, VOLTS_TO));
    let amps = to_milliunits(vstd::slice::slice_subrange(bytes, AMPS_FROM, AMPS_TO));
    let watts = to_milliunits(vstd::slice::slice_subrange(bytes, WATTS_FROM, WATTS_TO));
    let watt_hours = to_milliunits(
        vstd::slice::slice_subrange(bytes, WATT_HOURS_FROM, WATT_HOURS_TO),
    );
    match (volts, amps, watts, watt_hours) {
        (Ok(Some(m_volts)), Ok(m_amps), Ok(m_watts), Ok(m_watt_hours)) => Ok(
            HospData { m_volts, m_amps, m_watts, m_watt_hours },
        ),
        _ => Err(HospError::Parse),
    }
}

/// What a read of the version yields on the reply that came back: nothing
/// yet, or the version string.
pub fn version_reply(frame: [u8; BUF_SIZE]) -> (r: Option<String>)
    ensures
        r is Some <==> accepted(frame@, Request::Version) is Some,
        r is Some ==> r.unwrap()@ == version_of(frame@),
{
    match accept_reply(frame, Request::Version) {
        Some(answer) => Some(decode_version(&answer)),
        None => None,
    }
}

/// What a read of the status yields on the reply that came back: nothing
/// yet, or the status flags.
pub fn status_reply(frame: [u8; BUF_SIZE]) -> (r: Option<HospStatus>)
    ensures
        r == if accepted(frame@, Request::Status) is Some {
            Some(status_of(frame@))
        } else {
            None
        },
{
    match accept_reply(frame, Request::Status) {
        Some(answer) => Some(decode_status(&answer)),
        None => None,
    }
}

/// What a read of the data yields on the reply that came back: nothing yet,
/// the measured data, or a parse error for a reply that repeats the opcode
/// and is malformed.
pub fn data_reply(frame: [u8; BUF_SIZE]) -> (r: Result<Option<HospData>, HospError>)
    ensures
        r == if accepted(frame@, Request::Data) is Some {
            match data_of(frame@) {
                Ok(data) => Ok(Some(data)),
                Err(e) => Err(e),
            }
        } else {
            Ok(None)
        },
{
    match accept_reply(frame, Request::Data) {
        Some(answer) => match decode_data(&answer) {
            Ok(data) => Ok(Some(data)),
            Err(e) => Err(e),
        },
        None => Ok(None),
    }
}

/// A data reply of a meter whose output is off still holds the voltage:
/// where the volts field is a number and the other three fields hold the
/// mark of an absent quantity, the reply decodes to the voltage alone.
pub proof fn lemma_off_device_keeps_volts(frame: Seq<u8>, m_volts: u32)
    requires
        field_milliunits(frame.subrange(VOLTS_FROM as int, VOLTS_TO as int)) == Ok::<
            Option<u32>,
            HospError,
        >(Some(m_volts)),
        is_absent(frame.subrange(AMPS_FROM as int, AMPS_TO as int)),
        is_absent(frame.subrange(WATTS_FROM as int, WATTS_TO as int)),
        is_absent(frame.subrange(WATT_HOURS_FROM as int, WATT_HOURS_TO as int)),
    ensures
        data_of(frame) == Ok::<HospData, HospError>(
            HospData { m_volts, m_amps: None, m_watts: None, m_watt_hours: None },
        ),
{
}

/// A reply that does not repeat the opcode of the request is no answer and
/// no error, whatever else it holds.
pub proof fn lemma_stale_reply_is_no_answer(frame: Seq<u8>, request: Request)
    requires
        frame.len() == BUF_SIZE,
        frame[0] != request.opcode_of(),
    ensures
        accepted(frame, request) is None,
{
}

} // verus!
