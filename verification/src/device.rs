//! Device-side protocol state machine.
//!
//! The device accumulates the chunks of one encoded message in a
//! fixed-capacity buffer. A zero-length chunk marks the end of the
//! message: the device decodes it, parses and inverts the bitmap,
//! re-encodes it, and answers with one status byte followed — only on
//! success — by the re-encoded image. The transport loop around the
//! machine performs the endpoint reads and writes and hands each received
//! chunk in; every decision stands here.

use vstd::prelude::*;
use crate::bitmap;
use crate::codec;
use crate::transform;

verus! {

/// Fixed capacity of each working buffer on the device, in bytes.
pub const BUFFER_SIZE: usize = 102400;

#[verifier::external_type_specification]
#[verifier::external_body]
#[verifier::reject_recursive_types(T)]
pub struct ExHeaplessVec<T, const N: usize>(heapless::Vec<T, N>);

/// What a device working buffer holds, in order.
pub uninterp spec fn spec_buf(v: heapless::Vec<u8, 102400>) -> Seq<u8>;

/// Relies on heapless::Vec::new: a fresh buffer is empty.
#[verifier::external_body]
fn buf_new() -> (r: heapless::Vec<u8, 102400>)
    ensures
        spec_buf(r) == Seq::<u8>::empty(),
{
    heapless::Vec::new()
}

/// Relies on heapless::Vec::clear: removes every element.
#[verifier::external_body]
fn buf_clear(v: &mut heapless::Vec<u8, 102400>)
    ensures
        spec_buf(*final(v)) == Seq::<u8>::empty(),
{
    v.clear()
}

/// Relies on heapless::Vec::extend_from_slice: appends the whole slice
/// when it fits the remaining capacity, and otherwise errs leaving the
/// buffer unchanged.
#[verifier::external_body]
fn buf_extend(v: &mut heapless::Vec<u8, 102400>, data: &[u8]) -> (r: Result<(), ()>)
    ensures
        r is Ok <==> spec_buf(*old(v)).len() + data@.len() <= 102400,
        r is Ok ==> spec_buf(*final(v)) == spec_buf(*old(v)) + data@,
        r is Err ==> spec_buf(*final(v)) == spec_buf(*old(v)),
{
    v.extend_from_slice(data)
}

/// Relies on heapless::Vec::as_slice: a view of the buffer's contents.
#[verifier::external_body]
fn buf_slice(v: &heapless::Vec<u8, 102400>) -> (r: &[u8])
    ensures
        r@ == spec_buf(*v),
{
    v.as_slice()
}

/// Outcome the device reports for one transfer, carried on the wire as a
/// single byte.
#[derive(Clone, Copy, Debug, PartialEq, Eq, Structural)]
pub enum DeviceStatus {
    /// The transfer succeeded; the re-encoded image follows.
    Okay,
    /// The bitmap declares a pixel-level run-length compression the
    /// transform does not support.
    UnsupportedCompression,
    /// The bytes did not parse as a bitmap.
    ParseError,
}

/// The status byte value carried on the wire for a status.
pub open spec fn spec_status_byte(s: DeviceStatus) -> u8 {
    match s {
        DeviceStatus::Okay => 0,
        DeviceStatus::UnsupportedCompression => 1,
        DeviceStatus::ParseError => 2,
    }
}

/// Packs a status into its wire byte.
pub fn status_byte(s: DeviceStatus) -> (r: u8)
    ensures
        r == spec_status_byte(s),
{
    match s {
        DeviceStatus::Okay => 0,
        DeviceStatus::UnsupportedCompression => 1,
        DeviceStatus::ParseError => 2,
    }
}

/// What the transport loop must do after handing the machine one chunk.
#[derive(Debug, PartialEq, Eq)]
pub enum DeviceAction {
    /// Keep reading chunks of the current message.
    Continue,
    /// Write the status byte, then — only when the status reports
    /// success — the payload, split into packet-sized chunks.
    Respond { status: DeviceStatus, payload: Vec<u8> },
    /// A working buffer's fixed capacity was exceeded, or a self-framing
    /// invariant broke: not recoverable, the device resets.
    Fatal,
}

/// Status the device reports for a complete message whose decoded bytes
/// are `img`.
pub open spec fn spec_process_status(img: Seq<u8>) -> DeviceStatus {
    match bitmap::spec_parse_bmp(img) {
        None => DeviceStatus::ParseError,
        Some(info) => if info.spec_is_rle() {
            DeviceStatus::UnsupportedCompression
        } else {
            DeviceStatus::Okay
        },
    }
}

/// The reply payload for a complete message whose decoded bytes are
/// `img`, when its status reports success: the inverted image,
/// re-encoded.
pub open spec fn spec_process_payload(img: Seq<u8>) -> Seq<u8> {
    codec::spec_rle_encode(
        transform::spec_invert_image(img, bitmap::spec_parse_bmp(img)->Some_0),
    )
}

/// For a successful transfer the reply payload decodes back to exactly
/// the inverted image: what the host reads is what the transform made.
pub proof fn lemma_reply_round_trip(img: Seq<u8>)
    requires
        spec_process_status(img) == DeviceStatus::Okay,
    ensures
        codec::spec_rle_decode(spec_process_payload(img)) == Some(
            transform::spec_invert_image(img, bitmap::spec_parse_bmp(img)->Some_0),
        ),
{
    codec::lemma_rle_round_trip(
        transform::spec_invert_image(img, bitmap::spec_parse_bmp(img)->Some_0),
    );
}

/// The device protocol state machine: one in-flight message and the fault
/// indicator consumed by the status display.
pub struct DeviceMachine {
    encoded: heapless::Vec<u8, 102400>,
    faulted: bool,
}

impl DeviceMachine {
    /// The bytes of the message received so far.
    pub closed spec fn buffered(self) -> Seq<u8> {
        spec_buf(self.encoded)
    }

    /// Whether the fault indicator is lit: set by transport errors and
    /// error statuses, cleared by a successful transfer.
    pub closed spec fn spec_faulted(self) -> bool {
        self.faulted
    }

    /// A fresh machine: nothing buffered, no fault.
    pub fn new() -> (r: DeviceMachine)
        ensures
            r.buffered().len() == 0,
            !r.spec_faulted(),
    {
        DeviceMachine { encoded: buf_new(), faulted: false }
    }

    /// Reads the fault indicator.
    pub fn is_faulted(&self) -> (r: bool)
        ensures
            r == self.spec_faulted(),
    {
        self.faulted
    }

    /// Records an endpoint-level transport error: the fault indicator
    /// lights up; the buffered message is kept as it is.
    pub fn on_transport_error(&mut self)
        ensures
            final(self).buffered() == old(self).buffered(),
            final(self).spec_faulted(),
    {
        self.faulted = true;
    }

    /// Feeds one received chunk to the machine. A non-empty chunk is
    /// appended to the message being received; appending past the buffer's
    /// capacity is fatal. An empty chunk completes the message: it is
    /// decoded (a framing error in what the host sent is fatal, as is a
    /// decoded image past the second buffer's capacity), the bitmap is
    /// parsed and inverted, and the machine answers with the status and —
    /// on success only — the re-encoded image, clearing its buffers for
    /// the next transfer either way.
    pub fn on_chunk(&mut self, chunk: &[u8]) -> (r: DeviceAction)
        ensures
            chunk@.len() > 0 && old(self).buffered().len() + chunk@.len() <= BUFFER_SIZE ==> (r
                is Continue && final(self).buffered() == old(self).buffered() + chunk@
                && final(self).spec_faulted() == old(self).spec_faulted()),
            chunk@.len() > 0 && old(self).buffered().len() + chunk@.len() > BUFFER_SIZE ==> r
                is Fatal,
            chunk@.len() == 0 ==> match codec::spec_rle_decode(old(self).buffered()) {
                None => r is Fatal,
                Some(img) => {
                    if img.len() > BUFFER_SIZE {
                        r is Fatal
                    } else {
                        match spec_process_status(img) {
                            DeviceStatus::Okay => {
                                if spec_process_payload(img).len() <= BUFFER_SIZE {
                                    &&& r matches DeviceAction::Respond { status, payload }
                                    &&& status == DeviceStatus::Okay
                                    &&& payload@ == spec_process_payload(img)
                                    &&& final(self).buffered().len() == 0
                                    &&& !final(self).spec_faulted()
                                } else {
                                    r is Fatal
                                }
                            },
                            st => {
                                &&& r matches DeviceAction::Respond { status, payload }
                                &&& status == st
                                &&& payload@.len() == 0
                                &&& final(self).buffered().len() == 0
                                &&& final(self).spec_faulted()
                            },
                        }
                    }
                },
            },
    {
        if chunk.len() > 0 {
            match buf_extend(&mut self.encoded, chunk) {
                Ok(_) => DeviceAction::Continue,
                Err(_) => DeviceAction::Fatal,
            }
        } else {
            let decoded: Result<Vec<u8>, codec::RleDecodeError> = cring_rle_decode_buffered(
                &self.encoded,
            );
            let mut img: Vec<u8> = match decoded {
                Ok(v) => v,
                Err(_) => {
                    return DeviceAction::Fatal;
                },
            };
            if img.len() > BUFFER_SIZE {
                return DeviceAction::Fatal;
            }
            let parsed: Option<bitmap::BmpInfo> = bitmap::parse_bmp(img.as_slice());
            match parsed {
                None => {
                    buf_clear(&mut self.encoded);
                    self.faulted = true;
                    DeviceAction::Respond {
                        status: DeviceStatus::ParseError,
                        payload: Vec::new(),
                    }
                },
                Some(info) => {
                    if info.is_rle() {
                        buf_clear(&mut self.encoded);
                        self.faulted = true;
                        DeviceAction::Respond {
                            status: DeviceStatus::UnsupportedCompression,
                            payload: Vec::new(),
                        }
                    } else {
                        transform::invert_image(&mut img, &info);
                        let reply: Vec<u8> = codec::cring_rle_encode(img.as_slice());
                        buf_clear(&mut self.encoded);
                        match buf_extend(&mut self.encoded, reply.as_slice()) {
                            Ok(_) => {},
                            Err(_) => {
                                return DeviceAction::Fatal;
                            },
                        }
                        buf_clear(&mut self.encoded);
                        self.faulted = false;
                        DeviceAction::Respond { status: DeviceStatus::Okay, payload: reply }
                    }
                },
            }
        }
    }
}

/// Decodes the message held in a device buffer.
fn cring_rle_decode_buffered(v: &heapless::Vec<u8, 102400>) -> (r: Result<
    Vec<u8>,
    codec::RleDecodeError,
>)
    ensures
        match r {
            Ok(out) => codec::spec_rle_decode(spec_buf(*v)) == Some(out@),
            Err(_) => codec::spec_rle_decode(spec_buf(*v)) is None,
        },
{
    codec::cring_rle_decode(buf_slice(v))
}

} // verus!
