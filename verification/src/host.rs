//! Host-side orchestration of one image transfer.
//!
//! The host encodes the source image, sends it followed by a zero-length
//! end-of-message chunk, reads exactly one status byte, and — only when
//! the status reports success — reads the reply stream, decodes it and
//! copies the result into the caller's buffer. The transport calls live
//! outside the library; the session type sequences them and carries every
//! decision.

use vstd::prelude::*;
use crate::codec;
use crate::err;

verus! {

/// Where one host transfer stands.
#[derive(Clone, Copy, Debug, PartialEq, Eq, Structural)]
pub enum HostPhase {
    /// The encoded image must be written to the outbound endpoint.
    SendImage,
    /// The zero-length end-of-message chunk must be written.
    SendEnd,
    /// Exactly one status byte must be read.
    ReadStatus,
    /// The reply stream must be read, at most as many bytes as were sent.
    ReadReply,
    /// The transfer is over.
    Done,
}

/// One host-side transfer session.
pub struct HostSession {
    phase: HostPhase,
    expected: usize,
}

impl HostSession {
    /// The current phase.
    pub closed spec fn spec_phase(self) -> HostPhase {
        self.phase
    }

    /// How many bytes the reply read is sized to: the length of the
    /// encoded image that was sent.
    pub closed spec fn spec_expected(self) -> int {
        self.expected as int
    }

    /// Starts a transfer: encodes the source image and hands back the
    /// bytes to write to the outbound endpoint.
    pub fn begin(image: &[u8]) -> (r: (HostSession, Vec<u8>))
        ensures
            r.1@ == codec::spec_rle_encode(image@),
            r.0.spec_phase() == HostPhase::SendImage,
            r.0.spec_expected() == r.1@.len(),
    {
        let encoded = codec::cring_rle_encode(image);
        let expected = encoded.len();
        (HostSession { phase: HostPhase::SendImage, expected }, encoded)
    }

    /// The reply read is sized to this many bytes.
    pub fn expected_len(&self) -> (r: usize)
        ensures
            r == self.spec_expected(),
    {
        self.expected
    }

    /// Records that the encoded image went out: the zero-length
    /// end-of-message chunk is next.
    pub fn sent_image(&mut self)
        requires
            old(self).spec_phase() == HostPhase::SendImage,
        ensures
            final(self).spec_phase() == HostPhase::SendEnd,
            final(self).spec_expected() == old(self).spec_expected(),
    {
        self.phase = HostPhase::SendEnd;
    }

    /// Records that the end-of-message chunk went out: one status byte
    /// must be read next.
    pub fn sent_end(&mut self)
        requires
            old(self).spec_phase() == HostPhase::SendEnd,
        ensures
            final(self).spec_phase() == HostPhase::ReadStatus,
            final(self).spec_expected() == old(self).spec_expected(),
    {
        self.phase = HostPhase::ReadStatus;
    }

    /// Consumes the status byte the device answered. On success the reply
    /// stream is read next; any error status ends the transfer, and the
    /// returned code names it.
    pub fn on_status(&mut self, status: u8) -> (r: i32)
        requires
            old(self).spec_phase() == HostPhase::ReadStatus,
        ensures
            r == err::spec_map_from_device_error(status),
            r == err::CRING_EOK ==> final(self).spec_phase() == HostPhase::ReadReply,
            r != err::CRING_EOK ==> final(self).spec_phase() == HostPhase::Done,
            final(self).spec_expected() == old(self).spec_expected(),
    {
        let code = err::cring_map_from_device_error(status);
        if code == err::CRING_EOK {
            self.phase = HostPhase::ReadReply;
        } else {
            self.phase = HostPhase::Done;
        }
        code
    }

    /// Consumes the reply stream: decodes it and copies the decoded bytes
    /// into the caller's buffer, at most as many as the buffer holds. The
    /// buffer keeps its length; bytes past the decoded length stay as
    /// they were. Fails with the framing error when the reply does not
    /// decode.
    pub fn on_reply(&mut self, reply: &[u8], dest: &mut Vec<u8>) -> (r: Result<
        (),
        codec::RleDecodeError,
    >)
        requires
            old(self).spec_phase() == HostPhase::ReadReply,
        ensures
            final(self).spec_phase() == HostPhase::Done,
            match r {
                Ok(_) => {
                    &&& codec::spec_rle_decode(reply@) matches Some(d)
                    &&& ({
                        let m = if d.len() <= old(dest)@.len() {
                            d.len() as int
                        } else {
                            old(dest)@.len() as int
                        };
                        final(dest)@ == d.take(m) + old(dest)@.skip(m)
                    })
                },
                Err(e) => {
                    &&& codec::spec_rle_decode(reply@) is None
                    &&& e == codec::RleDecodeError::TruncatedStream
                    &&& final(dest)@ == old(dest)@
                },
            },
    {
        self.phase = HostPhase::Done;
        let decoded = match codec::cring_rle_decode(reply) {
            Ok(v) => v,
            Err(e) => {
                return Err(e);
            },
        };
        let m: usize = if decoded.len() <= dest.len() {
            decoded.len()
        } else {
            dest.len()
        };
        let ghost dest0 = dest@;
        let ghost d = decoded@;
        let mut i: usize = 0;
        while i < m
            invariant
                0 <= i <= m,
                m <= dest0.len(),
                m <= d.len(),
                decoded@ == d,
                dest@.len() == dest0.len(),
                dest@ == d.take(i as int) + dest0.skip(i as int),
            decreases m - i,
        {
            proof {
                assert(d.take(i + 1) + dest0.skip(i + 1) =~= (d.take(i as int) + dest0.skip(
                    i as int,
                )).update(i as int, d[i as int]));
            }
            let b: u8 = decoded[i];
            dest[i] = b;
            i = i + 1;
        }
        proof {
            assert(dest@ == d.take(m as int) + dest0.skip(m as int));
        }
        Ok(())
    }
}

} // verus!
