//! Frames on a byte stream.

use crate::frame::{FrameView, StompFrame, StompVersion};
use crate::parse::{self, ParseError, Reading, DEFAULT_MAX_BODY_SIZE};
use crate::{encode, frame};
use bytes::{Buf, BytesMut};
use vstd::prelude::*;

verus! {

/// The growable buffer of the crate `bytes`.
#[verifier::external_type_specification]
#[verifier::external_body]
pub struct ExBytesMut(bytes::BytesMut);

/// The bytes that a buffer holds.
pub uninterp spec fn held(buffer: BytesMut) -> Seq<u8>;

/// The bytes in a buffer, as a slice.
///
/// Calls `BytesMut::as_ref`. What is claimed of it: the slice holds the
/// buffer's bytes.
#[verifier::external_body]
fn buffered(buffer: &BytesMut) -> (bytes: &[u8])
    ensures
        bytes@ == held(*buffer),
{
    buffer.as_ref()
}

/// Takes `count` bytes off the front of a buffer.
///
/// Calls `Buf::advance` on `BytesMut`. What is claimed of it: the buffer keeps
/// the bytes after the first `count`. It panics where there are fewer.
#[verifier::external_body]
fn discard(buffer: &mut BytesMut, count: usize)
    requires
        count <= held(*old(buffer)).len(),
    ensures
        held(*final(buffer)) == held(*old(buffer)).skip(count as int),
{
    buffer.advance(count)
}

/// Appends bytes to a buffer.
///
/// Calls `BytesMut::extend_from_slice`. What is claimed of it: the buffer holds
/// the new bytes after those it held before. It panics where the bytes outgrow
/// the largest allocation; running out of memory before that is not spoken of.
#[verifier::external_body]
fn append(buffer: &mut BytesMut, bytes: &[u8])
    requires
        held(*old(buffer)).len() + bytes@.len() <= isize::MAX,
    ensures
        held(*final(buffer)) == held(*old(buffer)) + bytes@,
{
    buffer.extend_from_slice(bytes)
}

/// Turns frames into bytes and bytes into frames, for one version of the
/// protocol and up to a size of the body.
pub struct StompCodec {
    pub version: StompVersion,
    pub max_body_size: usize,
}

impl Default for StompCodec {
    fn default() -> (codec: Self)
        ensures
            codec.version == StompVersion::V1_2,
            codec.max_body_size == DEFAULT_MAX_BODY_SIZE,
    {
        StompCodec { version: StompVersion::V1_2, max_body_size: DEFAULT_MAX_BODY_SIZE }
    }
}

/// What the bytes received so far amount to.
pub enum Received {
    /// No frame yet.
    Nothing,
    /// A frame, and the number of bytes that it took.
    Frame(FrameView, int),
    /// No frame, whatever follows.
    Invalid(ParseError),
}

/// How many bytes of line ends `s` begins with.
pub open spec fn line_end_bytes(s: Seq<u8>) -> int {
    parse::find(s, 0, parse::Stop::NonLineEnd)
}

/// The frame that line ends between frames are reported as.
pub open spec fn heartbeat() -> FrameView {
    FrameView { command: "HEARTBEAT"@, headers: seq![], body: None }
}

/// What the bytes `s` amount to. Line ends in front are a heartbeat.
pub open spec fn received(s: Seq<u8>, version: StompVersion, max: nat) -> Received {
    if s.len() == 0 {
        Received::Nothing
    } else if line_end_bytes(s) > 0 {
        Received::Frame(heartbeat(), line_end_bytes(s))
    } else {
        match parse::frame_at(s, version, max) {
            Reading::Done(f, n) => Received::Frame(f, n),
            Reading::Failed(ParseError::Incomplete(_), _) => Received::Nothing,
            Reading::Failed(e, _) => Received::Invalid(e),
        }
    }
}

impl StompCodec {
    /// A codec for the newest version of the protocol.
    pub fn with_max_body_size(max_body_size: usize) -> (codec: Self)
        ensures
            codec.version == StompVersion::V1_2,
            codec.max_body_size == max_body_size,
    {
        StompCodec { version: StompVersion::V1_2, max_body_size }
    }

    /// Takes the next frame off the front of a buffer. Leaves the buffer as it
    /// is while there is none.
    pub fn decode(&mut self, src: &mut BytesMut) -> (result: Result<
        Option<StompFrame<'static>>,
        ParseError,
    >)
        ensures
            *final(self) == *old(self),
            match received(held(*old(src)), old(self).version, old(self).max_body_size as nat) {
                Received::Nothing => {
                    &&& result matches Ok(None)
                    &&& held(*final(src)) == held(*old(src))
                },
                Received::Frame(f, n) => {
                    &&& 0 < n <= held(*old(src)).len()
                    &&& result matches Ok(Some(frame)) && frame@ == f
                    &&& held(*final(src)) == held(*old(src)).skip(n)
                },
                Received::Invalid(e) => {
                    &&& e !is Incomplete
                    &&& result matches Err(d) && d == e
                    &&& held(*final(src)) == held(*old(src))
                },
            },
    {
        let version = self.version;
        let max_body_size = self.max_body_size;
        let (consumed, found) = {
            let input = buffered(src);
            if input.len() == 0 {
                return Ok(None);
            }
            let line_ends = parse::find_stop(input, 0, parse::Stop::NonLineEnd);
            if line_ends > 0 {
                let found = frame::bodiless("HEARTBEAT", Vec::new());
                assert(found@.headers =~= seq![]);
                (line_ends, found)
            } else {
                match parse::parse_frame_with_version_and_max_body_size(
                    input,
                    version,
                    max_body_size,
                ) {
                    Ok((remain, found)) => {
                        proof {
                            parse::frames_are_not_empty(input@, version, max_body_size as nat);
                        }
                        (input.len() - remain.len(), found.into_owned())
                    },
                    Err(ParseError::Incomplete(_)) => {
                        return Ok(None);
                    },
                    Err(e) => {
                        return Err(e);
                    },
                }
            }
        };
        discard(src, consumed);
        Ok(Some(found))
    }

    /// Writes a frame at the end of a buffer.
    pub fn encode(&mut self, item: StompFrame<'_>, dst: &mut BytesMut) -> (result: Result<
        (),
        std::io::Error,
    >)
        requires
            held(*old(dst)).len() + encode::frame_bytes(item@, old(self).version).len()
                <= isize::MAX,
        ensures
            result is Ok,
            *final(self) == *old(self),
            held(*final(dst)) == held(*old(dst)) + encode::frame_bytes(
                item@,
                old(self).version,
            ),
    {
        let serialized = item.serialize_with_version(self.version);
        append(dst, frame::cow_bytes(&serialized));
        Ok(())
    }

    /// Writes a frame at the end of a buffer if the largest allocation has room
    /// for it, and says whether it has.
    pub fn try_encode(&mut self, item: StompFrame<'_>, dst: &mut BytesMut) -> (written: bool)
        ensures
            *final(self) == *old(self),
            written == (held(*old(dst)).len() + encode::frame_bytes(
                item@,
                old(self).version,
            ).len() <= isize::MAX),
            held(*final(dst)) == if written {
                held(*old(dst)) + encode::frame_bytes(item@, old(self).version)
            } else {
                held(*old(dst))
            },
    {
        let limit: usize = isize::MAX as usize;
        let taken: usize = buffered(dst).len();
        let size: usize = {
            let serialized = item.serialize_with_version(self.version);
            frame::cow_bytes(&serialized).len()
        };
        if taken <= limit && size <= limit - taken {
            self.encode(item, dst).is_ok()
        } else {
            false
        }
    }
}

} // verus!
