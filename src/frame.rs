use vstd::prelude::*;

use crate::error::Error;
use crate::raw::{MutRawBytes, RawBytes};

verus! {

/// The tag byte of a termination mark.
pub const TERMINATION_TAG: u8 = 0;

/// The tag byte of a read request.
pub const READ_TAG: u8 = 1;

/// The tag byte of a write request.
pub const WRITE_TAG: u8 = 2;

/// The size of a read or write header: tag, offset and length.
pub const HEADER_LEN: usize = 5;

/// The size of a termination mark.
pub const TERMINATION_LEN: usize = 1;

/// The header of one frame of the command stream.
#[derive(Clone, Copy, Debug, PartialEq, Eq, Structural)]
pub enum Frame {
    /// Asks for `len` bytes of state at `offset`; in the response the bytes
    /// follow the header.
    ReadRequest { offset: u16, len: u16 },
    /// Carries `len` bytes to store at `offset`; in the response the same
    /// room is echoed back and skipped.
    WriteRequest { offset: u16, len: u16 },
    /// Ends the stream.
    Termination,
}

/// A 16-bit value as two bytes, low byte first.
pub open spec fn le16(v: u16) -> Seq<u8> {
    seq![(v % 256) as u8, (v / 256) as u8]
}

/// The 16-bit value that two bytes hold, low byte first.
pub open spec fn from_le16(lo: u8, hi: u8) -> u16 {
    (lo as int + hi as int * 256) as u16
}

/// The bytes of a frame header on the wire.
pub open spec fn header_bytes(f: Frame) -> Seq<u8> {
    match f {
        Frame::ReadRequest { offset, len } => seq![READ_TAG] + le16(offset) + le16(len),
        Frame::WriteRequest { offset, len } => seq![WRITE_TAG] + le16(offset) + le16(len),
        Frame::Termination => seq![TERMINATION_TAG],
    }
}

/// The number of bytes that follow a header.
pub open spec fn body_len(f: Frame) -> nat {
    match f {
        Frame::ReadRequest { len, .. } => len as nat,
        Frame::WriteRequest { len, .. } => len as nat,
        Frame::Termination => 0,
    }
}

/// The header at the front of `s`, if it holds a whole header of a known kind.
pub open spec fn parse_header(s: Seq<u8>) -> Option<Frame> {
    if s.len() == 0 {
        None
    } else if s[0] == TERMINATION_TAG {
        Some(Frame::Termination)
    } else if s.len() < HEADER_LEN {
        None
    } else if s[0] == READ_TAG {
        Some(Frame::ReadRequest { offset: from_le16(s[1], s[2]), len: from_le16(s[3], s[4]) })
    } else if s[0] == WRITE_TAG {
        Some(Frame::WriteRequest { offset: from_le16(s[1], s[2]), len: from_le16(s[3], s[4]) })
    } else {
        None
    }
}

/// The whole frame at the front of `s`: its header and its body, if both are there.
pub open spec fn parse_frame(s: Seq<u8>) -> Option<(Frame, Seq<u8>)> {
    match parse_header(s) {
        None => None,
        Some(f) => {
            let h = header_bytes(f).len();
            if h + body_len(f) <= s.len() {
                Some((f, s.subrange(h as int, (h + body_len(f)) as int)))
            } else {
                None
            }
        },
    }
}

proof fn lemma_le16(v: u16)
    ensures
        from_le16(le16(v)[0], le16(v)[1]) == v,
{
}

/// A decoded header is the one that was encoded, whatever follows it.
pub proof fn lemma_header_round_trip(f: Frame, rest: Seq<u8>)
    ensures
        parse_header(header_bytes(f) + rest) == Some(f),
{
    match f {
        Frame::ReadRequest { offset, len } => {
            lemma_le16(offset);
            lemma_le16(len);
        },
        Frame::WriteRequest { offset, len } => {
            lemma_le16(offset);
            lemma_le16(len);
        },
        Frame::Termination => {},
    }
}

/// A read request decodes to its offset and length; a write request decodes
/// to its offset, its length and its payload, whatever follows the frame.
pub proof fn lemma_frame_round_trip(f: Frame, body: Seq<u8>, rest: Seq<u8>)
    requires
        body.len() == body_len(f),
    ensures
        parse_frame(header_bytes(f) + body + rest) == Some((f, body)),
{
    let s = header_bytes(f) + body + rest;
    assert(s == header_bytes(f) + (body + rest));
    lemma_header_round_trip(f, body + rest);
    let h = header_bytes(f).len();
    assert(s.subrange(h as int, (h + body_len(f)) as int) =~= body);
}

/// Appends the header of a read request for `len` bytes at `offset`.
pub fn encode_read_request(w: &mut MutRawBytes, offset: u16, len: u16)
    requires
        old(w).wf(),
        old(w).limit() - old(w).pos() >= HEADER_LEN,
    ensures
        final(w).wf(),
        final(w).limit() == old(w).limit(),
        final(w).dest().len() == old(w).dest().len(),
        final(w).written() == old(w).written() + header_bytes(
            Frame::ReadRequest { offset, len },
        ),
{
    let hdr: [u8; 5] = [
        READ_TAG,
        (offset % 256) as u8,
        (offset / 256) as u8,
        (len % 256) as u8,
        (len / 256) as u8,
    ];
    w.write(&hdr);
    assert(hdr@.take(5) =~= header_bytes(Frame::ReadRequest { offset, len }));
}

/// Appends a write request that carries `payload` to `offset`.
pub fn encode_write_request(w: &mut MutRawBytes, offset: u16, payload: &[u8])
    requires
        old(w).wf(),
        payload@.len() <= u16::MAX,
        old(w).limit() - old(w).pos() >= HEADER_LEN + payload@.len(),
    ensures
        final(w).wf(),
        final(w).limit() == old(w).limit(),
        final(w).dest().len() == old(w).dest().len(),
        final(w).written() == old(w).written() + header_bytes(
            Frame::WriteRequest { offset, len: payload@.len() as u16 },
        ) + payload@,
{
    let len = payload.len() as u16;
    let hdr: [u8; 5] = [
        WRITE_TAG,
        (offset % 256) as u8,
        (offset / 256) as u8,
        (len % 256) as u8,
        (len / 256) as u8,
    ];
    w.write(&hdr);
    assert(hdr@.take(5) =~= header_bytes(Frame::WriteRequest { offset, len }));
    w.write(payload);
    assert(payload@.take(payload@.len() as int) =~= payload@);
}

/// Appends a termination mark.
pub fn encode_termination(w: &mut MutRawBytes)
    requires
        old(w).wf(),
        old(w).limit() - old(w).pos() >= TERMINATION_LEN,
    ensures
        final(w).wf(),
        final(w).limit() == old(w).limit(),
        final(w).dest().len() == old(w).dest().len(),
        final(w).written() == old(w).written() + header_bytes(Frame::Termination),
{
    let hdr: [u8; 1] = [TERMINATION_TAG];
    w.write(&hdr);
    assert(hdr@.take(1) =~= header_bytes(Frame::Termination));
}

/// Reads one frame header. Fails with `MalformedFrame` where the next bytes
/// are not a whole header of a known kind.
pub fn decode_header(r: &mut RawBytes) -> (res: Result<Frame, Error>)
    requires
        old(r).wf(),
    ensures
        final(r).wf(),
        final(r).source() == old(r).source(),
        final(r).limit() == old(r).limit(),
        match parse_header(old(r).rest()) {
            Some(f) => res == Ok::<Frame, Error>(f) && final(r).pos() == old(r).pos()
                + header_bytes(f).len(),
            None => res == Err::<Frame, Error>(Error::MalformedFrame),
        },
{
    let ghost rest = r.rest();
    if r.remaining() == 0 {
        return Err(Error::MalformedFrame);
    }
    let mut tag: [u8; 1] = [0u8];
    r.read(&mut tag);
    assert(tag@[0] == rest[0]);
    if tag[0] == TERMINATION_TAG {
        return Ok(Frame::Termination);
    }
    if tag[0] != READ_TAG && tag[0] != WRITE_TAG {
        return Err(Error::MalformedFrame);
    }
    if r.remaining() < HEADER_LEN - 1 {
        return Err(Error::MalformedFrame);
    }
    assert(r.rest() =~= rest.skip(1));
    let mut b: [u8; 4] = [0u8; 4];
    r.read(&mut b);
    assert(rest.len() >= 5);
    assert(b@ =~= rest.subrange(1, 5));
    let offset = (b[0] as u16) + (b[1] as u16) * 256;
    let len = (b[2] as u16) + (b[3] as u16) * 256;
    if tag[0] == READ_TAG {
        Ok(Frame::ReadRequest { offset, len })
    } else {
        Ok(Frame::WriteRequest { offset, len })
    }
}

/// Reads the body that follows `f`. Fails with `MalformedFrame` where the
/// body runs past the end of the stream.
pub fn decode_body(r: &mut RawBytes, f: Frame) -> (res: Result<Vec<u8>, Error>)
    requires
        old(r).wf(),
    ensures
        final(r).wf(),
        final(r).source() == old(r).source(),
        final(r).limit() == old(r).limit(),
        body_len(f) <= old(r).rest().len() ==> res is Ok && res->Ok_0@ == old(r).rest().take(
            body_len(f) as int,
        ) && final(r).pos() == old(r).pos() + body_len(f),
        body_len(f) > old(r).rest().len() ==> res == Err::<Vec<u8>, Error>(Error::MalformedFrame),
{
    let n: usize = match f {
        Frame::ReadRequest { len, .. } => len as usize,
        Frame::WriteRequest { len, .. } => len as usize,
        Frame::Termination => 0,
    };
    assert(n == body_len(f));
    if r.remaining() < n {
        return Err(Error::MalformedFrame);
    }
    let mut body: Vec<u8> = vec![0u8; n];
    r.read(body.as_mut_slice());
    assert(body@ =~= old(r).rest().take(n as int));
    Ok(body)
}

} // verus!
