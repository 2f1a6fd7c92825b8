use vstd::prelude::*;

use crate::error::Error;
use crate::frame::{
    body_len, decode_body, decode_header, encode_read_request, encode_termination,
    encode_write_request, header_bytes, lemma_frame_round_trip, parse_frame, Frame, HEADER_LEN,
    TERMINATION_LEN, TERMINATION_TAG,
};
use crate::raw::{write_result, MutRawBytes, RawBytes};

verus! {

/// The status with which the peer reports that it served a batch.
pub const PEER_SUCCESS: i64 = 1;

/// The size of the shared region that the peer expects.
pub const FILE_MAPPING_LEN: usize = 65536;

/// A read that waits for its answer: where its frame starts in the stream,
/// and how many bytes its destination holds.
#[derive(Clone, Copy, Debug, PartialEq, Eq, Structural)]
pub struct PendingRead {
    pub position: usize,
    pub len: u16,
}

/// One decoded frame of a response: its position, its header and its body.
pub type Record = (nat, Frame, Seq<u8>);

/// `n` zero bytes.
pub open spec fn zeros(n: nat) -> Seq<u8> {
    Seq::new(n, |i: int| 0u8)
}

/// The frames of the response `s` from `pos` on, up to the termination mark
/// or the end of `s`, and where the scan stopped: `Some` with the number of
/// bytes consumed, or `None` where a frame could not be decoded.
/// A stream that fills the region to its last byte has no room for a
/// termination mark: its end closes it.
pub open spec fn scan(s: Seq<u8>, pos: nat) -> (Seq<Record>, Option<nat>)
    decreases s.len() - pos,
{
    if pos >= s.len() {
        (Seq::empty(), Some(pos))
    } else {
        match parse_frame(s.skip(pos as int)) {
            None => (Seq::empty(), None),
            Some((f, body)) => {
                if f is Termination {
                    (Seq::empty(), Some(pos + 1))
                } else {
                    let next = pos + header_bytes(f).len() + body.len();
                    if next <= pos {
                        (Seq::empty(), None)
                    } else {
                        let (rest, end) = scan(s, next);
                        (seq![(pos, f, body)] + rest, end)
                    }
                }
            },
        }
    }
}

/// A destination of `len` bytes after `body` has been copied into it:
/// as much of `body` as fits, over zeros.
pub open spec fn filled(len: nat, body: Seq<u8>) -> Seq<u8> {
    write_result(zeros(len), 0, len, body).0
}

/// What the destination of `reg` holds after the records `recs` have been
/// dispatched: the body of the read frame at its position, or zeros where
/// there is none.
pub open spec fn fill(recs: Seq<Record>, reg: PendingRead) -> Seq<u8>
    decreases recs.len(),
{
    if recs.len() == 0 {
        zeros(reg.len as nat)
    } else {
        let last = recs.last();
        if last.1 is ReadRequest && last.0 == reg.position {
            filled(reg.len as nat, last.2)
        } else {
            fill(recs.drop_last(), reg)
        }
    }
}

/// A stream of frames, each header followed by its body.
pub open spec fn encode_frames(fs: Seq<(Frame, Seq<u8>)>) -> Seq<u8>
    decreases fs.len(),
{
    if fs.len() == 0 {
        Seq::empty()
    } else {
        header_bytes(fs[0].0) + fs[0].1 + encode_frames(fs.skip(1))
    }
}

/// The records of the frames `fs` laid out one after another from `pos`.
pub open spec fn records_from(fs: Seq<(Frame, Seq<u8>)>, pos: nat) -> Seq<Record>
    decreases fs.len(),
{
    if fs.len() == 0 {
        Seq::empty()
    } else {
        seq![(pos, fs[0].0, fs[0].1)] + records_from(
            fs.skip(1),
            pos + header_bytes(fs[0].0).len() + fs[0].1.len(),
        )
    }
}

/// Requests and writes only, each with a body of the length its header gives.
pub open spec fn well_framed(fs: Seq<(Frame, Seq<u8>)>) -> bool {
    forall|i: int|
        0 <= i < fs.len() ==> !(#[trigger] fs[i].0 is Termination) && fs[i].1.len() == body_len(
            fs[i].0,
        )
}

/// The scan of a stream of well-framed frames, closed by a termination mark
/// or by its end, yields one record per frame, at the position it was laid at.
proof fn lemma_scan_frames(s: Seq<u8>, pos: nat, fs: Seq<(Frame, Seq<u8>)>, tail: Seq<u8>)
    requires
        pos <= s.len(),
        s.skip(pos as int) == encode_frames(fs) + tail,
        well_framed(fs),
        tail.len() == 0 || tail[0] == TERMINATION_TAG,
    ensures
        scan(s, pos).0 == records_from(fs, pos),
    decreases fs.len(),
{
    if fs.len() == 0 {
        assert(s.skip(pos as int) =~= tail);
        if tail.len() > 0 {
            assert(parse_frame(tail) == Some((Frame::Termination, tail.subrange(1, 1))));
        }
    } else {
        let f = fs[0].0;
        let body = fs[0].1;
        let rest = encode_frames(fs.skip(1)) + tail;
        assert(well_framed(fs.skip(1))) by {
            assert forall|i: int| 0 <= i < fs.skip(1).len() implies !(
            #[trigger] fs.skip(1)[i].0 is Termination) && fs.skip(1)[i].1.len() == body_len(
                fs.skip(1)[i].0,
            ) by {
                assert(fs.skip(1)[i] == fs[i + 1]);
            }
        }
        assert(!(fs[0].0 is Termination) && body.len() == body_len(f));
        assert(s.skip(pos as int) =~= header_bytes(f) + body + rest);
        lemma_frame_round_trip(f, body, rest);
        let hb = header_bytes(f).len() + body.len();
        let next = pos + hb;
        assert(s.skip(next as int) =~= s.skip(pos as int).skip(hb as int));
        assert((header_bytes(f) + body + rest).skip(hb as int) =~= rest);
        lemma_scan_frames(s, next, fs.skip(1), tail);
    }
}

/// Records laid out from `pos` sit at strictly increasing positions, from
/// `pos` on, and carry the frames in their order.
proof fn lemma_records_from(fs: Seq<(Frame, Seq<u8>)>, pos: nat)
    requires
        well_framed(fs),
    ensures
        records_from(fs, pos).len() == fs.len(),
        forall|i: int|
            0 <= i < fs.len() ==> (#[trigger] records_from(fs, pos)[i]).1 == fs[i].0
                && records_from(fs, pos)[i].2 == fs[i].1 && records_from(fs, pos)[i].0 >= pos,
        forall|i: int, j: int|
            0 <= i < j < fs.len() ==> (#[trigger] records_from(fs, pos)[i]).0 < (
            #[trigger] records_from(fs, pos)[j]).0,
    decreases fs.len(),
{
    if fs.len() > 0 {
        let next = pos + header_bytes(fs[0].0).len() + fs[0].1.len();
        assert(well_framed(fs.skip(1))) by {
            assert forall|i: int| 0 <= i < fs.skip(1).len() implies !(
            #[trigger] fs.skip(1)[i].0 is Termination) && fs.skip(1)[i].1.len() == body_len(
                fs.skip(1)[i].0,
            ) by {
                assert(fs.skip(1)[i] == fs[i + 1]);
            }
        }
        lemma_records_from(fs.skip(1), next);
        let r = records_from(fs, pos);
        let t = records_from(fs.skip(1), next);
        assert(r == seq![(pos, fs[0].0, fs[0].1)] + t);
        assert forall|i: int| 0 < i < fs.len() implies r[i] == t[i - 1] && fs[i] == fs.skip(1)[i
            - 1] by {}
    }
}

/// Where records sit at strictly increasing positions, a registration finds
/// the body of the read frame at its own position.
proof fn lemma_fill_at(recs: Seq<Record>, k: int, reg: PendingRead)
    requires
        forall|i: int, j: int| 0 <= i < j < recs.len() ==> recs[i].0 < recs[j].0,
        0 <= k < recs.len(),
        recs[k].1 is ReadRequest,
        recs[k].0 == reg.position,
    ensures
        fill(recs, reg) == filled(reg.len as nat, recs[k].2),
    decreases recs.len(),
{
    if k < recs.len() - 1 {
        assert(recs[k].0 < recs.last().0);
        let d = recs.drop_last();
        assert(d[k] == recs[k]);
        lemma_fill_at(d, k, reg);
    }
}

/// A response laid out frame for frame as the requests were queued, and
/// closed by a termination mark or by the end of the region, gives the read
/// registered at the position of the `k`-th frame the body of that frame,
/// whatever frames stand before or after it.
pub proof fn lemma_demux_in_order(
    fs: Seq<(Frame, Seq<u8>)>,
    tail: Seq<u8>,
    k: int,
    reg: PendingRead,
)
    requires
        well_framed(fs),
        tail.len() == 0 || tail[0] == TERMINATION_TAG,
        0 <= k < fs.len(),
        fs[k].0 is ReadRequest,
        reg.position == records_from(fs, 0)[k].0,
    ensures
        fill(scan(encode_frames(fs) + tail, 0).0, reg) == filled(reg.len as nat, fs[k].1),
{
    let s = encode_frames(fs) + tail;
    assert(s.skip(0) =~= s);
    lemma_scan_frames(s, 0, fs, tail);
    lemma_records_from(fs, 0);
    let recs = records_from(fs, 0);
    assert forall|i: int, j: int| 0 <= i < j < recs.len() implies recs[i].0 < recs[j].0 by {}
    lemma_fill_at(recs, k, reg);
}

/// One batch of requests, built up in a region the size of the shared buffer.
pub struct UserSession {
    buffer: MutRawBytes,
    reads: Vec<PendingRead>,
}

/// A batch whose termination mark has been written: it waits for the peer.
pub struct Batch {
    buffer: MutRawBytes,
    reads: Vec<PendingRead>,
}

/// What came of a batch: the number of response bytes consumed or the error,
/// and the destination of each read, in the order the reads were queued.
pub struct Response {
    pub result: Result<usize, Error>,
    pub destinations: Vec<Vec<u8>>,
}

/// A zeroed region of `n` bytes.
fn zeroed(n: usize) -> (r: Vec<u8>)
    ensures
        r@ == zeros(n as nat),
{
    let mut v: Vec<u8> = Vec::new();
    let mut i: usize = 0;
    while i < n
        invariant
            i <= n,
            v@ == zeros(i as nat),
        decreases n - i,
    {
        v.push(0u8);
        i = i + 1;
        assert(v@ =~= zeros(i as nat));
    }
    v
}

impl UserSession {
    /// The bytes of the command stream queued so far.
    pub closed spec fn request(&self) -> Seq<u8> {
        self.buffer.written()
    }

    /// The size of the region the stream is built in.
    pub closed spec fn capacity(&self) -> nat {
        self.buffer.limit()
    }

    /// The reads queued so far, in order.
    pub closed spec fn reads(&self) -> Seq<PendingRead> {
        self.reads@
    }

    /// The stream fits in the region.
    pub closed spec fn wf(&self) -> bool {
        &&& self.buffer.wf()
        &&& self.buffer.limit() == self.buffer.dest().len()
    }

    /// The room left for further frames.
    pub open spec fn room(&self) -> nat {
        (self.capacity() - self.request().len()) as nat
    }

    /// Opens a batch over a region of `capacity` bytes.
    pub fn new(capacity: usize) -> (r: Self)
        ensures
            r.wf(),
            r.capacity() == capacity,
            r.request() == Seq::<u8>::empty(),
            r.reads() == Seq::<PendingRead>::empty(),
    {
        let buffer = MutRawBytes::new(zeroed(capacity), capacity);
        let r = UserSession { buffer, reads: Vec::new() };
        assert(r.request() =~= Seq::<u8>::empty());
        r
    }

    /// The room left for further frames.
    pub fn remaining(&self) -> (r: usize)
        requires
            self.wf(),
        ensures
            r == self.room(),
    {
        self.buffer.remaining()
    }

    /// Queues a read of `len` bytes at `offset`, with room in the stream for
    /// the answer, and returns the index of its destination. Fails with
    /// `BufferExhausted`, and changes nothing, where the frame does not fit.
    pub fn read_bytes(&mut self, offset: u16, len: u16) -> (res: Result<usize, Error>)
        requires
            old(self).wf(),
        ensures
            final(self).wf(),
            final(self).capacity() == old(self).capacity(),
            HEADER_LEN + len <= old(self).room() ==> {
                &&& res == Ok::<usize, Error>(old(self).reads().len() as usize)
                &&& final(self).request() == old(self).request() + header_bytes(
                    Frame::ReadRequest { offset, len },
                ) + zeros(len as nat)
                &&& final(self).reads() == old(self).reads().push(
                    PendingRead { position: old(self).request().len() as usize, len },
                )
            },
            HEADER_LEN + len > old(self).room() ==> {
                &&& res == Err::<usize, Error>(Error::BufferExhausted)
                &&& *final(self) == *old(self)
            },
    {
        if self.buffer.remaining() < HEADER_LEN + len as usize {
            return Err(Error::BufferExhausted);
        }
        let position = self.buffer.position();
        encode_read_request(&mut self.buffer, offset, len);
        let space = zeroed(len as usize);
        self.buffer.write(space.as_slice());
        assert(space@.take(len as int) =~= space@);
        let handle = self.reads.len();
        self.reads.push(PendingRead { position, len });
        Ok(handle)
    }

    /// Queues a write of `bytes` at `offset` and returns the number of bytes
    /// queued. Fails with `BufferExhausted`, and changes nothing, where the
    /// frame does not fit (a payload longer than a frame can carry never does).
    pub fn write_bytes(&mut self, offset: u16, bytes: &[u8]) -> (res: Result<usize, Error>)
        requires
            old(self).wf(),
        ensures
            final(self).wf(),
            final(self).capacity() == old(self).capacity(),
            bytes@.len() <= u16::MAX && HEADER_LEN + bytes@.len() <= old(self).room() ==> {
                &&& res == Ok::<usize, Error>(bytes@.len() as usize)
                &&& final(self).request() == old(self).request() + header_bytes(
                    Frame::WriteRequest { offset, len: bytes@.len() as u16 },
                ) + bytes@
                &&& final(self).reads() == old(self).reads()
            },
            !(bytes@.len() <= u16::MAX && HEADER_LEN + bytes@.len() <= old(self).room()) ==> {
                &&& res == Err::<usize, Error>(Error::BufferExhausted)
                &&& *final(self) == *old(self)
            },
    {
        if bytes.len() > 0xFFFF || self.buffer.remaining() < HEADER_LEN + bytes.len() {
            return Err(Error::BufferExhausted);
        }
        encode_write_request(&mut self.buffer, offset, bytes);
        Ok(bytes.len())
    }

    /// Closes the stream with a termination mark, where there is room for one,
    /// and hands the batch over for the peer.
    pub fn commit(self) -> (b: Batch)
        requires
            self.wf(),
        ensures
            b.reads() == self.reads(),
            b.region().len() == self.capacity(),
            b.region().take(b.request().len() as int) == b.request(),
            self.room() >= TERMINATION_LEN ==> b.request() == self.request() + header_bytes(
                Frame::Termination,
            ),
            self.room() < TERMINATION_LEN ==> b.request() == self.request(),
    {
        let mut buffer = self.buffer;
        if buffer.remaining() >= TERMINATION_LEN {
            encode_termination(&mut buffer);
        }
        Batch { buffer, reads: self.reads }
    }
}

impl Batch {
    /// The command stream.
    pub closed spec fn request(&self) -> Seq<u8> {
        self.buffer.written()
    }

    /// The whole region, as it goes to the peer.
    pub closed spec fn region(&self) -> Seq<u8> {
        self.buffer.dest()
    }

    /// The reads that wait for their answer, in order.
    pub closed spec fn reads(&self) -> Seq<PendingRead> {
        self.reads@
    }

    /// The whole region, as it goes to the peer.
    pub fn outgoing(&self) -> (r: &[u8])
        ensures
            r@ == self.region(),
    {
        self.buffer.bytes()
    }

    /// Takes the peer's status and the region as the peer left it. A status
    /// other than success fails with `PeerRejected` and nothing is decoded.
    /// Otherwise the response is scanned frame by frame from its start: the
    /// body of each read frame goes to the read queued at that position, and
    /// the scan ends at the termination mark, or fails with `MalformedFrame`
    /// at a frame it cannot decode. Destinations filled before a failure stay
    /// filled.
    pub fn process(self, status: i64, response: Vec<u8>) -> (r: Response)
        ensures
            r.destinations@.len() == self.reads().len(),
            status != PEER_SUCCESS ==> {
                &&& r.result == Err::<usize, Error>(Error::PeerRejected { code: status })
                &&& forall|i: int|
                    0 <= i < self.reads().len() ==> #[trigger] r.destinations@[i]@ == zeros(
                        self.reads()[i].len as nat,
                    )
            },
            status == PEER_SUCCESS ==> {
                &&& match scan(response@, 0).1 {
                    Some(n) => r.result is Ok && r.result->Ok_0 == n,
                    None => r.result == Err::<usize, Error>(Error::MalformedFrame),
                }
                &&& forall|i: int|
                    0 <= i < self.reads().len() ==> #[trigger] r.destinations@[i]@ == fill(
                        scan(response@, 0).0,
                        self.reads()[i],
                    )
            },
    {
        let reads = self.reads;
        let mut destinations: Vec<Vec<u8>> = Vec::new();
        let mut k: usize = 0;
        while k < reads.len()
            invariant
                k <= reads@.len(),
                destinations@.len() == k,
                forall|i: int|
                    0 <= i < k ==> #[trigger] destinations@[i]@ == zeros(reads@[i].len as nat),
            decreases reads@.len() - k,
        {
            destinations.push(zeroed(reads[k].len as usize));
            k = k + 1;
        }
        if status != PEER_SUCCESS {
            return Response { result: Err(Error::PeerRejected { code: status }), destinations };
        }
        let ghost s = response@;
        let n = response.len();
        let mut cursor = RawBytes::new(response, n);
        let ghost mut done: Seq<Record> = Seq::empty();
        loop
            invariant
                cursor.wf(),
                cursor.source() == s,
                cursor.limit() == s.len(),
                s == response@,
                reads@ == self.reads(),
                status == PEER_SUCCESS,
                scan(s, 0) == (done + scan(s, cursor.pos()).0, scan(s, cursor.pos()).1),
                destinations@.len() == reads@.len(),
                forall|i: int|
                    0 <= i < reads@.len() ==> #[trigger] destinations@[i]@ == fill(
                        done,
                        reads@[i],
                    ),
            decreases s.len() - cursor.pos(),
        {
            let ghost pos = cursor.pos();
            let ghost rest = cursor.rest();
            assert(rest =~= s.skip(pos as int));
            if cursor.remaining() == 0 {
                assert(done + Seq::<Record>::empty() =~= done);
                return Response { result: Ok(cursor.consumed()), destinations };
            }
            let start = cursor.consumed();
            let frame = match decode_header(&mut cursor) {
                Ok(f) => f,
                Err(e) => {
                    assert(done + Seq::<Record>::empty() =~= done);
                    return Response { result: Err(e), destinations };
                },
            };
            if let Frame::Termination = frame {
                assert(done + Seq::<Record>::empty() =~= done);
                return Response { result: Ok(cursor.consumed()), destinations };
            }
            let ghost h = header_bytes(frame).len();
            assert(cursor.rest() =~= rest.skip(h as int));
            let body = match decode_body(&mut cursor, frame) {
                Ok(b) => b,
                Err(e) => {
                    assert(done + Seq::<Record>::empty() =~= done);
                    return Response { result: Err(e), destinations };
                },
            };
            assert(body@ =~= rest.subrange(h as int, (h + body_len(frame)) as int));
            let ghost rec: Record = (pos, frame, body@);
            if let Frame::ReadRequest { .. } = frame {
                let mut j: usize = 0;
                while j < reads.len()
                    invariant
                        j <= reads@.len(),
                        destinations@.len() == reads@.len(),
                        rec == (pos, frame, body@),
                        start == pos,
                        frame is ReadRequest,
                        forall|i: int|
                            0 <= i < j ==> #[trigger] destinations@[i]@ == fill(
                                done.push(rec),
                                reads@[i],
                            ),
                        forall|i: int|
                            j <= i < reads@.len() ==> #[trigger] destinations@[i]@ == fill(
                                done,
                                reads@[i],
                            ),
                    decreases reads@.len() - j,
                {
                    assert(done.push(rec).drop_last() =~= done);
                    if reads[j].position == start {
                        let len = reads[j].len as usize;
                        let mut out = MutRawBytes::new(zeroed(len), len);
                        out.write(body.as_slice());
                        destinations.set(j, out.into_inner());
                    }
                    assert(destinations@[j as int]@ == fill(done.push(rec), reads@[j as int]));
                    j = j + 1;
                }
            } else {
                assert forall|i: int| 0 <= i < reads@.len() implies #[trigger] destinations@[i]@
                    == fill(done.push(rec), reads@[i]) by {
                    assert(done.push(rec).drop_last() =~= done);
                }
            }
            assert(done.push(rec) + scan(s, cursor.pos()).0 =~= done + (seq![rec] + scan(
                s,
                cursor.pos(),
            ).0));
            proof {
                done = done.push(rec);
            }
        }
    }
}

} // verus!
