use vstd::prelude::*;

verus! {

/// The smaller of two naturals.
pub open spec fn min_nat(a: nat, b: nat) -> nat {
    if a <= b {
        a
    } else {
        b
    }
}

/// `dest` with `input` laid over it starting at `pos`.
pub open spec fn write_into(dest: Seq<u8>, pos: nat, input: Seq<u8>) -> Seq<u8> {
    dest.take(pos as int) + input + dest.skip((pos + input.len()) as int)
}

/// The region and position after a bounded write of `input` at `pos`,
/// where no byte may land at or past `limit`.
pub open spec fn write_result(dest: Seq<u8>, pos: nat, limit: nat, input: Seq<u8>) -> (Seq<u8>, nat) {
    let n = min_nat(input.len(), (limit - pos) as nat);
    (write_into(dest, pos, input.take(n as int)), pos + n)
}

/// A forward-only cursor that reads from a source region of fixed length.
pub struct RawBytes {
    data: Vec<u8>,
    pos: usize,
    end: usize,
}

impl RawBytes {
    /// The cursor's position stays within its limit, and the limit within the source.
    pub open spec fn wf(&self) -> bool {
        self.pos() <= self.limit() <= self.source().len()
    }

    /// The whole source region.
    pub closed spec fn source(&self) -> Seq<u8> {
        self.data@
    }

    /// How many bytes have been read so far.
    pub closed spec fn pos(&self) -> nat {
        self.pos as nat
    }

    /// The length past which nothing is read.
    pub closed spec fn limit(&self) -> nat {
        self.end as nat
    }

    /// The bytes that are still to be read.
    pub open spec fn rest(&self) -> Seq<u8> {
        self.source().subrange(self.pos() as int, self.limit() as int)
    }

    /// Builds a cursor that never reads past `len` bytes of `data`
    /// (nor past the end of `data`).
    pub fn new(data: Vec<u8>, len: usize) -> (r: Self)
        ensures
            r.wf(),
            r.source() == data@,
            r.pos() == 0,
            r.limit() == min_nat(len as nat, data@.len()),
    {
        let end = if len < data.len() {
            len
        } else {
            data.len()
        };
        RawBytes { data, pos: 0, end }
    }

    /// The number of bytes read so far.
    pub fn consumed(&self) -> (r: usize)
        ensures
            r == self.pos(),
    {
        self.pos
    }

    /// The number of bytes that can still be read.
    pub fn remaining(&self) -> (r: usize)
        requires
            self.wf(),
        ensures
            r == self.limit() - self.pos(),
            r == self.rest().len(),
    {
        self.end - self.pos
    }

    /// Fills the front of `buff` with the next `min(buff.len(), remaining)` bytes
    /// of the source and returns that count. The rest of `buff` is left alone.
    pub fn read(&mut self, buff: &mut [u8]) -> (n: usize)
        requires
            old(self).wf(),
        ensures
            final(self).wf(),
            n == min_nat(old(buff)@.len(), (old(self).limit() - old(self).pos()) as nat),
            final(buff)@ == old(self).rest().take(n as int) + old(buff)@.skip(n as int),
            final(self).source() == old(self).source(),
            final(self).limit() == old(self).limit(),
            final(self).pos() == old(self).pos() + n,
    {
        let room = self.end - self.pos;
        let n = if buff.len() < room {
            buff.len()
        } else {
            room
        };
        let start = self.pos;
        let mut i: usize = 0;
        while i < n
            invariant
                self.wf(),
                i <= n,
                n <= buff@.len(),
                n == min_nat(old(buff)@.len(), (old(self).limit() - old(self).pos()) as nat),
                start == old(self).pos(),
                self.pos == start + i,
                self.end == old(self).limit(),
                self.data@ == old(self).source(),
                buff@.len() == old(buff)@.len(),
                forall|k: int| 0 <= k < i ==> buff@[k] == self.data@[start + k],
                forall|k: int| i <= k < buff@.len() ==> buff@[k] == old(buff)@[k],
            decreases n - i,
        {
            buff[i] = self.data[self.pos];
            self.pos = self.pos + 1;
            i = i + 1;
        }
        assert(buff@ =~= old(self).rest().take(n as int) + old(buff)@.skip(n as int));
        n
    }
}

/// A forward-only cursor that writes into a destination region of fixed length.
/// Bytes offered past the limit are dropped.
pub struct MutRawBytes {
    data: Vec<u8>,
    pos: usize,
    end: usize,
}

impl MutRawBytes {
    /// The cursor's position stays within its limit, and the limit within the region.
    pub open spec fn wf(&self) -> bool {
        self.pos() <= self.limit() <= self.dest().len()
    }

    /// The whole destination region as it stands.
    pub closed spec fn dest(&self) -> Seq<u8> {
        self.data@
    }

    /// How many bytes have been written so far.
    pub closed spec fn pos(&self) -> nat {
        self.pos as nat
    }

    /// The length past which nothing is written.
    pub closed spec fn limit(&self) -> nat {
        self.end as nat
    }

    /// The bytes written so far.
    pub open spec fn written(&self) -> Seq<u8> {
        self.dest().take(self.pos() as int)
    }

    /// Builds a cursor that never writes past `len` bytes of `data`
    /// (nor past the end of `data`).
    pub fn new(data: Vec<u8>, len: usize) -> (r: Self)
        ensures
            r.wf(),
            r.dest() == data@,
            r.pos() == 0,
            r.limit() == min_nat(len as nat, data@.len()),
    {
        let end = if len < data.len() {
            len
        } else {
            data.len()
        };
        MutRawBytes { data, pos: 0, end }
    }

    /// The number of bytes written so far.
    pub fn position(&self) -> (r: usize)
        ensures
            r == self.pos(),
    {
        self.pos
    }

    /// The number of bytes that can still be written.
    pub fn remaining(&self) -> (r: usize)
        requires
            self.wf(),
        ensures
            r == self.limit() - self.pos(),
    {
        self.end - self.pos
    }

    /// The whole destination region.
    pub fn bytes(&self) -> (r: &[u8])
        ensures
            r@ == self.dest(),
    {
        self.data.as_slice()
    }

    /// Gives the destination region back.
    pub fn into_inner(self) -> (r: Vec<u8>)
        ensures
            r@ == self.dest(),
    {
        self.data
    }

    /// Copies the first `min(buff.len(), remaining)` bytes of `buff` to the
    /// current position and returns that count; the rest of `buff` is dropped.
    pub fn write(&mut self, buff: &[u8]) -> (n: usize)
        requires
            old(self).wf(),
        ensures
            final(self).wf(),
            n == min_nat(buff@.len(), (old(self).limit() - old(self).pos()) as nat),
            (final(self).dest(), final(self).pos()) == write_result(
                old(self).dest(),
                old(self).pos(),
                old(self).limit(),
                buff@,
            ),
            final(self).limit() == old(self).limit(),
            final(self).dest().len() == old(self).dest().len(),
            final(self).written() == old(self).written() + buff@.take(n as int),
    {
        let room = self.end - self.pos;
        let n = if buff.len() < room {
            buff.len()
        } else {
            room
        };
        let start = self.pos;
        let mut i: usize = 0;
        while i < n
            invariant
                self.wf(),
                i <= n,
                n <= buff@.len(),
                n == min_nat(buff@.len(), (old(self).limit() - old(self).pos()) as nat),
                start == old(self).pos(),
                self.pos == start + i,
                self.end == old(self).limit(),
                self.data@.len() == old(self).dest().len(),
                forall|k: int| 0 <= k < start ==> self.data@[k] == old(self).dest()[k],
                forall|k: int| 0 <= k < i ==> self.data@[start + k] == buff@[k],
                forall|k: int|
                    start + i <= k < self.data@.len() ==> self.data@[k] == old(self).dest()[k],
            decreases n - i,
        {
            self.data.set(self.pos, buff[i]);
            self.pos = self.pos + 1;
            i = i + 1;
        }
        assert(self.data@ =~= write_into(old(self).dest(), start as nat, buff@.take(n as int)));
        assert(self.written() =~= old(self).written() + buff@.take(n as int));
        n
    }

    /// Nothing is buffered, so there is nothing to push out.
    pub fn flush(&mut self)
        ensures
            *final(self) == *old(self),
    {
    }
}

/// A write of more bytes than there is room for has the same effect as a
/// write of just the bytes that fit.
pub proof fn lemma_write_clamp(dest: Seq<u8>, pos: nat, limit: nat, input: Seq<u8>)
    requires
        pos <= limit,
        input.len() >= limit - pos,
    ensures
        write_result(dest, pos, limit, input) == write_result(
            dest,
            pos,
            limit,
            input.take((limit - pos) as int),
        ),
{
    let room = (limit - pos) as int;
    assert(input.take(room).take(room) =~= input.take(room));
}

} // verus!
