//! A bounded, position-tracked byte sink over a caller-provided buffer.
//!
//! The writer itself is only a cursor: every operation is handed the buffer it
//! writes into, so the caller keeps ownership of the bytes and the writer never
//! allocates. Callers test `has` before they write.
use vstd::prelude::*;

verus! {

/// `buf` with the bytes of `data` laid over it from index `at` on.
pub open spec fn overwrite(buf: Seq<u8>, at: int, data: Seq<u8>) -> Seq<u8> {
    Seq::new(
        buf.len(),
        |i: int|
            if at <= i < at + data.len() {
                data[i - at]
            } else {
                buf[i]
            },
    )
}

/// The four bytes of `v`, most significant first.
pub open spec fn u32_be_bytes(v: u32) -> Seq<u8> {
    seq![
        ((v >> 24) & 0xff) as u8,
        ((v >> 16) & 0xff) as u8,
        ((v >> 8) & 0xff) as u8,
        (v & 0xff) as u8,
    ]
}

/// The eight bytes of `v`, most significant first.
pub open spec fn u64_be_bytes(v: u64) -> Seq<u8> {
    u32_be_bytes(((v >> 32) & 0xffff_ffff) as u32) + u32_be_bytes((v & 0xffff_ffff) as u32)
}

/// Writing `data` at `at` extends the written prefix by `data` and leaves the
/// bytes before `at` and after the written range alone.
pub proof fn lemma_overwrite(buf: Seq<u8>, at: int, data: Seq<u8>)
    requires
        0 <= at,
        at + data.len() <= buf.len(),
    ensures
        overwrite(buf, at, data).len() == buf.len(),
        overwrite(buf, at, data).subrange(0, at) == buf.subrange(0, at),
        overwrite(buf, at, data).subrange(0, at + data.len()) == buf.subrange(0, at) + data,
        forall|j: int| at + data.len() <= j < buf.len() ==> overwrite(buf, at, data)[j] == buf[j],
{
    assert(overwrite(buf, at, data).subrange(0, at) =~= buf.subrange(0, at));
    assert(overwrite(buf, at, data).subrange(0, at + data.len()) =~= buf.subrange(0, at) + data);
}

/// Two writes one after the other are one write of the concatenation.
pub proof fn lemma_overwrite_twice(buf: Seq<u8>, at: int, first: Seq<u8>, second: Seq<u8>)
    requires
        0 <= at,
        at + first.len() + second.len() <= buf.len(),
    ensures
        overwrite(overwrite(buf, at, first), at + first.len(), second) == overwrite(
            buf,
            at,
            first + second,
        ),
{
    assert(overwrite(overwrite(buf, at, first), at + first.len(), second) =~= overwrite(
        buf,
        at,
        first + second,
    ));
}

/// A write cursor into a byte buffer that the caller owns.
pub struct ByteWriter {
    position: usize,
}

impl ByteWriter {
    /// The cursor: how many bytes have been written.
    pub closed spec fn pos(&self) -> int {
        self.position as int
    }

    /// The part of `buf` that lies before the cursor.
    pub open spec fn written(&self, buf: Seq<u8>) -> Seq<u8> {
        buf.subrange(0, self.pos())
    }

    /// A writer at the start of a buffer.
    pub fn new() -> (w: ByteWriter)
        ensures
            w.pos() == 0,
    {
        ByteWriter { position: 0 }
    }

    /// True iff `n` more bytes fit between the cursor and the end of `buf`.
    pub fn has(&self, buf: &[u8], n: usize) -> (r: bool)
        ensures
            r == (self.pos() + n <= buf@.len()),
    {
        self.position <= buf.len() && n <= buf.len() - self.position
    }

    /// The current cursor.
    pub fn position(&self) -> (p: usize)
        ensures
            p == self.pos(),
    {
        self.position
    }

    /// Writes one byte at the cursor and advances it by one.
    pub fn write_u8(&mut self, buf: &mut [u8], v: u8)
        requires
            old(self).pos() + 1 <= old(buf)@.len(),
        ensures
            final(self).pos() == old(self).pos() + 1,
            final(buf)@ == overwrite(old(buf)@, old(self).pos(), seq![v]),
            final(buf)@.len() == old(buf)@.len(),
            final(self).written(final(buf)@) == old(self).written(old(buf)@) + seq![v],
            forall|j: int|
                final(self).pos() <= j < old(buf)@.len() ==> final(buf)@[j] == old(buf)@[j],
    {
        buf[self.position] = v;
        self.position = self.position + 1;
        assert(buf@ =~= overwrite(old(buf)@, old(self).pos(), seq![v]));
        proof {
            lemma_overwrite(old(buf)@, old(self).pos(), seq![v]);
        }
    }

    /// Writes `v` at the cursor, most significant byte first, and advances the
    /// cursor by four.
    pub fn write_u32_be(&mut self, buf: &mut [u8], v: u32)
        requires
            old(self).pos() + 4 <= old(buf)@.len(),
        ensures
            final(self).pos() == old(self).pos() + 4,
            final(buf)@ == overwrite(old(buf)@, old(self).pos(), u32_be_bytes(v)),
            final(buf)@.len() == old(buf)@.len(),
            final(self).written(final(buf)@) == old(self).written(old(buf)@) + u32_be_bytes(v),
            forall|j: int|
                final(self).pos() <= j < old(buf)@.len() ==> final(buf)@[j] == old(buf)@[j],
    {
        let p: usize = self.position;
        buf[p] = ((v >> 24) & 0xff) as u8;
        buf[p + 1] = ((v >> 16) & 0xff) as u8;
        buf[p + 2] = ((v >> 8) & 0xff) as u8;
        buf[p + 3] = (v & 0xff) as u8;
        self.position = p + 4;
        assert(buf@ =~= overwrite(old(buf)@, old(self).pos(), u32_be_bytes(v)));
        proof {
            lemma_overwrite(old(buf)@, old(self).pos(), u32_be_bytes(v));
        }
    }

    /// Writes `v` at the cursor, most significant byte first, and advances the
    /// cursor by eight.
    pub fn write_u64_be(&mut self, buf: &mut [u8], v: u64)
        requires
            old(self).pos() + 8 <= old(buf)@.len(),
        ensures
            final(self).pos() == old(self).pos() + 8,
            final(buf)@ == overwrite(old(buf)@, old(self).pos(), u64_be_bytes(v)),
            final(buf)@.len() == old(buf)@.len(),
            final(self).written(final(buf)@) == old(self).written(old(buf)@) + u64_be_bytes(v),
            forall|j: int|
                final(self).pos() <= j < old(buf)@.len() ==> final(buf)@[j] == old(buf)@[j],
    {
        let hi: u32 = ((v >> 32) & 0xffff_ffff) as u32;
        let lo: u32 = (v & 0xffff_ffff) as u32;
        self.write_u32_be(buf, hi);
        self.write_u32_be(buf, lo);
        proof {
            lemma_overwrite_twice(old(buf)@, old(self).pos(), u32_be_bytes(hi), u32_be_bytes(lo));
            lemma_overwrite(old(buf)@, old(self).pos(), u64_be_bytes(v));
        }
    }

    /// Copies all of `data` to the cursor and advances it by `data.len()`.
    pub fn write_all(&mut self, buf: &mut [u8], data: &[u8])
        requires
            old(self).pos() + data@.len() <= old(buf)@.len(),
        ensures
            final(self).pos() == old(self).pos() + data@.len(),
            final(buf)@ == overwrite(old(buf)@, old(self).pos(), data@),
            final(buf)@.len() == old(buf)@.len(),
            final(self).written(final(buf)@) == old(self).written(old(buf)@) + data@,
            forall|j: int|
                final(self).pos() <= j < old(buf)@.len() ==> final(buf)@[j] == old(buf)@[j],
    {
        let start: usize = self.position;
        let cap: usize = buf.len();
        let mut i: usize = 0;
        while i < data.len()
            invariant
                i <= data@.len(),
                cap == buf@.len(),
                start + data@.len() <= buf@.len(),
                buf@.len() == old(buf)@.len(),
                start == old(self).pos(),
                buf@ == overwrite(old(buf)@, start as int, data@.subrange(0, i as int)),
            decreases data@.len() - i,
        {
            buf[start + i] = data[i];
            i = i + 1;
            assert(buf@ =~= overwrite(old(buf)@, start as int, data@.subrange(0, i as int)));
        }
        self.position = start + i;
        assert(data@.subrange(0, i as int) =~= data@);
        proof {
            lemma_overwrite(old(buf)@, old(self).pos(), data@);
        }
    }
}

} // verus!
