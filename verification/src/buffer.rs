//! The wire buffer: a fixed-capacity byte array with a read/write cursor.
//!
//! All other components read from and write into a `BytePacketBuffer`.  The
//! cursor is advanced by one byte per read or write; any access at or beyond
//! the capacity fails.  `seek` and `step` reposition the cursor without
//! validation: bounds are checked lazily on the next access.

use vstd::prelude::*;

verus! {

/// Size in bytes of one DNS datagram: the historical UDP-safe message size.
pub const CAPACITY: usize = 512;

/// The errors of the codec.  All are terminal for the current decode or
/// encode call.
#[derive(Clone, Copy, Debug, PartialEq, Eq, Structural)]
pub enum DnsError {
    /// A read touched a byte at or past the buffer capacity.
    BufferExhausted,
    /// A write touched a byte at or past the buffer capacity.
    BufferFull,
    /// Name decompression followed more pointer hops than the fixed bound.
    PointerLoop,
    /// A name label to encode exceeds 63 bytes or contains a non-ASCII
    /// character.
    InvalidLabel,
}

/// The value of two bytes combined big-endian.
pub open spec fn combine16(hi: u8, lo: u8) -> u16 {
    (hi * 256 + lo) as u16
}

/// The value of four bytes combined big-endian.
pub open spec fn combine32(b0: u8, b1: u8, b2: u8, b3: u8) -> u32 {
    (b0 * 0x1000000 + b1 * 0x10000 + b2 * 256 + b3) as u32
}

/// The big-endian wire form of a 16-bit value.
pub open spec fn be16(v: u16) -> Seq<u8> {
    seq![(v / 256) as u8, (v % 256) as u8]
}

/// The big-endian wire form of a 32-bit value.
pub open spec fn be32(v: u32) -> Seq<u8> {
    seq![
        (v / 0x1000000) as u8,
        ((v / 0x10000) % 256) as u8,
        ((v / 256) % 256) as u8,
        (v % 256) as u8,
    ]
}

/// Reading a big-endian 16-bit value at `pos`.
pub open spec fn dec_u16(data: Seq<u8>, pos: int) -> Result<(u16, int), DnsError> {
    if 0 <= pos && pos + 2 <= CAPACITY {
        Ok((combine16(data[pos], data[pos + 1]), pos + 2))
    } else {
        Err(DnsError::BufferExhausted)
    }
}

/// Reading a big-endian 32-bit value at `pos`.
pub open spec fn dec_u32(data: Seq<u8>, pos: int) -> Result<(u32, int), DnsError> {
    if 0 <= pos && pos + 4 <= CAPACITY {
        Ok((combine32(data[pos], data[pos + 1], data[pos + 2], data[pos + 3]), pos + 4))
    } else {
        Err(DnsError::BufferExhausted)
    }
}

/// The buffer contents and cursor after writing the bytes of `s` one at a
/// time starting at `pos`: each byte lands at the cursor if the cursor is
/// within capacity; the first byte at or past the capacity stops the write
/// (nothing further is written and the cursor stays put).
pub open spec fn wire_write(data: Seq<u8>, pos: int, s: Seq<u8>) -> (Seq<u8>, int)
    decreases s.len(),
{
    if s.len() == 0 {
        (data, pos)
    } else if !(0 <= pos < CAPACITY) {
        (data, pos)
    } else {
        wire_write(data.update(pos, s[0]), pos + 1, s.subrange(1, s.len() as int))
    }
}

/// Writing `s1 + s2` is writing `s1`, then writing `s2` from where `s1`
/// stopped.
pub proof fn lemma_wire_write_app(data: Seq<u8>, pos: int, s1: Seq<u8>, s2: Seq<u8>)
    ensures
        wire_write(data, pos, s1 + s2) == wire_write(
            wire_write(data, pos, s1).0,
            wire_write(data, pos, s1).1,
            s2,
        ),
    decreases s1.len(),
{
    if s1.len() == 0 {
        assert(s1 + s2 =~= s2);
    } else if !(0 <= pos < CAPACITY) {
        assert(wire_write(data, pos, s1 + s2) == (data, pos));
        assert(wire_write(data, pos, s1) == (data, pos));
    } else {
        let d1 = data.update(pos, s1[0]);
        assert((s1 + s2)[0] == s1[0]);
        assert((s1 + s2).subrange(1, (s1 + s2).len() as int) =~= s1.subrange(
            1,
            s1.len() as int,
        ) + s2);
        lemma_wire_write_app(d1, pos + 1, s1.subrange(1, s1.len() as int), s2);
    }
}

/// Where the cursor lands after a write: advanced past every byte written,
/// stopping at the capacity.
pub proof fn lemma_wire_write_pos(data: Seq<u8>, pos: int, s: Seq<u8>)
    requires
        0 <= pos,
    ensures
        wire_write(data, pos, s).1 == if s.len() == 0 {
            pos
        } else if pos >= CAPACITY {
            pos
        } else if pos + s.len() <= CAPACITY {
            pos + s.len()
        } else {
            CAPACITY as int
        },
    decreases s.len(),
{
    if s.len() > 0 && pos < CAPACITY {
        lemma_wire_write_pos(data.update(pos, s[0]), pos + 1, s.subrange(1, s.len() as int));
    }
}

/// A write that fits replaces exactly the bytes at `pos .. pos + s.len()`
/// and leaves the rest of the buffer as it was.
pub proof fn lemma_wire_write_fits(data: Seq<u8>, pos: int, s: Seq<u8>)
    requires
        data.len() == CAPACITY,
        0 <= pos,
        pos + s.len() <= CAPACITY,
    ensures
        wire_write(data, pos, s).0 =~= data.subrange(0, pos) + s + data.subrange(
            pos + s.len(),
            CAPACITY as int,
        ),
        wire_write(data, pos, s).1 == pos + s.len(),
    decreases s.len(),
{
    if s.len() == 0 {
        assert(wire_write(data, pos, s).0 =~= data);
    } else {
        let d1 = data.update(pos, s[0]);
        lemma_wire_write_fits(d1, pos + 1, s.subrange(1, s.len() as int));
    }
}

/// Writing a single byte: one update and one cursor step if the position is
/// within capacity, and no change otherwise.
pub proof fn lemma_wire_write1(data: Seq<u8>, pos: int, v: u8)
    ensures
        wire_write(data, pos, seq![v]) == if 0 <= pos < CAPACITY {
            (data.update(pos, v), pos + 1)
        } else {
            (data, pos)
        },
{
    if 0 <= pos < CAPACITY {
        assert(wire_write(data, pos, seq![v]) == wire_write(
            data.update(pos, v),
            pos + 1,
            seq![v].subrange(1, 1),
        ));
    }
}

/// If `data` holds `w1 + w2` at `pos`, it holds `w1` at `pos` and `w2`
/// right after it.
pub proof fn lemma_contains_split(data: Seq<u8>, pos: int, w1: Seq<u8>, w2: Seq<u8>)
    requires
        0 <= pos,
        pos + w1.len() + w2.len() <= data.len(),
        data.subrange(pos, pos + w1.len() + w2.len()) == w1 + w2,
    ensures
        data.subrange(pos, pos + w1.len()) == w1,
        data.subrange(pos + w1.len(), pos + w1.len() + w2.len()) == w2,
{
    assert forall|k: int| 0 <= k < w1.len() + w2.len() implies data[pos + k] == (w1 + w2)[k] by {
        assert(data.subrange(pos, pos + w1.len() + w2.len())[k] == data[pos + k]);
    }
    assert forall|k: int| 0 <= k < w1.len() implies data.subrange(pos, pos + w1.len())[k]
        == w1[k] by {
        assert(data[pos + k] == (w1 + w2)[k]);
    }
    assert(data.subrange(pos, pos + w1.len()) =~= w1);
    assert forall|k: int|
        0 <= k < w2.len() implies data.subrange(
        pos + w1.len(),
        pos + w1.len() + w2.len(),
    )[k] == w2[k] by {
        assert(data[pos + (w1.len() + k)] == (w1 + w2)[w1.len() + k]);
    }
    assert(data.subrange(pos + w1.len(), pos + w1.len() + w2.len()) =~= w2);
}

/// Reading back the two bytes of a big-endian 16-bit value yields it.
pub proof fn lemma_dec_u16_be(data: Seq<u8>, pos: int, v: u16)
    requires
        data.len() == CAPACITY,
        0 <= pos,
        pos + 2 <= CAPACITY,
        data.subrange(pos, pos + 2) == be16(v),
    ensures
        dec_u16(data, pos) == Ok::<(u16, int), DnsError>((v, pos + 2)),
{
    assert(data[pos + 0] == be16(v)[0]) by {
        assert(data.subrange(pos, pos + 2)[0] == data[pos + 0]);
    }
    assert(data[pos + 1] == be16(v)[1]) by {
        assert(data.subrange(pos, pos + 2)[1] == data[pos + 1]);
    }
    assert(combine16((v / 256) as u8, (v % 256) as u8) == v);
}

/// Reading back the four bytes of a big-endian 32-bit value yields it.
pub proof fn lemma_dec_u32_be(data: Seq<u8>, pos: int, v: u32)
    requires
        data.len() == CAPACITY,
        0 <= pos,
        pos + 4 <= CAPACITY,
        data.subrange(pos, pos + 4) == be32(v),
    ensures
        dec_u32(data, pos) == Ok::<(u32, int), DnsError>((v, pos + 4)),
{
    assert forall|k: int| 0 <= k < 4 implies data[pos + k] == be32(v)[k] by {
        assert(data.subrange(pos, pos + 4)[k] == data[pos + k]);
    }
    assert(data[pos + 0] == (v / 0x1000000) as u8);
    assert(data[pos + 1] == ((v / 0x10000) % 256) as u8);
    assert(data[pos + 2] == ((v / 256) % 256) as u8);
    assert(data[pos + 3] == (v % 256) as u8);
    assert(combine32(
        (v / 0x1000000) as u8,
        ((v / 0x10000) % 256) as u8,
        ((v / 256) % 256) as u8,
        (v % 256) as u8,
    ) == v);
}

/// A fixed-capacity byte buffer with a cursor.
pub struct BytePacketBuffer {
    /// The datagram bytes.
    pub buf: [u8; CAPACITY],
    /// The cursor: the next byte offset to read or write.
    pub pos: usize,
}

impl BytePacketBuffer {
    /// A buffer over the given datagram bytes, with the cursor at the start.
    pub fn new(buf: [u8; CAPACITY]) -> (r: Self)
        ensures
            r.buf@ == buf@,
            r.pos == 0,
    {
        Self { buf: buf, pos: 0 }
    }

    /// The current cursor position.
    pub fn pos(&self) -> (r: usize)
        ensures
            r == self.pos,
    {
        self.pos
    }

    /// Moves the cursor forward by `steps` bytes, without bounds validation.
    pub fn step(&mut self, steps: usize) -> (r: Result<(), DnsError>)
        requires
            old(self).pos + steps <= usize::MAX,
        ensures
            final(self).buf == old(self).buf,
            final(self).pos == old(self).pos + steps,
            r is Ok,
    {
        self.pos += steps;
        Ok(())
    }

    /// Moves the cursor to an absolute offset, without bounds validation.
    pub fn seek(&mut self, to: usize) -> (r: Result<(), DnsError>)
        ensures
            final(self).buf == old(self).buf,
            final(self).pos == to,
            r is Ok,
    {
        self.pos = to;
        Ok(())
    }

    /// Reads the byte at the cursor and advances the cursor by one.
    pub fn read(&mut self) -> (r: Result<u8, DnsError>)
        ensures
            final(self).buf == old(self).buf,
            match r {
                Ok(b) => old(self).pos < CAPACITY && b == old(self).buf@[old(self).pos as int]
                    && final(self).pos == old(self).pos + 1,
                Err(e) => e == DnsError::BufferExhausted && old(self).pos >= CAPACITY && final(self).pos
                    == old(self).pos,
            },
    {
        if self.pos >= CAPACITY {
            return Err(DnsError::BufferExhausted);
        }
        let res = self.buf[self.pos];
        self.pos += 1;
        Ok(res)
    }

    /// Reads the byte at an absolute offset without moving the cursor.
    pub fn get(&self, at: usize) -> (r: Result<u8, DnsError>)
        ensures
            match r {
                Ok(b) => at < CAPACITY && b == self.buf@[at as int],
                Err(e) => e == DnsError::BufferExhausted && at >= CAPACITY,
            },
    {
        if at >= CAPACITY {
            return Err(DnsError::BufferExhausted);
        }
        Ok(self.buf[at])
    }

    /// Reads `len` contiguous bytes starting at an absolute offset, without
    /// moving the cursor.  The bounds check is strict: a range whose end
    /// equals the capacity is rejected, so the last byte of the buffer can
    /// never be part of a returned range.
    pub fn get_range(&self, start: usize, len: usize) -> (r: Result<&[u8], DnsError>)
        ensures
            match r {
                Ok(s) => start + len < CAPACITY && s@ == self.buf@.subrange(
                    start as int,
                    start + len,
                ),
                Err(e) => e == DnsError::BufferExhausted && start + len >= CAPACITY,
            },
    {
        if start >= CAPACITY || len >= CAPACITY - start {
            return Err(DnsError::BufferExhausted);
        }
        Ok(&self.buf.as_slice()[start..start + len])
    }

    /// Overwrites `len` bytes starting at an absolute offset with the bytes
    /// of `data`, without moving the cursor.  The same strict bounds check
    /// as `get_range` applies, and `data` must hold exactly `len` bytes.
    pub fn set_range(&mut self, start: usize, len: usize, data: &[u8]) -> (r: Result<
        (),
        DnsError,
    >)
        ensures
            final(self).pos == old(self).pos,
            match r {
                Ok(()) => start + len < CAPACITY && data@.len() == len && final(self).buf@
                    =~= old(self).buf@.subrange(0, start as int) + data@ + old(self).buf@.subrange(start + len, CAPACITY as int),
                Err(e) => e == DnsError::BufferFull && (start + len >= CAPACITY || data@.len()
                    != len) && final(self).buf == old(self).buf,
            },
    {
        if start >= CAPACITY || len >= CAPACITY - start || data.len() != len {
            return Err(DnsError::BufferFull);
        }
        let mut i: usize = 0;
        while i < len
            invariant
                i <= len,
                start + len < CAPACITY,
                data@.len() == len,
                self.pos == old(self).pos,
                forall|j: int|
                    0 <= j < CAPACITY && !(start <= j < start + i) ==> self.buf@[j] == old(self).buf@[j],
                forall|j: int| start <= j < start + i ==> self.buf@[j] == data@[j - start],
            decreases len - i,
        {
            self.buf[start + i] = data[i];
            i += 1;
        }
        assert(self.buf@ =~= old(self).buf@.subrange(0, start as int) + data@ + old(self).buf@.subrange(start + len, CAPACITY as int));
        Ok(())
    }

    /// Reads two bytes at the cursor combined big-endian.
    pub fn read_u16(&mut self) -> (r: Result<u16, DnsError>)
        ensures
            final(self).buf == old(self).buf,
            match dec_u16(old(self).buf@, old(self).pos as int) {
                Ok((v, p)) => r == Ok::<u16, DnsError>(v) && final(self).pos == p,
                Err(e) => r == Err::<u16, DnsError>(e) && final(self).pos == if old(self).pos
                    >= CAPACITY {
                    old(self).pos as int
                } else {
                    CAPACITY as int
                },
            },
    {
        let hi = match self.read() {
            Ok(b) => b,
            Err(e) => {
                return Err(e);
            },
        };
        let lo = match self.read() {
            Ok(b) => b,
            Err(e) => {
                return Err(e);
            },
        };
        Ok((hi as u16) * 256 + (lo as u16))
    }

    /// Reads four bytes at the cursor combined big-endian.
    pub fn read_u32(&mut self) -> (r: Result<u32, DnsError>)
        ensures
            final(self).buf == old(self).buf,
            match dec_u32(old(self).buf@, old(self).pos as int) {
                Ok((v, p)) => r == Ok::<u32, DnsError>(v) && final(self).pos == p,
                Err(e) => r == Err::<u32, DnsError>(e) && final(self).pos == if old(self).pos
                    >= CAPACITY {
                    old(self).pos as int
                } else {
                    CAPACITY as int
                },
            },
    {
        let b0 = match self.read() {
            Ok(b) => b,
            Err(e) => {
                return Err(e);
            },
        };
        let b1 = match self.read() {
            Ok(b) => b,
            Err(e) => {
                return Err(e);
            },
        };
        let b2 = match self.read() {
            Ok(b) => b,
            Err(e) => {
                return Err(e);
            },
        };
        let b3 = match self.read() {
            Ok(b) => b,
            Err(e) => {
                return Err(e);
            },
        };
        Ok((b0 as u32) * 0x1000000 + (b1 as u32) * 0x10000 + (b2 as u32) * 256 + (b3 as u32))
    }

    /// Writes one byte at the cursor and advances the cursor by one.
    pub fn write(&mut self, val: u8) -> (r: Result<(), DnsError>)
        ensures
            match r {
                Ok(()) => old(self).pos < CAPACITY && final(self).buf@ == old(self).buf@.update(
                    old(self).pos as int,
                    val,
                ) && final(self).pos == old(self).pos + 1,
                Err(e) => e == DnsError::BufferFull && old(self).pos >= CAPACITY && final(self).buf
                    == old(self).buf && final(self).pos == old(self).pos,
            },
    {
        if self.pos >= CAPACITY {
            return Err(DnsError::BufferFull);
        }
        self.buf[self.pos] = val;
        self.pos += 1;
        Ok(())
    }

    /// Writes one byte at the cursor; the same operation as `write`.
    pub fn write_u8(&mut self, val: u8) -> (r: Result<(), DnsError>)
        ensures
            (final(self).buf@, final(self).pos as int) == wire_write(
                old(self).buf@,
                old(self).pos as int,
                seq![val],
            ),
            r is Ok <==> old(self).pos + 1 <= CAPACITY,
            r is Err ==> r == Err::<(), DnsError>(DnsError::BufferFull),
    {
        let r = self.write(val);
        proof {
            if old(self).pos < CAPACITY {
                assert(wire_write(old(self).buf@, old(self).pos as int, seq![val])
                    == wire_write(
                    old(self).buf@.update(old(self).pos as int, val),
                    old(self).pos + 1,
                    seq![val].subrange(1, 1),
                ));
            }
        }
        r
    }

    /// Writes a 16-bit value big-endian: two bytes at the cursor.
    pub fn write_u16(&mut self, val: u16) -> (r: Result<(), DnsError>)
        ensures
            (final(self).buf@, final(self).pos as int) == wire_write(
                old(self).buf@,
                old(self).pos as int,
                be16(val),
            ),
            r is Ok <==> old(self).pos + 2 <= CAPACITY,
            r is Err ==> r == Err::<(), DnsError>(DnsError::BufferFull),
    {
        let ghost d0 = self.buf@;
        let ghost p0 = self.pos as int;
        let hi: u8 = (val / 256) as u8;
        let lo: u8 = (val % 256) as u8;
        proof {
            lemma_wire_write_app(d0, p0, seq![hi], seq![lo]);
            assert(seq![hi] + seq![lo] =~= be16(val));
            lemma_wire_write1(d0, p0, hi);
            let s1 = wire_write(d0, p0, seq![hi]);
            lemma_wire_write1(s1.0, s1.1, lo);
        }
        match self.write_u8(hi) {
            Ok(()) => (),
            Err(e) => {
                return Err(e);
            },
        };
        match self.write_u8(lo) {
            Ok(()) => (),
            Err(e) => {
                return Err(e);
            },
        };
        Ok(())
    }

    /// Writes a 32-bit value big-endian: four bytes at the cursor.
    pub fn write_u32(&mut self, val: u32) -> (r: Result<(), DnsError>)
        ensures
            (final(self).buf@, final(self).pos as int) == wire_write(
                old(self).buf@,
                old(self).pos as int,
                be32(val),
            ),
            r is Ok <==> old(self).pos + 4 <= CAPACITY,
            r is Err ==> r == Err::<(), DnsError>(DnsError::BufferFull),
    {
        let ghost d0 = self.buf@;
        let ghost p0 = self.pos as int;
        let b0: u8 = (val / 0x1000000) as u8;
        let b1: u8 = ((val / 0x10000) % 256) as u8;
        let b2: u8 = ((val / 256) % 256) as u8;
        let b3: u8 = (val % 256) as u8;
        proof {
            lemma_wire_write_app(d0, p0, seq![b0], seq![b1, b2, b3]);
            let s1 = wire_write(d0, p0, seq![b0]);
            lemma_wire_write_app(s1.0, s1.1, seq![b1], seq![b2, b3]);
            let s2 = wire_write(s1.0, s1.1, seq![b1]);
            lemma_wire_write_app(s2.0, s2.1, seq![b2], seq![b3]);
            let s3 = wire_write(s2.0, s2.1, seq![b2]);
            assert(seq![b0] + seq![b1, b2, b3] =~= be32(val));
            assert(seq![b1] + seq![b2, b3] =~= seq![b1, b2, b3]);
            assert(seq![b2] + seq![b3] =~= seq![b2, b3]);
            lemma_wire_write1(d0, p0, b0);
            lemma_wire_write1(s1.0, s1.1, b1);
            lemma_wire_write1(s2.0, s2.1, b2);
            lemma_wire_write1(s3.0, s3.1, b3);
        }
        match self.write_u8(b0) {
            Ok(()) => (),
            Err(e) => {
                return Err(e);
            },
        };
        match self.write_u8(b1) {
            Ok(()) => (),
            Err(e) => {
                return Err(e);
            },
        };
        match self.write_u8(b2) {
            Ok(()) => (),
            Err(e) => {
                return Err(e);
            },
        };
        match self.write_u8(b3) {
            Ok(()) => (),
            Err(e) => {
                return Err(e);
            },
        };
        Ok(())
    }
}

} // verus!
