//! The name codec: domain names in DNS label format.
//!
//! On the wire a name is a sequence of (length byte, label bytes) pairs
//! terminated by a zero length byte.  A length byte whose top two bits are
//! set is instead a two-byte compression pointer: its low six bits and the
//! following byte form a 14-bit offset at which reading continues.  Reading
//! follows at most a fixed number of pointer hops, as a defense against
//! datagrams crafted to cycle indefinitely.
//!
//! Reading lower-cases names: each label byte is taken as one character,
//! with ASCII uppercase mapped to lowercase.  Writing emits names in full
//! (never a compression pointer) and accepts only ASCII labels of at most
//! 63 characters.

use vstd::prelude::*;
use vstd::string::StrSliceExecFns;
use crate::buffer::{BytePacketBuffer, DnsError, CAPACITY, wire_write, lemma_wire_write_app,
    lemma_wire_write1};
use core::ops::Range;

verus! {

/// The most compression-pointer hops a single name may follow.
pub const MAX_JUMPS: usize = 5;

/// The byte `b` with ASCII uppercase mapped to lowercase.
pub open spec fn lower_byte(b: u8) -> u8 {
    if 65 <= b <= 90 {
        (b + 32) as u8
    } else {
        b
    }
}

/// The byte `b` with ASCII uppercase mapped to lowercase.
pub fn lower_ascii(b: u8) -> (r: u8)
    ensures
        r == lower_byte(b),
{
    if 65 <= b && b <= 90 {
        b + 32
    } else {
        b
    }
}

/// Relies on `String::push`, which appends the given character to the end
/// of the string.
#[verifier::external_body]
fn push_char(s: &mut String, c: char)
    ensures
        final(s)@ == old(s)@.push(c),
{
    s.push(c);
}

/// What reading one name yields: the characters appended to the output, the
/// offset one past the terminating zero byte of the segment where reading
/// ended, and the offset of the first compression pointer followed, if any.
#[verifier::ext_equal]
pub struct QnameParts {
    /// The characters of the name: lower-cased labels joined by `.`.
    pub name: Seq<char>,
    /// One past the terminating zero byte (of the pointer target when a
    /// pointer was followed).
    pub end: int,
    /// Offset of the first compression pointer followed, if any.
    pub first_ptr: Option<int>,
}

/// One step of name reading at `pos`, with `jumps_left` pointer hops still
/// allowed, `acc` the characters read so far, `started` whether a label has
/// been emitted (labels after the first are preceded by `.`), and
/// `first_ptr` the first pointer followed so far.
pub open spec fn parse_qname_at(
    data: Seq<u8>,
    pos: int,
    jumps_left: nat,
    acc: Seq<char>,
    started: bool,
    first_ptr: Option<int>,
) -> Result<QnameParts, DnsError>
    decreases jumps_left, (if 0 <= pos < CAPACITY {
        CAPACITY - pos
    } else {
        0int
    }),
{
    if jumps_left == 0 {
        Err(DnsError::PointerLoop)
    } else if !(0 <= pos < CAPACITY) {
        Err(DnsError::BufferExhausted)
    } else {
        let b = data[pos];
        if b >= 192 {
            if !(pos + 1 < CAPACITY) {
                Err(DnsError::BufferExhausted)
            } else {
                let target = (b - 192) * 256 + data[pos + 1];
                parse_qname_at(
                    data,
                    target as int,
                    (jumps_left - 1) as nat,
                    acc,
                    started,
                    if first_ptr is Some {
                        first_ptr
                    } else {
                        Some(pos)
                    },
                )
            }
        } else if b == 0 {
            Ok(QnameParts { name: acc, end: pos + 1, first_ptr })
        } else {
            if pos + 1 + b >= CAPACITY {
                Err(DnsError::BufferExhausted)
            } else {
                let label = Seq::new(b as nat, |i: int| lower_byte(data[pos + 1 + i]) as char);
                parse_qname_at(
                    data,
                    pos + 1 + b,
                    jumps_left,
                    acc + (if started {
                        seq!['.']
                    } else {
                        Seq::<char>::empty()
                    }) + label,
                    true,
                    first_ptr,
                )
            }
        }
    }
}

/// Reading one name at `pos`: what `read_qname` appends and where it leaves
/// the cursor.
pub open spec fn dec_qname(data: Seq<u8>, pos: int) -> Result<QnameParts, DnsError> {
    parse_qname_at(data, pos, (MAX_JUMPS + 1) as nat, Seq::<char>::empty(), false, None)
}

/// Where the cursor stands after reading a name: two bytes past the first
/// compression pointer followed, or one past the terminating zero byte when
/// no pointer was followed.
pub open spec fn qname_cursor(parts: QnameParts) -> int {
    match parts.first_ptr {
        Some(fp) => fp + 2,
        None => parts.end,
    }
}

impl BytePacketBuffer {
    /// Reads one domain name at the cursor, appending its lower-cased,
    /// dot-joined labels to `outstr`.  Follows compression pointers, at most
    /// `MAX_JUMPS` hops; on the first pointer the cursor is parked two bytes
    /// past it, so that the caller continues after the pointer.  With no
    /// pointer, the cursor ends one past the terminating zero byte.  The
    /// returned range spans from the first pointer followed (zero when none
    /// was) to one past the terminator of the segment where reading ended.
    pub fn read_qname(&mut self, outstr: &mut String) -> (r: Result<Range<usize>, DnsError>)
        ensures
            final(self).buf == old(self).buf,
            old(self).pos <= final(self).pos,
            old(outstr)@.is_prefix_of(final(outstr)@),
            match dec_qname(old(self).buf@, old(self).pos as int) {
                Ok(parts) => {
                    &&& final(outstr)@ == old(outstr)@ + parts.name
                    &&& (r matches Ok(rg) && rg.start == (match parts.first_ptr {
                        Some(fp) => fp,
                        None => 0int,
                    }) && rg.end == parts.end)
                    &&& final(self).pos == (match parts.first_ptr {
                        Some(fp) => fp + 2,
                        None => parts.end,
                    })
                },
                Err(e) => r == Err::<Range<usize>, DnsError>(e),
            },
    {
        let ghost data = self.buf@;
        let ghost pos0 = self.pos as int;
        let mut pos = self.pos;
        let mut first_ptr: usize = 0;
        let mut jumped = false;
        let mut jumps_performed: usize = 0;
        let mut started = false;
        let ghost mut acc = Seq::<char>::empty();
        loop
            invariant
                self.buf == old(self).buf,
                self.buf@ == data,
                data.len() == CAPACITY,
                old(self).pos == pos0,
                jumps_performed <= MAX_JUMPS + 1,
                outstr@ == old(outstr)@ + acc,
                jumped ==> self.pos == first_ptr + 2 && pos0 <= first_ptr,
                !jumped ==> self.pos == pos0 && first_ptr == 0 && pos0 <= pos,
                dec_qname(data, pos0) == parse_qname_at(
                    data,
                    pos as int,
                    (MAX_JUMPS + 1 - jumps_performed) as nat,
                    acc,
                    started,
                    if jumped {
                        Some(first_ptr as int)
                    } else {
                        None
                    },
                ),
            decreases (MAX_JUMPS + 1 - jumps_performed) as int, (if pos < CAPACITY {
                CAPACITY - pos
            } else {
                0int
            }),
        {
            let ghost jl = (MAX_JUMPS + 1 - jumps_performed) as nat;
            let ghost fpg: Option<int> = if jumped {
                Some(first_ptr as int)
            } else {
                None
            };
            if jumps_performed > MAX_JUMPS {
                return Err(DnsError::PointerLoop);
            }
            let b = match self.get(pos) {
                Ok(b) => b,
                Err(e) => {
                    return Err(e);
                },
            };
            if b >= 0xC0 {
                if !jumped {
                    first_ptr = pos;
                    let _ = self.seek(pos + 2);
                    jumped = true;
                }
                let b2 = match self.get(pos + 1) {
                    Ok(v) => v,
                    Err(e) => {
                        return Err(e);
                    },
                };
                proof {
                    assert(parse_qname_at(data, pos as int, jl, acc, started, fpg)
                        == parse_qname_at(
                        data,
                        ((b - 192) * 256 + data[pos + 1]) as int,
                        (jl - 1) as nat,
                        acc,
                        started,
                        if fpg is Some {
                            fpg
                        } else {
                            Some(pos as int)
                        },
                    ));
                }
                pos = ((b - 0xC0) as usize) * 256 + (b2 as usize);
                jumps_performed += 1;
            } else {
                pos += 1;
                if b == 0 {
                    if !jumped {
                        let _ = self.seek(pos);
                    }
                    proof {
                        assert(parse_qname_at(data, pos - 1, jl, acc, started, fpg)
                            == Ok::<QnameParts, DnsError>(
                            QnameParts { name: acc, end: pos as int, first_ptr: fpg },
                        ));
                    }
                    return Ok(Range { start: first_ptr, end: pos });
                }
                let ghost acc0 = acc;
                if started {
                    push_char(outstr, '.');
                    proof {
                        acc = acc + seq!['.'];
                        assert(outstr@ =~= old(outstr)@ + acc);
                    }
                }
                let sl = match self.get_range(pos, b as usize) {
                    Ok(s) => s,
                    Err(e) => {
                        return Err(e);
                    },
                };
                let ghost accl = acc;
                let mut k: usize = 0;
                while k < b as usize
                    invariant
                        k <= b as usize,
                        data.len() == CAPACITY,
                        0 <= pos as int && pos + b < CAPACITY,
                        sl@ == data.subrange(pos as int, pos + b),
                        sl@.len() == b as nat,
                        outstr@ == old(outstr)@ + acc,
                        acc == accl + Seq::new(
                            k as nat,
                            |j: int| lower_byte(sl@[j]) as char,
                        ),
                    decreases b as usize - k,
                {
                    let ch = lower_ascii(sl[k]);
                    push_char(outstr, ch as char);
                    proof {
                        acc = acc + seq![lower_byte(sl@[k as int]) as char];
                        assert(acc =~= accl + Seq::new(
                            (k + 1) as nat,
                            |j: int| lower_byte(sl@[j]) as char,
                        ));
                        assert(outstr@ =~= old(outstr)@ + acc);
                    }
                    k += 1;
                }
                proof {
                    let sep: Seq<char> = if started {
                        seq!['.']
                    } else {
                        Seq::<char>::empty()
                    };
                    assert(acc =~= acc0 + sep + Seq::new(
                        b as nat,
                        |i: int| lower_byte(data[(pos - 1) + 1 + i]) as char,
                    ));
                    assert(parse_qname_at(data, pos - 1, jl, acc0, started, fpg)
                        == parse_qname_at(data, pos - 1 + 1 + b, jl, acc, true, fpg));
                }
                started = true;
                pos += b as usize;
            }
        }
    }
}


/// The number of characters of the label of `s` that starts at `i`: the
/// characters up to the next `.` or the end of `s`.
pub open spec fn label_len(s: Seq<char>, i: int) -> nat
    decreases s.len() - i,
{
    if !(0 <= i < s.len()) {
        0
    } else if s[i] == '.' {
        0
    } else {
        1 + label_len(s, i + 1)
    }
}

/// Where the label of `s` that starts at `i` ends: the index of the next
/// `.`, or the length of `s`.
pub open spec fn label_end(s: Seq<char>, i: int) -> int {
    i + label_len(s, i)
}

/// The label starting at `i` ends at the first `.` at or after `i`.
pub proof fn lemma_label_end(s: Seq<char>, i: int)
    requires
        0 <= i <= s.len(),
    ensures
        i <= label_end(s, i) <= s.len(),
        label_end(s, i) < s.len() ==> s[label_end(s, i)] == '.',
        forall|k: int| i <= k < label_end(s, i) ==> s[k] != '.',
    decreases s.len() - i,
{
    if i < s.len() && s[i] != '.' {
        lemma_label_end(s, i + 1);
    }
}

/// An index with no `.` before it (from `i`) that sits on a `.` or at the
/// end of `s` is where the label starting at `i` ends.
pub proof fn lemma_label_end_is(s: Seq<char>, i: int, e: int)
    requires
        0 <= i <= e <= s.len(),
        forall|k: int| i <= k < e ==> s[k] != '.',
        e < s.len() ==> s[e] == '.',
    ensures
        label_end(s, i) == e,
    decreases e - i,
{
    if i < e {
        lemma_label_end_is(s, i + 1, e);
    }
}

/// Every label of `s` from index `i` on can go to the wire: at most 63
/// characters, all of them ASCII.
pub open spec fn qname_ok_from(s: Seq<char>, i: int) -> bool
    decreases s.len() - i,
{
    let e = label_end(s, i);
    &&& e - i <= 63
    &&& (forall|k: int| i <= k < e ==> (s[k] as int) < 128)
    &&& (e < s.len() ==> qname_ok_from(s, e + 1))
}

/// Every label of `s` can go to the wire: at most 63 characters, all ASCII.
pub open spec fn qname_ok(s: Seq<char>) -> bool {
    qname_ok_from(s, 0)
}

/// The wire form of the labels of `s` from index `i` on: for each label its
/// length byte then its bytes, with a zero byte after the last label.
pub open spec fn qname_wire_from(s: Seq<char>, i: int) -> Seq<u8>
    decreases s.len() - i,
{
    let e = label_end(s, i);
    seq![(e - i) as u8] + Seq::new(label_len(s, i), |k: int| s[i + k] as u8) + (if e < s.len() {
        qname_wire_from(s, e + 1)
    } else {
        seq![0u8]
    })
}

/// The wire form of the name `s`: length-prefixed labels, then a zero byte.
pub open spec fn qname_wire(s: Seq<char>) -> Seq<u8> {
    qname_wire_from(s, 0)
}

/// What writing the name `s` at `pos` does: nothing on an invalid label,
/// else the wire form of `s` is written (truncated at the capacity, with
/// `BufferFull` when it does not fit whole).
pub open spec fn enc_qname(data: Seq<u8>, pos: int, s: Seq<char>) -> (
    Result<(), DnsError>,
    Seq<u8>,
    int,
) {
    if !qname_ok(s) {
        (Err(DnsError::InvalidLabel), data, pos)
    } else {
        let (d, p) = wire_write(data, pos, qname_wire(s));
        (
            if p == pos + qname_wire(s).len() {
                Ok(())
            } else {
                Err(DnsError::BufferFull)
            },
            d,
            p,
        )
    }
}

/// A write at or past the capacity writes nothing.
pub proof fn lemma_wire_write_stuck(data: Seq<u8>, pos: int, s: Seq<u8>)
    requires
        !(0 <= pos < CAPACITY),
    ensures
        wire_write(data, pos, s) == (data, pos),
{
}

/// Scans the label of `qname` that starts at `i`: returns the index of the
/// next `.` at or after `i`, or the length of `qname`.
fn label_scan(qname: &str, i: usize) -> (j: usize)
    requires
        i <= qname@.len(),
    ensures
        j as int == label_end(qname@, i as int),
        i <= j <= qname@.len(),
{
    let n = qname.unicode_len();
    let mut j: usize = i;
    while j < n && qname.get_char(j) != '.'
        invariant
            i <= j <= n,
            n == qname@.len(),
            forall|k: int| i <= k < j ==> qname@[k] != '.',
        decreases n - j,
    {
        j += 1;
    }
    proof {
        lemma_label_end_is(qname@, i as int, j as int);
    }
    j
}

impl BytePacketBuffer {
    /// Writes the name `qname` at the cursor in DNS label format, splitting
    /// on `.`.  Every label must be at most 63 characters of ASCII, else
    /// nothing is written and the write fails with `InvalidLabel`.  Names
    /// are always written in full: no compression pointer is ever emitted.
    pub fn write_qname(&mut self, qname: &str) -> (r: Result<(), DnsError>)
        ensures
            ({
                let (res, d, p) = enc_qname(old(self).buf@, old(self).pos as int, qname@);
                final(self).buf@ == d && final(self).pos == p && r == res
            }),
    {
        let ghost s = qname@;
        let n = qname.unicode_len();
        // Validation pass: nothing is written until the whole name is known
        // to be encodable.
        let mut i: usize = 0;
        loop
            invariant
                s == qname@,
                n == s.len(),
                i <= n,
                qname_ok_from(s, 0) <==> qname_ok_from(s, i as int),
                self.buf == old(self).buf,
                self.pos == old(self).pos,
            ensures
                qname_ok(s),
                self.buf == old(self).buf,
                self.pos == old(self).pos,
            decreases n - i,
        {
            let j = label_scan(qname, i);
            if j - i > 63 {
                proof {
                    assert(!qname_ok_from(s, i as int));
                }
                return Err(DnsError::InvalidLabel);
            }
            let mut k: usize = i;
            while k < j
                invariant
                    s == qname@,
                    i <= k <= j,
                    j as int == label_end(s, i as int),
                    j - i <= 63,
                    j <= n,
                    n == s.len(),
                    qname_ok_from(s, 0) <==> qname_ok_from(s, i as int),
                    forall|m: int| i <= m < k ==> (s[m] as int) < 128,
                    self.buf == old(self).buf,
                    self.pos == old(self).pos,
                decreases j - k,
            {
                let c = qname.get_char(k);
                if (c as u32) >= 128 {
                    proof {
                        assert(!qname_ok_from(s, i as int));
                    }
                    return Err(DnsError::InvalidLabel);
                }
                k += 1;
            }
            if j >= n {
                proof {
                    assert(qname_ok_from(s, i as int));
                }
                break;
            }
            proof {
                assert(qname_ok_from(s, i as int) <==> qname_ok_from(s, j + 1));
            }
            i = j + 1;
        }
        // Writing pass.
        let ghost d0 = self.buf@;
        let ghost p0 = self.pos as int;
        let ghost w = qname_wire(s);
        let mut i: usize = 0;
        loop
            invariant
                s == qname@,
                d0 == old(self).buf@,
                p0 == old(self).pos as int,
                n == s.len(),
                i <= n,
                qname_ok_from(s, i as int),
                qname_ok(s),
                w == qname_wire(s),
                wire_write(d0, p0, w) == wire_write(
                    self.buf@,
                    self.pos as int,
                    qname_wire_from(s, i as int),
                ),
                self.pos as int == p0 + w.len() - qname_wire_from(s, i as int).len(),
                enc_qname(d0, p0, s) == ({
                    let (d, p) = wire_write(d0, p0, w);
                    (
                        if p == p0 + w.len() {
                            Ok::<(), DnsError>(())
                        } else {
                            Err::<(), DnsError>(DnsError::BufferFull)
                        },
                        d,
                        p,
                    )
                }),
            decreases n - i,
        {
            let j = label_scan(qname, i);
            let ghost wi = qname_wire_from(s, i as int);
            let ghost label_bytes = Seq::new(label_len(s, i as int), |k: int| s[i + k] as u8);
            let ghost rest: Seq<u8> = if j < n {
                qname_wire_from(s, j + 1)
            } else {
                seq![0u8]
            };
            proof {
                assert(wi == seq![(j - i) as u8] + label_bytes + rest);
                assert(seq![(j - i) as u8] + (label_bytes + rest) =~= wi);
                lemma_wire_write_app(
                    self.buf@,
                    self.pos as int,
                    seq![(j - i) as u8],
                    label_bytes + rest,
                );
            }
            let ghost bpre = self.buf@;
            let ghost ppre = self.pos as int;
            proof {
                lemma_wire_write1(bpre, ppre, (j - i) as u8);
            }
            match self.write_u8((j - i) as u8) {
                Ok(()) => (),
                Err(e) => {
                    proof {
                        lemma_wire_write_stuck(self.buf@, self.pos as int, label_bytes + rest);
                    }
                    return Err(e);
                },
            };
            let mut k: usize = i;
            while k < j
                invariant
                    s == qname@,
                    d0 == old(self).buf@,
                    p0 == old(self).pos as int,
                    i <= k <= j,
                    j as int == label_end(s, i as int),
                    j <= n,
                    n == s.len(),
                    qname_ok_from(s, i as int),
                    w == qname_wire(s),
                    rest == (if j < n {
                        qname_wire_from(s, j + 1)
                    } else {
                        seq![0u8]
                    }),
                    wire_write(d0, p0, w) == wire_write(
                        self.buf@,
                        self.pos as int,
                        Seq::new((j - k) as nat, |m: int| s[k + m] as u8) + rest,
                    ),
                    self.pos as int == p0 + w.len() - ((j - k) + rest.len()),
                    enc_qname(d0, p0, s) == ({
                        let (d, p) = wire_write(d0, p0, w);
                        (
                            if p == p0 + w.len() {
                                Ok::<(), DnsError>(())
                            } else {
                                Err::<(), DnsError>(DnsError::BufferFull)
                            },
                            d,
                            p,
                        )
                    }),
                decreases j - k,
            {
                let ghost rem = Seq::new((j - k) as nat, |m: int| s[k + m] as u8) + rest;
                let c = qname.get_char(k);
                proof {
                    assert(Seq::new((j - k) as nat, |m: int| s[k + m] as u8) =~= seq![
                        (s[k as int] as u8),
                    ] + Seq::new((j - k - 1) as nat, |m: int| s[k + 1 + m] as u8));
                    assert(rem =~= seq![(s[k as int] as u8)] + (Seq::new(
                        (j - k - 1) as nat,
                        |m: int| s[k + 1 + m] as u8,
                    ) + rest));
                    lemma_wire_write_app(
                        self.buf@,
                        self.pos as int,
                        seq![(s[k as int] as u8)],
                        Seq::new((j - k - 1) as nat, |m: int| s[k + 1 + m] as u8) + rest,
                    );
                }
                let ghost bpre = self.buf@;
                let ghost ppre = self.pos as int;
                proof {
                    lemma_wire_write1(bpre, ppre, s[k as int] as u8);
                }
                match self.write_u8(c as u8) {
                    Ok(()) => (),
                    Err(e) => {
                        proof {
                            lemma_wire_write_stuck(
                                self.buf@,
                                self.pos as int,
                                Seq::new((j - k - 1) as nat, |m: int| s[k + 1 + m] as u8) + rest,
                            );
                        }
                        return Err(e);
                    },
                };
                k += 1;
            }
            if j < n {
                i = j + 1;
                proof {
                    assert(Seq::new(0nat, |m: int| s[j + m] as u8) + rest =~= rest);
                }
            } else {
                proof {
                    assert(Seq::new(0nat, |m: int| s[j + m] as u8) + rest =~= rest);
                    assert(rest =~= seq![0u8]);
                    assert(seq![0u8] + Seq::<u8>::empty() =~= seq![0u8]);
                }
                let ghost bpre = self.buf@;
                let ghost ppre = self.pos as int;
                proof {
                    lemma_wire_write1(bpre, ppre, 0u8);
                }
                match self.write_u8(0) {
                    Ok(()) => (),
                    Err(e) => {
                        return Err(e);
                    },
                };
                return Ok(());
            }
        }
    }
}


/// A helper for the pointer-loop defense: from a self-targeting pointer,
/// reading ends in `PointerLoop` whatever hops are still allowed.
proof fn lemma_self_pointer_rec(
    data: Seq<u8>,
    pos: int,
    jumps_left: nat,
    acc: Seq<char>,
    started: bool,
    first_ptr: Option<int>,
)
    requires
        data.len() == CAPACITY,
        0 <= pos,
        pos + 1 < CAPACITY,
        data[pos] >= 192,
        (data[pos] - 192) * 256 + data[pos + 1] == pos,
    ensures
        parse_qname_at(data, pos, jumps_left, acc, started, first_ptr) == Err::<
            QnameParts,
            DnsError,
        >(DnsError::PointerLoop),
    decreases jumps_left,
{
    if jumps_left > 0 {
        lemma_self_pointer_rec(
            data,
            pos,
            (jumps_left - 1) as nat,
            acc,
            started,
            if first_ptr is Some {
                first_ptr
            } else {
                Some(pos)
            },
        );
    }
}

/// Pointer-loop defense: a name whose compression pointer targets itself
/// fails with `PointerLoop` after the bounded number of hops, rather than
/// looping.
pub proof fn lemma_self_pointer_loops(data: Seq<u8>, pos: int)
    requires
        data.len() == CAPACITY,
        0 <= pos,
        pos + 1 < CAPACITY,
        data[pos] >= 192,
        (data[pos] - 192) * 256 + data[pos + 1] == pos,
    ensures
        dec_qname(data, pos) == Err::<QnameParts, DnsError>(DnsError::PointerLoop),
{
    lemma_self_pointer_rec(
        data,
        pos,
        (MAX_JUMPS + 1) as nat,
        Seq::<char>::empty(),
        false,
        None,
    );
}

/// A character that survives the decode-side lower-casing unchanged: ASCII
/// and not an uppercase letter.
pub open spec fn char_rt(c: char) -> bool {
    (c as int) < 128 && !(65 <= c as int <= 90)
}

/// Every label of `s` from index `i` on reads back exactly as it was
/// written: between one and 63 characters, each ASCII and not uppercase.
pub open spec fn name_rt_from(s: Seq<char>, i: int) -> bool
    decreases s.len() - i,
{
    let e = label_end(s, i);
    &&& 1 <= e - i <= 63
    &&& (forall|k: int| i <= k < e ==> char_rt(s[k]))
    &&& (e < s.len() ==> name_rt_from(s, e + 1))
}

/// Every label of `s` reads back exactly as written.
pub open spec fn name_rt(s: Seq<char>) -> bool {
    name_rt_from(s, 0)
}

/// Reading the wire form of the labels of `s` from index `i` on, written at
/// `pos`, appends exactly those labels and ends one past the zero byte.
proof fn lemma_parse_of_wire(
    data: Seq<u8>,
    pos: int,
    s: Seq<char>,
    i: int,
    jumps_left: nat,
    acc: Seq<char>,
    started: bool,
    first_ptr: Option<int>,
)
    requires
        data.len() == CAPACITY,
        0 <= pos,
        0 <= i <= s.len(),
        name_rt_from(s, i),
        pos + qname_wire_from(s, i).len() <= CAPACITY,
        data.subrange(pos, pos + qname_wire_from(s, i).len()) == qname_wire_from(s, i),
        1 <= jumps_left,
    ensures
        parse_qname_at(data, pos, jumps_left, acc, started, first_ptr) == Ok::<
            QnameParts,
            DnsError,
        >(
            QnameParts {
                name: acc + (if started {
                    seq!['.']
                } else {
                    Seq::<char>::empty()
                }) + s.subrange(i, s.len() as int),
                end: pos + qname_wire_from(s, i).len(),
                first_ptr: first_ptr,
            },
        ),
    decreases s.len() - i,
{
    lemma_label_end(s, i);
    let e = label_end(s, i);
    let ll = label_len(s, i);
    let w = qname_wire_from(s, i);
    let label_bytes = Seq::new(ll, |k: int| s[i + k] as u8);
    let rest: Seq<u8> = if e < s.len() {
        qname_wire_from(s, e + 1)
    } else {
        seq![0u8]
    };
    assert(w == seq![(e - i) as u8] + label_bytes + rest);
    assert(rest.len() >= 1);
    assert forall|k: int| 0 <= k < w.len() implies data[pos + k] == w[k] by {
        assert(data.subrange(pos, pos + w.len())[k] == data[pos + k]);
    }
    let sep: Seq<char> = if started {
        seq!['.']
    } else {
        Seq::<char>::empty()
    };
    assert(data[pos + 0] == w[0]);
    assert(w[0] == (e - i) as u8);
    assert(data[pos] == ll as u8);
    assert(1 <= ll <= 63);
    let label = Seq::new(ll, |m: int| lower_byte(data[pos + 1 + m]) as char);
    assert forall|m: int| 0 <= m < ll implies label[m] == s[i + m] by {
        assert(data[pos + 1 + m] == w[1 + m]);
        assert(w[1 + m] == label_bytes[m]);
        assert(char_rt(s[i + m]));
        lemma_char_byte_roundtrip(s[i + m]);
    }
    assert(label.len() == e - i);
    assert forall|m: int| 0 <= m < e - i implies label[m] == s.subrange(i, e)[m] by {
        assert(s.subrange(i, e)[m] == s[i + m]);
    }
    assert(label =~= s.subrange(i, e));
    assert(parse_qname_at(data, pos, jumps_left, acc, started, first_ptr) == parse_qname_at(
        data,
        pos + 1 + ll,
        jumps_left,
        acc + sep + label,
        true,
        first_ptr,
    ));
    if e < s.len() {
        assert forall|k: int|
            0 <= k < rest.len() implies data.subrange(
            pos + 1 + ll,
            pos + 1 + ll + rest.len(),
        )[k] == rest[k] by {
            assert(data[pos + (1 + ll + k)] == w[1 + ll + k]);
            assert(w[1 + ll + k] == rest[k]);
        }
        assert(data.subrange(pos + 1 + ll, pos + 1 + ll + rest.len()) =~= rest);
        lemma_parse_of_wire(
            data,
            pos + 1 + ll,
            s,
            e + 1,
            jumps_left,
            acc + sep + label,
            true,
            first_ptr,
        );
        assert(s[e] == '.') by {
            lemma_label_end(s, i);
        }
        assert((acc + sep + label) + seq!['.'] + s.subrange(e + 1, s.len() as int) =~= acc + sep
            + s.subrange(i, s.len() as int));
    } else {
        assert(data[pos + 1 + ll] == w[1 + ll as int]);
        assert(w[1 + ll as int] == 0);
        assert(parse_qname_at(
            data,
            pos + 1 + ll,
            jumps_left,
            acc + sep + label,
            true,
            first_ptr,
        ) == Ok::<QnameParts, DnsError>(
            QnameParts {
                name: acc + sep + label,
                end: pos + 1 + ll + 1,
                first_ptr: first_ptr,
            },
        ));
        assert(acc + sep + label =~= acc + sep + s.subrange(i, s.len() as int));
    }
}

/// Name round-trip: reading back the wire form of a name written at `pos`
/// yields exactly that name, with the cursor one past its zero terminator
/// and no pointer followed.  The name must read back as written: labels of
/// one to 63 characters, ASCII, no uppercase.
pub proof fn lemma_dec_qname_of_wire(data: Seq<u8>, pos: int, s: Seq<char>)
    requires
        data.len() == CAPACITY,
        0 <= pos,
        name_rt(s),
        pos + qname_wire(s).len() <= CAPACITY,
        data.subrange(pos, pos + qname_wire(s).len()) == qname_wire(s),
    ensures
        dec_qname(data, pos) == Ok::<QnameParts, DnsError>(
            QnameParts { name: s, end: pos + qname_wire(s).len(), first_ptr: None },
        ),
{
    lemma_parse_of_wire(
        data,
        pos,
        s,
        0,
        (MAX_JUMPS + 1) as nat,
        Seq::<char>::empty(),
        false,
        None,
    );
    assert(Seq::<char>::empty() + Seq::<char>::empty() + s.subrange(0, s.len() as int) =~= s);
}

/// A character that reads back as written comes back unchanged through its
/// wire byte: the byte it writes lower-cases to itself and decodes to the
/// same character.
proof fn lemma_char_byte_roundtrip(c: char)
    requires
        char_rt(c),
    ensures
        (lower_byte(c as u8) as char) == c,
{
    assert((c as u8) as int == c as int);
    assert(lower_byte(c as u8) == c as u8);
    assert((lower_byte(c as u8) as char) as int == c as int);
}

/// Name compression: a name encoded solely as a pointer to the wire form
/// of a name `s` found at `target` decodes to the same characters that
/// reading `s` at `target` yields, and leaves the cursor exactly two bytes
/// past the pointer's own position.
pub proof fn lemma_dec_qname_via_pointer(data: Seq<u8>, pos: int, target: int, s: Seq<char>)
    requires
        data.len() == CAPACITY,
        0 <= pos,
        pos + 1 < CAPACITY,
        data[pos] >= 192,
        (data[pos] - 192) * 256 + data[pos + 1] == target,
        0 <= target,
        name_rt(s),
        target + qname_wire(s).len() <= CAPACITY,
        data.subrange(target, target + qname_wire(s).len()) == qname_wire(s),
    ensures
        dec_qname(data, pos) == Ok::<QnameParts, DnsError>(
            QnameParts { name: s, end: target + qname_wire(s).len(), first_ptr: Some(pos) },
        ),
        qname_cursor(dec_qname(data, pos)->Ok_0) == pos + 2,
{
    lemma_parse_of_wire(
        data,
        target,
        s,
        0,
        MAX_JUMPS as nat,
        Seq::<char>::empty(),
        false,
        Some(pos),
    );
    assert(Seq::<char>::empty() + Seq::<char>::empty() + s.subrange(0, s.len() as int) =~= s);
    assert(parse_qname_at(
        data,
        pos,
        (MAX_JUMPS + 1) as nat,
        Seq::<char>::empty(),
        false,
        None,
    ) == parse_qname_at(data, target, MAX_JUMPS as nat, Seq::<char>::empty(), false, Some(pos)));
}

} // verus!
