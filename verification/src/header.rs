//! The header codec: the 12-byte DNS header.
//!
//! The header holds the id, a 16-bit flags word, and four 16-bit counts
//! (questions, answers, authority records, additional records), all
//! big-endian.  The flags word packs single-bit flags, the 4-bit opcode and
//! the 4-bit result code; the bit layout is fixed by the wire format.

use vstd::prelude::*;
use crate::buffer::{
    BytePacketBuffer, DnsError, CAPACITY, be16, combine16, dec_u16, wire_write,
    lemma_wire_write_app, lemma_wire_write_pos,
};

verus! {

/// The 4-bit result code of a response.  Unrecognized wire values decode
/// permissively to `NOERROR`.
#[derive(Copy, Clone, Debug, PartialEq, Eq, Structural)]
pub enum ResultCode {
    NOERROR,
    FORMERR,
    SERVFAIL,
    NXDOMAIN,
    NOTIMP,
    REFUSED,
}

/// The 4-bit wire value of a result code.
pub open spec fn rescode_num(rc: ResultCode) -> u8 {
    match rc {
        ResultCode::NOERROR => 0,
        ResultCode::FORMERR => 1,
        ResultCode::SERVFAIL => 2,
        ResultCode::NXDOMAIN => 3,
        ResultCode::NOTIMP => 4,
        ResultCode::REFUSED => 5,
    }
}

/// The result code a 4-bit wire value decodes to: only `NOTIMP` is
/// recognized; every other value normalizes to `NOERROR`.
pub open spec fn rescode_of(num: u8) -> ResultCode {
    if num == 4 {
        ResultCode::NOTIMP
    } else {
        ResultCode::NOERROR
    }
}

impl ResultCode {
    /// The result code a 4-bit wire value decodes to.
    pub fn from_num(num: u8) -> (r: ResultCode)
        ensures
            r == rescode_of(num),
    {
        match num {
            4 => ResultCode::NOTIMP,
            _ => ResultCode::NOERROR,
        }
    }

    /// The 4-bit wire value of this result code.
    pub fn to_num(&self) -> (r: u8)
        ensures
            r == rescode_num(*self),
    {
        match *self {
            ResultCode::NOERROR => 0,
            ResultCode::FORMERR => 1,
            ResultCode::SERVFAIL => 2,
            ResultCode::NXDOMAIN => 3,
            ResultCode::NOTIMP => 4,
            ResultCode::REFUSED => 5,
        }
    }
}

/// One where `b` holds, else zero.
pub open spec fn bit(b: bool) -> u8 {
    if b {
        1
    } else {
        0
    }
}

/// The DNS header fields.
#[derive(Clone, Debug, PartialEq, Eq, Structural)]
pub struct DnsHeader {
    /// Correlation token, echoed from query to response.
    pub id: u16,
    /// Recursion desired.
    pub recursion_desired: bool,
    /// The message was truncated.
    pub truncated_message: bool,
    /// The answer is authoritative.
    pub authoritative_answer: bool,
    /// Operation code; fits in four bits.
    pub opcode: u8,
    /// Query (false) or response (true).
    pub response: bool,
    /// Result code.
    pub rescode: ResultCode,
    /// Checking disabled.
    pub checking_disabled: bool,
    /// Authentic data.
    pub authed_data: bool,
    /// Reserved bit.
    pub z: bool,
    /// Recursion available.
    pub recursion_available: bool,
    /// Number of question entries.
    pub questions: u16,
    /// Number of answer records.
    pub answers: u16,
    /// Number of authority records.
    pub authoritative_entries: u16,
    /// Number of additional records.
    pub resource_entries: u16,
}

/// The high byte of the flags word: bit 0 recursion desired, bit 1
/// truncated, bit 2 authoritative answer, bits 3 to 6 the opcode, bit 7
/// query/response.
pub open spec fn flags_hi(h: DnsHeader) -> u8 {
    (bit(h.recursion_desired) + 2 * bit(h.truncated_message) + 4 * bit(h.authoritative_answer) + 8
        * h.opcode + 128 * bit(h.response)) as u8
}

/// The low byte of the flags word: bits 0 to 3 the result code, bit 4
/// checking disabled, bit 5 authentic data, bit 6 reserved, bit 7 recursion
/// available.
pub open spec fn flags_lo(h: DnsHeader) -> u8 {
    (rescode_num(h.rescode) + 16 * bit(h.checking_disabled) + 32 * bit(h.authed_data) + 64 * bit(
        h.z,
    ) + 128 * bit(h.recursion_available)) as u8
}

/// The 12-byte wire form of a header.
pub open spec fn header_wire(h: DnsHeader) -> Seq<u8> {
    be16(h.id) + seq![flags_hi(h), flags_lo(h)] + be16(h.questions) + be16(h.answers) + be16(
        h.authoritative_entries,
    ) + be16(h.resource_entries)
}

/// Reading one header at `pos`: the decoded fields and the position after
/// the 12 header bytes.
pub open spec fn dec_header(data: Seq<u8>, pos: int) -> Result<(DnsHeader, int), DnsError> {
    match dec_u16(data, pos) {
        Err(e) => Err(e),
        Ok((id, p1)) => match dec_u16(data, p1) {
            Err(e) => Err(e),
            Ok((flags, p2)) => {
                let a = (flags / 256) as u8;
                let b = (flags % 256) as u8;
                match dec_u16(data, p2) {
                    Err(e) => Err(e),
                    Ok((qd, p3)) => match dec_u16(data, p3) {
                        Err(e) => Err(e),
                        Ok((an, p4)) => match dec_u16(data, p4) {
                            Err(e) => Err(e),
                            Ok((ns, p5)) => match dec_u16(data, p5) {
                                Err(e) => Err(e),
                                Ok((ar, p6)) => Ok(
                                    (
                                        DnsHeader {
                                            id,
                                            recursion_desired: a % 2 == 1,
                                            truncated_message: (a / 2) % 2 == 1,
                                            authoritative_answer: (a / 4) % 2 == 1,
                                            opcode: ((a / 8) % 16) as u8,
                                            response: a >= 128,
                                            rescode: rescode_of((b % 16) as u8),
                                            checking_disabled: (b / 16) % 2 == 1,
                                            authed_data: (b / 32) % 2 == 1,
                                            z: (b / 64) % 2 == 1,
                                            recursion_available: b >= 128,
                                            questions: qd,
                                            answers: an,
                                            authoritative_entries: ns,
                                            resource_entries: ar,
                                        },
                                        p6,
                                    ),
                                ),
                            },
                        },
                    },
                }
            },
        },
    }
}

/// The header every message starts from: every field zero or false, result
/// code `NOERROR`.
pub open spec fn header_zero() -> DnsHeader {
    DnsHeader {
        id: 0,
        recursion_desired: false,
        truncated_message: false,
        authoritative_answer: false,
        opcode: 0,
        response: false,
        rescode: ResultCode::NOERROR,
        checking_disabled: false,
        authed_data: false,
        z: false,
        recursion_available: false,
        questions: 0,
        answers: 0,
        authoritative_entries: 0,
        resource_entries: 0,
    }
}

impl DnsHeader {
    /// A header with every field zero or false and result code `NOERROR`.
    pub fn new() -> (r: Self)
        ensures
            r == header_zero(),
    {
        DnsHeader {
            id: 0,
            recursion_desired: false,
            truncated_message: false,
            authoritative_answer: false,
            opcode: 0,
            response: false,
            rescode: ResultCode::NOERROR,
            checking_disabled: false,
            authed_data: false,
            z: false,
            recursion_available: false,
            questions: 0,
            answers: 0,
            authoritative_entries: 0,
            resource_entries: 0,
        }
    }

    /// The opcode fits in its four bits of the flags word.
    pub open spec fn wf(self) -> bool {
        self.opcode < 16
    }

    /// Reads the header fields from the buffer: id, flags word, then the
    /// four counts.  On failure the header is left as it was.
    pub fn read(&mut self, buffer: &mut BytePacketBuffer) -> (r: Result<(), DnsError>)
        ensures
            final(buffer).buf == old(buffer).buf,
            old(buffer).pos <= final(buffer).pos,
            match dec_header(old(buffer).buf@, old(buffer).pos as int) {
                Ok((h, p)) => r is Ok && *final(self) == h && final(buffer).pos == p,
                Err(e) => r == Err::<(), DnsError>(e) && *final(self) == *old(self),
            },
    {
        let id = match buffer.read_u16() {
            Ok(v) => v,
            Err(e) => {
                return Err(e);
            },
        };
        let flags = match buffer.read_u16() {
            Ok(v) => v,
            Err(e) => {
                return Err(e);
            },
        };
        let a = (flags / 256) as u8;
        let b = (flags % 256) as u8;
        let qd = match buffer.read_u16() {
            Ok(v) => v,
            Err(e) => {
                return Err(e);
            },
        };
        let an = match buffer.read_u16() {
            Ok(v) => v,
            Err(e) => {
                return Err(e);
            },
        };
        let ns = match buffer.read_u16() {
            Ok(v) => v,
            Err(e) => {
                return Err(e);
            },
        };
        let ar = match buffer.read_u16() {
            Ok(v) => v,
            Err(e) => {
                return Err(e);
            },
        };
        self.id = id;
        self.recursion_desired = a % 2 == 1;
        self.truncated_message = (a / 2) % 2 == 1;
        self.authoritative_answer = (a / 4) % 2 == 1;
        self.opcode = (a / 8) % 16;
        self.response = a >= 128;
        self.rescode = ResultCode::from_num(b % 16);
        self.checking_disabled = (b / 16) % 2 == 1;
        self.authed_data = (b / 32) % 2 == 1;
        self.z = (b / 64) % 2 == 1;
        self.recursion_available = b >= 128;
        self.questions = qd;
        self.answers = an;
        self.authoritative_entries = ns;
        self.resource_entries = ar;
        Ok(())
    }

    /// Writes the 12 header bytes at the buffer cursor: id, flags word,
    /// then the four counts.
    #[verifier::rlimit(100)]
    pub fn write(&self, buffer: &mut BytePacketBuffer) -> (r: Result<(), DnsError>)
        requires
            self.wf(),
        ensures
            (final(buffer).buf@, final(buffer).pos as int) == wire_write(
                old(buffer).buf@,
                old(buffer).pos as int,
                header_wire(*self),
            ),
            r is Ok <==> old(buffer).pos + 12 <= CAPACITY,
            r is Err ==> r == Err::<(), DnsError>(DnsError::BufferFull),
    {
        let ghost d0 = buffer.buf@;
        let ghost p0 = buffer.pos as int;
        let ghost w = header_wire(*self);
        let h1: u8 = (if self.recursion_desired {
            1u8
        } else {
            0u8
        }) + 2 * (if self.truncated_message {
            1u8
        } else {
            0u8
        }) + 4 * (if self.authoritative_answer {
            1u8
        } else {
            0u8
        }) + 8 * self.opcode + 128 * (if self.response {
            1u8
        } else {
            0u8
        });
        let h2: u8 = self.rescode.to_num() + 16 * (if self.checking_disabled {
            1u8
        } else {
            0u8
        }) + 32 * (if self.authed_data {
            1u8
        } else {
            0u8
        }) + 64 * (if self.z {
            1u8
        } else {
            0u8
        }) + 128 * (if self.recursion_available {
            1u8
        } else {
            0u8
        });
        let ghost w1 = be16(self.id);
        let ghost w2: Seq<u8> = seq![flags_hi(*self), flags_lo(*self)];
        let ghost w3 = be16(self.questions);
        let ghost w4 = be16(self.answers);
        let ghost w5 = be16(self.authoritative_entries);
        let ghost w6 = be16(self.resource_entries);
        proof {
            assert(h1 == flags_hi(*self));
            assert(h2 == flags_lo(*self));
            assert(w2 =~= seq![flags_hi(*self)] + seq![flags_lo(*self)]);
            assert(w =~= w1 + (w2 + (w3 + (w4 + (w5 + w6)))));
            lemma_wire_write_app(d0, p0, w1, w2 + (w3 + (w4 + (w5 + w6))));
            let s1 = wire_write(d0, p0, w1);
            lemma_wire_write_pos(d0, p0, w1);
            lemma_wire_write_app(s1.0, s1.1, seq![flags_hi(*self)], seq![flags_lo(*self)] + (w3
                + (w4 + (w5 + w6))));
            assert(w2 + (w3 + (w4 + (w5 + w6))) =~= seq![flags_hi(*self)] + (seq![
                flags_lo(*self),
            ] + (w3 + (w4 + (w5 + w6)))));
            let s2 = wire_write(s1.0, s1.1, seq![flags_hi(*self)]);
            lemma_wire_write_pos(s1.0, s1.1, seq![flags_hi(*self)]);
            lemma_wire_write_app(s2.0, s2.1, seq![flags_lo(*self)], w3 + (w4 + (w5 + w6)));
            let s3 = wire_write(s2.0, s2.1, seq![flags_lo(*self)]);
            lemma_wire_write_pos(s2.0, s2.1, seq![flags_lo(*self)]);
            lemma_wire_write_app(s3.0, s3.1, w3, w4 + (w5 + w6));
            let s4 = wire_write(s3.0, s3.1, w3);
            lemma_wire_write_pos(s3.0, s3.1, w3);
            lemma_wire_write_app(s4.0, s4.1, w4, w5 + w6);
            let s5 = wire_write(s4.0, s4.1, w4);
            lemma_wire_write_pos(s4.0, s4.1, w4);
            lemma_wire_write_app(s5.0, s5.1, w5, w6);
            let s6 = wire_write(s5.0, s5.1, w5);
            lemma_wire_write_pos(s5.0, s5.1, w5);
            lemma_wire_write_pos(s6.0, s6.1, w6);
        }
        match buffer.write_u16(self.id) {
            Ok(()) => (),
            Err(e) => {
                return Err(e);
            },
        };
        match buffer.write_u8(h1) {
            Ok(()) => (),
            Err(e) => {
                return Err(e);
            },
        };
        match buffer.write_u8(h2) {
            Ok(()) => (),
            Err(e) => {
                return Err(e);
            },
        };
        match buffer.write_u16(self.questions) {
            Ok(()) => (),
            Err(e) => {
                return Err(e);
            },
        };
        match buffer.write_u16(self.answers) {
            Ok(()) => (),
            Err(e) => {
                return Err(e);
            },
        };
        match buffer.write_u16(self.authoritative_entries) {
            Ok(()) => (),
            Err(e) => {
                return Err(e);
            },
        };
        match buffer.write_u16(self.resource_entries) {
            Ok(()) => (),
            Err(e) => {
                return Err(e);
            },
        };
        Ok(())
    }

    /// The id as its two big-endian bytes.
    pub fn get_id(&self) -> (r: Result<[u8; 2], DnsError>)
        ensures
            r matches Ok(b) && b@ =~= be16(self.id),
    {
        Ok([(self.id / 256) as u8, (self.id % 256) as u8])
    }
}

/// Header bit-packing round-trip: decoding the wire form of a header yields
/// the header back, for every combination of the single-bit flags and every
/// 4-bit opcode.  The result code must be one that the decoder recognizes
/// (`NOERROR` or `NOTIMP`): every other code decodes permissively to
/// `NOERROR`.
#[verifier::rlimit(100)]
pub proof fn lemma_header_roundtrip(data: Seq<u8>, pos: int, h: DnsHeader)
    requires
        data.len() == CAPACITY,
        0 <= pos,
        pos + 12 <= CAPACITY,
        data.subrange(pos, pos + 12) == header_wire(h),
        h.wf(),
        h.rescode == ResultCode::NOERROR || h.rescode == ResultCode::NOTIMP,
    ensures
        dec_header(data, pos) == Ok::<(DnsHeader, int), DnsError>((h, pos + 12)),
{
    let w = header_wire(h);
    assert(w.len() == 12);
    assert forall|i: int| 0 <= i < 12 implies data[pos + i] == w[i] by {
        assert(data.subrange(pos, pos + 12)[i] == data[pos + i]);
    }
    let hi = flags_hi(h);
    let lo = flags_lo(h);
    assert(w[0] == (h.id / 256) as u8 && w[1] == (h.id % 256) as u8);
    assert(combine16(w[0], w[1]) == h.id);
    assert(w[2] == hi && w[3] == lo);
    let flags = combine16(w[2], w[3]);
    assert(flags / 256 == hi && flags % 256 == lo);
    let rd = bit(h.recursion_desired);
    let tm = bit(h.truncated_message);
    let aa = bit(h.authoritative_answer);
    let qr = bit(h.response);
    assert(hi == rd + 2 * tm + 4 * aa + 8 * h.opcode + 128 * qr);
    assert(hi % 2 == rd) by {
        assert(hi == 2 * (tm + 2 * aa + 4 * h.opcode + 64 * qr) + rd);
    }
    assert((hi / 2) % 2 == tm) by {
        assert(hi / 2 == 2 * (aa + 2 * h.opcode + 32 * qr) + tm);
    }
    assert((hi / 4) % 2 == aa) by {
        assert(hi / 4 == 2 * (h.opcode + 16 * qr) + aa);
    }
    assert((hi / 8) % 16 == h.opcode) by {
        assert(hi / 8 == 16 * qr + h.opcode);
    }
    assert((hi >= 128) == h.response);
    let rc = rescode_num(h.rescode);
    let cd = bit(h.checking_disabled);
    let ad = bit(h.authed_data);
    let zz = bit(h.z);
    let ra = bit(h.recursion_available);
    assert(lo == rc + 16 * cd + 32 * ad + 64 * zz + 128 * ra);
    assert(lo % 16 == rc) by {
        assert(lo == 16 * (cd + 2 * ad + 4 * zz + 8 * ra) + rc);
    }
    assert(rescode_of((lo % 16) as u8) == h.rescode);
    assert((lo / 16) % 2 == cd) by {
        assert(lo / 16 == 2 * (ad + 2 * zz + 4 * ra) + cd);
    }
    assert((lo / 32) % 2 == ad) by {
        assert(lo / 32 == 2 * (zz + 2 * ra) + ad);
    }
    assert((lo / 64) % 2 == zz) by {
        assert(lo / 64 == 2 * ra + zz);
    }
    assert((lo >= 128) == h.recursion_available);
    assert(combine16(w[4], w[5]) == h.questions);
    assert(combine16(w[6], w[7]) == h.answers);
    assert(combine16(w[8], w[9]) == h.authoritative_entries);
    assert(combine16(w[10], w[11]) == h.resource_entries);
    match dec_header(data, pos) {
        Ok((h2, p)) => {
            assert(h2 == h);
            assert(p == pos + 12);
        },
        Err(_) => {
            assert(false);
        },
    }
}

} // verus!
