//! Questions, resource records and whole messages.
//!
//! A question is a name and a query-type tag; the class field is always
//! "Internet" (1): it is read and discarded on decode and written as 1 on
//! encode.  A record is decoded according to its type code: address records
//! (type 1) carry a 4-byte IPv4 address, held here as its big-endian 32-bit
//! value; every other type is kept structurally (name, type code, declared
//! data length, TTL) while its payload bytes are skipped.  On encode,
//! records of unknown type emit nothing: they are dropped from the output.
//!
//! A message is the header, the question list and three record lists.  On
//! encode the header counts are overwritten from the actual list lengths
//! first.  On decode each section reads exactly the count its header field
//! declares.

use vstd::prelude::*;
use vstd::string::StringExecFns;
use crate::buffer::{
    BytePacketBuffer, DnsError, CAPACITY, be16, be32, dec_u16, dec_u32, wire_write,
    lemma_wire_write_app, lemma_wire_write_pos, lemma_wire_write_fits, lemma_contains_split,
    lemma_dec_u16_be, lemma_dec_u32_be,
};
use crate::header::{
    DnsHeader, ResultCode, dec_header, header_wire, header_zero, lemma_header_roundtrip,
};
use crate::name::{
    dec_qname, enc_qname, qname_ok, qname_wire, qname_cursor, QnameParts, name_rt,
    lemma_dec_qname_of_wire,
};

verus! {

/// The query-type tag: only address records (code 1) are interpreted; every
/// other code is carried as `UNKNOWN`.
#[derive(Hash, Eq, PartialEq, Debug, Clone, Copy, Structural)]
pub enum QueryType {
    UNKNOWN(u16),
    A,
}

/// The 16-bit wire code of a query type.
pub open spec fn qt_num(qt: QueryType) -> u16 {
    match qt {
        QueryType::A => 1,
        QueryType::UNKNOWN(x) => x,
    }
}

/// The query type a 16-bit wire code decodes to.
pub open spec fn qt_of(num: u16) -> QueryType {
    if num == 1 {
        QueryType::A
    } else {
        QueryType::UNKNOWN(num)
    }
}

impl QueryType {
    /// The 16-bit wire code of this query type.
    pub fn to_num(&self) -> (r: u16)
        ensures
            r == qt_num(*self),
    {
        match *self {
            QueryType::A => 1,
            QueryType::UNKNOWN(x) => x,
        }
    }

    /// The query type a 16-bit wire code decodes to.
    pub fn from_num(num: u16) -> (r: QueryType)
        ensures
            r == qt_of(num),
    {
        match num {
            1 => QueryType::A,
            _ => QueryType::UNKNOWN(num),
        }
    }
}

/// One query entry: a name and its query type.
#[derive(Debug, Clone, PartialEq, Eq)]
pub struct DnsQuestion {
    /// The domain name asked about.
    pub name: String,
    /// The query type.
    pub qtype: QueryType,
}

/// The mathematical value of a question: its name as characters, and its
/// query type.
#[verifier::ext_equal]
pub struct QuestionV {
    pub name: Seq<char>,
    pub qtype: QueryType,
}

impl View for DnsQuestion {
    type V = QuestionV;

    open spec fn view(&self) -> QuestionV {
        QuestionV { name: self.name@, qtype: self.qtype }
    }
}

/// One resource record, keyed by its type code.
#[derive(Debug, Clone, PartialEq, Eq, PartialOrd, Ord, Hash)]
pub enum DnsRecord {
    /// A record of a type this codec does not interpret: its payload was
    /// skipped on decode and is not re-emitted on encode.
    UNKNOWN { domain: String, qtype: u16, data_index_byte: u16, ttl: u32 },
    /// An address record: the IPv4 address as its big-endian 32-bit value.
    A { domain: String, addr: u32, ttl: u32 },
}

/// The mathematical value of a record.
#[verifier::ext_equal]
pub enum RecordV {
    UNKNOWN { domain: Seq<char>, qtype: u16, data_index_byte: u16, ttl: u32 },
    A { domain: Seq<char>, addr: u32, ttl: u32 },
}

impl View for DnsRecord {
    type V = RecordV;

    open spec fn view(&self) -> RecordV {
        match self {
            DnsRecord::UNKNOWN { domain, qtype, data_index_byte, ttl } => RecordV::UNKNOWN {
                domain: domain@,
                qtype: *qtype,
                data_index_byte: *data_index_byte,
                ttl: *ttl,
            },
            DnsRecord::A { domain, addr, ttl } => RecordV::A {
                domain: domain@,
                addr: *addr,
                ttl: *ttl,
            },
        }
    }
}

/// The values of a sequence of questions.
pub open spec fn questions_view(qs: Seq<DnsQuestion>) -> Seq<QuestionV> {
    Seq::new(qs.len(), |i: int| qs[i]@)
}

/// The values of a sequence of records.
pub open spec fn records_view(rs: Seq<DnsRecord>) -> Seq<RecordV> {
    Seq::new(rs.len(), |i: int| rs[i]@)
}

/// A whole message: header, questions, and the three record sections.
#[derive(Clone, Debug)]
pub struct DnsPacket {
    pub header: DnsHeader,
    pub questions: Vec<DnsQuestion>,
    pub answers: Vec<DnsRecord>,
    pub authorities: Vec<DnsRecord>,
    pub resources: Vec<DnsRecord>,
}

/// The mathematical value of a message.
#[verifier::ext_equal]
pub struct PacketV {
    pub header: DnsHeader,
    pub questions: Seq<QuestionV>,
    pub answers: Seq<RecordV>,
    pub authorities: Seq<RecordV>,
    pub resources: Seq<RecordV>,
}

impl View for DnsPacket {
    type V = PacketV;

    open spec fn view(&self) -> PacketV {
        PacketV {
            header: self.header,
            questions: questions_view(self.questions@),
            answers: records_view(self.answers@),
            authorities: records_view(self.authorities@),
            resources: records_view(self.resources@),
        }
    }
}

/// The message with its header counts overwritten from the list lengths, as
/// the encoder does before writing.
pub open spec fn with_counts(p: PacketV) -> PacketV {
    PacketV {
        header: DnsHeader {
            questions: p.questions.len() as u16,
            answers: p.answers.len() as u16,
            authoritative_entries: p.authorities.len() as u16,
            resource_entries: p.resources.len() as u16,
            ..p.header
        },
        ..p
    }
}

/// The wire form of a question: its name, its type code, then class 1.
pub open spec fn question_wire(q: QuestionV) -> Seq<u8> {
    qname_wire(q.name) + be16(qt_num(q.qtype)) + be16(1)
}

/// The wire form of a record.  A record of unknown type emits nothing.
pub open spec fn record_wire(r: RecordV) -> Seq<u8> {
    match r {
        RecordV::UNKNOWN { .. } => Seq::empty(),
        RecordV::A { domain, addr, ttl } => qname_wire(domain) + be16(1) + be16(1) + be32(ttl)
            + be16(4) + be32(addr),
    }
}

/// The wire form of a question list.
pub open spec fn questions_wire(qs: Seq<QuestionV>) -> Seq<u8>
    decreases qs.len(),
{
    if qs.len() == 0 {
        Seq::empty()
    } else {
        question_wire(qs[0]) + questions_wire(qs.drop_first())
    }
}

/// The wire form of a record list.
pub open spec fn records_wire(rs: Seq<RecordV>) -> Seq<u8>
    decreases rs.len(),
{
    if rs.len() == 0 {
        Seq::empty()
    } else {
        record_wire(rs[0]) + records_wire(rs.drop_first())
    }
}

/// The wire form of a whole message: header, questions, then the three
/// record sections in order.
pub open spec fn packet_wire(p: PacketV) -> Seq<u8> {
    header_wire(p.header) + questions_wire(p.questions) + records_wire(p.answers) + records_wire(
        p.authorities,
    ) + records_wire(p.resources)
}

/// What writing a question at `pos` does.
pub open spec fn enc_question(data: Seq<u8>, pos: int, q: QuestionV) -> (
    Result<(), DnsError>,
    Seq<u8>,
    int,
) {
    let (r1, d1, p1) = enc_qname(data, pos, q.name);
    if r1 is Err {
        (r1, d1, p1)
    } else {
        let (d2, p2) = wire_write(d1, p1, be16(qt_num(q.qtype)) + be16(1));
        (
            if p2 == p1 + 4 {
                Ok(())
            } else {
                Err(DnsError::BufferFull)
            },
            d2,
            p2,
        )
    }
}

/// What writing a record at `pos` does: nothing at all for an unknown type.
pub open spec fn enc_record(data: Seq<u8>, pos: int, r: RecordV) -> (
    Result<(), DnsError>,
    Seq<u8>,
    int,
) {
    match r {
        RecordV::UNKNOWN { .. } => (Ok(()), data, pos),
        RecordV::A { domain, addr, ttl } => {
            let (r1, d1, p1) = enc_qname(data, pos, domain);
            if r1 is Err {
                (r1, d1, p1)
            } else {
                let tail = be16(1) + be16(1) + be32(ttl) + be16(4) + be32(addr);
                let (d2, p2) = wire_write(d1, p1, tail);
                (
                    if p2 == p1 + 14 {
                        Ok(())
                    } else {
                        Err(DnsError::BufferFull)
                    },
                    d2,
                    p2,
                )
            }
        },
    }
}

/// What writing a question list at `pos` does: each question in order,
/// stopping at the first failure.
pub open spec fn enc_questions(data: Seq<u8>, pos: int, qs: Seq<QuestionV>) -> (
    Result<(), DnsError>,
    Seq<u8>,
    int,
)
    decreases qs.len(),
{
    if qs.len() == 0 {
        (Ok(()), data, pos)
    } else {
        let (r1, d1, p1) = enc_question(data, pos, qs[0]);
        if r1 is Err {
            (r1, d1, p1)
        } else {
            enc_questions(d1, p1, qs.drop_first())
        }
    }
}

/// What writing a record list at `pos` does: each record in order, stopping
/// at the first failure.
pub open spec fn enc_records(data: Seq<u8>, pos: int, rs: Seq<RecordV>) -> (
    Result<(), DnsError>,
    Seq<u8>,
    int,
)
    decreases rs.len(),
{
    if rs.len() == 0 {
        (Ok(()), data, pos)
    } else {
        let (r1, d1, p1) = enc_record(data, pos, rs[0]);
        if r1 is Err {
            (r1, d1, p1)
        } else {
            enc_records(d1, p1, rs.drop_first())
        }
    }
}

/// What writing a whole message at `pos` does: the header, then each
/// section in order, stopping at the first failure.
pub open spec fn enc_packet(data: Seq<u8>, pos: int, p: PacketV) -> (
    Result<(), DnsError>,
    Seq<u8>,
    int,
) {
    let (d1, p1) = wire_write(data, pos, header_wire(p.header));
    if p1 != pos + 12 {
        (Err(DnsError::BufferFull), d1, p1)
    } else {
        let (r2, d2, p2) = enc_questions(d1, p1, p.questions);
        if r2 is Err {
            (r2, d2, p2)
        } else {
            let (r3, d3, p3) = enc_records(d2, p2, p.answers);
            if r3 is Err {
                (r3, d3, p3)
            } else {
                let (r4, d4, p4) = enc_records(d3, p3, p.authorities);
                if r4 is Err {
                    (r4, d4, p4)
                } else {
                    enc_records(d4, p4, p.resources)
                }
            }
        }
    }
}

/// Reading one question at `pos`.
pub open spec fn dec_question(data: Seq<u8>, pos: int) -> Result<(QuestionV, int), DnsError> {
    match dec_qname(data, pos) {
        Err(e) => Err(e),
        Ok(parts) => {
            let p1 = qname_cursor(parts);
            match dec_u16(data, p1) {
                Err(e) => Err(e),
                Ok((qt, p2)) => match dec_u16(data, p2) {
                    Err(e) => Err(e),
                    Ok((_cls, p3)) => Ok((QuestionV { name: parts.name, qtype: qt_of(qt) }, p3)),
                },
            }
        },
    }
}

/// Reading one record at `pos`.  For a record of unknown type the payload
/// bytes are skipped: the position moves past the declared data length with
/// no bounds check (the next access validates it).
pub open spec fn dec_record(data: Seq<u8>, pos: int) -> Result<(RecordV, int), DnsError> {
    match dec_qname(data, pos) {
        Err(e) => Err(e),
        Ok(parts) => {
            let p1 = qname_cursor(parts);
            match dec_u16(data, p1) {
                Err(e) => Err(e),
                Ok((qtype_num, p2)) => match dec_u16(data, p2) {
                    Err(e) => Err(e),
                    Ok((_cls, p3)) => match dec_u32(data, p3) {
                        Err(e) => Err(e),
                        Ok((ttl, p4)) => match dec_u16(data, p4) {
                            Err(e) => Err(e),
                            Ok((dlen, p5)) => if qtype_num == 1 {
                                match dec_u32(data, p5) {
                                    Err(e) => Err(e),
                                    Ok((raw, p6)) => Ok(
                                        (RecordV::A { domain: parts.name, addr: raw, ttl }, p6),
                                    ),
                                }
                            } else {
                                Ok(
                                    (
                                        RecordV::UNKNOWN {
                                            domain: parts.name,
                                            qtype: qtype_num,
                                            data_index_byte: dlen,
                                            ttl,
                                        },
                                        p5 + dlen,
                                    ),
                                )
                            },
                        },
                    },
                },
            }
        },
    }
}

/// Reading `n` questions in a row at `pos`.
pub open spec fn dec_questions(data: Seq<u8>, pos: int, n: int) -> Result<
    (Seq<QuestionV>, int),
    DnsError,
>
    decreases n,
{
    if n <= 0 {
        Ok((Seq::empty(), pos))
    } else {
        match dec_question(data, pos) {
            Err(e) => Err(e),
            Ok((q, p1)) => match dec_questions(data, p1, n - 1) {
                Err(e) => Err(e),
                Ok((qs, p2)) => Ok((seq![q] + qs, p2)),
            },
        }
    }
}

/// Reading `n` records in a row at `pos`.
pub open spec fn dec_records(data: Seq<u8>, pos: int, n: int) -> Result<
    (Seq<RecordV>, int),
    DnsError,
>
    decreases n,
{
    if n <= 0 {
        Ok((Seq::empty(), pos))
    } else {
        match dec_record(data, pos) {
            Err(e) => Err(e),
            Ok((r, p1)) => match dec_records(data, p1, n - 1) {
                Err(e) => Err(e),
                Ok((rs, p2)) => Ok((seq![r] + rs, p2)),
            },
        }
    }
}

/// Reading one whole message at `pos`: the header, then exactly as many
/// questions and records as its counts declare, section by section.
pub open spec fn dec_packet(data: Seq<u8>, pos: int) -> Result<(PacketV, int), DnsError> {
    match dec_header(data, pos) {
        Err(e) => Err(e),
        Ok((h, p1)) => match dec_questions(data, p1, h.questions as int) {
            Err(e) => Err(e),
            Ok((qs, p2)) => match dec_records(data, p2, h.answers as int) {
                Err(e) => Err(e),
                Ok((ans, p3)) => match dec_records(data, p3, h.authoritative_entries as int) {
                    Err(e) => Err(e),
                    Ok((auth, p4)) => match dec_records(data, p4, h.resource_entries as int) {
                        Err(e) => Err(e),
                        Ok((res, p5)) => Ok(
                            (
                                PacketV {
                                    header: h,
                                    questions: qs,
                                    answers: ans,
                                    authorities: auth,
                                    resources: res,
                                },
                                p5,
                            ),
                        ),
                    },
                },
            },
        },
    }
}

impl DnsQuestion {
    /// A question over the given name and query type.
    pub fn new(name: String, qtype: QueryType) -> (r: Self)
        ensures
            r.name == name,
            r.qtype == qtype,
    {
        Self { name, qtype }
    }

    /// Reads one question at the buffer cursor: the name is appended to
    /// this question's name and the query type replaces its tag; the class
    /// field is read and discarded.  On failure the question is unchanged.
    pub fn read(&mut self, buffer: &mut BytePacketBuffer) -> (r: Result<(), DnsError>)
        ensures
            final(buffer).buf == old(buffer).buf,
            old(buffer).pos <= final(buffer).pos,
            match dec_question(old(buffer).buf@, old(buffer).pos as int) {
                Ok((qv, p)) => r is Ok && final(self).name@ == old(self).name@ + qv.name
                    && final(self).qtype == qv.qtype && final(buffer).pos == p,
                Err(e) => r == Err::<(), DnsError>(e) && *final(self) == *old(self),
            },
    {
        let mut nm = String::new();
        let _range = match buffer.read_qname(&mut nm) {
            Ok(rg) => rg,
            Err(e) => {
                return Err(e);
            },
        };
        let qt = match buffer.read_u16() {
            Ok(v) => v,
            Err(e) => {
                return Err(e);
            },
        };
        let _class = match buffer.read_u16() {
            Ok(v) => v,
            Err(e) => {
                return Err(e);
            },
        };
        proof {
            match dec_qname(old(buffer).buf@, old(buffer).pos as int) {
                Ok(parts) => {
                    assert(nm@ =~= parts.name);
                },
                Err(_) => {},
            }
        }
        self.name.append(nm.as_str());
        self.qtype = QueryType::from_num(qt);
        Ok(())
    }

    /// Writes this question at the buffer cursor: its name, its type code,
    /// then class 1.
    pub fn write(&self, buffer: &mut BytePacketBuffer) -> (r: Result<(), DnsError>)
        ensures
            ({
                let (res, d, p) = enc_question(old(buffer).buf@, old(buffer).pos as int, self@);
                final(buffer).buf@ == d && final(buffer).pos == p && r == res
            }),
    {
        match buffer.write_qname(self.name.as_str()) {
            Ok(()) => (),
            Err(e) => {
                return Err(e);
            },
        };
        let ghost d1 = buffer.buf@;
        let ghost p1 = buffer.pos as int;
        let typenum = self.qtype.to_num();
        proof {
            lemma_wire_write_app(d1, p1, be16(qt_num(self@.qtype)), be16(1));
            lemma_wire_write_pos(d1, p1, be16(qt_num(self@.qtype)));
            let s1 = wire_write(d1, p1, be16(qt_num(self@.qtype)));
            lemma_wire_write_pos(s1.0, s1.1, be16(1));
        }
        match buffer.write_u16(typenum) {
            Ok(()) => (),
            Err(e) => {
                proof {
                    lemma_wire_write_pos(d1, p1, be16(qt_num(self@.qtype)) + be16(1));
                }
                return Err(e);
            },
        };
        match buffer.write_u16(1) {
            Ok(()) => (),
            Err(e) => {
                return Err(e);
            },
        };
        Ok(())
    }
}

impl DnsRecord {
    /// Reads one record at the buffer cursor: name, type code, class
    /// (discarded), TTL, then data length.  A type-1 record then reads its
    /// 4-byte address; any other type skips its declared payload without
    /// interpreting it.
    pub fn read(buffer: &mut BytePacketBuffer) -> (r: Result<Self, DnsError>)
        ensures
            final(buffer).buf == old(buffer).buf,
            old(buffer).pos <= final(buffer).pos,
            match dec_record(old(buffer).buf@, old(buffer).pos as int) {
                Ok((rv, p)) => (r matches Ok(rec) && rec@ == rv) && final(buffer).pos == p,
                Err(e) => r == Err::<DnsRecord, DnsError>(e),
            },
    {
        let mut domain = String::new();
        let _range = match buffer.read_qname(&mut domain) {
            Ok(rg) => rg,
            Err(e) => {
                return Err(e);
            },
        };
        proof {
            match dec_qname(old(buffer).buf@, old(buffer).pos as int) {
                Ok(parts) => {
                    assert(domain@ =~= parts.name);
                },
                Err(_) => {},
            }
        }
        let qtype_num = match buffer.read_u16() {
            Ok(v) => v,
            Err(e) => {
                return Err(e);
            },
        };
        let qtype = QueryType::from_num(qtype_num);
        let _class = match buffer.read_u16() {
            Ok(v) => v,
            Err(e) => {
                return Err(e);
            },
        };
        let ttl = match buffer.read_u32() {
            Ok(v) => v,
            Err(e) => {
                return Err(e);
            },
        };
        let data_index_byte = match buffer.read_u16() {
            Ok(v) => v,
            Err(e) => {
                return Err(e);
            },
        };
        match qtype {
            QueryType::A => {
                let raw_addr = match buffer.read_u32() {
                    Ok(v) => v,
                    Err(e) => {
                        return Err(e);
                    },
                };
                Ok(Self::A { domain, addr: raw_addr, ttl })
            },
            QueryType::UNKNOWN(_) => {
                let _ = buffer.step(data_index_byte as usize);
                Ok(Self::UNKNOWN { domain, qtype: qtype_num, data_index_byte, ttl })
            },
        }
    }

    /// Writes this record at the buffer cursor and returns how many bytes
    /// it took.  An address record emits name, type 1, class 1, TTL, data
    /// length 4, then the four address octets.  A record of unknown type
    /// emits nothing and takes zero bytes.
    pub fn write(&self, buffer: &mut BytePacketBuffer) -> (r: Result<usize, DnsError>)
        ensures
            ({
                let (res, d, p) = enc_record(old(buffer).buf@, old(buffer).pos as int, self@);
                final(buffer).buf@ == d && final(buffer).pos == p && (match res {
                    Ok(()) => r == Ok::<usize, DnsError>(((p - old(buffer).pos) as usize)),
                    Err(e) => r == Err::<usize, DnsError>(e),
                })
            }),
    {
        let start_pos = buffer.pos();
        match self {
            DnsRecord::A { domain, addr, ttl } => {
                match buffer.write_qname(domain.as_str()) {
                    Ok(()) => (),
                    Err(e) => {
                        return Err(e);
                    },
                };
                let ghost d1 = buffer.buf@;
                let ghost p1 = buffer.pos as int;
                let ghost tail = be16(1) + be16(1) + be32(*ttl) + be16(4) + be32(*addr);
                proof {
                    lemma_wire_write_app(d1, p1, be16(1), be16(1) + (be32(*ttl) + (be16(4)
                        + be32(*addr))));
                    assert(tail =~= be16(1) + (be16(1) + (be32(*ttl) + (be16(4) + be32(
                        *addr,
                    )))));
                    lemma_wire_write_pos(d1, p1, be16(1));
                    lemma_wire_write_pos(d1, p1, tail);
                    let s1 = wire_write(d1, p1, be16(1));
                    lemma_wire_write_app(s1.0, s1.1, be16(1), be32(*ttl) + (be16(4) + be32(
                        *addr,
                    )));
                    lemma_wire_write_pos(s1.0, s1.1, be16(1));
                    let s2 = wire_write(s1.0, s1.1, be16(1));
                    lemma_wire_write_app(s2.0, s2.1, be32(*ttl), be16(4) + be32(*addr));
                    lemma_wire_write_pos(s2.0, s2.1, be32(*ttl));
                    let s3 = wire_write(s2.0, s2.1, be32(*ttl));
                    lemma_wire_write_app(s3.0, s3.1, be16(4), be32(*addr));
                    lemma_wire_write_pos(s3.0, s3.1, be16(4));
                    let s4 = wire_write(s3.0, s3.1, be16(4));
                    lemma_wire_write_pos(s4.0, s4.1, be32(*addr));
                }
                match buffer.write_u16(QueryType::A.to_num()) {
                    Ok(()) => (),
                    Err(e) => {
                        return Err(e);
                    },
                };
                match buffer.write_u16(1) {
                    Ok(()) => (),
                    Err(e) => {
                        return Err(e);
                    },
                };
                match buffer.write_u32(*ttl) {
                    Ok(()) => (),
                    Err(e) => {
                        return Err(e);
                    },
                };
                match buffer.write_u16(4) {
                    Ok(()) => (),
                    Err(e) => {
                        return Err(e);
                    },
                };
                match buffer.write_u32(*addr) {
                    Ok(()) => (),
                    Err(e) => {
                        return Err(e);
                    },
                };
            },
            DnsRecord::UNKNOWN { .. } => {},
        }
        Ok(buffer.pos() - start_pos)
    }
}


/// Writing the question list `qs1 + qs2` is writing `qs1`, then `qs2` from
/// where `qs1` stopped.
pub proof fn lemma_enc_questions_app(
    data: Seq<u8>,
    pos: int,
    qs1: Seq<QuestionV>,
    qs2: Seq<QuestionV>,
)
    ensures
        enc_questions(data, pos, qs1 + qs2) == ({
            let (r1, d1, p1) = enc_questions(data, pos, qs1);
            if r1 is Err {
                (r1, d1, p1)
            } else {
                enc_questions(d1, p1, qs2)
            }
        }),
    decreases qs1.len(),
{
    if qs1.len() == 0 {
        assert(qs1 + qs2 =~= qs2);
    } else {
        assert((qs1 + qs2)[0] == qs1[0]);
        assert((qs1 + qs2).drop_first() =~= qs1.drop_first() + qs2);
        let (r1, d1, p1) = enc_question(data, pos, qs1[0]);
        if !(r1 is Err) {
            lemma_enc_questions_app(d1, p1, qs1.drop_first(), qs2);
        }
    }
}

/// Writing the record list `rs1 + rs2` is writing `rs1`, then `rs2` from
/// where `rs1` stopped.
pub proof fn lemma_enc_records_app(data: Seq<u8>, pos: int, rs1: Seq<RecordV>, rs2: Seq<RecordV>)
    ensures
        enc_records(data, pos, rs1 + rs2) == ({
            let (r1, d1, p1) = enc_records(data, pos, rs1);
            if r1 is Err {
                (r1, d1, p1)
            } else {
                enc_records(d1, p1, rs2)
            }
        }),
    decreases rs1.len(),
{
    if rs1.len() == 0 {
        assert(rs1 + rs2 =~= rs2);
    } else {
        assert((rs1 + rs2)[0] == rs1[0]);
        assert((rs1 + rs2).drop_first() =~= rs1.drop_first() + rs2);
        let (r1, d1, p1) = enc_record(data, pos, rs1[0]);
        if !(r1 is Err) {
            lemma_enc_records_app(d1, p1, rs1.drop_first(), rs2);
        }
    }
}

/// Writes every question of the list at the buffer cursor, in order.
fn write_questions(questions: &Vec<DnsQuestion>, buffer: &mut BytePacketBuffer) -> (r: Result<
    (),
    DnsError,
>)
    ensures
        ({
            let (res, d, p) = enc_questions(
                old(buffer).buf@,
                old(buffer).pos as int,
                questions_view(questions@),
            );
            final(buffer).buf@ == d && final(buffer).pos == p && r == res
        }),
{
    let ghost d0 = buffer.buf@;
    let ghost p0 = buffer.pos as int;
    let ghost qs = questions_view(questions@);
    let mut idx: usize = 0;
    while idx < questions.len()
        invariant
            d0 == old(buffer).buf@,
            p0 == old(buffer).pos as int,
            qs == questions_view(questions@),
            idx <= questions.len(),
            enc_questions(d0, p0, qs.subrange(0, idx as int)) == (
                Ok::<(), DnsError>(()),
                buffer.buf@,
                buffer.pos as int,
            ),
        decreases questions.len() - idx,
    {
        let ghost db = buffer.buf@;
        let ghost pb = buffer.pos as int;
        proof {
            lemma_enc_questions_app(
                d0,
                p0,
                qs.subrange(0, idx as int),
                qs.subrange(idx as int, qs.len() as int),
            );
            assert(qs.subrange(0, idx as int) + qs.subrange(idx as int, qs.len() as int) =~= qs);
            lemma_enc_questions_app(
                d0,
                p0,
                qs.subrange(0, idx as int),
                qs.subrange(idx as int, idx + 1),
            );
            assert(qs.subrange(0, idx as int) + qs.subrange(idx as int, idx + 1) =~= qs.subrange(
                0,
                idx + 1,
            ));
            assert(qs.subrange(idx as int, qs.len() as int)[0] == qs[idx as int]);
            assert(qs.subrange(idx as int, qs.len() as int).drop_first() =~= qs.subrange(
                idx + 1,
                qs.len() as int,
            ));
            assert(qs.subrange(idx as int, idx + 1)[0] == qs[idx as int]);
            assert(qs.subrange(idx as int, idx + 1).drop_first() =~= Seq::<QuestionV>::empty());
            assert(qs[idx as int] == questions@[idx as int]@);
        }
        let q = &questions[idx];
        match q.write(buffer) {
            Ok(()) => (),
            Err(e) => {
                return Err(e);
            },
        };
        proof {
            assert(enc_questions(db, pb, qs.subrange(idx as int, idx + 1)) == ({
                let (r1, d1, p1) = enc_question(db, pb, qs[idx as int]);
                if r1 is Err {
                    (r1, d1, p1)
                } else {
                    enc_questions(d1, p1, Seq::<QuestionV>::empty())
                }
            }));
            assert(enc_questions(buffer.buf@, buffer.pos as int, Seq::<QuestionV>::empty()) == (
                Ok::<(), DnsError>(()),
                buffer.buf@,
                buffer.pos as int,
            ));
        }
        idx += 1;
    }
    proof {
        assert(qs.subrange(0, questions@.len() as int) =~= qs);
    }
    Ok(())
}

/// Writes every record of the list at the buffer cursor, in order.  Records
/// of unknown type emit nothing.
fn write_records(records: &Vec<DnsRecord>, buffer: &mut BytePacketBuffer) -> (r: Result<
    (),
    DnsError,
>)
    ensures
        ({
            let (res, d, p) = enc_records(
                old(buffer).buf@,
                old(buffer).pos as int,
                records_view(records@),
            );
            final(buffer).buf@ == d && final(buffer).pos == p && r == res
        }),
{
    let ghost d0 = buffer.buf@;
    let ghost p0 = buffer.pos as int;
    let ghost rs = records_view(records@);
    let mut idx: usize = 0;
    while idx < records.len()
        invariant
            d0 == old(buffer).buf@,
            p0 == old(buffer).pos as int,
            rs == records_view(records@),
            idx <= records.len(),
            enc_records(d0, p0, rs.subrange(0, idx as int)) == (
                Ok::<(), DnsError>(()),
                buffer.buf@,
                buffer.pos as int,
            ),
        decreases records.len() - idx,
    {
        let ghost db = buffer.buf@;
        let ghost pb = buffer.pos as int;
        proof {
            lemma_enc_records_app(
                d0,
                p0,
                rs.subrange(0, idx as int),
                rs.subrange(idx as int, rs.len() as int),
            );
            assert(rs.subrange(0, idx as int) + rs.subrange(idx as int, rs.len() as int) =~= rs);
            lemma_enc_records_app(
                d0,
                p0,
                rs.subrange(0, idx as int),
                rs.subrange(idx as int, idx + 1),
            );
            assert(rs.subrange(0, idx as int) + rs.subrange(idx as int, idx + 1) =~= rs.subrange(
                0,
                idx + 1,
            ));
            assert(rs.subrange(idx as int, rs.len() as int)[0] == rs[idx as int]);
            assert(rs.subrange(idx as int, rs.len() as int).drop_first() =~= rs.subrange(
                idx + 1,
                rs.len() as int,
            ));
            assert(rs.subrange(idx as int, idx + 1)[0] == rs[idx as int]);
            assert(rs.subrange(idx as int, idx + 1).drop_first() =~= Seq::<RecordV>::empty());
            assert(rs[idx as int] == records@[idx as int]@);
        }
        let rec = &records[idx];
        match rec.write(buffer) {
            Ok(_) => (),
            Err(e) => {
                return Err(e);
            },
        };
        proof {
            assert(enc_records(db, pb, rs.subrange(idx as int, idx + 1)) == ({
                let (r1, d1, p1) = enc_record(db, pb, rs[idx as int]);
                if r1 is Err {
                    (r1, d1, p1)
                } else {
                    enc_records(d1, p1, Seq::<RecordV>::empty())
                }
            }));
            assert(enc_records(buffer.buf@, buffer.pos as int, Seq::<RecordV>::empty()) == (
                Ok::<(), DnsError>(()),
                buffer.buf@,
                buffer.pos as int,
            ));
        }
        idx += 1;
    }
    proof {
        assert(rs.subrange(0, records@.len() as int) =~= rs);
    }
    Ok(())
}

impl DnsPacket {
    /// An empty message: a zeroed header and no questions or records.
    pub fn new() -> (r: Self)
        ensures
            r.header == header_zero(),
            r.questions@ == Seq::<DnsQuestion>::empty(),
            r.answers@ == Seq::<DnsRecord>::empty(),
            r.authorities@ == Seq::<DnsRecord>::empty(),
            r.resources@ == Seq::<DnsRecord>::empty(),
    {
        Self {
            header: DnsHeader::new(),
            questions: Vec::new(),
            answers: Vec::new(),
            authorities: Vec::new(),
            resources: Vec::new(),
        }
    }

    /// Writes this message at the buffer cursor.  The header counts are
    /// first overwritten from the actual list lengths, so the output always
    /// declares what it holds; then the header, the questions, and the
    /// three record sections are written in order.
    #[verifier::rlimit(100)]
    pub fn write(&mut self, buffer: &mut BytePacketBuffer) -> (r: Result<(), DnsError>)
        requires
            old(self).header.wf(),
        ensures
            final(self)@ == with_counts(old(self)@),
            final(buffer).buf@ == enc_packet(
                old(buffer).buf@,
                old(buffer).pos as int,
                with_counts(old(self)@),
            ).1,
            final(buffer).pos == enc_packet(
                old(buffer).buf@,
                old(buffer).pos as int,
                with_counts(old(self)@),
            ).2,
            r == enc_packet(old(buffer).buf@, old(buffer).pos as int, with_counts(old(self)@)).0,
    {
        let ghost mm = with_counts(old(self)@);
        let ghost d0 = buffer.buf@;
        let ghost p0 = buffer.pos as int;
        self.header.questions = #[verifier::truncate] (self.questions.len() as u16);
        self.header.answers = #[verifier::truncate] (self.answers.len() as u16);
        self.header.authoritative_entries = #[verifier::truncate] (self.authorities.len() as u16);
        self.header.resource_entries = #[verifier::truncate] (self.resources.len() as u16);
        proof {
            assert(self@ =~~= mm);
            lemma_wire_write_pos(d0, p0, header_wire(mm.header));
        }
        match self.header.write(buffer) {
            Ok(()) => (),
            Err(e) => {
                return Err(e);
            },
        };
        match write_questions(&self.questions, buffer) {
            Ok(()) => (),
            Err(e) => {
                return Err(e);
            },
        };
        match write_records(&self.answers, buffer) {
            Ok(()) => (),
            Err(e) => {
                return Err(e);
            },
        };
        match write_records(&self.authorities, buffer) {
            Ok(()) => (),
            Err(e) => {
                return Err(e);
            },
        };
        match write_records(&self.resources, buffer) {
            Ok(()) => (),
            Err(e) => {
                return Err(e);
            },
        };
        proof {
            let t1 = wire_write(d0, p0, header_wire(mm.header));
            let t2 = enc_questions(t1.0, t1.1, mm.questions);
            let t3 = enc_records(t2.1, t2.2, mm.answers);
            let t4 = enc_records(t3.1, t3.2, mm.authorities);
            let t5 = enc_records(t4.1, t4.2, mm.resources);
            assert(t1.1 == p0 + 12);
            assert(t2.0 is Ok);
            assert(t3.0 is Ok);
            assert(t4.0 is Ok);
            assert(t5.0 is Ok);
            assert(enc_packet(d0, p0, mm) == t5);
            match t5.0 {
                Ok(u) => {
                    assert(u == ());
                    assert(t5.0 == Ok::<(), DnsError>(u));
                },
                Err(_) => {
                    assert(false);
                },
            }
        }
        Ok(())
    }
}

/// Reads `count` questions in a row at the buffer cursor.
fn read_questions(buffer: &mut BytePacketBuffer, count: u16) -> (r: Result<
    Vec<DnsQuestion>,
    DnsError,
>)
    ensures
        final(buffer).buf == old(buffer).buf,
        old(buffer).pos <= final(buffer).pos,
        match dec_questions(old(buffer).buf@, old(buffer).pos as int, count as int) {
            Ok((qs, p)) => (r matches Ok(v) && questions_view(v@) == qs) && final(buffer).pos
                == p,
            Err(e) => r == Err::<Vec<DnsQuestion>, DnsError>(e),
        },
{
    let ghost d0 = buffer.buf@;
    let ghost p0 = buffer.pos as int;
    let mut out: Vec<DnsQuestion> = Vec::new();
    let mut k: u16 = 0;
    while k < count
        invariant
            k <= count,
            d0 == old(buffer).buf@,
            p0 == old(buffer).pos as int,
            buffer.buf == old(buffer).buf,
            old(buffer).pos <= buffer.pos,
            dec_questions(d0, p0, count as int) == (match dec_questions(
                buffer.buf@,
                buffer.pos as int,
                count - k,
            ) {
                Ok((qs, p)) => Ok::<(Seq<QuestionV>, int), DnsError>(
                    (questions_view(out@) + qs, p),
                ),
                Err(e) => Err::<(Seq<QuestionV>, int), DnsError>(e),
            }),
        decreases count - k,
    {
        let ghost outv = questions_view(out@);
        let ghost db = buffer.buf@;
        let ghost pb = buffer.pos as int;
        let mut question = DnsQuestion::new(String::new(), QueryType::UNKNOWN(0));
        match question.read(buffer) {
            Ok(()) => (),
            Err(e) => {
                return Err(e);
            },
        };
        out.push(question);
        k += 1;
        proof {
            match dec_question(db, pb) {
                Ok((qv, p)) => {
                    let q = out@[out@.len() - 1];
                    assert(q@.name =~= qv.name);
                    assert(q@ =~= qv);
                    assert(questions_view(out@) =~= outv + seq![qv]);
                    match dec_questions(db, p, count - k) {
                        Ok((qs2, p2)) => {
                            assert(outv + (seq![qv] + qs2) =~= (outv + seq![qv]) + qs2);
                        },
                        Err(_) => {},
                    }
                },
                Err(_) => {
                    assert(false);
                },
            }
        }
    }
    proof {
        assert(questions_view(out@) + Seq::<QuestionV>::empty() =~= questions_view(out@));
    }
    Ok(out)
}

/// Reads `count` records in a row at the buffer cursor.
fn read_records(buffer: &mut BytePacketBuffer, count: u16) -> (r: Result<Vec<DnsRecord>, DnsError>)
    ensures
        final(buffer).buf == old(buffer).buf,
        old(buffer).pos <= final(buffer).pos,
        match dec_records(old(buffer).buf@, old(buffer).pos as int, count as int) {
            Ok((rs, p)) => (r matches Ok(v) && records_view(v@) == rs) && final(buffer).pos == p,
            Err(e) => r == Err::<Vec<DnsRecord>, DnsError>(e),
        },
{
    let ghost d0 = buffer.buf@;
    let ghost p0 = buffer.pos as int;
    let mut out: Vec<DnsRecord> = Vec::new();
    let mut k: u16 = 0;
    while k < count
        invariant
            k <= count,
            d0 == old(buffer).buf@,
            p0 == old(buffer).pos as int,
            buffer.buf == old(buffer).buf,
            old(buffer).pos <= buffer.pos,
            dec_records(d0, p0, count as int) == (match dec_records(
                buffer.buf@,
                buffer.pos as int,
                count - k,
            ) {
                Ok((rs, p)) => Ok::<(Seq<RecordV>, int), DnsError>((records_view(out@) + rs, p)),
                Err(e) => Err::<(Seq<RecordV>, int), DnsError>(e),
            }),
        decreases count - k,
    {
        let ghost outv = records_view(out@);
        let ghost db = buffer.buf@;
        let ghost pb = buffer.pos as int;
        let rec = match DnsRecord::read(buffer) {
            Ok(rec) => rec,
            Err(e) => {
                return Err(e);
            },
        };
        out.push(rec);
        k += 1;
        proof {
            match dec_record(db, pb) {
                Ok((rv, p)) => {
                    assert(records_view(out@) =~= outv + seq![rv]);
                    match dec_records(db, p, count - k) {
                        Ok((rs2, p2)) => {
                            assert(outv + (seq![rv] + rs2) =~= (outv + seq![rv]) + rs2);
                        },
                        Err(_) => {},
                    }
                },
                Err(_) => {
                    assert(false);
                },
            }
        }
    }
    proof {
        assert(records_view(out@) + Seq::<RecordV>::empty() =~= records_view(out@));
    }
    Ok(out)
}

/// Reads one whole message at the buffer cursor: the header, then exactly
/// as many questions and records as the header counts declare, section by
/// section.
pub fn from_buffer(buffer: &mut BytePacketBuffer) -> (r: Result<DnsPacket, DnsError>)
    ensures
        final(buffer).buf == old(buffer).buf,
        old(buffer).pos <= final(buffer).pos,
        match dec_packet(old(buffer).buf@, old(buffer).pos as int) {
            Ok((pv, p)) => (r matches Ok(pkt) && pkt@ == pv) && final(buffer).pos == p,
            Err(e) => r == Err::<DnsPacket, DnsError>(e),
        },
{
    let mut result = DnsPacket::new();
    match result.header.read(buffer) {
        Ok(()) => (),
        Err(e) => {
            return Err(e);
        },
    };
    result.questions = match read_questions(buffer, result.header.questions) {
        Ok(v) => v,
        Err(e) => {
            return Err(e);
        },
    };
    result.answers = match read_records(buffer, result.header.answers) {
        Ok(v) => v,
        Err(e) => {
            return Err(e);
        },
    };
    result.authorities = match read_records(buffer, result.header.authoritative_entries) {
        Ok(v) => v,
        Err(e) => {
            return Err(e);
        },
    };
    result.resources = match read_records(buffer, result.header.resource_entries) {
        Ok(v) => v,
        Err(e) => {
            return Err(e);
        },
    };
    proof {
        match dec_packet(old(buffer).buf@, old(buffer).pos as int) {
            Ok((pv, p)) => {
                assert(result@ =~~= pv);
            },
            Err(_) => {},
        }
    }
    Ok(result)
}


/// A query type whose wire code decodes back to it: every type but
/// `UNKNOWN(1)`, whose code 1 decodes to `A` instead.
pub open spec fn qt_rt(qt: QueryType) -> bool {
    qt == qt_of(qt_num(qt))
}

/// A question that decodes back from its own wire form: its name reads back
/// as written and its query type survives its wire code.
pub open spec fn question_rt(q: QuestionV) -> bool {
    &&& name_rt(q.name)
    &&& qt_rt(q.qtype)
}

/// A record that decodes back from its own wire form: an address record
/// whose name reads back as written.
pub open spec fn record_rt(r: RecordV) -> bool {
    match r {
        RecordV::A { domain, .. } => name_rt(domain),
        RecordV::UNKNOWN { .. } => false,
    }
}

/// A message that decodes back from its own wire form: a well-formed header
/// whose result code the decoder recognizes, questions and address records
/// whose names read back as written, and list lengths that fit the 16-bit
/// counts.
pub open spec fn packet_rt(m: PacketV) -> bool {
    &&& m.header.wf()
    &&& (m.header.rescode == ResultCode::NOERROR || m.header.rescode == ResultCode::NOTIMP)
    &&& m.questions.len() <= u16::MAX
    &&& m.answers.len() <= u16::MAX
    &&& m.authorities.len() <= u16::MAX
    &&& m.resources.len() <= u16::MAX
    &&& (forall|i: int| 0 <= i < m.questions.len() ==> question_rt(#[trigger] m.questions[i]))
    &&& (forall|i: int| 0 <= i < m.answers.len() ==> record_rt(#[trigger] m.answers[i]))
    &&& (forall|i: int| 0 <= i < m.authorities.len() ==> record_rt(#[trigger] m.authorities[i]))
    &&& (forall|i: int| 0 <= i < m.resources.len() ==> record_rt(#[trigger] m.resources[i]))
}

/// A question write that succeeded wrote exactly the question's wire form,
/// whole.
proof fn lemma_enc_question_wire_ok(data: Seq<u8>, pos: int, q: QuestionV)
    requires
        0 <= pos,
        enc_question(data, pos, q).0 is Ok,
    ensures
        qname_ok(q.name),
        pos + question_wire(q).len() <= CAPACITY,
        enc_question(data, pos, q).1 == wire_write(data, pos, question_wire(q)).0,
        enc_question(data, pos, q).2 == pos + question_wire(q).len(),
        wire_write(data, pos, question_wire(q)).1 == pos + question_wire(q).len(),
{
    let wn = qname_wire(q.name);
    let tail = be16(qt_num(q.qtype)) + be16(1);
    assert(question_wire(q) =~= wn + tail);
    lemma_wire_write_app(data, pos, wn, tail);
    let s1 = wire_write(data, pos, wn);
    lemma_wire_write_pos(s1.0, s1.1, tail);
    lemma_wire_write_pos(data, pos, question_wire(q));
}

/// A record write that succeeded wrote exactly the record's wire form,
/// whole.
proof fn lemma_enc_record_wire_ok(data: Seq<u8>, pos: int, r: RecordV)
    requires
        0 <= pos <= CAPACITY,
        enc_record(data, pos, r).0 is Ok,
    ensures
        pos + record_wire(r).len() <= CAPACITY,
        enc_record(data, pos, r).1 == wire_write(data, pos, record_wire(r)).0,
        enc_record(data, pos, r).2 == pos + record_wire(r).len(),
        wire_write(data, pos, record_wire(r)).1 == pos + record_wire(r).len(),
{
    match r {
        RecordV::UNKNOWN { .. } => {
            assert(record_wire(r) =~= Seq::<u8>::empty());
        },
        RecordV::A { domain, addr, ttl } => {
            let wn = qname_wire(domain);
            let tail = be16(1) + be16(1) + be32(ttl) + be16(4) + be32(addr);
            assert(record_wire(r) =~= wn + tail);
            lemma_wire_write_app(data, pos, wn, tail);
            let s1 = wire_write(data, pos, wn);
            lemma_wire_write_pos(s1.0, s1.1, tail);
            lemma_wire_write_pos(data, pos, record_wire(r));
        },
    }
}

/// A question-list write that succeeded wrote exactly the list's wire form,
/// whole.
proof fn lemma_enc_questions_wire_ok(data: Seq<u8>, pos: int, qs: Seq<QuestionV>)
    requires
        0 <= pos <= CAPACITY,
        enc_questions(data, pos, qs).0 is Ok,
    ensures
        pos + questions_wire(qs).len() <= CAPACITY,
        enc_questions(data, pos, qs).1 == wire_write(data, pos, questions_wire(qs)).0,
        enc_questions(data, pos, qs).2 == pos + questions_wire(qs).len(),
        wire_write(data, pos, questions_wire(qs)).1 == pos + questions_wire(qs).len(),
    decreases qs.len(),
{
    if qs.len() == 0 {
        assert(questions_wire(qs) =~= Seq::<u8>::empty());
    } else {
        lemma_enc_question_wire_ok(data, pos, qs[0]);
        let (_, d1, p1) = enc_question(data, pos, qs[0]);
        lemma_enc_questions_wire_ok(d1, p1, qs.drop_first());
        lemma_wire_write_app(data, pos, question_wire(qs[0]), questions_wire(qs.drop_first()));
        lemma_wire_write_pos(data, pos, questions_wire(qs));
    }
}

/// A record-list write that succeeded wrote exactly the list's wire form,
/// whole.
proof fn lemma_enc_records_wire_ok(data: Seq<u8>, pos: int, rs: Seq<RecordV>)
    requires
        0 <= pos <= CAPACITY,
        enc_records(data, pos, rs).0 is Ok,
    ensures
        pos + records_wire(rs).len() <= CAPACITY,
        enc_records(data, pos, rs).1 == wire_write(data, pos, records_wire(rs)).0,
        enc_records(data, pos, rs).2 == pos + records_wire(rs).len(),
        wire_write(data, pos, records_wire(rs)).1 == pos + records_wire(rs).len(),
    decreases rs.len(),
{
    if rs.len() == 0 {
        assert(records_wire(rs) =~= Seq::<u8>::empty());
    } else {
        lemma_enc_record_wire_ok(data, pos, rs[0]);
        let (_, d1, p1) = enc_record(data, pos, rs[0]);
        lemma_enc_records_wire_ok(d1, p1, rs.drop_first());
        lemma_wire_write_app(data, pos, record_wire(rs[0]), records_wire(rs.drop_first()));
        lemma_wire_write_pos(data, pos, records_wire(rs));
    }
}

/// A message write that succeeded wrote exactly the message's wire form,
/// whole.
pub proof fn lemma_enc_packet_wire_ok(data: Seq<u8>, pos: int, m: PacketV)
    requires
        0 <= pos,
        enc_packet(data, pos, m).0 is Ok,
    ensures
        pos + packet_wire(m).len() <= CAPACITY,
        enc_packet(data, pos, m).1 == wire_write(data, pos, packet_wire(m)).0,
        enc_packet(data, pos, m).2 == pos + packet_wire(m).len(),
        wire_write(data, pos, packet_wire(m)).1 == pos + packet_wire(m).len(),
{
    let wh = header_wire(m.header);
    let wq = questions_wire(m.questions);
    let wa = records_wire(m.answers);
    let wu = records_wire(m.authorities);
    let wr = records_wire(m.resources);
    assert(packet_wire(m) =~= wh + (wq + (wa + (wu + wr))));
    let (d1, p1) = wire_write(data, pos, wh);
    lemma_wire_write_pos(data, pos, wh);
    assert(wh.len() == 12);
    lemma_enc_questions_wire_ok(d1, p1, m.questions);
    let (_, d2, p2) = enc_questions(d1, p1, m.questions);
    lemma_enc_records_wire_ok(d2, p2, m.answers);
    let (_, d3, p3) = enc_records(d2, p2, m.answers);
    lemma_enc_records_wire_ok(d3, p3, m.authorities);
    let (_, d4, p4) = enc_records(d3, p3, m.authorities);
    lemma_enc_records_wire_ok(d4, p4, m.resources);
    lemma_wire_write_app(data, pos, wh, wq + (wa + (wu + wr)));
    lemma_wire_write_app(d1, p1, wq, wa + (wu + wr));
    lemma_wire_write_app(d2, p2, wa, wu + wr);
    lemma_wire_write_app(d3, p3, wu, wr);
    lemma_wire_write_pos(data, pos, packet_wire(m));
}

/// Decoding the wire form of a question written at `pos` yields it back.
proof fn lemma_dec_question_of_wire(data: Seq<u8>, pos: int, q: QuestionV)
    requires
        data.len() == CAPACITY,
        0 <= pos,
        question_rt(q),
        pos + question_wire(q).len() <= CAPACITY,
        data.subrange(pos, pos + question_wire(q).len()) == question_wire(q),
    ensures
        dec_question(data, pos) == Ok::<(QuestionV, int), DnsError>(
            (q, pos + question_wire(q).len()),
        ),
{
    let wn = qname_wire(q.name);
    let w2 = be16(qt_num(q.qtype));
    let w3 = be16(1);
    assert(question_wire(q) =~= wn + (w2 + w3));
    lemma_contains_split(data, pos, wn, w2 + w3);
    lemma_contains_split(data, pos + wn.len(), w2, w3);
    lemma_dec_qname_of_wire(data, pos, q.name);
    lemma_dec_u16_be(data, pos + wn.len(), qt_num(q.qtype));
    lemma_dec_u16_be(data, pos + wn.len() + 2, 1);
    match dec_question(data, pos) {
        Ok((qv, p)) => {
            assert(qv =~= q);
            assert(p == pos + question_wire(q).len());
        },
        Err(_) => {
            assert(false);
        },
    }
}

/// Decoding the wire form of an address record written at `pos` yields it
/// back.
proof fn lemma_dec_record_of_wire(data: Seq<u8>, pos: int, r: RecordV)
    requires
        data.len() == CAPACITY,
        0 <= pos,
        record_rt(r),
        pos + record_wire(r).len() <= CAPACITY,
        data.subrange(pos, pos + record_wire(r).len()) == record_wire(r),
    ensures
        dec_record(data, pos) == Ok::<(RecordV, int), DnsError>((r, pos + record_wire(r).len())),
{
    match r {
        RecordV::UNKNOWN { .. } => {
            assert(false);
        },
        RecordV::A { domain, addr, ttl } => {
            let wn = qname_wire(domain);
            let w2 = be16(1);
            let w3 = be16(1);
            let w4 = be32(ttl);
            let w5 = be16(4);
            let w6 = be32(addr);
            assert(record_wire(r) =~= wn + (w2 + (w3 + (w4 + (w5 + w6)))));
            let p1 = pos + wn.len();
            lemma_contains_split(data, pos, wn, w2 + (w3 + (w4 + (w5 + w6))));
            lemma_contains_split(data, p1, w2, w3 + (w4 + (w5 + w6)));
            lemma_contains_split(data, p1 + 2, w3, w4 + (w5 + w6));
            lemma_contains_split(data, p1 + 4, w4, w5 + w6);
            lemma_contains_split(data, p1 + 8, w5, w6);
            lemma_dec_qname_of_wire(data, pos, domain);
            lemma_dec_u16_be(data, p1, 1);
            lemma_dec_u16_be(data, p1 + 2, 1);
            lemma_dec_u32_be(data, p1 + 4, ttl);
            lemma_dec_u16_be(data, p1 + 8, 4);
            lemma_dec_u32_be(data, p1 + 10, addr);
            match dec_record(data, pos) {
                Ok((rv, p)) => {
                    assert(rv =~= r);
                    assert(p == pos + record_wire(r).len());
                },
                Err(_) => {
                    assert(false);
                },
            }
        },
    }
}

/// Decoding the wire form of a question list written at `pos` yields the
/// list back.
proof fn lemma_dec_questions_of_wire(data: Seq<u8>, pos: int, qs: Seq<QuestionV>)
    requires
        data.len() == CAPACITY,
        0 <= pos,
        forall|i: int| 0 <= i < qs.len() ==> question_rt(#[trigger] qs[i]),
        pos + questions_wire(qs).len() <= CAPACITY,
        data.subrange(pos, pos + questions_wire(qs).len()) == questions_wire(qs),
    ensures
        dec_questions(data, pos, qs.len() as int) == Ok::<(Seq<QuestionV>, int), DnsError>(
            (qs, pos + questions_wire(qs).len()),
        ),
    decreases qs.len(),
{
    if qs.len() == 0 {
        assert(dec_questions(data, pos, 0) == Ok::<(Seq<QuestionV>, int), DnsError>(
            (Seq::empty(), pos),
        ));
        assert(qs =~= Seq::<QuestionV>::empty());
    } else {
        let w1 = question_wire(qs[0]);
        let w2 = questions_wire(qs.drop_first());
        assert(questions_wire(qs) == w1 + w2);
        lemma_contains_split(data, pos, w1, w2);
        lemma_dec_question_of_wire(data, pos, qs[0]);
        assert(forall|i: int|
            0 <= i < qs.drop_first().len() ==> question_rt(#[trigger] qs.drop_first()[i]));
        lemma_dec_questions_of_wire(data, pos + w1.len(), qs.drop_first());
        assert(seq![qs[0]] + qs.drop_first() =~= qs);
    }
}

/// Decoding the wire form of a record list written at `pos` yields the list
/// back.
proof fn lemma_dec_records_of_wire(data: Seq<u8>, pos: int, rs: Seq<RecordV>)
    requires
        data.len() == CAPACITY,
        0 <= pos,
        forall|i: int| 0 <= i < rs.len() ==> record_rt(#[trigger] rs[i]),
        pos + records_wire(rs).len() <= CAPACITY,
        data.subrange(pos, pos + records_wire(rs).len()) == records_wire(rs),
    ensures
        dec_records(data, pos, rs.len() as int) == Ok::<(Seq<RecordV>, int), DnsError>(
            (rs, pos + records_wire(rs).len()),
        ),
    decreases rs.len(),
{
    if rs.len() == 0 {
        assert(dec_records(data, pos, 0) == Ok::<(Seq<RecordV>, int), DnsError>(
            (Seq::empty(), pos),
        ));
        assert(rs =~= Seq::<RecordV>::empty());
    } else {
        let w1 = record_wire(rs[0]);
        let w2 = records_wire(rs.drop_first());
        assert(records_wire(rs) == w1 + w2);
        lemma_contains_split(data, pos, w1, w2);
        lemma_dec_record_of_wire(data, pos, rs[0]);
        assert(forall|i: int|
            0 <= i < rs.drop_first().len() ==> record_rt(#[trigger] rs.drop_first()[i]));
        lemma_dec_records_of_wire(data, pos + w1.len(), rs.drop_first());
        assert(seq![rs[0]] + rs.drop_first() =~= rs);
    }
}

/// Decoding the wire form of a message found at `pos` yields the message
/// back, provided its counts match its lists.
proof fn lemma_dec_packet_of_wire(data: Seq<u8>, pos: int, m: PacketV)
    requires
        data.len() == CAPACITY,
        0 <= pos,
        m.header.wf(),
        m.header.rescode == ResultCode::NOERROR || m.header.rescode == ResultCode::NOTIMP,
        m.header.questions as int == m.questions.len(),
        m.header.answers as int == m.answers.len(),
        m.header.authoritative_entries as int == m.authorities.len(),
        m.header.resource_entries as int == m.resources.len(),
        forall|i: int| 0 <= i < m.questions.len() ==> question_rt(#[trigger] m.questions[i]),
        forall|i: int| 0 <= i < m.answers.len() ==> record_rt(#[trigger] m.answers[i]),
        forall|i: int| 0 <= i < m.authorities.len() ==> record_rt(#[trigger] m.authorities[i]),
        forall|i: int| 0 <= i < m.resources.len() ==> record_rt(#[trigger] m.resources[i]),
        pos + packet_wire(m).len() <= CAPACITY,
        data.subrange(pos, pos + packet_wire(m).len()) == packet_wire(m),
    ensures
        dec_packet(data, pos) == Ok::<(PacketV, int), DnsError>((m, pos + packet_wire(m).len())),
{
    let w = packet_wire(m);
    let wh = header_wire(m.header);
    let wq = questions_wire(m.questions);
    let wa = records_wire(m.answers);
    let wu = records_wire(m.authorities);
    let wr = records_wire(m.resources);
    assert(w =~= wh + (wq + (wa + (wu + wr))));
    assert(wh.len() == 12);
    let p1 = pos + 12;
    lemma_contains_split(data, pos, wh, wq + (wa + (wu + wr)));
    lemma_contains_split(data, p1, wq, wa + (wu + wr));
    let p2 = p1 + wq.len();
    lemma_contains_split(data, p2, wa, wu + wr);
    let p3 = p2 + wa.len();
    lemma_contains_split(data, p3, wu, wr);
    let p4 = p3 + wu.len();
    lemma_header_roundtrip(data, pos, m.header);
    lemma_dec_questions_of_wire(data, p1, m.questions);
    lemma_dec_records_of_wire(data, p2, m.answers);
    lemma_dec_records_of_wire(data, p3, m.authorities);
    lemma_dec_records_of_wire(data, p4, m.resources);
    match dec_packet(data, pos) {
        Ok((pv, p)) => {
            assert(pv =~~= m);
            assert(p == pos + w.len());
        },
        Err(_) => {
            assert(false);
        },
    }
}

/// Round-trip law: encoding a message and decoding what was written yields
/// the message back, with its header counts derived from the list lengths.
/// The message must hold only address records, and names that read back as
/// they were written: labels of one to 63 characters, ASCII, no uppercase
/// (exactly the names the decoder itself produces, which never re-encode
/// through a compression pointer).
pub proof fn theorem_packet_roundtrip(data: Seq<u8>, pos: int, m: PacketV)
    requires
        data.len() == CAPACITY,
        0 <= pos,
        packet_rt(m),
        enc_packet(data, pos, with_counts(m)).0 is Ok,
    ensures
        ({
            let mm = with_counts(m);
            let (res, d2, p2) = enc_packet(data, pos, mm);
            dec_packet(d2, pos) == Ok::<(PacketV, int), DnsError>((mm, p2))
        }),
{
    let mm = with_counts(m);
    let w = packet_wire(mm);
    lemma_enc_packet_wire_ok(data, pos, mm);
    let d2 = wire_write(data, pos, w).0;
    lemma_wire_write_fits(data, pos, w);
    assert(d2.len() == CAPACITY);
    assert forall|k: int| 0 <= k < w.len() implies d2.subrange(pos, pos + w.len())[k] == w[k] by {
        assert(d2 == data.subrange(0, pos) + w + data.subrange(pos + w.len(), CAPACITY as int));
        assert(d2[pos + k] == w[k]);
    }
    assert(d2.subrange(pos, pos + w.len()) =~= w);
    assert(mm.header.questions as int == mm.questions.len());
    assert(mm.header.answers as int == mm.answers.len());
    assert(mm.header.authoritative_entries as int == mm.authorities.len());
    assert(mm.header.resource_entries as int == mm.resources.len());
    lemma_dec_packet_of_wire(d2, pos, mm);
}

} // verus!