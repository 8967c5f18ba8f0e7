//! The message structures and their wire codec.
//!
//! A message is a 12-byte header followed by the questions and by the
//! answer, authority and additional records, in that order; the header's
//! four counts say how many of each follow. Decoding shares one cursor and
//! one compression table across the whole message, and any failure aborts
//! the whole decode: no partial message is returned.

use vstd::prelude::*;

use crate::bytes::{be16_at, be32_at, lemma_be16_roundtrip, read_bytes, read_u16, read_u32,
    u16_be, write_u16};
use crate::error::DnsError;
use crate::name::{NameTable, decode_name, encode_dns_name, spec_decode_name, spec_encode_name};

verus! {

/// The fixed 12-byte message header: six big-endian 16-bit fields.
#[derive(Clone, Copy, Debug, PartialEq, Eq, Structural)]
pub struct DNSHeader {
    pub id: u16,
    pub flags: u16,
    pub num_questions: u16,
    pub num_answers: u16,
    pub num_authorities: u16,
    pub num_additionals: u16,
}

/// The header's wire form: id, flags and the four counts, big-endian.
pub open spec fn spec_header_bytes(h: DNSHeader) -> Seq<u8> {
    u16_be(h.id) + u16_be(h.flags) + u16_be(h.num_questions) + u16_be(h.num_answers)
        + u16_be(h.num_authorities) + u16_be(h.num_additionals)
}

/// What decoding a header at `pos` yields: the six fields and the position
/// 12 bytes on, or `TruncatedInput` when fewer than 12 bytes remain.
pub open spec fn spec_decode_header(buf: Seq<u8>, pos: int) -> Result<(DNSHeader, int), DnsError> {
    if pos < 0 || pos + 12 > buf.len() {
        Err(DnsError::TruncatedInput)
    } else {
        Ok((DNSHeader {
            id: be16_at(buf, pos),
            flags: be16_at(buf, pos + 2),
            num_questions: be16_at(buf, pos + 4),
            num_answers: be16_at(buf, pos + 6),
            num_authorities: be16_at(buf, pos + 8),
            num_additionals: be16_at(buf, pos + 10),
        }, pos + 12))
    }
}

/// Decoding the encoded header gives the fields back unchanged.
pub proof fn lemma_header_roundtrip(h: DNSHeader, buf: Seq<u8>, pos: int)
    requires
        0 <= pos,
        pos + 12 <= buf.len(),
        buf.subrange(pos, pos + 12) == spec_header_bytes(h),
    ensures
        spec_decode_header(buf, pos) == Ok::<(DNSHeader, int), DnsError>((h, pos + 12)),
{
    let hb = spec_header_bytes(h);
    assert forall|k: int| 0 <= k < 12 implies buf[pos + k] == hb[k] by {
        assert(buf.subrange(pos, pos + 12)[k] == buf[pos + k]);
    }
    assert(hb[0] == u16_be(h.id)[0] && hb[1] == u16_be(h.id)[1]);
    assert(hb[2] == u16_be(h.flags)[0] && hb[3] == u16_be(h.flags)[1]);
    assert(hb[4] == u16_be(h.num_questions)[0] && hb[5] == u16_be(h.num_questions)[1]);
    assert(hb[6] == u16_be(h.num_answers)[0] && hb[7] == u16_be(h.num_answers)[1]);
    assert(hb[8] == u16_be(h.num_authorities)[0] && hb[9] == u16_be(h.num_authorities)[1]);
    assert(hb[10] == u16_be(h.num_additionals)[0] && hb[11] == u16_be(h.num_additionals)[1]);
    lemma_be16_roundtrip(buf, pos, h.id);
    lemma_be16_roundtrip(buf, pos + 2, h.flags);
    lemma_be16_roundtrip(buf, pos + 4, h.num_questions);
    lemma_be16_roundtrip(buf, pos + 6, h.num_answers);
    lemma_be16_roundtrip(buf, pos + 8, h.num_authorities);
    lemma_be16_roundtrip(buf, pos + 10, h.num_additionals);
}

impl DNSHeader {
    /// Serializes the header: each field big-endian, fixed order. No
    /// validation; the caller guarantees the counts are consistent.
    pub fn to_bytes(&self) -> (r: Vec<u8>)
        ensures
            r@ == spec_header_bytes(*self),
    {
        let mut out: Vec<u8> = Vec::new();
        write_u16(&mut out, self.id);
        write_u16(&mut out, self.flags);
        write_u16(&mut out, self.num_questions);
        write_u16(&mut out, self.num_answers);
        write_u16(&mut out, self.num_authorities);
        write_u16(&mut out, self.num_additionals);
        proof {
            assert(out@ =~= spec_header_bytes(*self));
        }
        out
    }

    /// Decodes the header at `*idx` and advances `*idx` by exactly 12.
    pub fn from_buffer(buffer: &Vec<u8>, idx: &mut usize) -> (r: Result<DNSHeader, DnsError>)
        ensures
            match r {
                Ok(h) => {
                    &&& spec_decode_header(buffer@, *old(idx) as int)
                        == Ok::<(DNSHeader, int), DnsError>((h, *final(idx) as int))
                    &&& *final(idx) == *old(idx) + 12 <= buffer@.len()
                },
                Err(e) => {
                    &&& spec_decode_header(buffer@, *old(idx) as int)
                        == Err::<(DNSHeader, int), DnsError>(e)
                    &&& *final(idx) == *old(idx)
                },
            },
    {
        let n: usize = buffer.len();
        let pos: usize = *idx;
        if pos > n || n - pos < 12 {
            return Err(DnsError::TruncatedInput);
        }
        let h = DNSHeader {
            id: read_u16(buffer, pos),
            flags: read_u16(buffer, pos + 2),
            num_questions: read_u16(buffer, pos + 4),
            num_answers: read_u16(buffer, pos + 6),
            num_authorities: read_u16(buffer, pos + 8),
            num_additionals: read_u16(buffer, pos + 10),
        };
        *idx = pos + 12;
        Ok(h)
    }
}

/// The mathematical value of a question: name in dotted form, type code,
/// class code.
#[verifier::ext_equal]
pub struct QuestionV {
    pub name: Seq<u8>,
    pub type_: u16,
    pub class: u16,
}

/// One question: a domain name and two 16-bit codes.
#[derive(Debug, PartialEq, Eq)]
pub struct DNSQuestion {
    pub name: Vec<u8>,
    pub type_: u16,
    pub class: u16,
}

impl View for DNSQuestion {
    type V = QuestionV;

    open spec fn view(&self) -> QuestionV {
        QuestionV { name: self.name@, type_: self.type_, class: self.class }
    }
}

/// The question's wire form: encoded name, then type and class big-endian.
pub open spec fn spec_question_bytes(q: QuestionV) -> Result<Seq<u8>, DnsError> {
    match spec_encode_name(q.name) {
        Ok(nb) => Ok(nb + u16_be(q.type_) + u16_be(q.class)),
        Err(e) => Err(e),
    }
}

/// What decoding a question yields: the name (through the compression
/// table), then two 16-bit fields.
pub open spec fn spec_decode_question(buf: Seq<u8>, pos: int, table: Map<int, Seq<u8>>) -> Result<
    (QuestionV, int, Map<int, Seq<u8>>),
    DnsError,
> {
    match spec_decode_name(buf, pos, table) {
        Err(e) => Err(e),
        Ok((name, p, t)) => {
            if p + 4 > buf.len() {
                Err(DnsError::TruncatedInput)
            } else {
                Ok((QuestionV { name, type_: be16_at(buf, p), class: be16_at(buf, p + 2) },
                    p + 4, t))
            }
        },
    }
}

impl DNSQuestion {
    /// Serializes the question; fails only when a label of the name is too
    /// long to encode.
    pub fn to_bytes(&self) -> (r: Result<Vec<u8>, DnsError>)
        ensures
            match r {
                Ok(out) => spec_question_bytes(self@) == Ok::<Seq<u8>, DnsError>(out@),
                Err(e) => spec_question_bytes(self@) == Err::<Seq<u8>, DnsError>(e),
            },
    {
        let mut out = match encode_dns_name(&self.name) {
            Ok(b) => b,
            Err(e) => {
                return Err(e);
            },
        };
        write_u16(&mut out, self.type_);
        write_u16(&mut out, self.class);
        Ok(out)
    }

    /// Decodes one question at `*idx`, advancing `*idx` past it and
    /// registering its name in `decoded_names`.
    pub fn from_buffer(buffer: &Vec<u8>, idx: &mut usize, decoded_names: &mut NameTable) -> (r:
        Result<DNSQuestion, DnsError>)
        ensures
            match r {
                Ok(q) => {
                    &&& spec_decode_question(buffer@, *old(idx) as int, old(decoded_names)@)
                        == Ok::<(QuestionV, int, Map<int, Seq<u8>>), DnsError>(
                        (q@, *final(idx) as int, final(decoded_names)@))
                    &&& *old(idx) <= *final(idx) <= buffer@.len()
                },
                Err(e) => spec_decode_question(buffer@, *old(idx) as int, old(decoded_names)@)
                    == Err::<(QuestionV, int, Map<int, Seq<u8>>), DnsError>(e),
            },
    {
        let n: usize = buffer.len();
        let name = match decode_name(buffer, idx, decoded_names) {
            Ok(v) => v,
            Err(e) => {
                return Err(e);
            },
        };
        let pos: usize = *idx;
        if n - pos < 4 {
            return Err(DnsError::TruncatedInput);
        }
        let type_ = read_u16(buffer, pos);
        let class = read_u16(buffer, pos + 2);
        *idx = pos + 4;
        Ok(DNSQuestion { name, type_, class })
    }
}

/// The mathematical value of a resource record.
#[verifier::ext_equal]
pub struct RecordV {
    pub name: Seq<u8>,
    pub type_: u16,
    pub class: u16,
    pub ttl: u32,
    pub data: Seq<u8>,
}

/// One resource record: name, type, class, time-to-live and an opaque data
/// payload whose length is explicit on the wire.
#[derive(Debug, PartialEq, Eq)]
pub struct DNSRecord {
    pub name: Vec<u8>,
    pub type_: u16,
    pub class: u16,
    pub ttl: u32,
    pub data: Vec<u8>,
}

impl View for DNSRecord {
    type V = RecordV;

    open spec fn view(&self) -> RecordV {
        RecordV {
            name: self.name@,
            type_: self.type_,
            class: self.class,
            ttl: self.ttl,
            data: self.data@,
        }
    }
}

/// What decoding a record yields: the name, the three fixed fields, the
/// explicit data length and that many bytes of opaque payload.
pub open spec fn spec_decode_record(buf: Seq<u8>, pos: int, table: Map<int, Seq<u8>>) -> Result<
    (RecordV, int, Map<int, Seq<u8>>),
    DnsError,
> {
    match spec_decode_name(buf, pos, table) {
        Err(e) => Err(e),
        Ok((name, p, t)) => {
            if p + 10 > buf.len() {
                Err(DnsError::TruncatedInput)
            } else {
                let dlen = be16_at(buf, p + 8) as int;
                if p + 10 + dlen > buf.len() {
                    Err(DnsError::TruncatedInput)
                } else {
                    Ok((RecordV {
                        name,
                        type_: be16_at(buf, p),
                        class: be16_at(buf, p + 2),
                        ttl: be32_at(buf, p + 4),
                        data: buf.subrange(p + 10, p + 10 + dlen),
                    }, p + 10 + dlen, t))
                }
            }
        },
    }
}

impl DNSRecord {
    /// Decodes one record at `*idx`, advancing `*idx` past it and
    /// registering its name in `decoded_names`.
    pub fn from_buffer(buffer: &Vec<u8>, idx: &mut usize, decoded_names: &mut NameTable) -> (r:
        Result<DNSRecord, DnsError>)
        ensures
            match r {
                Ok(rec) => {
                    &&& spec_decode_record(buffer@, *old(idx) as int, old(decoded_names)@)
                        == Ok::<(RecordV, int, Map<int, Seq<u8>>), DnsError>(
                        (rec@, *final(idx) as int, final(decoded_names)@))
                    &&& *old(idx) <= *final(idx) <= buffer@.len()
                },
                Err(e) => spec_decode_record(buffer@, *old(idx) as int, old(decoded_names)@)
                    == Err::<(RecordV, int, Map<int, Seq<u8>>), DnsError>(e),
            },
    {
        let n: usize = buffer.len();
        let name = match decode_name(buffer, idx, decoded_names) {
            Ok(v) => v,
            Err(e) => {
                return Err(e);
            },
        };
        let pos: usize = *idx;
        if n - pos < 10 {
            return Err(DnsError::TruncatedInput);
        }
        let type_ = read_u16(buffer, pos);
        let class = read_u16(buffer, pos + 2);
        let ttl = read_u32(buffer, pos + 4);
        let data_len = read_u16(buffer, pos + 8);
        let data_start: usize = pos + 10;
        if (data_len as usize) > n - data_start {
            return Err(DnsError::TruncatedInput);
        }
        let data = read_bytes(buffer, data_start, data_len as usize);
        *idx = data_start + data_len as usize;
        Ok(DNSRecord { name, type_, class, ttl, data })
    }
}

/// What decoding `count` questions in a row yields, threading the cursor
/// and the compression table from each to the next.
pub open spec fn spec_decode_questions(
    buf: Seq<u8>,
    pos: int,
    table: Map<int, Seq<u8>>,
    count: int,
) -> Result<(Seq<QuestionV>, int, Map<int, Seq<u8>>), DnsError>
    decreases count,
{
    if count <= 0 {
        Ok((Seq::empty(), pos, table))
    } else {
        match spec_decode_question(buf, pos, table) {
            Err(e) => Err(e),
            Ok((q, p, t)) => match spec_decode_questions(buf, p, t, count - 1) {
                Err(e) => Err(e),
                Ok((qs, p2, t2)) => Ok((seq![q] + qs, p2, t2)),
            },
        }
    }
}

/// What decoding `count` records in a row yields.
pub open spec fn spec_decode_records(
    buf: Seq<u8>,
    pos: int,
    table: Map<int, Seq<u8>>,
    count: int,
) -> Result<(Seq<RecordV>, int, Map<int, Seq<u8>>), DnsError>
    decreases count,
{
    if count <= 0 {
        Ok((Seq::empty(), pos, table))
    } else {
        match spec_decode_record(buf, pos, table) {
            Err(e) => Err(e),
            Ok((rec, p, t)) => match spec_decode_records(buf, p, t, count - 1) {
                Err(e) => Err(e),
                Ok((rs, p2, t2)) => Ok((seq![rec] + rs, p2, t2)),
            },
        }
    }
}

/// `prefix` prepended to the questions of a decode outcome.
pub open spec fn prepend_questions(
    prefix: Seq<QuestionV>,
    r: Result<(Seq<QuestionV>, int, Map<int, Seq<u8>>), DnsError>,
) -> Result<(Seq<QuestionV>, int, Map<int, Seq<u8>>), DnsError> {
    match r {
        Ok((qs, p, t)) => Ok((prefix + qs, p, t)),
        Err(e) => Err(e),
    }
}

/// `prefix` prepended to the records of a decode outcome.
pub open spec fn prepend_records(
    prefix: Seq<RecordV>,
    r: Result<(Seq<RecordV>, int, Map<int, Seq<u8>>), DnsError>,
) -> Result<(Seq<RecordV>, int, Map<int, Seq<u8>>), DnsError> {
    match r {
        Ok((rs, p, t)) => Ok((prefix + rs, p, t)),
        Err(e) => Err(e),
    }
}

/// Decodes `count` questions starting at `start`, consuming the table and
/// handing back the advanced cursor and table.
pub fn decode_questions(buffer: &Vec<u8>, start: usize, table: NameTable, count: u16) -> (r:
    Result<(Vec<DNSQuestion>, usize, NameTable), DnsError>)
    requires
        start <= buffer@.len(),
    ensures
        match r {
            Ok((qs, end, t)) => {
                &&& spec_decode_questions(buffer@, start as int, table@, count as int)
                    == Ok::<(Seq<QuestionV>, int, Map<int, Seq<u8>>), DnsError>(
                    (qs@.map_values(|q: DNSQuestion| q@), end as int, t@))
                &&& end <= buffer@.len()
            },
            Err(e) => spec_decode_questions(buffer@, start as int, table@, count as int)
                == Err::<(Seq<QuestionV>, int, Map<int, Seq<u8>>), DnsError>(e),
        },
{
    let ghost t0 = table@;
    let mut idx: usize = start;
    let mut tbl = table;
    let mut out: Vec<DNSQuestion> = Vec::new();
    let mut i: u16 = 0;
    let mut err: Option<DnsError> = None;
    proof {
        assert(out@.map_values(|q: DNSQuestion| q@) =~= Seq::<QuestionV>::empty());
    }
    while i < count
        invariant_except_break
            i <= count,
            idx <= buffer@.len(),
            err is None,
            spec_decode_questions(buffer@, start as int, t0, count as int) == prepend_questions(
                out@.map_values(|q: DNSQuestion| q@),
                spec_decode_questions(buffer@, idx as int, tbl@, count - i)),
        ensures
            match err {
                Some(e) => spec_decode_questions(buffer@, start as int, t0, count as int)
                    == Err::<(Seq<QuestionV>, int, Map<int, Seq<u8>>), DnsError>(e),
                None => {
                    &&& i == count
                    &&& idx <= buffer@.len()
                    &&& spec_decode_questions(buffer@, start as int, t0, count as int)
                        == prepend_questions(out@.map_values(|q: DNSQuestion| q@),
                        spec_decode_questions(buffer@, idx as int, tbl@, 0))
                },
            },
        decreases count - i,
    {
        let ghost prefix = out@.map_values(|q: DNSQuestion| q@);
        let ghost idx0 = idx as int;
        let ghost tbl0 = tbl@;
        let q = match DNSQuestion::from_buffer(buffer, &mut idx, &mut tbl) {
            Ok(q) => q,
            Err(e) => {
                proof {
                    assert(spec_decode_questions(buffer@, idx0, tbl0, count - i)
                        == Err::<(Seq<QuestionV>, int, Map<int, Seq<u8>>), DnsError>(e));
                }
                err = Some(e);
                break;
            },
        };
        proof {
            let rest = spec_decode_questions(buffer@, idx as int, tbl@, count - i - 1);
            if let Ok((qs2, p2, t2)) = rest {
                assert(prefix + (seq![q@] + qs2) =~= prefix.push(q@) + qs2);
            }
        }
        out.push(q);
        i = i + 1;
        proof {
            assert(out@.map_values(|q: DNSQuestion| q@) =~= prefix.push(q@));
        }
    }
    match err {
        Some(e) => Err(e),
        None => {
            proof {
                let fin = spec_decode_questions(buffer@, idx as int, tbl@, 0);
                assert(fin == Ok::<(Seq<QuestionV>, int, Map<int, Seq<u8>>), DnsError>(
                    (Seq::empty(), idx as int, tbl@)));
                assert(out@.map_values(|q: DNSQuestion| q@) + Seq::<QuestionV>::empty()
                    =~= out@.map_values(|q: DNSQuestion| q@));
            }
            Ok((out, idx, tbl))
        },
    }
}

/// Decodes `count` records starting at `start`, consuming the table and
/// handing back the advanced cursor and table.
pub fn decode_records(buffer: &Vec<u8>, start: usize, table: NameTable, count: u16) -> (r:
    Result<(Vec<DNSRecord>, usize, NameTable), DnsError>)
    requires
        start <= buffer@.len(),
    ensures
        match r {
            Ok((rs, end, t)) => {
                &&& spec_decode_records(buffer@, start as int, table@, count as int)
                    == Ok::<(Seq<RecordV>, int, Map<int, Seq<u8>>), DnsError>(
                    (rs@.map_values(|x: DNSRecord| x@), end as int, t@))
                &&& end <= buffer@.len()
            },
            Err(e) => spec_decode_records(buffer@, start as int, table@, count as int)
                == Err::<(Seq<RecordV>, int, Map<int, Seq<u8>>), DnsError>(e),
        },
{
    let ghost t0 = table@;
    let mut idx: usize = start;
    let mut tbl = table;
    let mut out: Vec<DNSRecord> = Vec::new();
    let mut i: u16 = 0;
    let mut err: Option<DnsError> = None;
    proof {
        assert(out@.map_values(|x: DNSRecord| x@) =~= Seq::<RecordV>::empty());
    }
    while i < count
        invariant_except_break
            i <= count,
            idx <= buffer@.len(),
            err is None,
            spec_decode_records(buffer@, start as int, t0, count as int) == prepend_records(
                out@.map_values(|x: DNSRecord| x@),
                spec_decode_records(buffer@, idx as int, tbl@, count - i)),
        ensures
            match err {
                Some(e) => spec_decode_records(buffer@, start as int, t0, count as int)
                    == Err::<(Seq<RecordV>, int, Map<int, Seq<u8>>), DnsError>(e),
                None => {
                    &&& i == count
                    &&& idx <= buffer@.len()
                    &&& spec_decode_records(buffer@, start as int, t0, count as int)
                        == prepend_records(out@.map_values(|x: DNSRecord| x@),
                        spec_decode_records(buffer@, idx as int, tbl@, 0))
                },
            },
        decreases count - i,
    {
        let ghost prefix = out@.map_values(|x: DNSRecord| x@);
        let ghost idx0 = idx as int;
        let ghost tbl0 = tbl@;
        let rec = match DNSRecord::from_buffer(buffer, &mut idx, &mut tbl) {
            Ok(rec) => rec,
            Err(e) => {
                proof {
                    assert(spec_decode_records(buffer@, idx0, tbl0, count - i)
                        == Err::<(Seq<RecordV>, int, Map<int, Seq<u8>>), DnsError>(e));
                }
                err = Some(e);
                break;
            },
        };
        proof {
            let rest = spec_decode_records(buffer@, idx as int, tbl@, count - i - 1);
            if let Ok((rs2, p2, t2)) = rest {
                assert(prefix + (seq![rec@] + rs2) =~= prefix.push(rec@) + rs2);
            }
        }
        out.push(rec);
        i = i + 1;
        proof {
            assert(out@.map_values(|x: DNSRecord| x@) =~= prefix.push(rec@));
        }
    }
    match err {
        Some(e) => Err(e),
        None => {
            proof {
                let fin = spec_decode_records(buffer@, idx as int, tbl@, 0);
                assert(fin == Ok::<(Seq<RecordV>, int, Map<int, Seq<u8>>), DnsError>(
                    (Seq::empty(), idx as int, tbl@)));
                assert(out@.map_values(|x: DNSRecord| x@) + Seq::<RecordV>::empty()
                    =~= out@.map_values(|x: DNSRecord| x@));
            }
            Ok((out, idx, tbl))
        },
    }
}

/// The mathematical value of a whole message.
#[verifier::ext_equal]
pub struct PacketV {
    pub header: DNSHeader,
    pub questions: Seq<QuestionV>,
    pub answers: Seq<RecordV>,
    pub authorities: Seq<RecordV>,
    pub additionals: Seq<RecordV>,
}

/// A whole message: header plus the four sections.
#[derive(Debug, PartialEq, Eq)]
pub struct DNSPacket {
    pub header: DNSHeader,
    pub questions: Vec<DNSQuestion>,
    pub answers: Vec<DNSRecord>,
    pub authorities: Vec<DNSRecord>,
    pub additionals: Vec<DNSRecord>,
}

impl View for DNSPacket {
    type V = PacketV;

    open spec fn view(&self) -> PacketV {
        PacketV {
            header: self.header,
            questions: self.questions@.map_values(|q: DNSQuestion| q@),
            answers: self.answers@.map_values(|x: DNSRecord| x@),
            authorities: self.authorities@.map_values(|x: DNSRecord| x@),
            additionals: self.additionals@.map_values(|x: DNSRecord| x@),
        }
    }
}

/// What decoding a whole message yields, along with the position just past
/// the last record: header, then exactly the counted questions and records,
/// one cursor and one compression table shared throughout.
pub open spec fn spec_decode_message_at(buf: Seq<u8>) -> Result<(PacketV, int), DnsError> {
    match spec_decode_header(buf, 0) {
        Err(e) => Err(e),
        Ok((h, p0)) => match spec_decode_questions(buf, p0, Map::empty(),
            h.num_questions as int) {
            Err(e) => Err(e),
            Ok((qs, p1, t1)) => match spec_decode_records(buf, p1, t1, h.num_answers as int) {
                Err(e) => Err(e),
                Ok((ans, p2, t2)) => match spec_decode_records(buf, p2, t2,
                    h.num_authorities as int) {
                    Err(e) => Err(e),
                    Ok((auth, p3, t3)) => match spec_decode_records(buf, p3, t3,
                        h.num_additionals as int) {
                        Err(e) => Err(e),
                        Ok((add, p4, t4)) => Ok((PacketV {
                            header: h,
                            questions: qs,
                            answers: ans,
                            authorities: auth,
                            additionals: add,
                        }, p4)),
                    },
                },
            },
        },
    }
}

/// What decoding a whole message yields.
pub open spec fn spec_decode_message(buf: Seq<u8>) -> Result<PacketV, DnsError> {
    match spec_decode_message_at(buf) {
        Ok((p, end)) => Ok(p),
        Err(e) => Err(e),
    }
}

/// Compression round trip inside one message: once the first question's
/// name (which begins at offset 12) has been decoded, a later name that is
/// just a pointer to that offset decodes to the identical name.
pub proof fn lemma_compressed_question_name(buf: Seq<u8>, q2: int)
    requires
        spec_decode_question(buf, 12, Map::<int, Seq<u8>>::empty()) is Ok,
        0 <= q2,
        q2 + 2 <= buf.len(),
        buf[q2] == 0xc0,
        buf[q2 + 1] == 12,
    ensures
        ({
            let (q1, p, t) = spec_decode_question(buf, 12, Map::<int, Seq<u8>>::empty())->Ok_0;
            spec_decode_name(buf, q2, t) == Ok::<(Seq<u8>, int, Map<int, Seq<u8>>), DnsError>(
                (q1.name, q2 + 2, t.insert(q2, q1.name)))
        }),
{
    let (q1, p, t) = spec_decode_question(buf, 12, Map::<int, Seq<u8>>::empty())->Ok_0;
    assert(t == Map::<int, Seq<u8>>::empty().insert(12, q1.name));
    assert(t.contains_key(12) && t[12] == q1.name);
    crate::name::lemma_pointer_matches(buf, q2, t, 12);
}

/// A question decode that succeeds consumes at least one byte and stays
/// within the buffer.
pub proof fn lemma_question_bounds(buf: Seq<u8>, pos: int, table: Map<int, Seq<u8>>)
    requires
        spec_decode_question(buf, pos, table) is Ok,
    ensures
        pos < spec_decode_question(buf, pos, table)->Ok_0.1 <= buf.len(),
{
    crate::name::lemma_name_rec_bounds(buf, pos, table, Seq::empty());
}

/// Cutting the buffer before the end of a question turns its decode into
/// `TruncatedInput`; cutting at or after its end leaves it unchanged.
pub proof fn lemma_question_truncated(buf: Seq<u8>, pos: int, table: Map<int, Seq<u8>>, cut: int)
    requires
        spec_decode_question(buf, pos, table) is Ok,
        0 <= cut <= buf.len(),
    ensures
        cut < spec_decode_question(buf, pos, table)->Ok_0.1 ==> spec_decode_question(
            buf.take(cut), pos, table) == Err::<(QuestionV, int, Map<int, Seq<u8>>), DnsError>(
            DnsError::TruncatedInput),
        cut >= spec_decode_question(buf, pos, table)->Ok_0.1 ==> spec_decode_question(
            buf.take(cut), pos, table) == spec_decode_question(buf, pos, table),
{
    let t = buf.take(cut);
    crate::name::lemma_name_rec_bounds(buf, pos, table, Seq::empty());
    crate::name::lemma_name_rec_truncated(buf, pos, table, Seq::empty(), cut);
    let p = crate::name::spec_decode_name_rec(buf, pos, table, Seq::empty())->Ok_0.1;
    if cut >= p + 4 {
        assert(t[p] == buf[p]);
        assert(t[p + 1] == buf[p + 1]);
        assert(t[p + 2] == buf[p + 2]);
        assert(t[p + 3] == buf[p + 3]);
    }
}

/// A record decode that succeeds consumes at least one byte and stays
/// within the buffer.
pub proof fn lemma_record_bounds(buf: Seq<u8>, pos: int, table: Map<int, Seq<u8>>)
    requires
        spec_decode_record(buf, pos, table) is Ok,
    ensures
        pos < spec_decode_record(buf, pos, table)->Ok_0.1 <= buf.len(),
{
    crate::name::lemma_name_rec_bounds(buf, pos, table, Seq::empty());
}

/// Cutting the buffer before the end of a record turns its decode into
/// `TruncatedInput`; cutting at or after its end leaves it unchanged.
pub proof fn lemma_record_truncated(buf: Seq<u8>, pos: int, table: Map<int, Seq<u8>>, cut: int)
    requires
        spec_decode_record(buf, pos, table) is Ok,
        0 <= cut <= buf.len(),
    ensures
        cut < spec_decode_record(buf, pos, table)->Ok_0.1 ==> spec_decode_record(buf.take(cut),
            pos, table) == Err::<(RecordV, int, Map<int, Seq<u8>>), DnsError>(
            DnsError::TruncatedInput),
        cut >= spec_decode_record(buf, pos, table)->Ok_0.1 ==> spec_decode_record(buf.take(cut),
            pos, table) == spec_decode_record(buf, pos, table),
{
    let t = buf.take(cut);
    crate::name::lemma_name_rec_bounds(buf, pos, table, Seq::empty());
    crate::name::lemma_name_rec_truncated(buf, pos, table, Seq::empty(), cut);
    let p = crate::name::spec_decode_name_rec(buf, pos, table, Seq::empty())->Ok_0.1;
    if cut >= p + 10 {
        assert forall|k: int| 0 <= k < 10 implies #[trigger] t[p + k] == buf[p + k] by {}
        assert(be16_at(t, p + 8) == be16_at(buf, p + 8));
        let dlen = be16_at(buf, p + 8) as int;
        if cut >= p + 10 + dlen {
            assert(t.subrange(p + 10, p + 10 + dlen) =~= buf.subrange(p + 10, p + 10 + dlen));
            assert(be16_at(t, p) == be16_at(buf, p));
            assert(be16_at(t, p + 2) == be16_at(buf, p + 2));
            assert(be32_at(t, p + 4) == be32_at(buf, p + 4));
        }
    }
}

/// A run of question decodes never moves the cursor backwards or out of
/// the buffer.
pub proof fn lemma_questions_bounds(buf: Seq<u8>, pos: int, table: Map<int, Seq<u8>>, count: int)
    requires
        spec_decode_questions(buf, pos, table, count) is Ok,
        0 <= pos <= buf.len(),
    ensures
        pos <= spec_decode_questions(buf, pos, table, count)->Ok_0.1 <= buf.len(),
    decreases count,
{
    if count <= 0 {
    } else {
        let q = spec_decode_question(buf, pos, table);
        lemma_question_bounds(buf, pos, table);
        lemma_questions_bounds(buf, q->Ok_0.1, q->Ok_0.2, count - 1);
    }
}

/// Cutting the buffer before the end of a run of questions turns the run's
/// decode into `TruncatedInput`; cutting at or after its end leaves it
/// unchanged.
pub proof fn lemma_questions_truncated(
    buf: Seq<u8>,
    pos: int,
    table: Map<int, Seq<u8>>,
    count: int,
    cut: int,
)
    requires
        spec_decode_questions(buf, pos, table, count) is Ok,
        0 <= pos <= cut <= buf.len(),
    ensures
        cut < spec_decode_questions(buf, pos, table, count)->Ok_0.1 ==> spec_decode_questions(
            buf.take(cut), pos, table, count) == Err::<(Seq<QuestionV>, int, Map<int, Seq<u8>>),
            DnsError>(DnsError::TruncatedInput),
        cut >= spec_decode_questions(buf, pos, table, count)->Ok_0.1 ==> spec_decode_questions(
            buf.take(cut), pos, table, count) == spec_decode_questions(buf, pos, table, count),
    decreases count,
{
    if count <= 0 {
    } else {
        let q = spec_decode_question(buf, pos, table);
        lemma_question_bounds(buf, pos, table);
        lemma_question_truncated(buf, pos, table, cut);
        let p1 = q->Ok_0.1;
        let t1 = q->Ok_0.2;
        lemma_questions_bounds(buf, p1, t1, count - 1);
        if cut >= p1 {
            lemma_questions_truncated(buf, p1, t1, count - 1, cut);
        }
    }
}

/// A run of record decodes never moves the cursor backwards or out of the
/// buffer.
pub proof fn lemma_records_bounds(buf: Seq<u8>, pos: int, table: Map<int, Seq<u8>>, count: int)
    requires
        spec_decode_records(buf, pos, table, count) is Ok,
        0 <= pos <= buf.len(),
    ensures
        pos <= spec_decode_records(buf, pos, table, count)->Ok_0.1 <= buf.len(),
    decreases count,
{
    if count <= 0 {
    } else {
        let rec = spec_decode_record(buf, pos, table);
        lemma_record_bounds(buf, pos, table);
        lemma_records_bounds(buf, rec->Ok_0.1, rec->Ok_0.2, count - 1);
    }
}

/// Cutting the buffer before the end of a run of records turns the run's
/// decode into `TruncatedInput`; cutting at or after its end leaves it
/// unchanged.
pub proof fn lemma_records_truncated(
    buf: Seq<u8>,
    pos: int,
    table: Map<int, Seq<u8>>,
    count: int,
    cut: int,
)
    requires
        spec_decode_records(buf, pos, table, count) is Ok,
        0 <= pos <= cut <= buf.len(),
    ensures
        cut < spec_decode_records(buf, pos, table, count)->Ok_0.1 ==> spec_decode_records(
            buf.take(cut), pos, table, count) == Err::<(Seq<RecordV>, int, Map<int, Seq<u8>>),
            DnsError>(DnsError::TruncatedInput),
        cut >= spec_decode_records(buf, pos, table, count)->Ok_0.1 ==> spec_decode_records(
            buf.take(cut), pos, table, count) == spec_decode_records(buf, pos, table, count),
    decreases count,
{
    if count <= 0 {
    } else {
        let rec = spec_decode_record(buf, pos, table);
        lemma_record_bounds(buf, pos, table);
        lemma_record_truncated(buf, pos, table, cut);
        let p1 = rec->Ok_0.1;
        let t1 = rec->Ok_0.2;
        lemma_records_bounds(buf, p1, t1, count - 1);
        if cut >= p1 {
            lemma_records_truncated(buf, p1, t1, count - 1, cut);
        }
    }
}

/// Truncating a decodable message at any byte boundary before its end
/// makes the whole decode fail with `TruncatedInput` - never a partial
/// message, and never another error.
pub proof fn lemma_truncated_message(buf: Seq<u8>, cut: int)
    requires
        spec_decode_message_at(buf) is Ok,
        0 <= cut < spec_decode_message_at(buf)->Ok_0.1,
    ensures
        spec_decode_message(buf.take(cut)) == Err::<PacketV, DnsError>(DnsError::TruncatedInput),
{
    let t0 = Map::<int, Seq<u8>>::empty();
    let h = spec_decode_header(buf, 0)->Ok_0.0;
    let qres = spec_decode_questions(buf, 12, t0, h.num_questions as int);
    lemma_questions_bounds(buf, 12, t0, h.num_questions as int);
    let ares = spec_decode_records(buf, qres->Ok_0.1, qres->Ok_0.2, h.num_answers as int);
    lemma_records_bounds(buf, qres->Ok_0.1, qres->Ok_0.2, h.num_answers as int);
    let ures = spec_decode_records(buf, ares->Ok_0.1, ares->Ok_0.2, h.num_authorities as int);
    lemma_records_bounds(buf, ares->Ok_0.1, ares->Ok_0.2, h.num_authorities as int);
    lemma_records_bounds(buf, ures->Ok_0.1, ures->Ok_0.2, h.num_additionals as int);
    assert(cut <= buf.len());
    let t = buf.take(cut);
    if cut < 12 {
        assert(spec_decode_header(t, 0) == Err::<(DNSHeader, int), DnsError>(
            DnsError::TruncatedInput));
    } else {
        assert forall|k: int| 0 <= k < 12 implies #[trigger] t[k] == buf[k] by {
            assert(t[k] == buf[k]);
        }
        assert(be16_at(t, 0) == be16_at(buf, 0));
        assert(be16_at(t, 2) == be16_at(buf, 2));
        assert(be16_at(t, 4) == be16_at(buf, 4));
        assert(be16_at(t, 6) == be16_at(buf, 6));
        assert(be16_at(t, 8) == be16_at(buf, 8));
        assert(be16_at(t, 10) == be16_at(buf, 10));
        let h = spec_decode_header(buf, 0)->Ok_0.0;
        assert(spec_decode_header(t, 0) == Ok::<(DNSHeader, int), DnsError>((h, 12)));
        let t0 = Map::<int, Seq<u8>>::empty();
        let qres = spec_decode_questions(buf, 12, t0, h.num_questions as int);
        lemma_questions_bounds(buf, 12, t0, h.num_questions as int);
        lemma_questions_truncated(buf, 12, t0, h.num_questions as int, cut);
        let p1 = qres->Ok_0.1;
        let t1 = qres->Ok_0.2;
        let ares = spec_decode_records(buf, p1, t1, h.num_answers as int);
        lemma_records_bounds(buf, p1, t1, h.num_answers as int);
        if cut >= p1 {
            lemma_records_truncated(buf, p1, t1, h.num_answers as int, cut);
            let p2 = ares->Ok_0.1;
            let t2 = ares->Ok_0.2;
            let ures = spec_decode_records(buf, p2, t2, h.num_authorities as int);
            lemma_records_bounds(buf, p2, t2, h.num_authorities as int);
            if cut >= p2 {
                lemma_records_truncated(buf, p2, t2, h.num_authorities as int, cut);
                let p3 = ures->Ok_0.1;
                let t3 = ures->Ok_0.2;
                lemma_records_bounds(buf, p3, t3, h.num_additionals as int);
                if cut >= p3 {
                    lemma_records_truncated(buf, p3, t3, h.num_additionals as int, cut);
                }
            }
        }
    }
}

impl DNSPacket {
    /// Decodes a whole message buffer, or fails without returning any
    /// partial message.
    pub fn from_buffer(buffer: Vec<u8>) -> (r: Result<DNSPacket, DnsError>)
        ensures
            match r {
                Ok(p) => spec_decode_message(buffer@) == Ok::<PacketV, DnsError>(p@),
                Err(e) => spec_decode_message(buffer@) == Err::<PacketV, DnsError>(e),
            },
    {
        let mut idx: usize = 0;
        let decoded_names = NameTable::new();
        let header = match DNSHeader::from_buffer(&buffer, &mut idx) {
            Ok(h) => h,
            Err(e) => {
                return Err(e);
            },
        };
        let (questions, idx, decoded_names) = match decode_questions(&buffer, idx, decoded_names,
            header.num_questions) {
            Ok(v) => v,
            Err(e) => {
                return Err(e);
            },
        };
        let (answers, idx, decoded_names) = match decode_records(&buffer, idx, decoded_names,
            header.num_answers) {
            Ok(v) => v,
            Err(e) => {
                return Err(e);
            },
        };
        let (authorities, idx, decoded_names) = match decode_records(&buffer, idx, decoded_names,
            header.num_authorities) {
            Ok(v) => v,
            Err(e) => {
                return Err(e);
            },
        };
        let (additionals, idx, decoded_names) = match decode_records(&buffer, idx, decoded_names,
            header.num_additionals) {
            Ok(v) => v,
            Err(e) => {
                return Err(e);
            },
        };
        Ok(DNSPacket { header, questions, answers, authorities, additionals })
    }
}

} // verus!
