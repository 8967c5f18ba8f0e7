//! Building a query message and the round trip back through the decoder.
//!
//! A query is a header asking for recursion plus a single question of class
//! Internet. The transaction id is drawn at random; a caller that needs a
//! reproducible query supplies the id itself through `build_query_with_id`.

use vstd::prelude::*;

use rand::Rng;

use crate::bytes::{lemma_be16_roundtrip, u16_be};
use crate::error::DnsError;
use crate::message::{DNSHeader, DNSQuestion, PacketV, QuestionV, RecordV, lemma_header_roundtrip,
    spec_decode_header, spec_decode_message, spec_decode_message_at, spec_decode_question,
    spec_decode_questions, spec_decode_records, spec_header_bytes, spec_question_bytes};
use crate::name::{all_labels_text, encode_labels, labels_fit, lemma_decode_encoded_labels,
    lemma_join_split, spec_decode_name, spec_decode_name_rec, spec_encode_name, split_labels};

verus! {

/// The class code for the Internet.
pub const CLASS_IN: u16 = 1;

/// The header flag bit asking the server for recursion.
pub const FLAG_RECURSION_DESIRED: u16 = 0x0100;

/// Relies on rand::thread_rng and rand::Rng::gen_range: gen_range draws a
/// value uniformly from the given non-empty range.
#[verifier::external_body]
fn random_id() -> (r: u16)
    ensures
        r < 0xffff,
{
    rand::thread_rng().gen_range(0..65535)
}

/// The header a query carries: the given id, recursion desired, one
/// question, no records.
pub open spec fn spec_query_header(id: u16) -> DNSHeader {
    DNSHeader {
        id,
        flags: FLAG_RECURSION_DESIRED,
        num_questions: 1,
        num_answers: 0,
        num_authorities: 0,
        num_additionals: 0,
    }
}

/// The wire bytes of the query for `name` with `record_type` and
/// transaction `id`: encoded header, then the encoded single question.
pub open spec fn spec_build_query(name: Seq<u8>, record_type: u16, id: u16) -> Result<
    Seq<u8>,
    DnsError,
> {
    match spec_question_bytes(QuestionV { name, type_: record_type, class: CLASS_IN }) {
        Ok(qb) => Ok(spec_header_bytes(spec_query_header(id)) + qb),
        Err(e) => Err(e),
    }
}

/// Builds the query with a caller-chosen transaction id, for reproducible
/// queries; fails exactly when a label of the name exceeds 63 bytes.
pub fn build_query_with_id(domain_name: &Vec<u8>, record_type: u16, id: u16) -> (r: Result<
    Vec<u8>,
    DnsError,
>)
    ensures
        match r {
            Ok(out) => spec_build_query(domain_name@, record_type, id) == Ok::<Seq<u8>,
                DnsError>(out@),
            Err(e) => spec_build_query(domain_name@, record_type, id) == Err::<Seq<u8>,
                DnsError>(e),
        },
{
    let header = DNSHeader {
        id,
        flags: FLAG_RECURSION_DESIRED,
        num_questions: 1,
        num_answers: 0,
        num_authorities: 0,
        num_additionals: 0,
    };
    let name = crate::bytes::read_bytes(domain_name, 0, domain_name.len());
    proof {
        assert(name@ =~= domain_name@);
    }
    let question = DNSQuestion { name, type_: record_type, class: CLASS_IN };
    let mut bytes = header.to_bytes();
    let mut qb = match question.to_bytes() {
        Ok(b) => b,
        Err(e) => {
            return Err(e);
        },
    };
    let ghost qbv = qb@;
    bytes.append(&mut qb);
    proof {
        assert(bytes@ =~= spec_header_bytes(spec_query_header(id)) + qbv);
    }
    Ok(bytes)
}

/// Builds a query for `domain_name` and `record_type`: a random transaction
/// id, the recursion-desired flag, one question of class Internet, no
/// records. Fails exactly when a label of the name exceeds 63 bytes.
pub fn build_query(domain_name: &Vec<u8>, record_type: u16) -> (r: Result<Vec<u8>, DnsError>)
    ensures
        match r {
            Ok(out) => exists|id: u16| #[trigger] spec_build_query(domain_name@, record_type, id)
                == Ok::<Seq<u8>, DnsError>(out@),
            Err(e) => spec_encode_name(domain_name@) == Err::<Seq<u8>, DnsError>(e),
        },
{
    let id = random_id();
    let r = build_query_with_id(domain_name, record_type, id);
    proof {
        if r is Ok {
            assert(spec_build_query(domain_name@, record_type, id) == Ok::<Seq<u8>, DnsError>(
                r->Ok_0@));
        }
    }
    r
}

/// A name the encoder accepts and real resolvers allow: every label 1 to 63
/// bytes long and the whole encoded name at most 255 bytes.
pub open spec fn valid_query_name(name: Seq<u8>) -> bool {
    &&& forall|i: int| 0 <= i < split_labels(name).len() ==> 1 <= (#[trigger] split_labels(
        name)[i]).len() <= 63
    &&& encode_labels(split_labels(name)).len() + 1 <= 255
}

/// Round trip: for a valid domain name whose labels are acceptable text,
/// decoding the built query yields exactly the query header and one
/// question holding the original name (case preserved) and record type.
pub proof fn lemma_query_round_trip(name: Seq<u8>, record_type: u16, id: u16)
    requires
        valid_query_name(name),
    ensures
        spec_build_query(name, record_type, id) is Ok,
        all_labels_text(name) ==> spec_decode_message(spec_build_query(name, record_type,
            id)->Ok_0) == Ok::<PacketV, DnsError>(PacketV {
            header: spec_query_header(id),
            questions: seq![QuestionV { name, type_: record_type, class: CLASS_IN }],
            answers: Seq::empty(),
            authorities: Seq::empty(),
            additionals: Seq::empty(),
        }),
{
    let ls = split_labels(name);
    assert(labels_fit(ls));
    let el = encode_labels(ls);
    let enc = el + seq![0u8];
    assert(spec_encode_name(name) == Ok::<Seq<u8>, DnsError>(enc));
    let h = spec_query_header(id);
    let hb = spec_header_bytes(h);
    let qb = enc + u16_be(record_type) + u16_be(CLASS_IN);
    let bytes = hb + qb;
    assert(spec_build_query(name, record_type, id) == Ok::<Seq<u8>, DnsError>(bytes));
    if all_labels_text(name) {
        assert(hb.len() == 12);
        assert(bytes.len() == 12 + el.len() + 1 + 4);
        // The header comes back as it went in.
        assert(bytes.subrange(0, 12) =~= hb);
        lemma_header_roundtrip(h, bytes, 0);
        assert(spec_decode_header(bytes, 0) == Ok::<(DNSHeader, int), DnsError>((h, 12)));
        // The name decodes to its own labels.
        assert forall|k: int| 0 <= k < el.len() + 1 implies bytes.subrange(12, 12 + el.len() as int
            + 1)[k] == enc[k] by {
            assert(bytes.subrange(12, 12 + el.len() as int + 1)[k] == bytes[12 + k]);
        }
        assert(bytes.subrange(12, 12 + el.len() as int + 1) =~= enc);
        let t0 = Map::<int, Seq<u8>>::empty();
        lemma_decode_encoded_labels(bytes, 12, ls, Seq::empty(), t0);
        let p: int = 12 + el.len() as int + 1;
        assert(Seq::empty() + ls =~= ls);
        lemma_join_split(name);
        assert(spec_decode_name_rec(bytes, 12, t0, Seq::empty()) == Ok::<(Seq<u8>, int),
            DnsError>((name, p)));
        let t1 = t0.insert(12, name);
        assert(spec_decode_name(bytes, 12, t0) == Ok::<(Seq<u8>, int, Map<int, Seq<u8>>),
            DnsError>((name, p, t1)));
        // Type and class come back unchanged.
        assert(bytes[p] == u16_be(record_type)[0]);
        assert(bytes[p + 1] == u16_be(record_type)[1]);
        assert(bytes[p + 2] == u16_be(CLASS_IN)[0]);
        assert(bytes[p + 3] == u16_be(CLASS_IN)[1]);
        lemma_be16_roundtrip(bytes, p, record_type);
        lemma_be16_roundtrip(bytes, p + 2, CLASS_IN);
        let q = QuestionV { name, type_: record_type, class: CLASS_IN };
        assert(spec_decode_question(bytes, 12, t0) == Ok::<(QuestionV, int, Map<int, Seq<u8>>),
            DnsError>((q, p + 4, t1)));
        // One question, then three empty record sections.
        assert(spec_decode_questions(bytes, p + 4, t1, 0) == Ok::<(Seq<QuestionV>, int, Map<
            int, Seq<u8>>), DnsError>((Seq::empty(), p + 4, t1)));
        assert(seq![q] + Seq::<QuestionV>::empty() =~= seq![q]);
        assert(spec_decode_questions(bytes, 12, t0, 1) == Ok::<(Seq<QuestionV>, int, Map<int,
            Seq<u8>>), DnsError>((seq![q], p + 4, t1)));
        assert(spec_decode_records(bytes, p + 4, t1, 0) == Ok::<(Seq<RecordV>, int, Map<int,
            Seq<u8>>), DnsError>((Seq::empty(), p + 4, t1)));
        assert(spec_decode_message_at(bytes) == Ok::<(PacketV, int), DnsError>((PacketV {
            header: h,
            questions: seq![q],
            answers: Seq::empty(),
            authorities: Seq::empty(),
            additionals: Seq::empty(),
        }, p + 4)));
    }
}

} // verus!
