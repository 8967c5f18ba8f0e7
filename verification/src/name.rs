//! Domain-name encoding and decoding, including DNS name compression.
//!
//! A name travels in dotted form (`www.example.com`) and on the wire as a
//! sequence of length-prefixed labels ended by a zero byte. A length byte
//! whose top two bits are both set instead starts a 14-bit pointer to a name
//! decoded earlier in the same message; the pointer ends the name.

use vstd::prelude::*;

use crate::bytes::read_bytes;
use crate::error::DnsError;

verus! {

/// The byte separating labels in a name's dotted form.
pub const DOT: u8 = 46;

/// Whether a byte sequence is acceptable label text. Decoded labels must
/// satisfy it; its exact extension is fixed by `is_valid_text` below.
pub uninterp spec fn valid_text(bytes: Seq<u8>) -> bool;

/// Relies on core::str::from_utf8: it returns `Ok` exactly when the bytes
/// are valid UTF-8, which is what this codec accepts as label text.
#[verifier::external_body]
fn is_valid_text(bytes: &Vec<u8>) -> (r: bool)
    ensures
        r == valid_text(bytes@),
{
    core::str::from_utf8(bytes.as_slice()).is_ok()
}

/// Index of the first `DOT` in `name`, or `name.len()` if there is none.
pub open spec fn first_dot(name: Seq<u8>) -> nat
    decreases name.len(),
{
    if name.len() == 0 {
        0
    } else if name[0] == DOT {
        0
    } else {
        1 + first_dot(name.skip(1))
    }
}

/// `name` split on `DOT` into its labels; an empty `name` gives one empty
/// label, as splitting a string does.
pub open spec fn split_labels(name: Seq<u8>) -> Seq<Seq<u8>>
    decreases name.len(),
{
    let i = first_dot(name);
    if i >= name.len() {
        seq![name]
    } else {
        seq![name.take(i as int)] + split_labels(name.skip(i + 1 as int))
    }
}

/// The labels joined with `DOT` between them.
pub open spec fn join_labels(labels: Seq<Seq<u8>>) -> Seq<u8>
    decreases labels.len(),
{
    if labels.len() == 0 {
        Seq::empty()
    } else if labels.len() == 1 {
        labels[0]
    } else {
        labels[0] + seq![DOT] + join_labels(labels.skip(1))
    }
}

/// A name assembled from literal labels and, when a compression pointer
/// ended the name, the already-decoded name the pointer referred to.
pub open spec fn join_name(labels: Seq<Seq<u8>>, suffix: Option<Seq<u8>>) -> Seq<u8> {
    match suffix {
        Option::None => join_labels(labels),
        Option::Some(s) => if labels.len() == 0 {
            s
        } else {
            join_labels(labels) + seq![DOT] + s
        },
    }
}

pub proof fn lemma_first_dot(name: Seq<u8>)
    ensures
        first_dot(name) <= name.len(),
        first_dot(name) < name.len() ==> name[first_dot(name) as int] == DOT,
        forall|k: int| 0 <= k < first_dot(name) ==> name[k] != DOT,
    decreases name.len(),
{
    if name.len() == 0 {
    } else if name[0] == DOT {
    } else {
        lemma_first_dot(name.skip(1));
        let i = first_dot(name);
        assert(i == 1 + first_dot(name.skip(1)));
        if i < name.len() {
            assert(name[i as int] == name.skip(1)[i - 1]);
        }
        assert forall|k: int| 0 <= k < i implies name[k] != DOT by {
            if k > 0 {
                assert(name[k] == name.skip(1)[k - 1]);
            }
        }
    }
}

/// `first_dot` is the only index with no `DOT` before it that is either a
/// `DOT` or the end of the name.
pub proof fn lemma_first_dot_is(name: Seq<u8>, i: int)
    requires
        0 <= i <= name.len(),
        forall|k: int| 0 <= k < i ==> name[k] != DOT,
        i < name.len() ==> name[i] == DOT,
    ensures
        first_dot(name) == i,
{
    lemma_first_dot(name);
    let fd = first_dot(name) as int;
    if fd < i {
        assert(name[fd] == DOT);
        assert(name[fd] != DOT);
    } else if fd > i {
        assert(name[i] != DOT);
        assert(name[i] == DOT);
    }
}

/// Splitting never yields an empty label list.
pub proof fn lemma_split_nonempty(name: Seq<u8>)
    ensures
        split_labels(name).len() >= 1,
{
}

/// Joining the labels of a name gives the name back.
pub proof fn lemma_join_split(name: Seq<u8>)
    ensures
        join_labels(split_labels(name)) == name,
    decreases name.len(),
{
    lemma_first_dot(name);
    let i = first_dot(name);
    if i >= name.len() {
        assert(join_labels(seq![name]) == name);
    } else {
        let rest = name.skip(i + 1 as int);
        lemma_join_split(rest);
        lemma_split_nonempty(rest);
        let ls = seq![name.take(i as int)] + split_labels(rest);
        assert(ls[0] == name.take(i as int));
        assert(ls.skip(1) =~= split_labels(rest));
        assert(join_labels(ls) == name.take(i as int) + seq![DOT] + rest);
        assert(name.take(i as int) + seq![DOT] + rest =~= name);
    }
}

/// Appending one label extends the joined name by a separator and the label.
pub proof fn lemma_join_push(labels: Seq<Seq<u8>>, x: Seq<u8>)
    ensures
        join_labels(labels.push(x)) == join_name(labels, Option::Some(x)),
    decreases labels.len(),
{
    let p = labels.push(x);
    if labels.len() == 0 {
        assert(p.len() == 1);
        assert(p[0] == x);
    } else {
        lemma_join_push(labels.skip(1), x);
        assert(p.skip(1) =~= labels.skip(1).push(x));
        assert(p[0] == labels[0]);
        if labels.len() == 1 {
            assert(labels.skip(1).len() == 0);
            assert(join_labels(p) == labels[0] + seq![DOT] + x);
            assert(join_name(labels, Option::Some(x)) == labels[0] + seq![DOT] + x);
        } else {
            assert(join_labels(p) == labels[0] + seq![DOT] + (join_labels(labels.skip(1))
                + seq![DOT] + x));
            assert(labels[0] + seq![DOT] + (join_labels(labels.skip(1)) + seq![DOT] + x)
                =~= (labels[0] + seq![DOT] + join_labels(labels.skip(1))) + seq![DOT] + x);
        }
    }
}

/// Every label of the name acceptable as label text.
pub open spec fn all_labels_text(name: Seq<u8>) -> bool {
    forall|i: int| 0 <= i < split_labels(name).len() ==> valid_text(#[trigger] split_labels(
        name)[i])
}

/// Every label short enough for its length to fit in a wire length byte.
pub open spec fn labels_fit(labels: Seq<Seq<u8>>) -> bool {
    forall|i: int| 0 <= i < labels.len() ==> (#[trigger] labels[i]).len() <= 63
}

/// The wire bytes of `labels`: each label preceded by its length byte. The
/// terminating zero byte is not included here.
pub open spec fn encode_labels(labels: Seq<Seq<u8>>) -> Seq<u8>
    decreases labels.len(),
{
    if labels.len() == 0 {
        Seq::empty()
    } else {
        seq![labels[0].len() as u8] + labels[0] + encode_labels(labels.skip(1))
    }
}

pub proof fn lemma_encode_labels_push(labels: Seq<Seq<u8>>, x: Seq<u8>)
    ensures
        encode_labels(labels.push(x)) == encode_labels(labels) + seq![x.len() as u8] + x,
    decreases labels.len(),
{
    let p = labels.push(x);
    if labels.len() == 0 {
        assert(p[0] == x);
        assert(p.skip(1) =~= Seq::<Seq<u8>>::empty());
        assert(encode_labels(p.skip(1)) == Seq::<u8>::empty());
        assert(encode_labels(p) == seq![x.len() as u8] + x + encode_labels(p.skip(1)));
        assert(seq![x.len() as u8] + x + Seq::<u8>::empty()
            =~= encode_labels(labels) + seq![x.len() as u8] + x);
    } else {
        lemma_encode_labels_push(labels.skip(1), x);
        assert(p.skip(1) =~= labels.skip(1).push(x));
        assert(p[0] == labels[0]);
        assert(seq![labels[0].len() as u8] + labels[0] + (encode_labels(labels.skip(1))
            + seq![x.len() as u8] + x)
            =~= (seq![labels[0].len() as u8] + labels[0] + encode_labels(labels.skip(1)))
            + seq![x.len() as u8] + x);
    }
}

/// What encoding a name produces: the labels' wire bytes and the zero
/// terminator, or `LabelTooLong` when some label exceeds 63 bytes.
pub open spec fn spec_encode_name(name: Seq<u8>) -> Result<Seq<u8>, DnsError> {
    if labels_fit(split_labels(name)) {
        Ok(encode_labels(split_labels(name)) + seq![0u8])
    } else {
        Err(DnsError::LabelTooLong)
    }
}

/// Encodes a dotted name into length-prefixed labels ended by a zero byte.
/// Compression is never produced: the output is always the full name.
pub fn encode_dns_name(name: &Vec<u8>) -> (r: Result<Vec<u8>, DnsError>)
    ensures
        match r {
            Ok(out) => spec_encode_name(name@) == Ok::<Seq<u8>, DnsError>(out@),
            Err(e) => spec_encode_name(name@) == Err::<Seq<u8>, DnsError>(e),
        },
{
    let n: usize = name.len();
    let mut out: Vec<u8> = Vec::new();
    let mut start: usize = 0;
    let ghost mut done: Seq<Seq<u8>> = Seq::empty();
    proof {
        assert(name@.skip(0) =~= name@);
        assert(done + split_labels(name@) =~= split_labels(name@));
    }
    loop
        invariant
            start <= n,
            n == name@.len(),
            split_labels(name@) == done + split_labels(name@.skip(start as int)),
            out@ == encode_labels(done),
            labels_fit(done),
        decreases n - start,
    {
        let ghost rest = name@.skip(start as int);
        let mut j: usize = start;
        while j < n && name[j] != DOT
            invariant
                start <= j <= n,
                n == name@.len(),
                forall|k: int| start <= k < j ==> name@[k] != DOT,
            decreases n - j,
        {
            j = j + 1;
        }
        proof {
            assert forall|k: int| 0 <= k < j - start implies rest[k] != DOT by {
                assert(rest[k] == name@[start + k]);
            }
            if j < n {
                assert(rest[j - start] == name@[j as int]);
            }
            lemma_first_dot_is(rest, j - start);
        }
        if j - start > 63 {
            proof {
                let ls = split_labels(name@);
                if j == n {
                    assert(split_labels(rest) == seq![rest]);
                    assert(ls[done.len() as int] == rest);
                } else {
                    assert(split_labels(rest) == seq![rest.take(j - start)]
                        + split_labels(rest.skip(j - start + 1)));
                    assert(ls[done.len() as int] == rest.take(j - start));
                }
                assert(!labels_fit(ls));
            }
            return Err(DnsError::LabelTooLong);
        }
        let mut label = read_bytes(name, start, j - start);
        let ghost lab = label@;
        proof {
            assert(lab =~= rest.take(j - start));
            lemma_encode_labels_push(done, lab);
        }
        out.push((j - start) as u8);
        out.append(&mut label);
        proof {
            assert(out@ =~= encode_labels(done.push(lab)));
            done = done.push(lab);
        }
        if j == n {
            proof {
                assert(rest.take(j - start) =~= rest);
                assert(split_labels(rest) == seq![rest]);
                assert(done =~= split_labels(name@));
            }
            out.push(0);
            proof {
                assert(out@ =~= encode_labels(split_labels(name@)) + seq![0u8]);
            }
            return Ok(out);
        }
        proof {
            assert(split_labels(rest) == seq![rest.take(j - start)]
                + split_labels(rest.skip(j - start + 1)));
            assert(rest.skip(j - start + 1) =~= name@.skip(j + 1));
            assert(done + split_labels(name@.skip(j + 1)) =~= split_labels(name@));
        }
        start = j + 1;
    }
}

/// Whether a wire length byte announces a compression pointer: its top two
/// bits are both set.
pub fn is_compressed(byte: usize) -> (r: bool)
    ensures
        r == (byte & 0xc0 == 0xc0),
        byte < 256 ==> (r <==> byte >= 0xc0),
{
    proof {
        assert(byte < 256 ==> ((byte & 0xc0 == 0xc0) <==> byte >= 0xc0)) by (bit_vector);
    }
    byte & 0xc0 == 0xc0
}

/// The compression table of one decode call: byte offsets within the
/// message mapped to the full name decoded starting there. Built while one
/// message is decoded and dropped afterwards.
pub struct NameTable {
    entries: Vec<(usize, Vec<u8>)>,
}

/// The mapping a list of insertions denotes; a later entry overrides an
/// earlier one with the same key.
pub open spec fn entries_view(entries: Seq<(usize, Vec<u8>)>) -> Map<int, Seq<u8>>
    decreases entries.len(),
{
    if entries.len() == 0 {
        Map::<int, Seq<u8>>::empty()
    } else {
        entries_view(entries.drop_last()).insert(entries.last().0 as int, entries.last().1@)
    }
}

impl View for NameTable {
    type V = Map<int, Seq<u8>>;

    closed spec fn view(&self) -> Map<int, Seq<u8>> {
        entries_view(self.entries@)
    }
}

impl NameTable {
    /// An empty table: no offset has been decoded yet.
    pub fn new() -> (r: NameTable)
        ensures
            r@ == Map::<int, Seq<u8>>::empty(),
    {
        NameTable { entries: Vec::new() }
    }

    /// Looks up the name registered for `key`, copying it out.
    pub fn get(&self, key: usize) -> (r: Option<Vec<u8>>)
        ensures
            match r {
                Some(v) => self@.contains_key(key as int) && v@ == self@[key as int],
                None => !self@.contains_key(key as int),
            },
    {
        let mut i: usize = self.entries.len();
        proof {
            assert(self.entries@.take(i as int) =~= self.entries@);
        }
        while i > 0
            invariant
                i <= self.entries@.len(),
                self@.contains_key(key as int) == entries_view(
                    self.entries@.take(i as int)).contains_key(key as int),
                self@.contains_key(key as int) ==> self@[key as int] == entries_view(
                    self.entries@.take(i as int))[key as int],
            decreases i,
        {
            i = i - 1;
            proof {
                assert(self.entries@.take(i + 1).drop_last() =~= self.entries@.take(i as int));
                assert(self.entries@.take(i + 1).last() == self.entries@[i as int]);
            }
            if self.entries[i].0 == key {
                let v = read_bytes(&self.entries[i].1, 0, self.entries[i].1.len());
                proof {
                    assert(v@ =~= self.entries@[i as int].1@);
                }
                return Some(v);
            }
        }
        proof {
            assert(self.entries@.take(0) =~= Seq::<(usize, Vec<u8>)>::empty());
        }
        None
    }

    /// Registers `key -> value`, copying the name in.
    pub fn insert(&mut self, key: usize, value: &Vec<u8>)
        ensures
            final(self)@ == old(self)@.insert(key as int, value@),
    {
        let v = read_bytes(value, 0, value.len());
        proof {
            assert(v@ =~= value@);
        }
        self.entries.push((key, v));
        proof {
            assert(self.entries@.drop_last() =~= old(self).entries@);
            assert(self.entries@.last() == (key, v));
        }
    }
}

/// What decoding a name starting at `pos` yields, with `labels` already
/// accumulated: the finished name and the position after it, or the error.
/// A pointer is resolved through `table` and ends the name; registration of
/// the finished name is not part of this function (see `spec_decode_name`).
pub open spec fn spec_decode_name_rec(
    buf: Seq<u8>,
    pos: int,
    table: Map<int, Seq<u8>>,
    labels: Seq<Seq<u8>>,
) -> Result<(Seq<u8>, int), DnsError>
    decreases buf.len() - pos,
{
    if pos < 0 || pos >= buf.len() {
        Err(DnsError::TruncatedInput)
    } else {
        let len = buf[pos] as int;
        if len >= 0xc0 {
            if pos + 1 >= buf.len() {
                Err(DnsError::TruncatedInput)
            } else {
                let ptr = (buf[pos] & 0x3f) * 256 + buf[pos + 1];
                if table.contains_key(ptr) {
                    Ok((join_name(labels, Option::Some(table[ptr])), pos + 2))
                } else {
                    Err(DnsError::DanglingPointer)
                }
            }
        } else if len == 0 {
            Ok((join_name(labels, Option::None), pos + 1))
        } else if pos + 1 + len > buf.len() {
            Err(DnsError::TruncatedInput)
        } else {
            let label = buf.subrange(pos + 1, pos + 1 + len);
            if valid_text(label) {
                spec_decode_name_rec(buf, pos + 1 + len, table, labels.push(label))
            } else {
                Err(DnsError::InvalidEncoding)
            }
        }
    }
}

/// Decoding the wire form of uncompressed labels yields exactly those
/// labels, whatever the table and whatever was accumulated before.
pub proof fn lemma_decode_encoded_labels(
    buf: Seq<u8>,
    pos: int,
    labels: Seq<Seq<u8>>,
    acc: Seq<Seq<u8>>,
    table: Map<int, Seq<u8>>,
)
    requires
        0 <= pos,
        forall|i: int| 0 <= i < labels.len() ==> 1 <= (#[trigger] labels[i]).len() <= 63
            && valid_text(labels[i]),
        pos + encode_labels(labels).len() + 1 <= buf.len(),
        buf.subrange(pos, pos + encode_labels(labels).len() + 1) == encode_labels(labels)
            + seq![0u8],
    ensures
        spec_decode_name_rec(buf, pos, table, acc) == Ok::<(Seq<u8>, int), DnsError>(
            (join_labels(acc + labels), pos + encode_labels(labels).len() + 1)),
    decreases labels.len(),
{
    let el = encode_labels(labels);
    let win = buf.subrange(pos, pos + el.len() + 1);
    if labels.len() == 0 {
        assert(el.len() == 0);
        assert(buf[pos] == win[0]);
        assert(buf[pos] == 0);
        assert(acc + labels =~= acc);
        assert(spec_decode_name_rec(buf, pos, table, acc) == Ok::<(Seq<u8>, int), DnsError>(
            (join_name(acc, Option::None), pos + 1)));
    } else {
        let l0 = labels[0];
        let rest = labels.skip(1);
        let el2 = encode_labels(rest);
        assert(el == seq![l0.len() as u8] + l0 + el2);
        assert(el.len() == 1 + l0.len() + el2.len());
        assert(buf[pos] == win[0]);
        assert(win[0] == el[0]);
        assert(el[0] == l0.len() as u8);
        assert(1 <= buf[pos] <= 63);
        let len = buf[pos] as int;
        assert(len == l0.len());
        assert forall|k: int| 0 <= k < len implies buf[pos + 1 + k] == l0[k] by {
            assert(buf[pos + 1 + k] == win[1 + k]);
            assert(el[1 + k] == l0[k]);
        }
        assert(buf.subrange(pos + 1, pos + 1 + len) =~= l0);
        assert(valid_text(l0));
        let pos2 = pos + 1 + len;
        assert forall|k: int| 0 <= k < el2.len() + 1 implies buf.subrange(pos2, pos2 + el2.len()
            + 1)[k] == (el2 + seq![0u8])[k] by {
            assert(buf.subrange(pos2, pos2 + el2.len() + 1)[k] == buf[pos2 + k]);
            assert(buf[pos2 + k] == win[1 + len + k]);
            assert((el + seq![0u8])[1 + len + k] == (el2 + seq![0u8])[k]);
        }
        assert(buf.subrange(pos2, pos2 + el2.len() + 1) =~= el2 + seq![0u8]);
        lemma_decode_encoded_labels(buf, pos2, rest, acc.push(l0), table);
        assert(acc.push(l0) + rest =~= acc + labels);
        assert(spec_decode_name_rec(buf, pos, table, acc) == spec_decode_name_rec(buf, pos2,
            table, acc.push(l0)));
    }
}

/// A name decode that succeeds consumes at least one byte and stays within
/// the buffer.
pub proof fn lemma_name_rec_bounds(buf: Seq<u8>, pos: int, table: Map<int, Seq<u8>>,
    acc: Seq<Seq<u8>>)
    requires
        spec_decode_name_rec(buf, pos, table, acc) is Ok,
    ensures
        pos < spec_decode_name_rec(buf, pos, table, acc)->Ok_0.1 <= buf.len(),
    decreases buf.len() - pos,
{
    let len = buf[pos] as int;
    if len >= 0xc0 || len == 0 {
    } else {
        let label = buf.subrange(pos + 1, pos + 1 + len);
        lemma_name_rec_bounds(buf, pos + 1 + len, table, acc.push(label));
    }
}

/// Cutting the buffer before the end of a name turns its decode into
/// `TruncatedInput`; cutting at or after its end leaves it unchanged. A
/// pointer target is resolved through the table, never reread from the
/// buffer, so only the name's own bytes matter.
pub proof fn lemma_name_rec_truncated(
    buf: Seq<u8>,
    pos: int,
    table: Map<int, Seq<u8>>,
    acc: Seq<Seq<u8>>,
    cut: int,
)
    requires
        spec_decode_name_rec(buf, pos, table, acc) is Ok,
        0 <= cut <= buf.len(),
    ensures
        cut < spec_decode_name_rec(buf, pos, table, acc)->Ok_0.1
            ==> spec_decode_name_rec(buf.take(cut), pos, table, acc)
            == Err::<(Seq<u8>, int), DnsError>(DnsError::TruncatedInput),
        cut >= spec_decode_name_rec(buf, pos, table, acc)->Ok_0.1
            ==> spec_decode_name_rec(buf.take(cut), pos, table, acc)
            == spec_decode_name_rec(buf, pos, table, acc),
    decreases buf.len() - pos,
{
    let t = buf.take(cut);
    let end = spec_decode_name_rec(buf, pos, table, acc)->Ok_0.1;
    lemma_name_rec_bounds(buf, pos, table, acc);
    if cut <= pos {
        assert(cut < end);
        assert(spec_decode_name_rec(t, pos, table, acc) == Err::<(Seq<u8>, int), DnsError>(
            DnsError::TruncatedInput));
    } else {
        assert(t[pos] == buf[pos]);
        let len = buf[pos] as int;
        if len >= 0xc0 {
            assert(end == pos + 2);
            if cut < pos + 2 {
                assert(pos + 1 >= t.len());
            } else {
                assert(t[pos + 1] == buf[pos + 1]);
            }
        } else if len == 0 {
            assert(end == pos + 1);
        } else {
            let pos2 = pos + 1 + len;
            let label = buf.subrange(pos + 1, pos2);
            lemma_name_rec_bounds(buf, pos2, table, acc.push(label));
            assert(end > pos2);
            if cut < pos2 {
                assert(pos + 1 + len > t.len());
                assert(spec_decode_name_rec(t, pos, table, acc) == Err::<(Seq<u8>, int),
                    DnsError>(DnsError::TruncatedInput));
            } else {
                assert(t.subrange(pos + 1, pos2) =~= label);
                lemma_name_rec_truncated(buf, pos2, table, acc.push(label), cut);
            }
        }
    }
}

/// A name that is just a pointer to an offset already in the table decodes
/// to exactly the name registered there: the compressed and the original
/// occurrence yield identical names.
pub proof fn lemma_pointer_matches(buf: Seq<u8>, pos: int, table: Map<int, Seq<u8>>, target: int)
    requires
        0 <= pos,
        pos + 2 <= buf.len(),
        0 <= target < 0x4000,
        buf[pos] == (0xc0 + target / 256) as u8,
        buf[pos + 1] == (target % 256) as u8,
        table.contains_key(target),
    ensures
        spec_decode_name(buf, pos, table) == Ok::<(Seq<u8>, int, Map<int, Seq<u8>>), DnsError>(
            (table[target], pos + 2, table.insert(pos, table[target]))),
{
    assert(target / 256 < 64 && target / 256 >= 0) by (nonlinear_arith)
        requires 0 <= target < 0x4000,
    ;
    assert(target % 256 < 256 && target % 256 >= 0) by (nonlinear_arith);
    let b = buf[pos];
    let h = (target / 256) as u8;
    assert(b == 0xc0 + h);
    assert(b & 0x3f == h) by (bit_vector)
        requires b == 0xc0 + h, h < 64,
    ;
    assert((b & 0x3f) * 256 + buf[pos + 1] == (target / 256) * 256 + target % 256);
    assert((target / 256) * 256 + target % 256 == target) by (nonlinear_arith);
    assert(join_name(Seq::empty(), Option::Some(table[target])) == table[target]);
}

/// A pointer met while no name has been decoded yet (the table is empty)
/// fails with `DanglingPointer`.
pub proof fn lemma_dangling_pointer(buf: Seq<u8>, pos: int)
    requires
        0 <= pos,
        pos + 2 <= buf.len(),
        buf[pos] >= 0xc0,
    ensures
        spec_decode_name(buf, pos, Map::<int, Seq<u8>>::empty())
            == Err::<(Seq<u8>, int, Map<int, Seq<u8>>), DnsError>(DnsError::DanglingPointer),
{
}

/// What one name decode does to the whole decode state: on success the
/// finished name is registered under the offset where the decode began.
pub open spec fn spec_decode_name(buf: Seq<u8>, pos: int, table: Map<int, Seq<u8>>) -> Result<
    (Seq<u8>, int, Map<int, Seq<u8>>),
    DnsError,
> {
    match spec_decode_name_rec(buf, pos, table, Seq::empty()) {
        Ok((name, end)) => Ok((name, end, table.insert(pos, name))),
        Err(e) => Err(e),
    }
}

/// Decodes one name at `*idx`, advancing `*idx` past it and registering the
/// result in `decoded_names`. On an error nothing is changed and no partial
/// name escapes.
pub fn decode_name(buffer: &Vec<u8>, idx: &mut usize, decoded_names: &mut NameTable) -> (r:
    Result<Vec<u8>, DnsError>)
    ensures
        match r {
            Ok(name) => {
                &&& spec_decode_name(buffer@, *old(idx) as int, old(decoded_names)@)
                    == Ok::<(Seq<u8>, int, Map<int, Seq<u8>>), DnsError>(
                    (name@, *final(idx) as int, final(decoded_names)@))
                &&& *old(idx) <= *final(idx) <= buffer@.len()
            },
            Err(e) => {
                &&& spec_decode_name(buffer@, *old(idx) as int, old(decoded_names)@)
                    == Err::<(Seq<u8>, int, Map<int, Seq<u8>>), DnsError>(e)
                &&& *final(idx) == *old(idx)
                &&& final(decoded_names)@ == old(decoded_names)@
            },
        },
{
    let n: usize = buffer.len();
    let start: usize = *idx;
    let ghost t0 = decoded_names@;
    let mut pos: usize = start;
    let mut name: Vec<u8> = Vec::new();
    let mut has_labels: bool = false;
    let mut err: Option<DnsError> = None;
    let ghost mut labels: Seq<Seq<u8>> = Seq::empty();
    loop
        invariant_except_break
            start <= pos,
            name@ == join_labels(labels),
            has_labels <==> labels.len() > 0,
            err is None,
            spec_decode_name_rec(buffer@, start as int, t0, Seq::empty())
                == spec_decode_name_rec(buffer@, pos as int, t0, labels),
        invariant
            n == buffer@.len(),
            decoded_names@ == t0,
            *idx == start,
        ensures
            match err {
                Some(e) => spec_decode_name_rec(buffer@, start as int, t0, Seq::empty())
                    == Err::<(Seq<u8>, int), DnsError>(e),
                None => {
                    &&& spec_decode_name_rec(buffer@, start as int, t0, Seq::empty())
                        == Ok::<(Seq<u8>, int), DnsError>((name@, pos as int))
                    &&& start <= pos <= n
                },
            },
        decreases n - pos,
    {
        if pos >= n {
            err = Some(DnsError::TruncatedInput);
            break;
        }
        let len_byte: u8 = buffer[pos];
        if is_compressed(len_byte as usize) {
            if n - pos < 2 {
                err = Some(DnsError::TruncatedInput);
                break;
            }
            proof {
                assert(len_byte & 0x3f <= 0x3f) by (bit_vector);
            }
            let ptr: usize = ((len_byte & 0x3f) as usize) * 256 + (buffer[pos + 1] as usize);
            proof {
                assert(buffer@[pos as int] == len_byte);
                assert(len_byte as int >= 0xc0);
                assert(ptr as int == (buffer@[pos as int] & 0x3f) * 256
                    + buffer@[pos as int + 1]);
            }
            match decoded_names.get(ptr) {
                None => {
                    proof {
                        assert(spec_decode_name_rec(buffer@, pos as int, t0, labels)
                            == Err::<(Seq<u8>, int), DnsError>(DnsError::DanglingPointer));
                    }
                    err = Some(DnsError::DanglingPointer);
                    break;
                },
                Some(entry) => {
                    let mut suffix = entry;
                    let ghost sfx = suffix@;
                    if has_labels {
                        name.push(DOT);
                    }
                    name.append(&mut suffix);
                    proof {
                        assert(name@ =~= join_name(labels, Option::Some(sfx)));
                        assert(spec_decode_name_rec(buffer@, pos as int, t0, labels)
                            == Ok::<(Seq<u8>, int), DnsError>((join_name(labels,
                            Option::Some(sfx)), pos as int + 2)));
                    }
                    pos = pos + 2;
                    break;
                },
            }
        } else if len_byte == 0 {
            pos = pos + 1;
            break;
        } else {
            let len: usize = len_byte as usize;
            if len > n - (pos + 1) {
                err = Some(DnsError::TruncatedInput);
                break;
            }
            let mut label = read_bytes(buffer, pos + 1, len);
            if !is_valid_text(&label) {
                err = Some(DnsError::InvalidEncoding);
                break;
            }
            let ghost lab = label@;
            if has_labels {
                name.push(DOT);
            }
            name.append(&mut label);
            proof {
                lemma_join_push(labels, lab);
                assert(name@ =~= join_labels(labels.push(lab)));
                labels = labels.push(lab);
            }
            has_labels = true;
            pos = pos + 1 + len;
        }
    }
    match err {
        Some(e) => Err(e),
        None => {
            decoded_names.insert(start, &name);
            *idx = pos;
            Ok(name)
        },
    }
}

} // verus!
