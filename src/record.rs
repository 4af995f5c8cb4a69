//! Questions and resource records: a name, a type and a class, and for an
//! answer a TTL and opaque data behind a 16-bit length.
use vstd::prelude::*;
use vstd::slice::{slice_subrange, slice_to_vec};
use crate::DnsError;
use crate::name::{
    encode_name, labels_fit, labels_valid, labels_view, lemma_decoded_labels_valid,
    lemma_name_extend, lemma_name_round_trip, name_from,
    parse_labels, write_labels,
};

verus! {

/// A question, or a resource record when it carries a TTL and data.
#[derive(Debug, Clone, PartialEq, Eq, Default)]
pub struct Question {
    pub names: Vec<Vec<u8>>,
    pub q_type: u16,
    pub class: u16,
    pub ttl: u32,
    pub data: Vec<u8>,
}

/// The value of a `Question`.
pub struct RecordView {
    pub names: Seq<Seq<u8>>,
    pub q_type: u16,
    pub class: u16,
    pub ttl: u32,
    pub data: Seq<u8>,
}

impl View for Question {
    type V = RecordView;

    open spec fn view(&self) -> RecordView {
        RecordView {
            names: labels_view(self.names@),
            q_type: self.q_type,
            class: self.class,
            ttl: self.ttl,
            data: self.data@,
        }
    }
}

pub open spec fn be16(v: u16) -> Seq<u8> {
    seq![(v / 256) as u8, (v % 256) as u8]
}

pub open spec fn be32(v: u32) -> Seq<u8> {
    seq![(v / 0x100_0000) as u8, (v / 0x1_0000 % 256) as u8, (v / 256 % 256) as u8, (v % 256) as u8]
}

/// The big-endian 16-bit number at `p`.
pub open spec fn get_be16(b: Seq<u8>, p: int) -> u16 {
    (b[p] * 256 + b[p + 1]) as u16
}

/// The big-endian 32-bit number at `p`.
pub open spec fn get_be32(b: Seq<u8>, p: int) -> u32 {
    (b[p] * 0x100_0000 + b[p + 1] * 0x1_0000 + b[p + 2] * 256 + b[p + 3]) as u32
}

/// The encoding of a question, and for an answer of its TTL, data length and data.
pub open spec fn encode_record(q: RecordView, is_answer: bool) -> Seq<u8> {
    encode_name(q.names) + be16(q.q_type) + be16(q.class) + if is_answer {
        be32(q.ttl) + be16(q.data.len() as u16) + q.data
    } else {
        Seq::empty()
    }
}

/// The data of an answer fits its 16-bit length.
pub open spec fn data_fits(q: RecordView, is_answer: bool) -> bool {
    is_answer ==> q.data.len() <= 0xffff
}

/// The record that starts at `pos`, and the offset just after it. A question
/// has TTL 0 and no data.
pub open spec fn record_at(buf: Seq<u8>, pos: int, is_answer: bool) -> Result<(RecordView, int), DnsError> {
    match name_from(buf, pos) {
        Err(e) => Err(e),
        Ok((names, p)) => {
            if p + 4 > buf.len() {
                Err(DnsError::TruncatedInput)
            } else if !is_answer {
                Ok(
                    (
                        RecordView {
                            names,
                            q_type: get_be16(buf, p),
                            class: get_be16(buf, p + 2),
                            ttl: 0,
                            data: Seq::empty(),
                        },
                        p + 4,
                    ),
                )
            } else if p + 10 > buf.len() {
                Err(DnsError::TruncatedInput)
            } else if p + 10 + get_be16(buf, p + 8) > buf.len() {
                Err(DnsError::TruncatedInput)
            } else {
                let end = p + 10 + get_be16(buf, p + 8);
                Ok(
                    (
                        RecordView {
                            names,
                            q_type: get_be16(buf, p),
                            class: get_be16(buf, p + 2),
                            ttl: get_be32(buf, p + 4),
                            data: buf.subrange(p + 10, end),
                        },
                        end,
                    ),
                )
            }
        },
    }
}

fn get_u16(buf: &[u8], p: usize) -> (r: u16)
    requires
        p + 2 <= buf@.len(),
    ensures
        r == get_be16(buf@, p as int),
{
    buf[p] as u16 * 256 + buf[p + 1] as u16
}

fn get_u32(buf: &[u8], p: usize) -> (r: u32)
    requires
        p + 4 <= buf@.len(),
    ensures
        r == get_be32(buf@, p as int),
{
    buf[p] as u32 * 0x100_0000 + buf[p + 1] as u32 * 0x1_0000 + buf[p + 2] as u32 * 256
        + buf[p + 3] as u32
}

fn put_u16(out: &mut Vec<u8>, v: u16)
    ensures
        final(out)@ == old(out)@ + be16(v),
{
    out.push((v / 256) as u8);
    out.push((v % 256) as u8);
    proof {
        assert(final(out)@ =~= old(out)@ + be16(v));
    }
}

/// Decodes the record at `pos`: a question, or with `is_answer` a resource
/// record; returns it with the offset just after it.
pub fn parse_question(buf: &[u8], pos: usize, is_answer: bool) -> (r: Result<(Question, usize), DnsError>)
    ensures
        match r {
            Ok((q, end)) => record_at(buf@, pos as int, is_answer) == Ok::<(RecordView, int), DnsError>(
                (q@, end as int),
            ),
            Err(e) => record_at(buf@, pos as int, is_answer) == Err::<(RecordView, int), DnsError>(e),
        },
{
    let (names, p) = match parse_labels(buf, pos) {
        Ok(x) => x,
        Err(e) => return Err(e),
    };
    if p > buf.len() || buf.len() - p < 4 {
        return Err(DnsError::TruncatedInput);
    }
    let q_type = get_u16(buf, p);
    let class = get_u16(buf, p + 2);
    if !is_answer {
        let q = Question { names, q_type, class, ttl: 0, data: Vec::new() };
        proof {
            assert(q@.data =~= Seq::<u8>::empty());
        }
        return Ok((q, p + 4));
    }
    if buf.len() - p < 10 {
        return Err(DnsError::TruncatedInput);
    }
    let ttl = get_u32(buf, p + 4);
    let length = get_u16(buf, p + 8);
    if buf.len() - p - 10 < length as usize {
        return Err(DnsError::TruncatedInput);
    }
    let end = p + 10 + length as usize;
    let data = slice_to_vec(slice_subrange(buf, p + 10, end));
    Ok((Question { names, q_type, class, ttl, data }, end))
}

fn copy_bytes(b: &Vec<u8>) -> (r: Vec<u8>)
    ensures
        r@ == b@,
{
    slice_to_vec(b.as_slice())
}

impl Question {
    /// A copy of the record.
    pub fn duplicate(&self) -> (r: Question)
        ensures
            r@ == self@,
    {
        let mut names: Vec<Vec<u8>> = Vec::new();
        let mut i: usize = 0;
        while i < self.names.len()
            invariant
                0 <= i <= self.names@.len(),
                labels_view(names@) == labels_view(self.names@).subrange(0, i as int),
            decreases self.names@.len() - i,
        {
            let label = copy_bytes(&self.names[i]);
            let ghost before = names@;
            names.push(label);
            proof {
                assert(labels_view(names@) =~= labels_view(before) + seq![label@]);
                assert(labels_view(self.names@).subrange(0, i + 1) =~= labels_view(self.names@).subrange(0, i as int) + seq![label@]);
            }
            i += 1;
        }
        proof {
            assert(labels_view(self.names@).subrange(0, i as int) =~= labels_view(self.names@));
        }
        let r = Question {
            names,
            q_type: self.q_type,
            class: self.class,
            ttl: self.ttl,
            data: copy_bytes(&self.data),
        };
        r
    }

    /// Decodes the record at `pos` (see `parse_question`).
    pub fn parse(buf: &[u8], pos: usize, is_answer: bool) -> (r: Result<(Question, usize), DnsError>)
        ensures
            match r {
                Ok((q, end)) => record_at(buf@, pos as int, is_answer) == Ok::<
                    (RecordView, int),
                    DnsError,
                >((q@, end as int)),
                Err(e) => record_at(buf@, pos as int, is_answer) == Err::<(RecordView, int), DnsError>(
                    e,
                ),
            },
    {
        parse_question(buf, pos, is_answer)
    }

    /// Encodes the record without compression: as a question, or with
    /// `is_answer` as a resource record. Fails with `LabelTooLong` when a
    /// label is over 63 bytes, else with `MessageTooLarge` when the data of
    /// an answer is over 65535 bytes.
    pub fn write(&self, is_answer: bool) -> (r: Result<Vec<u8>, DnsError>)
        ensures
            r.is_ok() == (labels_fit(self@.names) && data_fits(self@, is_answer)),
            match r {
                Ok(v) => v@ == encode_record(self@, is_answer),
                Err(e) => e == if !labels_fit(self@.names) {
                    DnsError::LabelTooLong
                } else {
                    DnsError::MessageTooLarge
                },
            },
    {
        let mut out = match write_labels(&self.names) {
            Ok(v) => v,
            Err(e) => return Err(e),
        };
        let ghost name_bytes = out@;
        put_u16(&mut out, self.q_type);
        put_u16(&mut out, self.class);
        if is_answer {
            if self.data.len() > 0xffff {
                return Err(DnsError::MessageTooLarge);
            }
            let ghost before = out@;
            out.push((self.ttl / 0x100_0000) as u8);
            out.push((self.ttl / 0x1_0000 % 256) as u8);
            out.push((self.ttl / 256 % 256) as u8);
            out.push((self.ttl % 256) as u8);
            proof {
                assert(out@ =~= before + be32(self.ttl));
            }
            put_u16(&mut out, self.data.len() as u16);
            let ghost before_data = out@;
            let mut j: usize = 0;
            while j < self.data.len()
                invariant
                    0 <= j <= self.data@.len(),
                    out@ == before_data + self.data@.subrange(0, j as int),
                decreases self.data@.len() - j,
            {
                out.push(self.data[j]);
                j += 1;
                proof {
                    assert(self.data@.subrange(0, j as int) =~= self.data@.subrange(0, j - 1)
                        + seq![self.data@[j - 1]]);
                }
            }
            proof {
                assert(self.data@.subrange(0, j as int) =~= self.data@);
                assert(out@ =~= encode_record(self@, is_answer));
            }
        } else {
            proof {
                assert(out@ =~= encode_record(self@, is_answer));
            }
        }
        Ok(out)
    }
}

/// Where `a + b` stands in a buffer, `a` stands at its start and `b` right after.
pub proof fn lemma_split(buf: Seq<u8>, pos: int, a: Seq<u8>, b: Seq<u8>)
    requires
        0 <= pos,
        pos + a.len() + b.len() <= buf.len(),
        buf.subrange(pos, pos + a.len() + b.len()) == a + b,
    ensures
        buf.subrange(pos, pos + a.len()) == a,
        buf.subrange(pos + a.len(), pos + a.len() + b.len()) == b,
{
    let whole = buf.subrange(pos, pos + a.len() + b.len());
    assert forall|k: int| 0 <= k < a.len() implies buf.subrange(pos, pos + a.len())[k] == a[k] by {
        assert(buf.subrange(pos, pos + a.len())[k] == whole[k]);
    }
    assert forall|k: int| 0 <= k < b.len() implies buf.subrange(
        pos + a.len(),
        pos + a.len() + b.len(),
    )[k] == b[k] by {
        assert(buf.subrange(pos + a.len(), pos + a.len() + b.len())[k] == whole[a.len() + k]);
    }
    assert(buf.subrange(pos, pos + a.len()) =~= a);
    assert(buf.subrange(pos + a.len(), pos + a.len() + b.len()) =~= b);
}

/// A record that decodes to itself: non-empty labels of at most 63 bytes,
/// data that fits its length field, and for a question no TTL and no data.
pub open spec fn record_valid(r: RecordView, is_answer: bool) -> bool {
    &&& labels_valid(r.names)
    &&& data_fits(r, is_answer)
    &&& !is_answer ==> r.ttl == 0 && r.data.len() == 0
}

proof fn lemma_be16(buf: Seq<u8>, p: int, v: u16)
    requires
        0 <= p,
        p + 2 <= buf.len(),
        buf.subrange(p, p + 2) == be16(v),
    ensures
        get_be16(buf, p) == v,
{
    assert(buf[p] == buf.subrange(p, p + 2)[0]);
    assert(buf[p + 1] == buf.subrange(p, p + 2)[1]);
}

proof fn lemma_be32(buf: Seq<u8>, p: int, v: u32)
    requires
        0 <= p,
        p + 4 <= buf.len(),
        buf.subrange(p, p + 4) == be32(v),
    ensures
        get_be32(buf, p) == v,
{
    assert(buf[p] == buf.subrange(p, p + 4)[0]);
    assert(buf[p + 1] == buf.subrange(p, p + 4)[1]);
    assert(buf[p + 2] == buf.subrange(p, p + 4)[2]);
    assert(buf[p + 3] == buf.subrange(p, p + 4)[3]);
    assert((v / 0x100_0000) * 0x100_0000 + (v / 0x1_0000 % 256) * 0x1_0000 + (v / 256 % 256) * 256
        + v % 256 == v) by (bit_vector);
}

/// Wherever the encoding of a record that decodes to itself stands in a
/// buffer, decoding there gives the record back and ends after the encoding.
pub proof fn lemma_record_round_trip(buf: Seq<u8>, pos: int, r: RecordView, is_answer: bool)
    requires
        record_valid(r, is_answer),
        0 <= pos,
        pos + encode_record(r, is_answer).len() <= buf.len(),
        buf.subrange(pos, pos + encode_record(r, is_answer).len()) == encode_record(r, is_answer),
    ensures
        record_at(buf, pos, is_answer) == Ok::<(RecordView, int), DnsError>(
            (r, pos + encode_record(r, is_answer).len()),
        ),
{
    let en = encode_name(r.names);
    let tail = if is_answer {
        be32(r.ttl) + be16(r.data.len() as u16) + r.data
    } else {
        Seq::empty()
    };
    lemma_split(buf, pos, en + be16(r.q_type) + be16(r.class), tail);
    lemma_split(buf, pos, en + be16(r.q_type), be16(r.class));
    lemma_split(buf, pos, en, be16(r.q_type));
    lemma_name_round_trip(buf, pos, pos, r.names);
    let p = pos + en.len();
    lemma_be16(buf, p, r.q_type);
    lemma_be16(buf, p + 2, r.class);
    if is_answer {
        lemma_split(buf, p + 4, be32(r.ttl) + be16(r.data.len() as u16), r.data);
        lemma_split(buf, p + 4, be32(r.ttl), be16(r.data.len() as u16));
        lemma_be32(buf, p + 4, r.ttl);
        lemma_be16(buf, p + 8, r.data.len() as u16);
    } else {
        assert(r.data =~= Seq::<u8>::empty());
    }
}

/// Every record that decodes is one that decodes to itself.
pub proof fn lemma_decoded_record_valid(buf: Seq<u8>, pos: int, is_answer: bool)
    requires
        record_at(buf, pos, is_answer) is Ok,
    ensures
        record_valid(record_at(buf, pos, is_answer)->Ok_0.0, is_answer),
{
    lemma_decoded_labels_valid(buf, pos, pos);
    let (names, p) = name_from(buf, pos)->Ok_0;
    let r = record_at(buf, pos, is_answer)->Ok_0.0;
    assert(r.names == names);
    if is_answer {
        assert(0 <= p + 10 <= p + 10 + get_be16(buf, p + 8) <= buf.len());
        assert(r.data.len() == get_be16(buf, p + 8));
    }
}

/// Bytes appended after a buffer do not change a record that decodes in it.
pub proof fn lemma_record_extend(buf: Seq<u8>, extra: Seq<u8>, pos: int, is_answer: bool)
    requires
        record_at(buf, pos, is_answer) is Ok,
    ensures
        record_at(buf + extra, pos, is_answer) == record_at(buf, pos, is_answer),
{
    let big = buf + extra;
    lemma_name_extend(buf, extra, pos, pos);
    lemma_decoded_labels_valid(buf, pos, pos);
    let (names, p) = name_from(buf, pos)->Ok_0;
    assert(big[p] == buf[p] && big[p + 1] == buf[p + 1] && big[p + 2] == buf[p + 2] && big[p + 3]
        == buf[p + 3]);
    if is_answer {
        assert(big[p + 4] == buf[p + 4] && big[p + 5] == buf[p + 5] && big[p + 6] == buf[p + 6]
            && big[p + 7] == buf[p + 7] && big[p + 8] == buf[p + 8] && big[p + 9] == buf[p + 9]);
        let end = p + 10 + get_be16(buf, p + 8);
        assert(big.subrange(p + 10, end) =~= buf.subrange(p + 10, end));
    }
}

} // verus!
