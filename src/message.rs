//! Whole messages: a header, then the questions, then the answers, within
//! the 512-byte ceiling of DNS over UDP.
use vstd::prelude::*;
use crate::DnsError;
use crate::bits::{bits_of, bits_value, lemma_bits_value_bound, two_pow};
use crate::header::{header_bits, header_of, lemma_header_round_trip, Header, HEADER_LEN};
use crate::name::{labels_fit, labels_view};
use crate::record::{
    data_fits, encode_record, lemma_decoded_record_valid, lemma_record_extend,
    lemma_record_round_trip, lemma_split, parse_question, record_at,
    record_valid, Question, RecordView,
};

verus! {

/// The largest message that this codec writes.
pub const MAX_MESSAGE_LEN: usize = 512;

#[derive(Debug, Clone, PartialEq, Eq, Default)]
pub struct Message {
    pub header: Header,
    pub questions: Vec<Question>,
    pub answers: Vec<Question>,
}

/// The value of a `Message`.
pub struct MessageView {
    pub header: Header,
    pub questions: Seq<RecordView>,
    pub answers: Seq<RecordView>,
}

pub open spec fn records_view(v: Seq<Question>) -> Seq<RecordView> {
    v.map_values(|q: Question| q@)
}

impl View for Message {
    type V = MessageView;

    open spec fn view(&self) -> MessageView {
        MessageView {
            header: self.header,
            questions: records_view(self.questions@),
            answers: records_view(self.answers@),
        }
    }
}

/// `count` records one after another from `pos`, and the offset after the last.
pub open spec fn records_at(buf: Seq<u8>, pos: int, count: nat, is_answer: bool) -> Result<
    (Seq<RecordView>, int),
    DnsError,
>
    decreases count,
{
    if count == 0 {
        Ok((Seq::empty(), pos))
    } else {
        match record_at(buf, pos, is_answer) {
            Err(e) => Err(e),
            Ok((r, p)) => match records_at(buf, p, (count - 1) as nat, is_answer) {
                Err(e) => Err(e),
                Ok((rs, end)) => Ok((seq![r] + rs, end)),
            },
        }
    }
}

/// The message in `buf`: the header, as many questions as it counts, and
/// for an upstream answer as many answers as it counts. Bytes after them
/// are ignored.
pub open spec fn message_of(buf: Seq<u8>, is_answer: bool) -> Result<MessageView, DnsError> {
    if buf.len() < 12 {
        Err(DnsError::TruncatedInput)
    } else {
        let h = header_of(buf.subrange(0, 12));
        match records_at(buf, 12, h.question_count as nat, false) {
            Err(e) => Err(e),
            Ok((qs, p)) => if !is_answer {
                Ok(MessageView { header: h, questions: qs, answers: Seq::empty() })
            } else {
                match records_at(buf, p, h.answer_record_count as nat, true) {
                    Err(e) => Err(e),
                    Ok((ans, _)) => Ok(MessageView { header: h, questions: qs, answers: ans }),
                }
            },
        }
    }
}

/// The records encoded one after another.
pub open spec fn records_bytes(rs: Seq<RecordView>, is_answer: bool) -> Seq<u8>
    decreases rs.len(),
{
    if rs.len() == 0 {
        Seq::empty()
    } else {
        records_bytes(rs.drop_last(), is_answer) + encode_record(rs.last(), is_answer)
    }
}

/// Every label of every record fits.
pub open spec fn records_labels_fit(rs: Seq<RecordView>) -> bool {
    forall|i: int| 0 <= i < rs.len() ==> labels_fit(#[trigger] rs[i].names)
}

/// The data of every record fits its length field.
pub open spec fn records_data_fit(rs: Seq<RecordView>, is_answer: bool) -> bool {
    forall|i: int| 0 <= i < rs.len() ==> data_fits(#[trigger] rs[i], is_answer)
}

/// What follows the header: the questions, then the answers.
pub open spec fn body_bytes(m: MessageView) -> Seq<u8> {
    records_bytes(m.questions, false) + records_bytes(m.answers, true)
}

pub open spec fn message_labels_fit(m: MessageView) -> bool {
    records_labels_fit(m.questions) && records_labels_fit(m.answers)
}

/// The message can be written: its labels and data fit their length fields
/// and the whole stays within 512 bytes.
pub open spec fn encodable(m: MessageView) -> bool {
    message_labels_fit(m) && records_data_fit(m.answers, true) && 12 + body_bytes(m).len() <= 512
}

/// `v` is the encoding of `m`: the header's 12 bytes, then the body.
pub open spec fn is_encoding(v: Seq<u8>, m: MessageView) -> bool {
    &&& v.len() == 12 + body_bytes(m).len()
    &&& bits_of(v.subrange(0, 12)) == header_bits(m.header)
    &&& v.subrange(12, v.len() as int) == body_bytes(m)
}

fn parse_records(buf: &[u8], pos: usize, count: u16, is_answer: bool) -> (r: Result<
    (Vec<Question>, usize),
    DnsError,
>)
    ensures
        match r {
            Ok((v, end)) => records_at(buf@, pos as int, count as nat, is_answer) == Ok::<
                (Seq<RecordView>, int),
                DnsError,
            >((records_view(v@), end as int)),
            Err(e) => records_at(buf@, pos as int, count as nat, is_answer) == Err::<
                (Seq<RecordView>, int),
                DnsError,
            >(e),
        },
{
    let mut out: Vec<Question> = Vec::new();
    let mut p = pos;
    let mut i: u16 = 0;
    while i < count
        invariant
            0 <= i <= count,
            records_at(buf@, pos as int, count as nat, is_answer) == match records_at(
                buf@,
                p as int,
                (count - i) as nat,
                is_answer,
            ) {
                Ok((rs, end)) => Ok::<(Seq<RecordView>, int), DnsError>(
                    (records_view(out@) + rs, end),
                ),
                Err(e) => Err::<(Seq<RecordView>, int), DnsError>(e),
            },
        decreases count - i,
    {
        match parse_question(buf, p, is_answer) {
            Ok((q, next)) => {
                let ghost old_out = out@;
                proof {
                    let tail = records_at(buf@, next as int, (count - i - 1) as nat, is_answer);
                    match tail {
                        Ok((rs, end)) => {
                            assert(records_view(old_out.push(q)) + rs =~= records_view(old_out)
                                + (seq![q@] + rs));
                        },
                        Err(_) => {},
                    }
                }
                out.push(q);
                p = next;
                i += 1;
            },
            Err(e) => {
                return Err(e);
            },
        }
    }
    proof {
        assert(records_view(out@) + Seq::<RecordView>::empty() =~= records_view(out@));
    }
    Ok((out, p))
}

fn labels_fit_all(rs: &Vec<Question>) -> (r: bool)
    ensures
        r == records_labels_fit(records_view(rs@)),
{
    let mut i: usize = 0;
    while i < rs.len()
        invariant
            0 <= i <= rs@.len(),
            forall|k: int| 0 <= k < i ==> labels_fit(#[trigger] records_view(rs@)[k].names),
        decreases rs@.len() - i,
    {
        let names = &rs[i].names;
        let mut j: usize = 0;
        while j < names.len()
            invariant
                0 <= j <= names@.len(),
                0 <= i < rs@.len(),
                names == rs@[i as int].names,
                forall|k: int| 0 <= k < i ==> labels_fit(#[trigger] records_view(rs@)[k].names),
                forall|k: int| 0 <= k < j ==> (#[trigger] labels_view(names@)[k]).len() <= 63,
            decreases names@.len() - j,
        {
            if names[j].len() > 63 {
                proof {
                    assert(records_view(rs@)[i as int].names == labels_view(names@));
                    assert(labels_view(names@)[j as int].len() > 63);
                    assert(!labels_fit(records_view(rs@)[i as int].names));
                }
                return false;
            }
            j += 1;
        }
        proof {
            assert(records_view(rs@)[i as int].names == labels_view(names@));
            assert(labels_fit(records_view(rs@)[i as int].names));
        }
        i += 1;
    }
    true
}

fn write_records(rs: &Vec<Question>, is_answer: bool, out: &mut Vec<u8>) -> (r: Result<(), DnsError>)
    requires
        records_labels_fit(records_view(rs@)),
    ensures
        r.is_ok() == records_data_fit(records_view(rs@), is_answer),
        r.is_ok() ==> final(out)@ == old(out)@ + records_bytes(records_view(rs@), is_answer),
        r.is_err() ==> r == Err::<(), DnsError>(DnsError::MessageTooLarge),
{
    let ghost rv = records_view(rs@);
    let mut i: usize = 0;
    while i < rs.len()
        invariant
            0 <= i <= rs@.len(),
            rv == records_view(rs@),
            records_labels_fit(rv),
            records_data_fit(rv.subrange(0, i as int), is_answer),
            out@ == old(out)@ + records_bytes(rv.subrange(0, i as int), is_answer),
        decreases rs@.len() - i,
    {
        proof {
            assert(labels_fit(rv[i as int].names));
        }
        match rs[i].write(is_answer) {
            Ok(mut bytes) => {
                proof {
                    assert(rv.subrange(0, i + 1).drop_last() =~= rv.subrange(0, i as int));
                    assert(records_bytes(rv.subrange(0, i + 1), is_answer) == records_bytes(
                        rv.subrange(0, i as int),
                        is_answer,
                    ) + encode_record(rv[i as int], is_answer));
                    assert(records_data_fit(rv.subrange(0, i + 1), is_answer)) by {
                        assert forall|k: int| 0 <= k < i + 1 implies data_fits(
                            #[trigger] rv.subrange(0, i + 1)[k],
                            is_answer,
                        ) by {
                            if k < i {
                                assert(rv.subrange(0, i + 1)[k] == rv.subrange(0, i as int)[k]);
                            }
                        }
                    }
                }
                out.append(&mut bytes);
                proof {
                    assert(out@ =~= old(out)@ + records_bytes(rv.subrange(0, i + 1), is_answer));
                }
                i += 1;
            },
            Err(_) => {
                proof {
                    assert(!data_fits(rv[i as int], is_answer));
                }
                return Err(DnsError::MessageTooLarge);
            },
        }
    }
    proof {
        assert(rv.subrange(0, i as int) =~= rv);
    }
    Ok(())
}

impl Message {
    /// Decodes a message: the header, its questions and, for an upstream
    /// answer, its answers.
    pub fn new(buf: &[u8], is_answer: bool) -> (r: Result<Message, DnsError>)
        ensures
            match r {
                Ok(m) => message_of(buf@, is_answer) == Ok::<MessageView, DnsError>(m@),
                Err(e) => message_of(buf@, is_answer) == Err::<MessageView, DnsError>(e),
            },
    {
        let header = match Header::parse(buf) {
            Ok(h) => h,
            Err(e) => return Err(e),
        };
        let (questions, p) = match parse_records(buf, HEADER_LEN, header.question_count, false) {
            Ok(x) => x,
            Err(e) => return Err(e),
        };
        if !is_answer {
            let m = Message { header, questions, answers: Vec::new() };
            proof {
                assert(m@.answers =~= Seq::<RecordView>::empty());
            }
            return Ok(m);
        }
        let (answers, _) = match parse_records(buf, p, header.answer_record_count, true) {
            Ok(x) => x,
            Err(e) => return Err(e),
        };
        Ok(Message { header, questions, answers })
    }

    /// Encodes the message as it stands.
    pub fn encode(&self) -> (r: Result<Vec<u8>, DnsError>)
        ensures
            r.is_ok() == encodable(self@),
            match r {
                Ok(v) => is_encoding(v@, self@),
                Err(e) => e == if !message_labels_fit(self@) {
                    DnsError::LabelTooLong
                } else {
                    DnsError::MessageTooLarge
                },
            },
    {
        if !labels_fit_all(&self.questions) || !labels_fit_all(&self.answers) {
            return Err(DnsError::LabelTooLong);
        }
        let mut out = self.header.write();
        let ghost head = out@;
        match write_records(&self.questions, false, &mut out) {
            Ok(()) => {},
            Err(e) => {
                proof {
                    assert(records_data_fit(self@.questions, false));
                }
                return Err(e);
            },
        }
        match write_records(&self.answers, true, &mut out) {
            Ok(()) => {},
            Err(e) => return Err(e),
        }
        if out.len() > MAX_MESSAGE_LEN {
            return Err(DnsError::MessageTooLarge);
        }
        proof {
            assert(out@.subrange(0, 12) =~= head);
            assert(out@.subrange(12, out@.len() as int) =~= body_bytes(self@));
        }
        Ok(out)
    }

    /// Encodes the message; for a response, the header is first turned into
    /// one (`Header::response`), which stays in `self`.
    pub fn write(&mut self, is_response: bool) -> (r: Result<Vec<u8>, DnsError>)
        ensures
            final(self).header == if is_response {
                old(self).header.response_spec()
            } else {
                old(self).header
            },
            final(self).questions == old(self).questions,
            final(self).answers == old(self).answers,
            r.is_ok() == encodable(final(self)@),
            match r {
                Ok(v) => is_encoding(v@, final(self)@),
                Err(e) => e == if !message_labels_fit(final(self)@) {
                    DnsError::LabelTooLong
                } else {
                    DnsError::MessageTooLarge
                },
            },
    {
        if is_response {
            self.header = self.header.response();
        }
        self.encode()
    }
}

/// The encoding of records read from the first record on.
pub proof fn lemma_records_bytes_front(rs: Seq<RecordView>, is_answer: bool)
    requires
        rs.len() > 0,
    ensures
        records_bytes(rs, is_answer) == encode_record(rs[0], is_answer) + records_bytes(
            rs.drop_first(),
            is_answer,
        ),
    decreases rs.len(),
{
    if rs.len() == 1 {
        assert(rs.drop_last() =~= Seq::<RecordView>::empty());
        assert(rs.drop_first() =~= Seq::<RecordView>::empty());
        assert(records_bytes(rs.drop_last(), is_answer) == Seq::<u8>::empty());
        assert(records_bytes(rs.drop_first(), is_answer) == Seq::<u8>::empty());
        assert(rs.last() == rs[0]);
        assert(records_bytes(rs, is_answer) =~= encode_record(rs[0], is_answer));
    } else {
        lemma_records_bytes_front(rs.drop_last(), is_answer);
        assert(rs.drop_first().drop_last() =~= rs.drop_last().drop_first());
        assert(records_bytes(rs, is_answer) =~= encode_record(rs[0], is_answer) + records_bytes(
            rs.drop_first(),
            is_answer,
        ));
    }
}

/// Every record decodes to itself.
pub open spec fn records_valid(rs: Seq<RecordView>, is_answer: bool) -> bool {
    forall|i: int| 0 <= i < rs.len() ==> record_valid(#[trigger] rs[i], is_answer)
}

/// Wherever the encoding of records that decode to themselves stands in a
/// buffer, decoding as many records there gives them back.
pub proof fn lemma_records_round_trip(buf: Seq<u8>, pos: int, rs: Seq<RecordView>, is_answer: bool)
    requires
        records_valid(rs, is_answer),
        0 <= pos,
        pos + records_bytes(rs, is_answer).len() <= buf.len(),
        buf.subrange(pos, pos + records_bytes(rs, is_answer).len()) == records_bytes(rs, is_answer),
    ensures
        records_at(buf, pos, rs.len(), is_answer) == Ok::<(Seq<RecordView>, int), DnsError>(
            (rs, pos + records_bytes(rs, is_answer).len()),
        ),
    decreases rs.len(),
{
    if rs.len() == 0 {
        assert(rs =~= Seq::<RecordView>::empty());
    } else {
        lemma_records_bytes_front(rs, is_answer);
        let e0 = encode_record(rs[0], is_answer);
        let rest = rs.drop_first();
        lemma_split(buf, pos, e0, records_bytes(rest, is_answer));
        assert(record_valid(rs[0], is_answer));
        lemma_record_round_trip(buf, pos, rs[0], is_answer);
        assert(records_valid(rest, is_answer)) by {
            assert forall|i: int| 0 <= i < rest.len() implies record_valid(
                #[trigger] rest[i],
                is_answer,
            ) by {
                assert(rest[i] == rs[i + 1]);
            }
        }
        lemma_records_round_trip(buf, pos + e0.len(), rest, is_answer);
        assert(seq![rs[0]] + rest =~= rs);
    }
}

/// A message whose counts match its records, and whose header and records
/// decode to themselves; a query carries no answers.
pub open spec fn message_valid(m: MessageView, is_answer: bool) -> bool {
    &&& m.header.wf()
    &&& m.header.reserved == 0
    &&& m.header.question_count == m.questions.len()
    &&& records_valid(m.questions, false)
    &&& records_valid(m.answers, true)
    &&& if is_answer {
        m.header.answer_record_count == m.answers.len()
    } else {
        m.answers.len() == 0
    }
}

/// Decoding the encoding of a valid message gives the message back.
pub proof fn lemma_message_round_trip(m: MessageView, v: Seq<u8>, is_answer: bool)
    requires
        message_valid(m, is_answer),
        is_encoding(v, m),
    ensures
        message_of(v, is_answer) == Ok::<MessageView, DnsError>(m),
{
    lemma_header_round_trip(m.header, v.subrange(0, 12));
    let qb = records_bytes(m.questions, false);
    let ab = records_bytes(m.answers, true);
    lemma_split(v, 12, qb, ab);
    lemma_records_round_trip(v, 12, m.questions, false);
    if is_answer {
        lemma_records_round_trip(v, 12 + qb.len() as int, m.answers, true);
    } else {
        assert(m.answers =~= Seq::<RecordView>::empty());
    }
}

/// Decoding `count` records gives that many, each one that decodes to itself.
pub proof fn lemma_decoded_records_valid(buf: Seq<u8>, pos: int, count: nat, is_answer: bool)
    requires
        records_at(buf, pos, count, is_answer) is Ok,
    ensures
        records_at(buf, pos, count, is_answer)->Ok_0.0.len() == count,
        records_valid(records_at(buf, pos, count, is_answer)->Ok_0.0, is_answer),
    decreases count,
{
    if count > 0 {
        lemma_decoded_record_valid(buf, pos, is_answer);
        let (r, p) = record_at(buf, pos, is_answer)->Ok_0;
        lemma_decoded_records_valid(buf, p, (count - 1) as nat, is_answer);
        let rest = records_at(buf, p, (count - 1) as nat, is_answer)->Ok_0.0;
        let rs = records_at(buf, pos, count, is_answer)->Ok_0.0;
        assert(rs == seq![r] + rest);
        assert forall|i: int| 0 <= i < rs.len() implies record_valid(#[trigger] rs[i], is_answer) by {
            if i > 0 {
                assert(rs[i] == rest[i - 1]);
            }
        }
    } else {
        assert(records_at(buf, pos, count, is_answer)->Ok_0.0 =~= Seq::<RecordView>::empty());
    }
}

proof fn lemma_small_field(b: Seq<u8>, pos: int, width: nat)
    requires
        b.len() == 12,
        0 <= pos,
        pos + width <= 96,
    ensures
        bits_value(bits_of(b).subrange(pos, pos + width)) < two_pow(width),
{
    lemma_bits_value_bound(bits_of(b).subrange(pos, pos + width));
}

/// Every query that decodes is valid once its reserved bits are cleared:
/// its sub-byte fields fit, its question count matches its questions, its
/// records decode to themselves and it carries no answers.
pub proof fn lemma_decoded_query_valid(buf: Seq<u8>)
    requires
        message_of(buf, false) is Ok,
    ensures
        message_valid(
            MessageView { header: Header { reserved: 0, ..message_of(buf, false)->Ok_0.header }, ..message_of(buf, false)->Ok_0 },
            false,
        ),
{
    let b = buf.subrange(0, 12);
    reveal_with_fuel(two_pow, 5);
    lemma_small_field(b, 17, 4);
    lemma_small_field(b, 25, 3);
    lemma_small_field(b, 28, 4);
    let h = header_of(b);
    lemma_decoded_records_valid(buf, 12, h.question_count as nat, false);
}

/// Without an upstream, the encoded response to any query that decodes
/// reads back as a response that echoes the query's questions, in order,
/// and carries no answers.
pub proof fn lemma_passthrough(buf: Seq<u8>, v: Seq<u8>)
    requires
        message_of(buf, false) is Ok,
        is_encoding(
            v,
            MessageView { header: message_of(buf, false)->Ok_0.header.response_spec(), ..message_of(buf, false)->Ok_0 },
        ),
    ensures
        message_of(v, false) is Ok,
        message_of(v, false)->Ok_0.header.qr_indicator,
        message_of(v, false)->Ok_0.questions == message_of(buf, false)->Ok_0.questions,
        message_of(v, false)->Ok_0.answers.len() == 0,
{
    let query = message_of(buf, false)->Ok_0;
    lemma_decoded_query_valid(buf);
    let resp = MessageView { header: query.header.response_spec(), ..query };
    lemma_message_round_trip(resp, v, false);
}

proof fn lemma_records_extend(buf: Seq<u8>, extra: Seq<u8>, pos: int, count: nat, is_answer: bool)
    requires
        records_at(buf, pos, count, is_answer) is Ok,
    ensures
        records_at(buf + extra, pos, count, is_answer) == records_at(buf, pos, count, is_answer),
    decreases count,
{
    if count > 0 {
        lemma_record_extend(buf, extra, pos, is_answer);
        let p = record_at(buf, pos, is_answer)->Ok_0.1;
        lemma_records_extend(buf, extra, p, (count - 1) as nat, is_answer);
    }
}

/// Decoding stops once the counted records are read: bytes after them do
/// not change the message.
pub proof fn lemma_trailing_bytes_ignored(buf: Seq<u8>, extra: Seq<u8>, is_answer: bool)
    requires
        message_of(buf, is_answer) is Ok,
    ensures
        message_of(buf + extra, is_answer) == message_of(buf, is_answer),
{
    let big = buf + extra;
    assert(big.subrange(0, 12) =~= buf.subrange(0, 12));
    let h = header_of(buf.subrange(0, 12));
    lemma_records_extend(buf, extra, 12, h.question_count as nat, false);
    if is_answer {
        let p = records_at(buf, 12, h.question_count as nat, false)->Ok_0.1;
        lemma_records_extend(buf, extra, p, h.answer_record_count as nat, true);
    }
}

} // verus!
