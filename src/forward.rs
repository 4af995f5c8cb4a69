//! The forwarder's logic: one single-question query per question of a
//! client query, and one response built from the upstream replies.
use vstd::prelude::*;
use crate::header::Header;
use crate::message::{records_view, Message, MessageView};
use crate::record::{Question, RecordView};

verus! {

/// The query that asks upstream for question `i` alone: the client's header
/// with transaction id `i` and a question count of 1.
pub open spec fn singleton_query(query: MessageView, i: int) -> MessageView {
    MessageView {
        header: Header { packet_id: i as u16, question_count: 1, ..query.header },
        questions: seq![query.questions[i]],
        answers: Seq::empty(),
    }
}

/// The questions of the replies, one reply after another.
pub open spec fn all_questions(replies: Seq<MessageView>) -> Seq<RecordView>
    decreases replies.len(),
{
    if replies.len() == 0 {
        Seq::empty()
    } else {
        all_questions(replies.drop_last()) + replies.last().questions
    }
}

/// The answers of the replies, one reply after another.
pub open spec fn all_answers(replies: Seq<MessageView>) -> Seq<RecordView>
    decreases replies.len(),
{
    if replies.len() == 0 {
        Seq::empty()
    } else {
        all_answers(replies.drop_last()) + replies.last().answers
    }
}

pub open spec fn messages_view(v: Seq<Message>) -> Seq<MessageView> {
    v.map_values(|m: Message| m@)
}

/// The combined response: the client's header marked as a response, with as
/// many answers counted as it has questions, and the replies' questions and
/// answers in the order of the replies.
pub open spec fn aggregate_spec(query: MessageView, replies: Seq<MessageView>) -> MessageView {
    MessageView {
        header: Header {
            answer_record_count: query.header.question_count,
            qr_indicator: true,
            ..query.header
        },
        questions: all_questions(replies),
        answers: all_answers(replies),
    }
}

fn copy_records(from: &Vec<Question>, out: &mut Vec<Question>)
    ensures
        records_view(final(out)@) == records_view(old(out)@) + records_view(from@),
{
    let mut i: usize = 0;
    while i < from.len()
        invariant
            0 <= i <= from@.len(),
            records_view(out@) == records_view(old(out)@) + records_view(from@).subrange(0, i as int),
        decreases from@.len() - i,
    {
        let q = from[i].duplicate();
        let ghost before = out@;
        out.push(q);
        proof {
            assert(records_view(out@) =~= records_view(before) + seq![q@]);
            assert(records_view(from@).subrange(0, i + 1) =~= records_view(from@).subrange(0, i as int)
                + seq![q@]);
        }
        i += 1;
    }
    proof {
        assert(records_view(from@).subrange(0, i as int) =~= records_view(from@));
    }
}

/// One single-question query for each question of the client's query, in
/// order; query `i` carries transaction id `i`.
pub fn forward_queries(query: &Message) -> (r: Vec<Message>)
    requires
        query.questions@.len() <= 0x1_0000,
    ensures
        r@.len() == query.questions@.len(),
        forall|i: int| 0 <= i < r@.len() ==> (#[trigger] r@[i])@ == singleton_query(query@, i),
{
    let mut out: Vec<Message> = Vec::new();
    let mut i: usize = 0;
    while i < query.questions.len()
        invariant
            0 <= i <= query.questions@.len(),
            query.questions@.len() <= 0x1_0000,
            out@.len() == i,
            forall|k: int| 0 <= k < i ==> (#[trigger] out@[k])@ == singleton_query(query@, k),
        decreases query.questions@.len() - i,
    {
        let q = query.questions[i].duplicate();
        let mut questions: Vec<Question> = Vec::new();
        questions.push(q);
        let m = Message {
            header: Header { packet_id: i as u16, question_count: 1, ..query.header },
            questions,
            answers: Vec::new(),
        };
        proof {
            assert(m@.questions =~= seq![query@.questions[i as int]]);
            assert(m@.answers =~= Seq::<RecordView>::empty());
        }
        out.push(m);
        i += 1;
    }
    out
}

/// Combines the upstream replies into the response to the client's query
/// (see `aggregate_spec`).
pub fn aggregate(query: &Message, replies: &Vec<Message>) -> (r: Message)
    ensures
        r@ == aggregate_spec(query@, messages_view(replies@)),
{
    let ghost rv = messages_view(replies@);
    let mut questions: Vec<Question> = Vec::new();
    let mut answers: Vec<Question> = Vec::new();
    let mut i: usize = 0;
    while i < replies.len()
        invariant
            0 <= i <= replies@.len(),
            rv == messages_view(replies@),
            records_view(questions@) == all_questions(rv.subrange(0, i as int)),
            records_view(answers@) == all_answers(rv.subrange(0, i as int)),
        decreases replies@.len() - i,
    {
        copy_records(&replies[i].questions, &mut questions);
        copy_records(&replies[i].answers, &mut answers);
        proof {
            assert(rv.subrange(0, i + 1).drop_last() =~= rv.subrange(0, i as int));
            assert(rv.subrange(0, i + 1).last() == replies@[i as int]@);
        }
        i += 1;
    }
    proof {
        assert(rv.subrange(0, i as int) =~= rv);
    }
    Message {
        header: Header {
            answer_record_count: query.header.question_count,
            qr_indicator: true,
            ..query.header
        },
        questions,
        answers,
    }
}

/// When every reply carries exactly one answer, the combined answers are
/// those answers in the order of the replies.
pub proof fn lemma_one_answer_each(replies: Seq<MessageView>)
    requires
        forall|i: int| 0 <= i < replies.len() ==> (#[trigger] replies[i]).answers.len() == 1,
    ensures
        all_answers(replies).len() == replies.len(),
        forall|i: int|
            0 <= i < replies.len() ==> #[trigger] all_answers(replies)[i] == replies[i].answers[0],
    decreases replies.len(),
{
    if replies.len() > 0 {
        let init = replies.drop_last();
        assert forall|i: int| 0 <= i < init.len() implies (#[trigger] init[i]).answers.len() == 1 by {
            assert(init[i] == replies[i]);
        }
        lemma_one_answer_each(init);
        assert(replies.last() == replies[replies.len() - 1]);
        assert forall|i: int| 0 <= i < replies.len() implies #[trigger] all_answers(replies)[i]
            == replies[i].answers[0] by {
            if i < init.len() {
                assert(init[i] == replies[i]);
            }
        }
    }
}

} // verus!
