//! Forwarding a query upstream one question at a time, and merging the
//! answers of the replies into one response.
//!
//! The exchange with the resolver happens outside: the caller sends each
//! pending request, hands the reply to [`Forwarding::on_reply`], and sends
//! the response back once no request is pending.
use vstd::prelude::*;

use crate::answer::{answer_views, AnswerView};
use crate::bytes::append_bytes;
use crate::message::{
    answers_wire, read_resolver_response, response_header, single_question_wire,
    Message, MessageView,
};
use crate::types::WireError;

verus! {

/// The response to `query` carrying `answers`: the response header, the
/// query's questions in order, then the answers in order.
pub open spec fn merged(query: MessageView, answers: Seq<AnswerView>) -> MessageView {
    MessageView { header: response_header(query.header), questions: query.questions, answers }
}

/// Appending the encoded answers of a round to the encoded response gives
/// the encoding of the response whose answers are the earlier ones followed
/// by the round's, in order; the questions are untouched.
pub proof fn lemma_merge_appends(query: MessageView, earlier: Seq<AnswerView>, round: Seq<AnswerView>)
    ensures
        merged(query, earlier + round).wire() == merged(query, earlier).wire() + answers_wire(
            round,
        ),
        merged(query, earlier + round).questions == query.questions,
    decreases round.len(),
{
    if round.len() == 0 {
        assert(earlier + round =~= earlier);
    } else {
        lemma_merge_appends(query, earlier, round.drop_last());
        assert((earlier + round).drop_last() =~= earlier + round.drop_last());
        assert((earlier + round).last() == round.last());
        lemma_answers_wire_concat(earlier, round);
    }
}

proof fn lemma_answers_wire_concat(a: Seq<AnswerView>, b: Seq<AnswerView>)
    ensures
        answers_wire(a + b) == answers_wire(a) + answers_wire(b),
    decreases b.len(),
{
    if b.len() == 0 {
        assert(a + b =~= a);
        assert(answers_wire(a) + answers_wire(b) =~= answers_wire(a));
    } else {
        lemma_answers_wire_concat(a, b.drop_last());
        assert((a + b).drop_last() =~= a + b.drop_last());
        assert((a + b).last() == b.last());
        assert(answers_wire(a + b) =~= answers_wire(a) + answers_wire(b));
    }
}

/// Forwarding of one client query: the per-question requests, how many of
/// them were answered, and the response built so far.
pub struct Forwarding {
    requests: Vec<Vec<u8>>,
    next: usize,
    response: Vec<u8>,
    query: Ghost<MessageView>,
    collected: Ghost<Seq<AnswerView>>,
}

impl Forwarding {
    /// The query being forwarded.
    pub closed spec fn query(&self) -> MessageView {
        self.query@
    }

    /// How many requests have had their reply.
    pub closed spec fn rounds_done(&self) -> nat {
        self.next as nat
    }

    /// The answers of the replies so far, in the order of the rounds.
    pub closed spec fn collected(&self) -> Seq<AnswerView> {
        self.collected@
    }

    /// The response built so far.
    pub closed spec fn response_bytes(&self) -> Seq<u8> {
        self.response@
    }

    /// One request per question of the query, none answered beyond the last,
    /// and the response so far encodes the query's questions with the
    /// collected answers.
    pub closed spec fn wf(&self) -> bool {
        &&& self.requests@.len() == self.query@.questions.len()
        &&& self.next <= self.requests@.len()
        &&& forall|i: int|
            0 <= i < self.requests@.len() ==> (#[trigger] self.requests@[i])@
                == single_question_wire(self.query@.header, self.query@.questions[i])
        &&& self.response@ == merged(self.query@, self.collected@).wire()
    }

    /// Starts forwarding `query`: one request per question, and a response
    /// that holds the response header and the questions, with no answers yet.
    pub fn start(query: &Message) -> (r: Forwarding)
        ensures
            r.wf(),
            r.query() == query@,
            r.rounds_done() == 0,
            r.collected() == Seq::<AnswerView>::empty(),
    {
        let requests = query.split_as_bytes();
        let response = query.create_answerless_response().as_bytes();
        Forwarding {
            requests,
            next: 0,
            response,
            query: Ghost(query@),
            collected: Ghost(Seq::empty()),
        }
    }

    /// Whether every question has had its reply.
    pub fn is_done(&self) -> (r: bool)
        requires
            self.wf(),
        ensures
            r == (self.rounds_done() == self.query().questions.len()),
    {
        self.next == self.requests.len()
    }

    /// The request to send next: the query's header with a question count of
    /// 1 and the first question not yet answered; none once all are.
    pub fn pending_request(&self) -> (r: Option<&Vec<u8>>)
        requires
            self.wf(),
        ensures
            r is Some <==> self.rounds_done() < self.query().questions.len(),
            r matches Some(b) ==> b@ == single_question_wire(
                self.query().header,
                self.query().questions[self.rounds_done() as int],
            ),
    {
        if self.next < self.requests.len() {
            Some(&self.requests[self.next])
        } else {
            None
        }
    }

    /// Takes the resolver's reply to the pending request: on success its
    /// answers are appended to the response and the next question becomes
    /// pending; a reply that does not decode changes nothing.
    pub fn on_reply(&mut self, reply: &[u8]) -> (r: Result<(), WireError>)
        requires
            old(self).wf(),
            old(self).rounds_done() < old(self).query().questions.len(),
        ensures
            final(self).wf(),
            final(self).query() == old(self).query(),
            match read_resolver_response(reply@) {
                Ok(m) => r is Ok && final(self).rounds_done() == old(self).rounds_done() + 1
                    && final(self).collected() == old(self).collected() + m.answers,
                Err(e) => r == Err::<(), WireError>(e) && final(self).rounds_done()
                    == old(self).rounds_done() && final(self).collected() == old(
                    self,
                ).collected() && final(self).response_bytes() == old(self).response_bytes(),
            },
    {
        let m = match Message::parse_resolver_response(reply) {
            Ok(m) => m,
            Err(e) => {
                return Err(e);
            },
        };
        let ghost start = self.collected@;
        let mut j: usize = 0;
        proof {
            assert(start + answer_views(m.answer@.subrange(0, 0)) =~= start);
        }
        while j < m.answer.len()
            invariant
                j <= m.answer@.len(),
                self.requests@.len() == self.query@.questions.len(),
                self.next < self.requests@.len(),
                forall|i: int|
                    0 <= i < self.requests@.len() ==> (#[trigger] self.requests@[i])@
                        == single_question_wire(self.query@.header, self.query@.questions[i]),
                self.query@ == old(self).query@,
                self.next == old(self).next,
                self.collected@ == start,
                self.response@ == merged(
                    self.query@,
                    start + answer_views(m.answer@.subrange(0, j as int)),
                ).wire(),
            decreases m.answer.len() - j,
        {
            let b = m.answer[j].as_bytes();
            append_bytes(&mut self.response, b.as_slice());
            proof {
                let before = answer_views(m.answer@.subrange(0, j as int));
                let after = answer_views(m.answer@.subrange(0, j + 1));
                assert(after =~= before.push(m.answer@[j as int]@));
                assert(start + after =~= (start + before) + seq![m.answer@[j as int]@]);
                lemma_merge_appends(self.query@, start + before, seq![m.answer@[j as int]@]);
                let one = seq![m.answer@[j as int]@];
                assert(one.drop_last() =~= Seq::<AnswerView>::empty());
                assert(answers_wire(one.drop_last()) == Seq::<u8>::empty());
                assert(one.last() == m.answer@[j as int]@);
                assert(answers_wire(one) =~= m.answer@[j as int]@.wire());
            }
            j += 1;
        }
        proof {
            assert(m.answer@.subrange(0, j as int) =~= m.answer@);
        }
        self.collected = Ghost(start + answer_views(m.answer@));
        assert(self.next < self.requests.len());
        self.next = self.next + 1;
        Ok(())
    }

    /// The response built so far: the response header, the query's
    /// questions, and the answers collected from the replies in order.
    pub fn response(&self) -> (r: &Vec<u8>)
        requires
            self.wf(),
        ensures
            r@ == merged(self.query(), self.collected()).wire(),
    {
        &self.response
    }
}

} // verus!
