//! What a forwarding resolver decides: the queries that it sends upstream
//! for a message, one for each question, and the reply that it makes of
//! what came back. Sending and receiving are the caller's.

use crate::error::CodecError;
use crate::header::Header;
use crate::packet::{
    clone_records, lemma_packet_round_trip, lemma_parsed_well_formed, packet_of, packet_wire,
    question_views, record_views, Packet, PacketView,
};
use crate::question::{Question, QuestionView};
use crate::rrecord::{RRecord, RecordView};
use vstd::prelude::*;

verus! {

/// The opcode of a standard query.
pub const OPCODE_QUERY: u8 = 0;

/// The response code for a kind of query that is not implemented.
pub const RCODE_NOT_IMPLEMENTED: u8 = 4;

/// The most answers that a header can count.
pub const MAX_ANSWERS: usize = 0xFFFF;

/// The header of a query sent upstream for a message with header `h`: a
/// copy that counts one question, its leading flag cleared, as a query has
/// it.
pub open spec fn query_header(h: Header) -> Header {
    Header { query: false, qd_count: 1, ..h }
}

/// The header of the reply to a message with header `h`, with `answers`
/// answers: identifier, opcode, recursion desired and the count of questions
/// as they came, the leading flag set, as a reply has it, the other flags
/// and the reserved bits cleared, no error for a standard query and "not
/// implemented" for any other, and no records counted but the answers.
pub open spec fn response_header(h: Header, answers: u16) -> Header {
    Header {
        query: true,
        authoritative: false,
        truncated: false,
        recursion_avail: false,
        reserved: 0,
        rcode: if h.opcode == 0 {
            0
        } else {
            4
        },
        an_count: answers,
        authority_records: 0,
        additional_records: 0,
        ..h
    }
}

/// The query sent upstream for question `i` of `inbound`: that question
/// alone, under the header of a query, with whatever answers the message
/// already held.
pub open spec fn sub_query(inbound: PacketView, i: int) -> PacketView {
    PacketView {
        header: query_header(inbound.header),
        questions: seq![inbound.questions[i]],
        answers: inbound.answers,
    }
}

/// The answers that a reply brings: those of the message it holds, none
/// where it holds no message.
pub open spec fn reply_answers(reply: Seq<u8>) -> Seq<RecordView> {
    match packet_of(reply) {
        Ok(packet) => packet.answers,
        Err(_) => Seq::empty(),
    }
}

/// The answers of the first `count` replies, in the order of the replies.
pub open spec fn collected(replies: Seq<Seq<u8>>, count: nat) -> Seq<RecordView>
    decreases count,
{
    if count == 0 {
        Seq::empty()
    } else {
        collected(replies, (count - 1) as nat) + reply_answers(replies[count - 1])
    }
}

/// The first 65535 of the items, or all of them where they are fewer.
pub open spec fn capped<T>(items: Seq<T>) -> Seq<T> {
    if items.len() > 0xFFFF {
        items.take(0xFFFF)
    } else {
        items
    }
}

/// The smaller of two numbers.
pub open spec fn least(a: nat, b: nat) -> nat {
    if a <= b {
        a
    } else {
        b
    }
}

/// What each of the replies holds.
pub open spec fn reply_bytes(replies: Seq<Vec<u8>>) -> Seq<Seq<u8>> {
    Seq::new(replies.len(), |i: int| replies[i]@)
}

/// The answers of a reply to a message of `questions` questions: those that
/// the replies bring, one reply read for each question and no more, up to
/// as many as a header can count.
pub open spec fn merged_answers(questions: nat, replies: Seq<Seq<u8>>) -> Seq<RecordView> {
    capped(collected(replies, least(questions, replies.len())))
}

/// The reply to `inbound` made of `replies`: the questions as they came and
/// the answers that the replies bring, under the header of a reply.
pub open spec fn merged(inbound: PacketView, replies: Seq<Seq<u8>>) -> PacketView {
    let answers = merged_answers(inbound.questions.len(), replies);
    PacketView {
        header: response_header(inbound.header, answers.len() as u16),
        questions: inbound.questions,
        answers,
    }
}

/// The answers that replies bring are well formed.
pub proof fn lemma_collected_well_formed(replies: Seq<Seq<u8>>, count: nat)
    requires
        count <= replies.len(),
    ensures
        forall|i: int|
            0 <= i < collected(replies, count).len() ==> (#[trigger] collected(
                replies,
                count,
            )[i]).well_formed(),
    decreases count,
{
    if count > 0 {
        let all = collected(replies, count);
        let before = collected(replies, (count - 1) as nat);
        let last = reply_answers(replies[count - 1]);
        lemma_collected_well_formed(replies, (count - 1) as nat);
        lemma_parsed_well_formed(replies[count - 1]);
        assert forall|i: int| 0 <= i < all.len() implies (#[trigger] all[i]).well_formed() by {
            if i < before.len() {
                assert(all[i] == before[i]);
            } else {
                assert(all[i] == last[i - before.len()]);
                assert(packet_of(replies[count - 1]) is Ok);
                assert(packet_of(replies[count - 1]).unwrap().answers[i - before.len()].well_formed());
            }
        }
    }
}

/// Each query sent upstream holds one question, that of its place in the
/// message, and counts one. It is well formed where the message is, so that
/// whoever reads its bytes reads this query.
pub proof fn lemma_sub_query(inbound: PacketView, i: int)
    requires
        0 <= i < inbound.questions.len(),
    ensures
        sub_query(inbound, i).header.qd_count == 1,
        sub_query(inbound, i).questions.len() == 1,
        sub_query(inbound, i).questions[0] == inbound.questions[i],
        inbound.well_formed() ==> sub_query(inbound, i).well_formed() && packet_of(
            packet_wire(sub_query(inbound, i)),
        ) == Ok::<PacketView, CodecError>(sub_query(inbound, i)),
{
    if inbound.well_formed() {
        assert(inbound.questions[i].well_formed());
        lemma_packet_round_trip(sub_query(inbound, i));
    }
}

/// The reply keeps the questions, their count and the identifier of the
/// message, counts the answers that it holds, and says "no error" exactly
/// where the message was a standard query. It is well formed where the
/// message is, so that whoever reads its bytes reads this reply.
pub proof fn lemma_merged(inbound: PacketView, replies: Seq<Seq<u8>>)
    ensures
        merged(inbound, replies).questions == inbound.questions,
        merged(inbound, replies).header.qd_count == inbound.header.qd_count,
        merged(inbound, replies).header.ident == inbound.header.ident,
        merged(inbound, replies).header.an_count == merged(inbound, replies).answers.len(),
        merged(inbound, replies).header.authority_records == 0,
        merged(inbound, replies).header.additional_records == 0,
        merged(inbound, replies).header.rcode == 0 <==> inbound.header.opcode == 0,
        inbound.well_formed() ==> merged(inbound, replies).well_formed() && packet_of(
            packet_wire(merged(inbound, replies)),
        ) == Ok::<PacketView, CodecError>(merged(inbound, replies)),
{
    let count = least(inbound.questions.len(), replies.len());
    let out = merged(inbound, replies);
    lemma_collected_well_formed(replies, count);
    if inbound.well_formed() {
        assert forall|i: int| 0 <= i < out.answers.len() implies (
        #[trigger] out.answers[i]).well_formed() by {
            assert(out.answers[i] == collected(replies, count)[i]);
        }
        lemma_packet_round_trip(out);
    }
}

/// Replies that bring one answer each bring as many answers as there are
/// replies read.
pub proof fn lemma_one_answer_each(replies: Seq<Seq<u8>>, count: nat)
    requires
        count <= replies.len(),
        forall|i: int| 0 <= i < count ==> (#[trigger] reply_answers(replies[i])).len() == 1,
    ensures
        collected(replies, count).len() == count,
    decreases count,
{
    if count > 0 {
        lemma_one_answer_each(replies, (count - 1) as nat);
    }
}

/// The header of a query sent upstream for a message with header `h`.
pub fn sub_query_header(h: Header) -> (r: Header)
    ensures
        r == query_header(h),
{
    Header { query: false, qd_count: 1, ..h }
}

/// The header of the reply to a message with header `h`, with `answers`
/// answers.
pub fn reply_header(h: Header, answers: u16) -> (r: Header)
    ensures
        r == response_header(h, answers),
{
    Header {
        query: true,
        authoritative: false,
        truncated: false,
        recursion_avail: false,
        reserved: 0,
        rcode: if h.opcode == OPCODE_QUERY {
            0
        } else {
            RCODE_NOT_IMPLEMENTED
        },
        an_count: answers,
        authority_records: 0,
        additional_records: 0,
        ..h
    }
}

/// The queries to send upstream for `inbound`: one for each question, in
/// the order of the questions.
pub fn split<'a>(inbound: &Packet<'a>) -> (subs: Vec<Packet<'a>>)
    ensures
        subs@.len() == inbound.questions@.len(),
        forall|i: int| 0 <= i < subs@.len() ==> (#[trigger] subs@[i])@ == sub_query(inbound@, i),
        inbound.wf() ==> forall|i: int| 0 <= i < subs@.len() ==> (#[trigger] subs@[i]).wf(),
        inbound.writable() ==> forall|i: int|
            0 <= i < subs@.len() ==> (#[trigger] subs@[i]).writable(),
{
    let mut subs: Vec<Packet<'a>> = Vec::new();
    let mut i: usize = 0;
    while i < inbound.questions.len()
        invariant
            i <= inbound.questions@.len(),
            subs@.len() == i,
            forall|j: int| 0 <= j < i ==> (#[trigger] subs@[j])@ == sub_query(inbound@, j),
            inbound.wf() ==> forall|j: int| 0 <= j < i ==> (#[trigger] subs@[j]).wf(),
            inbound.writable() ==> forall|j: int| 0 <= j < i ==> (#[trigger] subs@[j]).writable(),
        decreases inbound.questions@.len() - i,
    {
        let question = inbound.questions[i].clone();
        let answers = clone_records(&inbound.answers);
        let mut questions: Vec<Question<'a>> = Vec::new();
        questions.push(question);
        let sub = Packet { header: sub_query_header(inbound.header), questions, answers };
        proof {
            assert(question_views(sub.questions@) =~= seq![inbound@.questions[i as int]]);
            if inbound.writable() {
                assert forall|j: int| 0 <= j < sub.answers@.len() implies (
                #[trigger] sub.answers@[j]).rdata@.len() <= u16::MAX by {
                    assert(inbound.answers@[j].rdata@.len() <= u16::MAX);
                }
            }
            if inbound.wf() {
                assert forall|j: int| 0 <= j < sub.answers@.len() implies (
                #[trigger] sub.answers@[j]).wf() by {
                    assert(inbound.answers@[j].wf());
                }
            }
        }
        subs.push(sub);
        i += 1;
    }
    subs
}

/// The answers that `replies` bring, the first `expected` of them read and
/// any further one dropped. A reply that holds no message brings none. No
/// more answers are taken than a header can count.
pub fn collect_answers<'a>(replies: &'a Vec<Vec<u8>>, expected: usize) -> (answers: Vec<
    RRecord<'a>,
>)
    ensures
        record_views(answers@) == merged_answers(expected as nat, reply_bytes(replies@)),
        forall|i: int| 0 <= i < answers@.len() ==> (#[trigger] answers@[i]).wf(),
{
    let count: usize = if expected <= replies.len() {
        expected
    } else {
        replies.len()
    };
    let ghost all = reply_bytes(replies@);
    let mut answers: Vec<RRecord<'a>> = Vec::new();
    let mut i: usize = 0;
    assert(record_views(answers@) =~= capped(collected(all, 0)));
    while i < count
        invariant
            i <= count <= replies@.len(),
            all == reply_bytes(replies@),
            record_views(answers@) == capped(collected(all, i as nat)),
            forall|j: int| 0 <= j < answers@.len() ==> (#[trigger] answers@[j]).wf(),
        decreases count - i,
    {
        let ghost before = collected(all, i as nat);
        assert(all[i as int] == replies@[i as int]@);
        match Packet::parse(replies[i].as_slice()) {
            Ok(packet) => {
                let ghost brought = packet@.answers;
                let ghost records = packet.answers@;
                assert(brought.take(0) =~= Seq::<RecordView>::empty());
                assert(before + brought.take(0) =~= before);
                for record in it: packet.answers.into_iter()
                    invariant
                        it.seq() == records,
                        record_views(records) == brought,
                        forall|j: int| 0 <= j < records.len() ==> (#[trigger] records[j]).wf(),
                        record_views(answers@) == capped(before + brought.take(it.index() as int)),
                        forall|j: int| 0 <= j < answers@.len() ==> (#[trigger] answers@[j]).wf(),
                {
                    let ghost k = it.index() as int;
                    let ghost sofar = before + brought.take(k);
                    assert(before + brought.take(k + 1) =~= sofar.push(record@));
                    assert(record.wf());
                    if answers.len() < MAX_ANSWERS {
                        assert(record_views(answers@.push(record)) =~= record_views(answers@).push(
                            record@,
                        ));
                        assert(capped(sofar.push(record@)) =~= capped(sofar).push(record@));
                        answers.push(record);
                    } else {
                        assert(capped(sofar.push(record@)) =~= capped(sofar));
                    }
                }
                assert(brought.take(brought.len() as int) =~= brought);
            },
            Err(_) => {
                assert(before + Seq::<RecordView>::empty() =~= before);
            },
        }
        i += 1;
    }
    answers
}

/// The reply to `inbound` made of what came back from upstream: the
/// questions as they came and the answers that the replies bring, under the
/// header of a reply.
pub fn merge<'a>(inbound: Packet<'a>, replies: &'a Vec<Vec<u8>>) -> (out: Packet<'a>)
    ensures
        out@ == merged(inbound@, reply_bytes(replies@)),
        out.header.an_count == out.answers@.len(),
        out.writable(),
        inbound.wf() ==> out.wf(),
{
    let answers = collect_answers(replies, inbound.questions.len());
    assert(question_views(inbound.questions@).len() == inbound.questions@.len());
    assert(record_views(answers@).len() == answers@.len());
    let header = reply_header(inbound.header, answers.len() as u16);
    let out = Packet { header, questions: inbound.questions, answers };
    proof {
        assert forall|i: int| 0 <= i < out.answers@.len() implies (
        #[trigger] out.answers@[i]).rdata@.len() <= u16::MAX by {
            assert(out.answers@[i].wf());
        }
    }
    out
}

/// The datagrams to send upstream for the message in `request`: for each of
/// its questions the encoding of its query, in the order of the questions.
/// Fails as reading the message fails.
pub fn upstream_queries(request: &[u8]) -> (res: Result<Vec<Vec<u8>>, CodecError>)
    ensures
        match packet_of(request@) {
            Ok(inbound) => res matches Ok(queries) && queries@.len() == inbound.questions.len()
                && forall|i: int|
                0 <= i < queries@.len() ==> (#[trigger] queries@[i])@ == packet_wire(
                    sub_query(inbound, i),
                ),
            Err(e) => res matches Err(err) && err == e,
        },
{
    let inbound = match Packet::parse(request) {
        Ok(inbound) => inbound,
        Err(e) => {
            return Err(e);
        },
    };
    assert(inbound.writable()) by {
        assert forall|i: int| 0 <= i < inbound.answers@.len() implies (
        #[trigger] inbound.answers@[i]).rdata@.len() <= u16::MAX by {
            assert(inbound.answers@[i].wf());
        }
    }
    assert(question_views(inbound.questions@).len() == inbound.questions@.len());
    let subs = split(&inbound);
    let mut queries: Vec<Vec<u8>> = Vec::new();
    for sub in it: subs.into_iter()
        invariant
            forall|i: int| 0 <= i < it.seq().len() ==> (#[trigger] it.seq()[i])@ == sub_query(inbound@, i),
            forall|i: int| 0 <= i < it.seq().len() ==> (#[trigger] it.seq()[i]).writable(),
            queries@.len() == it.index(),
            forall|i: int|
                0 <= i < queries@.len() ==> (#[trigger] queries@[i])@ == packet_wire(
                    sub_query(inbound@, i),
                ),
    {
        let mut bytes: Vec<u8> = Vec::new();
        sub.write_to(&mut bytes);
        assert(bytes@ =~= packet_wire(sub@));
        queries.push(bytes);
    }
    Ok(queries)
}

/// The datagram that answers the message in `request`, made of the
/// datagrams that came back from upstream. Fails as reading the message
/// fails; a reply that cannot be read brings no answers.
pub fn response(request: &[u8], replies: &Vec<Vec<u8>>) -> (res: Result<Vec<u8>, CodecError>)
    ensures
        match packet_of(request@) {
            Ok(inbound) => res matches Ok(bytes) && bytes@ == packet_wire(
                merged(inbound, reply_bytes(replies@)),
            ),
            Err(e) => res matches Err(err) && err == e,
        },
{
    let inbound = match Packet::parse(request) {
        Ok(inbound) => inbound,
        Err(e) => {
            return Err(e);
        },
    };
    let out = merge(inbound, replies);
    let mut bytes: Vec<u8> = Vec::new();
    out.write_to(&mut bytes);
    assert(bytes@ =~= packet_wire(out@));
    Ok(bytes)
}

} // verus!
