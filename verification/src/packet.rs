//! A whole message: the header, then as many questions and answers as the
//! header counts.

use crate::error::CodecError;
use crate::header::{
    lemma_decode_valid, lemma_header_bytes_round_trip, lemma_header_round_trip,
    lemma_header_wire_len, Header, HEADER_LEN,
};
use crate::qname::plain_at;
use crate::question::{
    lemma_question_at_valid, lemma_question_bytes, lemma_question_round_trip, question_at,
    question_wire, Question, QuestionView,
};
use crate::rrecord::{
    lemma_record_at_valid, lemma_record_bytes, lemma_record_round_trip, record_at, record_wire,
    RRecord, RecordView,
};
use crate::wire::lemma_split_at;
use vstd::prelude::*;
use vstd::slice::slice_subrange;

verus! {

/// A message. Of its sections only questions and answers are kept.
#[derive(Debug)]
pub struct Packet<'a> {
    pub header: Header,
    pub questions: Vec<Question<'a>>,
    pub answers: Vec<RRecord<'a>>,
}

/// What a message holds.
pub struct PacketView {
    pub header: Header,
    pub questions: Seq<QuestionView>,
    pub answers: Seq<RecordView>,
}

/// What each of the questions holds.
pub open spec fn question_views(questions: Seq<Question>) -> Seq<QuestionView> {
    Seq::new(questions.len(), |i: int| questions[i]@)
}

/// What each of the records holds.
pub open spec fn record_views(records: Seq<RRecord>) -> Seq<RecordView> {
    Seq::new(records.len(), |i: int| records[i]@)
}

impl<'a> View for Packet<'a> {
    type V = PacketView;

    open spec fn view(&self) -> PacketView {
        PacketView {
            header: self.header,
            questions: question_views(self.questions@),
            answers: record_views(self.answers@),
        }
    }
}

/// `done` in front of the items that `rest` holds, if it holds any.
pub open spec fn prepend_items<T>(done: Seq<T>, rest: Result<(Seq<T>, int), CodecError>) -> Result<
    (Seq<T>, int),
    CodecError,
> {
    match rest {
        Ok((items, end)) => Ok((done + items, end)),
        Err(e) => Err(e),
    }
}

/// What parsing `count` questions one behind the other gives, the first at
/// `pos`: the questions, and the place behind the last; or the error of the
/// first that fails.
pub open spec fn questions_at(buf: Seq<u8>, pos: int, count: nat) -> Result<
    (Seq<QuestionView>, int),
    CodecError,
>
    decreases count,
{
    if count == 0 {
        Ok((Seq::empty(), pos))
    } else {
        match question_at(buf, pos) {
            Err(e) => Err(e),
            Ok((question, next)) => prepend_items(
                seq![question],
                questions_at(buf, next, (count - 1) as nat),
            ),
        }
    }
}

/// What parsing `count` records one behind the other gives, the first at
/// `pos`: the records, and the place behind the last; or the error of the
/// first that fails.
pub open spec fn records_at(buf: Seq<u8>, pos: int, count: nat) -> Result<
    (Seq<RecordView>, int),
    CodecError,
>
    decreases count,
{
    if count == 0 {
        Ok((Seq::empty(), pos))
    } else {
        match record_at(buf, pos) {
            Err(e) => Err(e),
            Ok((record, next)) => prepend_items(
                seq![record],
                records_at(buf, next, (count - 1) as nat),
            ),
        }
    }
}

/// What parsing a message gives: the header from its first twelve bytes,
/// then the questions that the header counts, then the answers that it
/// counts; or the error of the first part that fails. Bytes behind the last
/// answer are not read.
pub open spec fn packet_of(buf: Seq<u8>) -> Result<PacketView, CodecError> {
    if buf.len() < 12 {
        Err(CodecError::MalformedHeader)
    } else {
        let header = Header::decode(buf);
        match questions_at(buf, 12, header.qd_count as nat) {
            Err(e) => Err(e),
            Ok((questions, pos)) => match records_at(buf, pos, header.an_count as nat) {
                Err(e) => Err(e),
                Ok((answers, _)) => Ok(PacketView { header, questions, answers }),
            },
        }
    }
}

/// The encodings of the questions, one behind the other.
pub open spec fn questions_wire(questions: Seq<QuestionView>) -> Seq<u8>
    decreases questions.len(),
{
    if questions.len() == 0 {
        Seq::empty()
    } else {
        question_wire(questions[0]) + questions_wire(questions.drop_first())
    }
}

/// The encodings of the records, one behind the other.
pub open spec fn records_wire(records: Seq<RecordView>) -> Seq<u8>
    decreases records.len(),
{
    if records.len() == 0 {
        Seq::empty()
    } else {
        record_wire(records[0]) + records_wire(records.drop_first())
    }
}

/// The encoding of a message: the header, the questions in order, the
/// answers in order.
pub open spec fn packet_wire(packet: PacketView) -> Seq<u8> {
    packet.header.wire() + questions_wire(packet.questions) + records_wire(packet.answers)
}

/// One question more at the end adds its encoding at the end.
pub proof fn lemma_questions_wire_push(questions: Seq<QuestionView>, question: QuestionView)
    ensures
        questions_wire(questions.push(question)) == questions_wire(questions) + question_wire(
            question,
        ),
    decreases questions.len(),
{
    if questions.len() == 0 {
        assert(questions.push(question).drop_first() =~= Seq::<QuestionView>::empty());
        assert(questions_wire(Seq::<QuestionView>::empty()) =~= Seq::<u8>::empty());
        assert(questions_wire(questions.push(question)) =~= question_wire(question));
        assert(questions_wire(questions) + question_wire(question) =~= question_wire(question));
    } else {
        assert(questions.push(question).drop_first() =~= questions.drop_first().push(question));
        lemma_questions_wire_push(questions.drop_first(), question);
        assert(questions_wire(questions.push(question)) =~= questions_wire(questions)
            + question_wire(question));
    }
}

/// One record more at the end adds its encoding at the end.
pub proof fn lemma_records_wire_push(records: Seq<RecordView>, record: RecordView)
    ensures
        records_wire(records.push(record)) == records_wire(records) + record_wire(record),
    decreases records.len(),
{
    if records.len() == 0 {
        assert(records.push(record).drop_first() =~= Seq::<RecordView>::empty());
        assert(records_wire(Seq::<RecordView>::empty()) =~= Seq::<u8>::empty());
        assert(records_wire(records.push(record)) =~= record_wire(record));
        assert(records_wire(records) + record_wire(record) =~= record_wire(record));
    } else {
        assert(records.push(record).drop_first() =~= records.drop_first().push(record));
        lemma_records_wire_push(records.drop_first(), record);
        assert(records_wire(records.push(record)) =~= records_wire(records) + record_wire(
            record,
        ));
    }
}

impl PacketView {
    /// The fields of the header fit their bits, the header counts the
    /// questions and answers that are there, and each of those is well
    /// formed.
    pub open spec fn well_formed(&self) -> bool {
        &&& self.header.valid()
        &&& self.header.qd_count == self.questions.len()
        &&& self.header.an_count == self.answers.len()
        &&& forall|i: int| 0 <= i < self.questions.len() ==> (#[trigger] self.questions[i]).well_formed()
        &&& forall|i: int| 0 <= i < self.answers.len() ==> (#[trigger] self.answers[i]).well_formed()
    }
}

/// Reading back questions that were written gives them again, and ends
/// where their encoding ends.
pub proof fn lemma_questions_round_trip(buf: Seq<u8>, pos: int, questions: Seq<QuestionView>)
    requires
        0 <= pos,
        pos + questions_wire(questions).len() <= buf.len(),
        buf.subrange(pos, pos + questions_wire(questions).len()) == questions_wire(questions),
        forall|i: int| 0 <= i < questions.len() ==> (#[trigger] questions[i]).well_formed(),
    ensures
        questions_at(buf, pos, questions.len()) == Ok::<(Seq<QuestionView>, int), CodecError>(
            (questions, pos + questions_wire(questions).len()),
        ),
    decreases questions.len(),
{
    if questions.len() > 0 {
        let first = questions[0];
        let rest = questions.drop_first();
        assert(first.well_formed());
        lemma_split_at(buf, pos, question_wire(first), questions_wire(rest));
        lemma_question_round_trip(buf, pos, first);
        assert forall|i: int| 0 <= i < rest.len() implies (#[trigger] rest[i]).well_formed() by {
            assert(questions[i + 1].well_formed());
        }
        lemma_questions_round_trip(buf, pos + question_wire(first).len(), rest);
        assert(seq![first] + rest =~= questions);
        assert(rest.len() == (questions.len() - 1) as nat);
    } else {
        assert(questions =~= Seq::<QuestionView>::empty());
    }
}

/// Reading back records that were written gives them again, and ends where
/// their encoding ends.
pub proof fn lemma_records_round_trip(buf: Seq<u8>, pos: int, records: Seq<RecordView>)
    requires
        0 <= pos,
        pos + records_wire(records).len() <= buf.len(),
        buf.subrange(pos, pos + records_wire(records).len()) == records_wire(records),
        forall|i: int| 0 <= i < records.len() ==> (#[trigger] records[i]).well_formed(),
    ensures
        records_at(buf, pos, records.len()) == Ok::<(Seq<RecordView>, int), CodecError>(
            (records, pos + records_wire(records).len()),
        ),
    decreases records.len(),
{
    if records.len() > 0 {
        let first = records[0];
        let rest = records.drop_first();
        assert(first.well_formed());
        lemma_split_at(buf, pos, record_wire(first), records_wire(rest));
        lemma_record_round_trip(buf, pos, first);
        assert forall|i: int| 0 <= i < rest.len() implies (#[trigger] rest[i]).well_formed() by {
            assert(records[i + 1].well_formed());
        }
        lemma_records_round_trip(buf, pos + record_wire(first).len(), rest);
        assert(seq![first] + rest =~= records);
        assert(rest.len() == (records.len() - 1) as nat);
    } else {
        assert(records =~= Seq::<RecordView>::empty());
    }
}

/// Reading back a message that was written gives the message again: its
/// header, its questions and its answers, each as it was. Names are written
/// in full, so what is read back holds no pointer.
pub proof fn lemma_packet_round_trip(packet: PacketView)
    requires
        packet.well_formed(),
    ensures
        packet_of(packet_wire(packet)) == Ok::<PacketView, CodecError>(packet),
{
    let header = packet.header.wire();
    let questions = questions_wire(packet.questions);
    let answers = records_wire(packet.answers);
    let buf = packet_wire(packet);
    lemma_header_wire_len(packet.header);
    assert(buf =~= header + (questions + answers));
    assert(buf.subrange(0, 12 + (questions + answers).len() as int) =~= buf);
    lemma_split_at(buf, 0, header, questions + answers);
    assert(Header::decode(buf) == Header::decode(header)) by {
        assert forall|i: int| 0 <= i < 12 implies buf[i] == header[i] by {
            assert(buf.subrange(0, 12)[i] == header[i]);
        }
    }
    lemma_header_round_trip(packet.header);
    lemma_split_at(buf, 12, questions, answers);
    lemma_questions_round_trip(buf, 12, packet.questions);
    lemma_records_round_trip(buf, 12 + questions.len() as int, packet.answers);
}

/// Questions that were read are well formed, as many as were asked for, and
/// end within the bytes.
pub proof fn lemma_questions_at_valid(buf: Seq<u8>, pos: int, count: nat)
    requires
        0 <= pos <= buf.len(),
    ensures
        questions_at(buf, pos, count) matches Ok((questions, end)) ==> questions.len() == count
            && pos <= end <= buf.len() && forall|i: int|
            0 <= i < questions.len() ==> (#[trigger] questions[i]).well_formed(),
    decreases count,
{
    if count > 0 {
        lemma_question_at_valid(buf, pos);
        if let Ok((first, next)) = question_at(buf, pos) {
            lemma_questions_at_valid(buf, next, (count - 1) as nat);
        }
    }
}

/// Records that were read are well formed, as many as were asked for, and
/// end within the bytes.
pub proof fn lemma_records_at_valid(buf: Seq<u8>, pos: int, count: nat)
    requires
        0 <= pos <= buf.len(),
    ensures
        records_at(buf, pos, count) matches Ok((records, end)) ==> records.len() == count && pos
            <= end <= buf.len() && forall|i: int|
            0 <= i < records.len() ==> (#[trigger] records[i]).well_formed(),
    decreases count,
{
    if count > 0 {
        lemma_record_at_valid(buf, pos);
        if let Ok((first, next)) = record_at(buf, pos) {
            lemma_records_at_valid(buf, next, (count - 1) as nat);
        }
    }
}

/// A message that was read is well formed.
pub proof fn lemma_parsed_well_formed(buf: Seq<u8>)
    ensures
        packet_of(buf) matches Ok(packet) ==> packet.well_formed(),
{
    if let Ok(packet) = packet_of(buf) {
        lemma_decode_valid(buf);
        lemma_questions_at_valid(buf, 12, packet.header.qd_count as nat);
        let pos = questions_at(buf, 12, packet.header.qd_count as nat).unwrap().1;
        lemma_records_at_valid(buf, pos, packet.header.an_count as nat);
    }
}

/// Writing a message that was read and reading it again gives the same
/// message, whether or not the bytes it was first read from held pointers.
pub proof fn lemma_parsed_round_trip(buf: Seq<u8>)
    ensures
        packet_of(buf) matches Ok(packet) ==> packet_of(packet_wire(packet)) == Ok::<
            PacketView,
            CodecError,
        >(packet),
{
    if let Ok(packet) = packet_of(buf) {
        lemma_parsed_well_formed(buf);
        lemma_packet_round_trip(packet);
    }
}

/// Each of the `count` questions from `pos` on has its name in full.
pub open spec fn questions_plain(buf: Seq<u8>, pos: int, count: nat) -> bool
    decreases count,
{
    count == 0 || (plain_at(buf, pos) && match question_at(buf, pos) {
        Ok((_, next)) => questions_plain(buf, next, (count - 1) as nat),
        Err(_) => true,
    })
}

/// Each of the `count` records from `pos` on has its name in full.
pub open spec fn records_plain(buf: Seq<u8>, pos: int, count: nat) -> bool
    decreases count,
{
    count == 0 || (plain_at(buf, pos) && match record_at(buf, pos) {
        Ok((_, next)) => records_plain(buf, next, (count - 1) as nat),
        Err(_) => true,
    })
}

/// The message in `buf` holds no pointer: each of its names stands there in
/// full.
pub open spec fn packet_plain(buf: Seq<u8>) -> bool {
    &&& buf.len() >= 12
    &&& questions_plain(buf, 12, Header::decode(buf).qd_count as nat)
    &&& match questions_at(buf, 12, Header::decode(buf).qd_count as nat) {
        Ok((_, pos)) => records_plain(buf, pos, Header::decode(buf).an_count as nat),
        Err(_) => true,
    }
}

/// Writing questions that were read gives the bytes they were read from,
/// where their names stood there in full.
pub proof fn lemma_questions_bytes(buf: Seq<u8>, pos: int, count: nat)
    requires
        0 <= pos <= buf.len(),
        questions_plain(buf, pos, count),
    ensures
        questions_at(buf, pos, count) matches Ok((questions, end)) ==> pos <= end <= buf.len()
            && questions_wire(questions) == buf.subrange(pos, end),
    decreases count,
{
    if let Ok((questions, end)) = questions_at(buf, pos, count) {
        if count > 0 {
            let (first, next) = question_at(buf, pos).unwrap();
            let (rest, _) = questions_at(buf, next, (count - 1) as nat).unwrap();
            lemma_question_at_valid(buf, pos);
            lemma_question_bytes(buf, pos);
            lemma_questions_bytes(buf, next, (count - 1) as nat);
            assert(questions =~= seq![first] + rest);
            assert(questions.drop_first() =~= rest);
            assert(questions_wire(questions) =~= buf.subrange(pos, end));
        } else {
            assert(questions_wire(questions) =~= buf.subrange(pos, end));
        }
    }
}

/// Writing records that were read gives the bytes they were read from,
/// where their names stood there in full.
pub proof fn lemma_records_bytes(buf: Seq<u8>, pos: int, count: nat)
    requires
        0 <= pos <= buf.len(),
        records_plain(buf, pos, count),
    ensures
        records_at(buf, pos, count) matches Ok((records, end)) ==> pos <= end <= buf.len()
            && records_wire(records) == buf.subrange(pos, end),
    decreases count,
{
    if let Ok((records, end)) = records_at(buf, pos, count) {
        if count > 0 {
            let (first, next) = record_at(buf, pos).unwrap();
            let (rest, _) = records_at(buf, next, (count - 1) as nat).unwrap();
            lemma_record_at_valid(buf, pos);
            lemma_record_bytes(buf, pos);
            lemma_records_bytes(buf, next, (count - 1) as nat);
            assert(records =~= seq![first] + rest);
            assert(records.drop_first() =~= rest);
            assert(records_wire(records) =~= buf.subrange(pos, end));
        } else {
            assert(records_wire(records) =~= buf.subrange(pos, end));
        }
    }
}

/// Writing a message that was read from bytes without pointers gives those
/// bytes again, byte for byte, as far as the message went.
pub proof fn lemma_packet_bytes(buf: Seq<u8>)
    requires
        packet_plain(buf),
    ensures
        packet_of(buf) matches Ok(packet) ==> packet_wire(packet).len() <= buf.len()
            && packet_wire(packet) == buf.take(packet_wire(packet).len() as int),
{
    if let Ok(packet) = packet_of(buf) {
        let header = Header::decode(buf);
        lemma_questions_bytes(buf, 12, header.qd_count as nat);
        let (questions, pos) = questions_at(buf, 12, header.qd_count as nat).unwrap();
        lemma_records_bytes(buf, pos, header.an_count as nat);
        let (answers, end) = records_at(buf, pos, header.an_count as nat).unwrap();
        lemma_header_bytes_round_trip(buf.take(12));
        assert(Header::decode(buf.take(12)) == header);
        assert(packet_wire(packet) =~= buf.take(12) + buf.subrange(12, pos) + buf.subrange(
            pos,
            end,
        ));
        assert(packet_wire(packet) =~= buf.take(end));
    }
}

impl<'a> Packet<'a> {
    /// What a message holds is well formed where the message is and the
    /// fields of its header fit their bits.
    pub proof fn lemma_view_well_formed(&self)
        requires
            self.wf(),
            self.header.valid(),
        ensures
            self@.well_formed(),
    {
        assert forall|i: int| 0 <= i < self@.questions.len() implies (
        #[trigger] self@.questions[i]).well_formed() by {
            self.questions@[i].name.lemma_labels_valid();
        }
        assert forall|i: int| 0 <= i < self@.answers.len() implies (
        #[trigger] self@.answers[i]).well_formed() by {
            assert(self.answers@[i].wf());
            self.answers@[i].name.lemma_labels_valid();
        }
    }

    /// The message is as one that was read: the header counts the questions
    /// and answers that are there, and every answer is as one that was read.
    pub open spec fn wf(&self) -> bool {
        &&& self.header.qd_count == self.questions@.len()
        &&& self.header.an_count == self.answers@.len()
        &&& forall|i: int| 0 <= i < self.questions@.len() ==> (#[trigger] self.questions@[i]).name.wf()
        &&& forall|i: int| 0 <= i < self.answers@.len() ==> (#[trigger] self.answers@[i]).wf()
    }

    /// Every payload is short enough for its length to be written.
    pub open spec fn writable(&self) -> bool {
        forall|i: int|
            0 <= i < self.answers@.len() ==> (#[trigger] self.answers@[i]).rdata@.len() <= u16::MAX
    }

    /// Reads a message.
    pub fn parse(data: &'a [u8]) -> (res: Result<Packet<'a>, CodecError>)
        ensures
            match packet_of(data@) {
                Ok(packet) => res matches Ok(p) && p@ == packet && p.wf(),
                Err(e) => res matches Err(err) && err == e,
            },
    {
        if data.len() < HEADER_LEN {
            return Err(CodecError::MalformedHeader);
        }
        let header = match Header::parse(slice_subrange(data, 0, HEADER_LEN)) {
            Ok(header) => header,
            Err(e) => {
                return Err(e);
            },
        };
        assert(header == Header::decode(data@));
        let mut pos: usize = HEADER_LEN;
        let mut questions: Vec<Question<'a>> = Vec::new();
        let mut k: u16 = 0;
        assert(question_views(questions@) =~= Seq::<QuestionView>::empty());
        while k < header.qd_count
            invariant
                12 <= pos <= data@.len(),
                header == Header::decode(data@),
                k <= header.qd_count,
                k == questions@.len(),
                forall|i: int| 0 <= i < questions@.len() ==> (#[trigger] questions@[i]).name.wf(),
                questions_at(data@, 12, header.qd_count as nat) == prepend_items(
                    question_views(questions@),
                    questions_at(data@, pos as int, (header.qd_count - k) as nat),
                ),
            decreases header.qd_count - k,
        {
            let rest = slice_subrange(data, pos, data.len());
            assert(rest@ =~= data@.skip(data@.len() - rest@.len()));
            let question = match Question::parse(rest, data) {
                Ok(question) => question,
                Err(e) => {
                    return Err(e);
                },
            };
            proof {
                let done = question_views(questions@);
                let after = questions_at(
                    data@,
                    pos + question.encoded_len(),
                    (header.qd_count - k - 1) as nat,
                );
                assert(question_views(questions@.push(question)) =~= done.push(question@));
                if after is Ok {
                    assert(done + (seq![question@] + after.unwrap().0) =~= done.push(question@)
                        + after.unwrap().0);
                }
            }
            pos = pos + question.length();
            questions.push(question);
            k = k + 1;
        }
        let mut answers: Vec<RRecord<'a>> = Vec::new();
        let mut k: u16 = 0;
        let ghost first: int = pos as int;
        assert(record_views(answers@) =~= Seq::<RecordView>::empty());
        assert(question_views(questions@) + Seq::<QuestionView>::empty() =~= question_views(
            questions@,
        ));
        while k < header.an_count
            invariant
                12 <= pos <= data@.len(),
                header == Header::decode(data@),
                questions_at(data@, 12, header.qd_count as nat) == Ok::<
                    (Seq<QuestionView>, int),
                    CodecError,
                >((question_views(questions@), first)),
                k <= header.an_count,
                k == answers@.len(),
                forall|i: int| 0 <= i < answers@.len() ==> (#[trigger] answers@[i]).wf(),
                records_at(data@, first, header.an_count as nat) == prepend_items(
                    record_views(answers@),
                    records_at(data@, pos as int, (header.an_count - k) as nat),
                ),
            decreases header.an_count - k,
        {
            let rest = slice_subrange(data, pos, data.len());
            assert(rest@ =~= data@.skip(data@.len() - rest@.len()));
            let record = match RRecord::parse(rest, data) {
                Ok(record) => record,
                Err(e) => {
                    return Err(e);
                },
            };
            proof {
                let done = record_views(answers@);
                let after = records_at(
                    data@,
                    pos + record.encoded_len(),
                    (header.an_count - k - 1) as nat,
                );
                assert(record_views(answers@.push(record)) =~= done.push(record@));
                if after is Ok {
                    assert(done + (seq![record@] + after.unwrap().0) =~= done.push(record@)
                        + after.unwrap().0);
                }
            }
            pos = pos + record.length();
            answers.push(record);
            k = k + 1;
        }
        assert(record_views(answers@) + Seq::<RecordView>::empty() =~= record_views(answers@));
        Ok(Packet { header, questions, answers })
    }

    /// Appends the message to `buf`: the header as it is, then the
    /// questions and the answers in their order, every name in full.
    pub fn write_to(self, buf: &mut Vec<u8>)
        requires
            self.writable(),
        ensures
            final(buf)@ == old(buf)@ + packet_wire(self@),
    {
        let ghost questions = question_views(self.questions@);
        let ghost answers = record_views(self.answers@);
        let ghost records = self.answers@;
        self.header.write_to(buf);
        let ghost head = buf@;
        assert(questions.take(0) =~= Seq::<QuestionView>::empty());
        for question in it: self.questions.into_iter()
            invariant
                question_views(it.seq()) == questions,
                buf@ == head + questions_wire(questions.take(it.index() as int)),
        {
            proof {
                let k = it.index() as int;
                assert(questions.take(k + 1) =~= questions.take(k).push(question@));
                lemma_questions_wire_push(questions.take(k), question@);
            }
            question.write_to(buf);
            assert(buf@ =~= head + questions_wire(questions.take(it.index() + 1)));
        }
        assert(questions.take(questions.len() as int) =~= questions);
        let ghost head = buf@;
        assert(answers.take(0) =~= Seq::<RecordView>::empty());
        for record in it: self.answers.into_iter()
            invariant
                it.seq() == records,
                record_views(it.seq()) == answers,
                forall|i: int| 0 <= i < records.len() ==> (#[trigger] records[i]).rdata@.len() <= u16::MAX,
                buf@ == head + records_wire(answers.take(it.index() as int)),
        {
            proof {
                let k = it.index() as int;
                assert(answers.take(k + 1) =~= answers.take(k).push(record@));
                lemma_records_wire_push(answers.take(k), record@);
            }
            record.write_to(buf);
            assert(buf@ =~= head + records_wire(answers.take(it.index() + 1)));
        }
        assert(answers.take(answers.len() as int) =~= answers);
        assert(buf@ =~= old(buf)@ + packet_wire(self@));
    }
}

/// A copy of the questions.
fn clone_questions<'a>(questions: &Vec<Question<'a>>) -> (copy: Vec<Question<'a>>)
    ensures
        question_views(copy@) == question_views(questions@),
        forall|i: int| 0 <= i < copy@.len() ==> (#[trigger] copy@[i]).name.wf(),
{
    let mut copy: Vec<Question<'a>> = Vec::new();
    let mut i: usize = 0;
    while i < questions.len()
        invariant
            i <= questions@.len(),
            copy@.len() == i,
            forall|j: int| 0 <= j < i ==> (#[trigger] copy@[j])@ == questions@[j]@,
            forall|j: int| 0 <= j < i ==> (#[trigger] copy@[j]).name.wf(),
        decreases questions@.len() - i,
    {
        copy.push(questions[i].clone());
        i += 1;
    }
    assert(question_views(copy@) =~= question_views(questions@));
    copy
}

/// A copy of the records.
pub(crate) fn clone_records<'a>(records: &Vec<RRecord<'a>>) -> (copy: Vec<RRecord<'a>>)
    ensures
        record_views(copy@) == record_views(records@),
        copy@.len() == records@.len(),
        forall|i: int|
            0 <= i < copy@.len() ==> (#[trigger] copy@[i]).wf() == records@[i].wf() && copy@[i].rdlength
                == records@[i].rdlength && copy@[i].rdata@ == records@[i].rdata@,
{
    let mut copy: Vec<RRecord<'a>> = Vec::new();
    let mut i: usize = 0;
    while i < records.len()
        invariant
            i <= records@.len(),
            copy@.len() == i,
            forall|j: int| 0 <= j < i ==> (#[trigger] copy@[j])@ == records@[j]@,
            forall|j: int|
                0 <= j < i ==> (#[trigger] copy@[j]).wf() == records@[j].wf() && copy@[j].rdlength
                    == records@[j].rdlength && copy@[j].rdata@ == records@[j].rdata@,
        decreases records@.len() - i,
    {
        copy.push(records[i].clone());
        i += 1;
    }
    assert(record_views(copy@) =~= record_views(records@));
    copy
}

impl<'a> Clone for Packet<'a> {
    fn clone(&self) -> (r: Self)
        ensures
            r@ == self@,
            self.wf() ==> r.wf(),
            r.writable() == self.writable(),
    {
        let questions = clone_questions(&self.questions);
        let answers = clone_records(&self.answers);
        proof {
            assert(questions@.len() == question_views(questions@).len());
            assert(self.questions@.len() == question_views(self.questions@).len());
        }
        let r = Packet { header: self.header, questions, answers };
        proof {
            if self.writable() {
                assert forall|i: int| 0 <= i < r.answers@.len() implies (
                #[trigger] r.answers@[i]).rdata@.len() <= u16::MAX by {
                    assert(self.answers@[i].rdata@.len() <= u16::MAX);
                }
            }
            if r.writable() {
                assert forall|i: int| 0 <= i < self.answers@.len() implies (
                #[trigger] self.answers@[i]).rdata@.len() <= u16::MAX by {
                    assert(r.answers@[i].rdata@.len() <= u16::MAX);
                }
            }
        }
        r
    }
}

} // verus!
