//! A question: a name, a type and a class.

use crate::error::CodecError;
use crate::qname::{
    labels_valid, lemma_name_at_valid, lemma_name_round_trip, lemma_scan_bounds, name_at, name_wire,
    plain_at, Qname,
};
use crate::wire::{
    be16, lemma_be16_of_u16_at, lemma_split_at, lemma_u16_at, push_u16, read_u16, u16_at,
};
use vstd::prelude::*;

verus! {

/// One query of a message.
#[derive(Debug)]
pub struct Question<'a> {
    pub name: Qname<'a>,
    pub q_type: u16,
    pub class: u16,
}

/// What a question holds: the labels of its name, its type and its class.
pub struct QuestionView {
    pub name: Seq<Seq<u8>>,
    pub q_type: u16,
    pub class: u16,
}

impl<'a> View for Question<'a> {
    type V = QuestionView;

    open spec fn view(&self) -> QuestionView {
        QuestionView { name: self.name@, q_type: self.q_type, class: self.class }
    }
}

/// What parsing the question at `start` gives: the question, and the place
/// behind it. The four bytes of type and class follow the name's own
/// encoding.
pub open spec fn question_at(buf: Seq<u8>, start: int) -> Result<(QuestionView, int), CodecError> {
    match name_at(buf, start) {
        Err(e) => Err(e),
        Ok((labels, end)) => if end + 4 > buf.len() {
            Err(CodecError::TruncatedQuestion)
        } else {
            Ok(
                (
                    QuestionView {
                        name: labels,
                        q_type: u16_at(buf, end),
                        class: u16_at(buf, end + 2),
                    },
                    end + 4,
                ),
            )
        },
    }
}

/// The encoding of a question: the name in full, the type, the class.
pub open spec fn question_wire(q: QuestionView) -> Seq<u8> {
    name_wire(q.name) + be16(q.q_type) + be16(q.class)
}

impl QuestionView {
    /// The labels of the name are of 1 to 63 bytes each.
    pub open spec fn well_formed(&self) -> bool {
        labels_valid(self.name)
    }
}

/// Reading back a question that was written gives the question again and
/// ends where its encoding ends.
pub proof fn lemma_question_round_trip(buf: Seq<u8>, pos: int, q: QuestionView)
    requires
        0 <= pos,
        pos + question_wire(q).len() <= buf.len(),
        buf.subrange(pos, pos + question_wire(q).len()) == question_wire(q),
        q.well_formed(),
    ensures
        question_at(buf, pos) == Ok::<(QuestionView, int), CodecError>(
            (q, pos + question_wire(q).len()),
        ),
{
    let name = name_wire(q.name);
    let fixed = be16(q.q_type) + be16(q.class);
    assert(question_wire(q) =~= name + fixed);
    lemma_split_at(buf, pos, name, fixed);
    lemma_name_round_trip(buf, pos, q.name);
    let end = pos + name.len();
    lemma_split_at(buf, end, be16(q.q_type), be16(q.class));
    lemma_u16_at(buf, end, q.q_type);
    lemma_u16_at(buf, end + 2, q.class);
}

/// Writing a question that was read gives the bytes it was read from,
/// where its name stood there in full.
pub proof fn lemma_question_bytes(buf: Seq<u8>, pos: int)
    requires
        plain_at(buf, pos),
    ensures
        question_at(buf, pos) matches Ok((q, end)) ==> question_wire(q) == buf.subrange(pos, end),
{
    if let Ok((q, end)) = question_at(buf, pos) {
        lemma_name_at_valid(buf, pos);
        let name_end = name_at(buf, pos).unwrap().1;
        lemma_be16_of_u16_at(buf, name_end);
        lemma_be16_of_u16_at(buf, name_end + 2);
        assert(question_wire(q) =~= buf.subrange(pos, end));
    }
}

/// A question that was read is well formed and ends within the bytes.
pub proof fn lemma_question_at_valid(buf: Seq<u8>, pos: int)
    ensures
        question_at(buf, pos) matches Ok((q, end)) ==> q.well_formed() && 0 <= pos < end
            <= buf.len(),
{
    lemma_name_at_valid(buf, pos);
}

impl<'a> Question<'a> {
    /// The bytes that the question took where it was read: those of its
    /// name and four more.
    pub open spec fn encoded_len(&self) -> nat {
        self.name.encoded_len() + 4
    }

    /// Reads the question at the front of `data`, which is the tail of `message`
    /// from the question's first byte on.
    pub fn parse(data: &'a [u8], message: &'a [u8]) -> (res: Result<Question<'a>, CodecError>)
        requires
            data@.len() <= message@.len(),
            data@ == message@.skip(message@.len() - data@.len()),
        ensures
            match question_at(message@, message@.len() - data@.len()) {
                Ok((question, end)) => res matches Ok(q) && q@ == question && q.name.wf()
                    && q.encoded_len() == end - (message@.len() - data@.len()),
                Err(e) => res matches Err(err) && err == e,
            },
    {
        let name = match Qname::parse(data, message) {
            Ok(name) => name,
            Err(e) => {
                return Err(e);
            },
        };
        let start: usize = message.len() - data.len();
        proof {
            lemma_scan_bounds(message@, start as int);
        }
        let end: usize = start + name.length();
        if message.len() - end < 4 {
            return Err(CodecError::TruncatedQuestion);
        }
        let q_type = read_u16(message, end);
        let class = read_u16(message, end + 2);
        Ok(Question { name, q_type, class })
    }

    /// The number of bytes that the question took where it was read.
    pub fn length(&self) -> (n: usize)
        requires
            self.encoded_len() <= usize::MAX,
        ensures
            n == self.encoded_len(),
    {
        self.name.length() + 2 + 2
    }

    /// Appends the question to `buf`, its name in full.
    pub fn write_to(self, buf: &mut Vec<u8>)
        ensures
            final(buf)@ == old(buf)@ + question_wire(self@),
    {
        self.name.write_to(buf);
        push_u16(buf, self.q_type);
        push_u16(buf, self.class);
        assert(buf@ =~= old(buf)@ + question_wire(self@));
    }
}

impl<'a> Clone for Question<'a> {
    fn clone(&self) -> (r: Self)
        ensures
            r@ == self@,
            r.name.wf(),
            r.encoded_len() == self.encoded_len(),
    {
        Question { name: self.name.clone(), q_type: self.q_type, class: self.class }
    }
}

} // verus!
