//! The fixed twelve-byte header of a message.

use crate::error::CodecError;
use crate::wire::{be16, lemma_be16_of_u16_at, lemma_u16_at, push_u16, read_u16, u16_at};
use vstd::prelude::*;

verus! {

/// The length of an encoded header, in bytes.
pub const HEADER_LEN: usize = 12;

/// The header of a message: identifier, flags and the four counts.
#[derive(Debug, Clone, Copy, PartialEq, Eq, Structural)]
pub struct Header {
    pub ident: u16,
    /// The leading flag bit: clear in a query, set in a reply.
    pub query: bool,
    /// Four bits: the kind of query, 0 for a standard query.
    pub opcode: u8,
    pub authoritative: bool,
    pub truncated: bool,
    pub recursion_desired: bool,
    pub recursion_avail: bool,
    /// Three bits without meaning, kept as they came.
    pub reserved: u8,
    /// Four bits: the response code.
    pub rcode: u8,
    pub qd_count: u16,
    pub an_count: u16,
    pub authority_records: u16,
    pub additional_records: u16,
}

/// 1 for a flag that is set, 0 for one that is not.
pub open spec fn bit(flag: bool) -> int {
    if flag {
        1
    } else {
        0
    }
}

impl Header {
    /// Every field fits the bits that the encoding gives it.
    pub open spec fn valid(&self) -> bool {
        &&& self.opcode < 16
        &&& self.reserved < 8
        &&& self.rcode < 16
    }

    /// The first flag byte: query, four bits of opcode, authoritative,
    /// truncated, recursion desired, from the highest bit down.
    pub open spec fn flags_hi(&self) -> u8 {
        (bit(self.query) * 128 + (self.opcode % 16) * 8 + bit(self.authoritative) * 4 + bit(
            self.truncated,
        ) * 2 + bit(self.recursion_desired)) as u8
    }

    /// The second flag byte: recursion available, three reserved bits, four
    /// bits of response code, from the highest bit down.
    pub open spec fn flags_lo(&self) -> u8 {
        (bit(self.recursion_avail) * 128 + (self.reserved % 8) * 16 + self.rcode % 16) as u8
    }

    /// The twelve bytes that encode the header. A field wider than its bits
    /// is cut down to them.
    pub open spec fn wire(&self) -> Seq<u8> {
        be16(self.ident) + seq![self.flags_hi(), self.flags_lo()] + be16(self.qd_count) + be16(
            self.an_count,
        ) + be16(self.authority_records) + be16(self.additional_records)
    }

    /// The header that the twelve bytes at the front of `bytes` encode.
    pub open spec fn decode(bytes: Seq<u8>) -> Header {
        Header {
            ident: u16_at(bytes, 0),
            query: bytes[2] >= 128,
            opcode: (bytes[2] / 8 % 16) as u8,
            authoritative: bytes[2] / 4 % 2 == 1,
            truncated: bytes[2] / 2 % 2 == 1,
            recursion_desired: bytes[2] % 2 == 1,
            recursion_avail: bytes[3] >= 128,
            reserved: (bytes[3] / 16 % 8) as u8,
            rcode: (bytes[3] % 16) as u8,
            qd_count: u16_at(bytes, 4),
            an_count: u16_at(bytes, 6),
            authority_records: u16_at(bytes, 8),
            additional_records: u16_at(bytes, 10),
        }
    }

    /// Reads a header from exactly twelve bytes.
    pub fn parse(data: &[u8]) -> (res: Result<Header, CodecError>)
        ensures
            data@.len() == 12 ==> res == Ok::<Header, CodecError>(Header::decode(data@)),
            data@.len() != 12 ==> res == Err::<Header, CodecError>(CodecError::MalformedHeader),
    {
        if data.len() != HEADER_LEN {
            return Err(CodecError::MalformedHeader);
        }
        let hi: u8 = data[2];
        let lo: u8 = data[3];
        Ok(
            Header {
                ident: read_u16(data, 0),
                query: hi >= 128,
                opcode: hi / 8 % 16,
                authoritative: hi / 4 % 2 == 1,
                truncated: hi / 2 % 2 == 1,
                recursion_desired: hi % 2 == 1,
                recursion_avail: lo >= 128,
                reserved: lo / 16 % 8,
                rcode: lo % 16,
                qd_count: read_u16(data, 4),
                an_count: read_u16(data, 6),
                authority_records: read_u16(data, 8),
                additional_records: read_u16(data, 10),
            },
        )
    }

    /// Appends the twelve bytes of the header to `buf`.
    pub fn write_to(self, buf: &mut Vec<u8>)
        ensures
            final(buf)@ == old(buf)@ + self.wire(),
    {
        push_u16(buf, self.ident);
        let query: u8 = if self.query { 128 } else { 0 };
        let authoritative: u8 = if self.authoritative { 4 } else { 0 };
        let truncated: u8 = if self.truncated { 2 } else { 0 };
        let recursion_desired: u8 = if self.recursion_desired { 1 } else { 0 };
        let recursion_avail: u8 = if self.recursion_avail { 128 } else { 0 };
        buf.push(query + self.opcode % 16 * 8 + authoritative + truncated + recursion_desired);
        buf.push(recursion_avail + self.reserved % 8 * 16 + self.rcode % 16);
        push_u16(buf, self.qd_count);
        push_u16(buf, self.an_count);
        push_u16(buf, self.authority_records);
        push_u16(buf, self.additional_records);
        assert(buf@ =~= old(buf)@ + self.wire());
    }
}

/// The twelve bytes of a header, one by one.
pub proof fn lemma_header_wire_bytes(h: Header)
    ensures
        h.wire().len() == 12,
        h.wire().subrange(0, 2) == be16(h.ident),
        h.wire()[2] == h.flags_hi(),
        h.wire()[3] == h.flags_lo(),
        h.wire().subrange(4, 6) == be16(h.qd_count),
        h.wire().subrange(6, 8) == be16(h.an_count),
        h.wire().subrange(8, 10) == be16(h.authority_records),
        h.wire().subrange(10, 12) == be16(h.additional_records),
{
    let w = h.wire();
    assert(w =~= seq![
        be16(h.ident)[0],
        be16(h.ident)[1],
        h.flags_hi(),
        h.flags_lo(),
        be16(h.qd_count)[0],
        be16(h.qd_count)[1],
        be16(h.an_count)[0],
        be16(h.an_count)[1],
        be16(h.authority_records)[0],
        be16(h.authority_records)[1],
        be16(h.additional_records)[0],
        be16(h.additional_records)[1],
    ]);
    assert(w.subrange(0, 2) =~= be16(h.ident));
    assert(w.subrange(4, 6) =~= be16(h.qd_count));
    assert(w.subrange(6, 8) =~= be16(h.an_count));
    assert(w.subrange(8, 10) =~= be16(h.authority_records));
    assert(w.subrange(10, 12) =~= be16(h.additional_records));
}

/// A header always takes twelve bytes.
pub proof fn lemma_header_wire_len(h: Header)
    ensures
        h.wire().len() == 12,
{
    lemma_header_wire_bytes(h);
}

/// Whatever twelve bytes are read, the fields fit their bits.
pub proof fn lemma_decode_valid(bytes: Seq<u8>)
    ensures
        Header::decode(bytes).valid(),
{
}

/// The fields that the first flag byte was made of are read from it again.
proof fn lemma_flags_hi_fields(query: bool, opcode: u8, aa: bool, tc: bool, rd: bool)
    requires
        opcode < 16,
    ensures
        ({
            let b = bit(query) * 128 + opcode * 8 + bit(aa) * 4 + bit(tc) * 2 + bit(rd);
            &&& 0 <= b < 256
            &&& (b >= 128) == query
            &&& b / 8 % 16 == opcode
            &&& (b / 4 % 2 == 1) == aa
            &&& (b / 2 % 2 == 1) == tc
            &&& (b % 2 == 1) == rd
        }),
{
}

/// The fields that the second flag byte was made of are read from it again.
proof fn lemma_flags_lo_fields(ra: bool, reserved: u8, rcode: u8)
    requires
        reserved < 8,
        rcode < 16,
    ensures
        ({
            let b = bit(ra) * 128 + reserved * 16 + rcode;
            &&& 0 <= b < 256
            &&& (b >= 128) == ra
            &&& b / 16 % 8 == reserved
            &&& b % 16 == rcode
        }),
{
}

/// Reading what was written gives the header back, where its fields fit
/// their bits.
pub proof fn lemma_header_round_trip(h: Header)
    requires
        h.valid(),
    ensures
        Header::decode(h.wire()) == h,
{
    let w = h.wire();
    lemma_header_wire_bytes(h);
    lemma_flags_hi_fields(h.query, h.opcode, h.authoritative, h.truncated, h.recursion_desired);
    lemma_flags_lo_fields(h.recursion_avail, h.reserved, h.rcode);
    lemma_u16_at(w, 0, h.ident);
    lemma_u16_at(w, 4, h.qd_count);
    lemma_u16_at(w, 6, h.an_count);
    lemma_u16_at(w, 8, h.authority_records);
    lemma_u16_at(w, 10, h.additional_records);
}

/// The six fields of the first flag byte make up that byte again.
proof fn lemma_flags_hi_of(b: u8)
    ensures
        bit(b >= 128) * 128 + (b / 8 % 16) * 8 + bit(b / 4 % 2 == 1) * 4 + bit(b / 2 % 2 == 1) * 2
            + bit(b % 2 == 1) == b,
{
}

/// The three fields of the second flag byte make up that byte again.
proof fn lemma_flags_lo_of(b: u8)
    ensures
        bit(b >= 128) * 128 + (b / 16 % 8) * 16 + b % 16 == b,
{
}

/// Writing what was read from twelve bytes gives the same twelve bytes.
pub proof fn lemma_header_bytes_round_trip(bytes: Seq<u8>)
    requires
        bytes.len() == 12,
    ensures
        Header::decode(bytes).wire() == bytes,
{
    let h = Header::decode(bytes);
    lemma_flags_hi_of(bytes[2]);
    lemma_flags_lo_of(bytes[3]);
    assert(h.flags_hi() == bytes[2]);
    assert(h.flags_lo() == bytes[3]);
    lemma_be16_of_u16_at(bytes, 0);
    lemma_be16_of_u16_at(bytes, 4);
    lemma_be16_of_u16_at(bytes, 6);
    lemma_be16_of_u16_at(bytes, 8);
    lemma_be16_of_u16_at(bytes, 10);
    lemma_header_wire_bytes(h);
    let w = h.wire();
    assert forall|i: int| 0 <= i < 12 implies w[i] == bytes[i] by {
        if i < 2 {
            assert(w[i] == w.subrange(0, 2)[i]);
            assert(bytes[i] == bytes.subrange(0, 2)[i]);
        } else if i < 4 {
        } else if i < 6 {
            assert(w[i] == w.subrange(4, 6)[i - 4]);
            assert(bytes[i] == bytes.subrange(4, 6)[i - 4]);
        } else if i < 8 {
            assert(w[i] == w.subrange(6, 8)[i - 6]);
            assert(bytes[i] == bytes.subrange(6, 8)[i - 6]);
        } else if i < 10 {
            assert(w[i] == w.subrange(8, 10)[i - 8]);
            assert(bytes[i] == bytes.subrange(8, 10)[i - 8]);
        } else {
            assert(w[i] == w.subrange(10, 12)[i - 10]);
            assert(bytes[i] == bytes.subrange(10, 12)[i - 10]);
        }
    }
    assert(w =~= bytes);
}

} // verus!
