//! A resource record: a name, a type, a class, a time to live and a payload.

use crate::error::CodecError;
use crate::qname::{
    labels_valid, lemma_name_at_valid, lemma_name_round_trip, lemma_scan_bounds, name_at, name_wire,
    plain_at, Qname,
};
use crate::wire::{
    be16, be32, lemma_be16_of_u16_at, lemma_be32_of_u32_at, lemma_split_at, lemma_u16_at,
    lemma_u32_at, push_all, push_u16, push_u32, read_u16, read_u32, u16_at, u32_at,
};
use vstd::prelude::*;
use vstd::slice::{slice_subrange, slice_to_vec};

verus! {

/// The type of a record that holds an IPv4 address.
pub const TYPE_A: u16 = 1;

/// The type of a record that holds an IPv6 address.
pub const TYPE_AAAA: u16 = 28;

/// The payload of a record.
#[derive(Debug, PartialEq, Eq)]
pub enum RData {
    /// The four bytes of an IPv4 address.
    A([u8; 4]),
    /// The sixteen bytes of an IPv6 address.
    Aaaa([u8; 16]),
    /// The payload of any other type, as it came.
    Unsupported(Vec<u8>),
}

impl View for RData {
    type V = Seq<u8>;

    /// The bytes of the payload.
    open spec fn view(&self) -> Seq<u8> {
        match self {
            RData::A(addr) => addr@,
            RData::Aaaa(addr) => addr@,
            RData::Unsupported(raw) => raw@,
        }
    }
}

/// Whether a payload of `len` bytes can belong to a record of `r_type`: an
/// address has the length of its kind.
pub open spec fn payload_fits(r_type: u16, len: int) -> bool {
    &&& r_type == 1 ==> len == 4
    &&& r_type == 28 ==> len == 16
}

impl RData {
    /// The payload is of the kind that records of `r_type` hold.
    pub open spec fn kind_of(&self, r_type: u16) -> bool {
        match self {
            RData::A(_) => r_type == 1,
            RData::Aaaa(_) => r_type == 28,
            RData::Unsupported(_) => r_type != 1 && r_type != 28,
        }
    }

    /// The number of bytes of the payload.
    pub fn len(&self) -> (n: usize)
        ensures
            n == self@.len(),
    {
        match self {
            RData::A(_) => 4,
            RData::Aaaa(_) => 16,
            RData::Unsupported(raw) => raw.len(),
        }
    }

    /// Appends the bytes of the payload to `buf`.
    pub fn write_to(self, buf: &mut Vec<u8>)
        ensures
            final(buf)@ == old(buf)@ + self@,
    {
        match self {
            RData::A(addr) => push_all(buf, addr.as_slice()),
            RData::Aaaa(addr) => push_all(buf, addr.as_slice()),
            RData::Unsupported(raw) => push_all(buf, raw.as_slice()),
        }
    }
}

impl Clone for RData {
    fn clone(&self) -> (r: Self)
        ensures
            r@ == self@,
            forall|r_type: u16| r.kind_of(r_type) == self.kind_of(r_type),
    {
        match self {
            RData::A(addr) => RData::A(*addr),
            RData::Aaaa(addr) => RData::Aaaa(*addr),
            RData::Unsupported(raw) => RData::Unsupported(raw.clone()),
        }
    }
}

/// One answer of a message.
#[derive(Debug)]
pub struct RRecord<'a> {
    pub name: Qname<'a>,
    pub r_type: u16,
    pub class: u16,
    /// The time to live, in seconds.
    pub ttl: u32,
    /// The length of the payload, in bytes.
    pub rdlength: u16,
    pub rdata: RData,
}

/// What a record holds: the labels of its name, the fixed fields and the
/// bytes of its payload.
pub struct RecordView {
    pub name: Seq<Seq<u8>>,
    pub r_type: u16,
    pub class: u16,
    pub ttl: u32,
    pub rdata: Seq<u8>,
}

impl<'a> View for RRecord<'a> {
    type V = RecordView;

    open spec fn view(&self) -> RecordView {
        RecordView {
            name: self.name@,
            r_type: self.r_type,
            class: self.class,
            ttl: self.ttl,
            rdata: self.rdata@,
        }
    }
}

/// What parsing the record at `start` gives: the record, and the place
/// behind it. Ten bytes of fixed fields follow the name's own encoding, the
/// last two of them the length of the payload that comes next.
pub open spec fn record_at(buf: Seq<u8>, start: int) -> Result<(RecordView, int), CodecError> {
    match name_at(buf, start) {
        Err(e) => Err(e),
        Ok((labels, end)) => if end + 10 > buf.len() {
            Err(CodecError::TruncatedRecord)
        } else if end + 10 + u16_at(buf, end + 8) > buf.len() {
            Err(CodecError::TruncatedRecord)
        } else if !payload_fits(u16_at(buf, end), u16_at(buf, end + 8) as int) {
            Err(CodecError::MalformedRData)
        } else {
            Ok(
                (
                    RecordView {
                        name: labels,
                        r_type: u16_at(buf, end),
                        class: u16_at(buf, end + 2),
                        ttl: u32_at(buf, end + 4),
                        rdata: buf.subrange(end + 10, end + 10 + u16_at(buf, end + 8)),
                    },
                    end + 10 + u16_at(buf, end + 8),
                ),
            )
        },
    }
}

/// The encoding of a record: the name in full, type, class, time to live,
/// the length of the payload and the payload.
pub open spec fn record_wire(r: RecordView) -> Seq<u8> {
    name_wire(r.name) + be16(r.r_type) + be16(r.class) + be32(r.ttl) + be16(r.rdata.len() as u16)
        + r.rdata
}

impl RecordView {
    /// The labels of the name are of 1 to 63 bytes each, the length of the
    /// payload fits sixteen bits, and an address has the length of its kind.
    pub open spec fn well_formed(&self) -> bool {
        &&& labels_valid(self.name)
        &&& self.rdata.len() <= 0xFFFF
        &&& payload_fits(self.r_type, self.rdata.len() as int)
    }
}

/// Reading back a record that was written gives the record again and ends
/// where its encoding ends. This holds of every type of record, known or
/// not.
pub proof fn lemma_record_round_trip(buf: Seq<u8>, pos: int, r: RecordView)
    requires
        0 <= pos,
        pos + record_wire(r).len() <= buf.len(),
        buf.subrange(pos, pos + record_wire(r).len()) == record_wire(r),
        r.well_formed(),
    ensures
        record_at(buf, pos) == Ok::<(RecordView, int), CodecError>(
            (r, pos + record_wire(r).len()),
        ),
{
    let name = name_wire(r.name);
    let len = r.rdata.len() as u16;
    let f1 = be16(r.r_type);
    let f2 = be16(r.class);
    let f3 = be32(r.ttl);
    let f4 = be16(len);
    let t4 = f4 + r.rdata;
    let t3 = f3 + t4;
    let t2 = f2 + t3;
    let t1 = f1 + t2;
    assert(record_wire(r) =~= name + t1);
    lemma_split_at(buf, pos, name, t1);
    lemma_name_round_trip(buf, pos, r.name);
    let end = pos + name.len();
    lemma_split_at(buf, end, f1, t2);
    lemma_split_at(buf, end + 2, f2, t3);
    lemma_split_at(buf, end + 4, f3, t4);
    lemma_split_at(buf, end + 8, f4, r.rdata);
    lemma_u16_at(buf, end, r.r_type);
    lemma_u16_at(buf, end + 2, r.class);
    lemma_u32_at(buf, end + 4, r.ttl);
    lemma_u16_at(buf, end + 8, len);
}

/// Writing a record that was read gives the bytes it was read from, where
/// its name stood there in full, whatever its type.
pub proof fn lemma_record_bytes(buf: Seq<u8>, pos: int)
    requires
        plain_at(buf, pos),
    ensures
        record_at(buf, pos) matches Ok((r, end)) ==> record_wire(r) == buf.subrange(pos, end),
{
    if let Ok((r, end)) = record_at(buf, pos) {
        lemma_name_at_valid(buf, pos);
        let name_end = name_at(buf, pos).unwrap().1;
        lemma_be16_of_u16_at(buf, name_end);
        lemma_be16_of_u16_at(buf, name_end + 2);
        lemma_be32_of_u32_at(buf, name_end + 4);
        lemma_be16_of_u16_at(buf, name_end + 8);
        assert(r.rdata.len() as u16 == u16_at(buf, name_end + 8));
        assert(record_wire(r) =~= buf.subrange(pos, end));
    }
}

/// A record that was read is well formed and ends within the bytes.
pub proof fn lemma_record_at_valid(buf: Seq<u8>, pos: int)
    ensures
        record_at(buf, pos) matches Ok((r, end)) ==> r.well_formed() && 0 <= pos < end
            <= buf.len(),
{
    lemma_name_at_valid(buf, pos);
}

impl<'a> RRecord<'a> {
    /// The record is as one that was read: the length it states is that of
    /// its payload, and the payload is of the kind of its type.
    pub open spec fn wf(&self) -> bool {
        &&& self.rdlength == self.rdata@.len()
        &&& self.rdata.kind_of(self.r_type)
        &&& self.name.wf()
    }

    /// The bytes that the record took where it was read: those of its name,
    /// ten of fixed fields and those of its payload.
    pub open spec fn encoded_len(&self) -> nat {
        self.name.encoded_len() + 10 + self.rdlength as nat
    }

    /// Reads the record at the front of `data`, which is the tail of `message`
    /// from the record's first byte on.
    pub fn parse(data: &'a [u8], message: &'a [u8]) -> (res: Result<RRecord<'a>, CodecError>)
        requires
            data@.len() <= message@.len(),
            data@ == message@.skip(message@.len() - data@.len()),
        ensures
            match record_at(message@, message@.len() - data@.len()) {
                Ok((record, end)) => res matches Ok(r) && r@ == record && r.wf() && r.encoded_len()
                    == end - (message@.len() - data@.len()),
                Err(e) => res matches Err(err) && err == e,
            },
    {
        let name = match Qname::parse(data, message) {
            Ok(name) => name,
            Err(e) => {
                return Err(e);
            },
        };
        let start: usize = message.len() - data.len();
        proof {
            lemma_scan_bounds(message@, start as int);
        }
        let end: usize = start + name.length();
        if message.len() - end < 10 {
            return Err(CodecError::TruncatedRecord);
        }
        let r_type = read_u16(message, end);
        let class = read_u16(message, end + 2);
        let ttl = read_u32(message, end + 4);
        let rdlength = read_u16(message, end + 8);
        if message.len() - end - 10 < rdlength as usize {
            return Err(CodecError::TruncatedRecord);
        }
        let payload = slice_subrange(message, end + 10, end + 10 + rdlength as usize);
        let rdata = match RRecord::parse_rdata(r_type, payload) {
            Ok(rdata) => rdata,
            Err(e) => {
                return Err(e);
            },
        };
        Ok(RRecord { name, r_type, class, ttl, rdlength, rdata })
    }

    /// Makes the payload of a record of `r_type` from its bytes: an address
    /// where the type is one, of exactly the length of its kind, and the
    /// bytes as they are for any other type.
    pub fn parse_rdata(r_type: u16, data: &[u8]) -> (res: Result<RData, CodecError>)
        ensures
            payload_fits(r_type, data@.len() as int) ==> (res matches Ok(rdata) && rdata@ == data@
                && rdata.kind_of(r_type)),
            !payload_fits(r_type, data@.len() as int) ==> (res matches Err(e) && e
                == CodecError::MalformedRData),
    {
        if r_type == TYPE_A {
            if data.len() != 4 {
                return Err(CodecError::MalformedRData);
            }
            let addr: [u8; 4] = [data[0], data[1], data[2], data[3]];
            assert(addr@ =~= data@);
            Ok(RData::A(addr))
        } else if r_type == TYPE_AAAA {
            if data.len() != 16 {
                return Err(CodecError::MalformedRData);
            }
            let addr: [u8; 16] = [
                data[0],
                data[1],
                data[2],
                data[3],
                data[4],
                data[5],
                data[6],
                data[7],
                data[8],
                data[9],
                data[10],
                data[11],
                data[12],
                data[13],
                data[14],
                data[15],
            ];
            assert(addr@ =~= data@);
            Ok(RData::Aaaa(addr))
        } else {
            Ok(RData::Unsupported(slice_to_vec(data)))
        }
    }

    /// Appends the record to `buf`, its name in full. The length written is
    /// that of the payload written, which has to fit its sixteen bits.
    pub fn write_to(self, buf: &mut Vec<u8>)
        requires
            self.rdata@.len() <= u16::MAX,
        ensures
            final(buf)@ == old(buf)@ + record_wire(self@),
    {
        self.name.write_to(buf);
        push_u16(buf, self.r_type);
        push_u16(buf, self.class);
        push_u32(buf, self.ttl);
        push_u16(buf, self.rdata.len() as u16);
        self.rdata.write_to(buf);
        assert(buf@ =~= old(buf)@ + record_wire(self@));
    }

    /// The number of bytes that the record took where it was read.
    pub fn length(&self) -> (n: usize)
        requires
            self.encoded_len() <= usize::MAX,
        ensures
            n == self.encoded_len(),
    {
        self.name.length() + 2 + 2 + 4 + 2 + self.rdlength as usize
    }
}

impl<'a> Clone for RRecord<'a> {
    fn clone(&self) -> (r: Self)
        ensures
            r@ == self@,
            r.wf() == self.wf(),
            r.rdlength == self.rdlength,
            r.encoded_len() == self.encoded_len(),
    {
        proof {
            use_type_invariant(&self.name);
        }
        RRecord {
            name: self.name.clone(),
            r_type: self.r_type,
            class: self.class,
            ttl: self.ttl,
            rdlength: self.rdlength,
            rdata: self.rdata.clone(),
        }
    }
}

} // verus!
