//! Domain names: length-prefixed labels, which a pointer may cut short by
//! naming an earlier place in the same message.

use crate::error::CodecError;
use crate::wire::{lemma_split_at, push_all};
use vstd::prelude::*;
use vstd::slice::slice_subrange;
use vstd::string::StringSliceAdditionalSpecFns;

verus! {

/// The longest label, in bytes.
pub const MAX_LABEL_LEN: u8 = 63;

/// The smallest first byte of a pointer: both top bits set.
pub const POINTER_TAG: u8 = 0xC0;

/// The place that the two bytes of a pointer name: the fourteen bits below
/// the tag, as an offset from the start of the message.
pub open spec fn pointer_target(hi: u8, lo: u8) -> int {
    (hi - 0xC0) * 256 + lo
}

/// Where the encoding of the name at `pos` ends, pointers not followed: just
/// behind its zero byte, or behind the two bytes of its pointer, which has to
/// name a place before itself.
pub open spec fn scan(buf: Seq<u8>, pos: int) -> Result<int, CodecError>
    decreases buf.len() - pos,
{
    if pos < 0 || pos >= buf.len() {
        Err(CodecError::TruncatedName)
    } else if buf[pos] == 0 {
        Ok(pos + 1)
    } else if buf[pos] >= 0xC0 {
        if pos + 1 >= buf.len() {
            Err(CodecError::TruncatedName)
        } else if pointer_target(buf[pos], buf[pos + 1]) >= pos {
            Err(CodecError::InvalidPointer)
        } else {
            Ok(pos + 2)
        }
    } else if buf[pos] > 63 {
        Err(CodecError::LabelTooLong)
    } else if pos + 1 + buf[pos] >= buf.len() {
        Err(CodecError::TruncatedName)
    } else {
        scan(buf, pos + 1 + buf[pos])
    }
}

/// `labels` in front of what `rest` holds, if it holds anything.
pub open spec fn prepend(labels: Seq<Seq<u8>>, rest: Option<Seq<Seq<u8>>>) -> Option<
    Seq<Seq<u8>>,
> {
    match rest {
        Some(r) => Some(labels + r),
        None => None,
    }
}

/// The labels of the name that starts at `pos` and is encoded before
/// `limit`, pointers followed. A pointer has to name a place before itself,
/// and the name there is read no further than the pointer: every hop lies
/// before the last one. `None` where no such name stands at `pos`.
pub open spec fn resolve(buf: Seq<u8>, pos: int, limit: int) -> Option<Seq<Seq<u8>>>
    decreases limit, limit - pos,
{
    if pos < 0 || pos >= limit || limit > buf.len() {
        None
    } else if buf[pos] == 0 {
        Some(Seq::empty())
    } else if buf[pos] >= 0xC0 {
        if pos + 1 < limit && pointer_target(buf[pos], buf[pos + 1]) < pos {
            resolve(buf, pointer_target(buf[pos], buf[pos + 1]), pos)
        } else {
            None
        }
    } else if buf[pos] > 63 || pos + 1 + buf[pos] >= limit {
        None
    } else {
        prepend(
            seq![buf.subrange(pos + 1, pos + 1 + buf[pos])],
            resolve(buf, pos + 1 + buf[pos], limit),
        )
    }
}

/// What parsing the name at `start` gives: its labels, pointers followed, and
/// the place where its own encoding ends. A pointer that leads to no
/// well-formed name is an `InvalidPointer`.
pub open spec fn name_at(buf: Seq<u8>, start: int) -> Result<(Seq<Seq<u8>>, int), CodecError> {
    match scan(buf, start) {
        Err(e) => Err(e),
        Ok(end) => match resolve(buf, start, buf.len() as int) {
            Some(labels) => Ok((labels, end)),
            None => Err(CodecError::InvalidPointer),
        },
    }
}

/// The name at `pos` is encoded in full there: its own bytes are those of
/// its labels and a zero byte, with no pointer among them.
pub open spec fn plain_at(buf: Seq<u8>, pos: int) -> bool {
    name_at(buf, pos) matches Ok((labels, end)) && buf.subrange(pos, end) == name_wire(labels)
}

/// Every label holds at least one byte and at most 63.
pub open spec fn labels_valid(labels: Seq<Seq<u8>>) -> bool {
    forall|i: int| 0 <= i < labels.len() ==> 1 <= #[trigger] labels[i].len() <= 63
}

/// The labels one after the other, each behind a byte that holds its length.
pub open spec fn labels_wire(labels: Seq<Seq<u8>>) -> Seq<u8>
    decreases labels.len(),
{
    if labels.len() == 0 {
        Seq::empty()
    } else {
        seq![labels[0].len() as u8] + labels[0] + labels_wire(labels.drop_first())
    }
}

/// The encoding of a name without pointers: its labels, then a zero byte.
pub open spec fn name_wire(labels: Seq<Seq<u8>>) -> Seq<u8> {
    labels_wire(labels) + seq![0u8]
}

/// The characters of a label, one for each byte.
pub open spec fn label_text(label: Seq<u8>) -> Seq<char> {
    Seq::new(label.len(), |i: int| label[i] as char)
}

/// The labels as text, a dot between each two.
pub open spec fn dotted(labels: Seq<Seq<u8>>) -> Seq<char>
    decreases labels.len(),
{
    if labels.len() == 0 {
        Seq::empty()
    } else if labels.len() == 1 {
        label_text(labels[0])
    } else {
        dotted(labels.drop_last()) + seq!['.'] + label_text(labels.last())
    }
}

/// The byte of a dot.
pub const DOT: u8 = 0x2E;

/// The text cut at its dots: one segment more than it has dots, and empty
/// where two dots meet or the text begins or ends with one.
pub open spec fn segments(text: Seq<u8>) -> Seq<Seq<u8>>
    decreases text.len(),
{
    if text.len() == 0 {
        seq![Seq::empty()]
    } else {
        let before = segments(text.drop_last());
        if text.last() == 0x2E {
            before.push(Seq::empty())
        } else {
            before.drop_last().push(before.last().push(text.last()))
        }
    }
}

/// Some label is longer than 63 bytes.
pub open spec fn has_long_label(labels: Seq<Seq<u8>>) -> bool {
    exists|k: int| 0 <= k < labels.len() && #[trigger] labels[k].len() > 63
}

/// The labels in front of the first empty one: what is read back from an
/// encoding of `labels`, in which an empty label looks like the end.
pub open spec fn until_empty(labels: Seq<Seq<u8>>) -> Seq<Seq<u8>>
    decreases labels.len(),
{
    if labels.len() == 0 || labels[0].len() == 0 {
        Seq::empty()
    } else {
        seq![labels[0]] + until_empty(labels.drop_first())
    }
}

/// What each of the slices holds.
pub open spec fn label_views(labels: Seq<&[u8]>) -> Seq<Seq<u8>> {
    Seq::new(labels.len(), |i: int| labels[i]@)
}

/// The encoding of a name takes at least one byte and ends within the
/// bytes.
pub proof fn lemma_scan_bounds(buf: Seq<u8>, pos: int)
    ensures
        scan(buf, pos) matches Ok(end) ==> 0 <= pos < end <= buf.len(),
    decreases buf.len() - pos,
{
    if 0 <= pos < buf.len() && 0 < buf[pos] <= 63 && pos + 1 + buf[pos] < buf.len() {
        lemma_scan_bounds(buf, pos + 1 + buf[pos]);
    }
}

/// A pointer that names its own place or one behind it is refused, where it
/// stands in a name and wherever it is met on the way of another pointer.
pub proof fn lemma_forward_pointer(buf: Seq<u8>, pos: int)
    requires
        0 <= pos,
        pos + 1 < buf.len(),
        buf[pos] >= 0xC0,
        pointer_target(buf[pos], buf[pos + 1]) >= pos,
    ensures
        scan(buf, pos) == Err::<int, CodecError>(CodecError::InvalidPointer),
        name_at(buf, pos) == Err::<(Seq<Seq<u8>>, int), CodecError>(CodecError::InvalidPointer),
        forall|limit: int| resolve(buf, pos, limit).is_none(),
{
}

/// A name that was read holds labels of 1 to 63 bytes.
pub proof fn lemma_resolve_valid(buf: Seq<u8>, pos: int, limit: int)
    ensures
        resolve(buf, pos, limit) matches Some(labels) ==> labels_valid(labels),
    decreases limit, limit - pos,
{
    if pos < 0 || pos >= limit || limit > buf.len() {
    } else if buf[pos] == 0 {
    } else if buf[pos] >= 0xC0 {
        if pos + 1 < limit && pointer_target(buf[pos], buf[pos + 1]) < pos {
            lemma_resolve_valid(buf, pointer_target(buf[pos], buf[pos + 1]), pos);
        }
    } else if buf[pos] > 63 || pos + 1 + buf[pos] >= limit {
    } else {
        lemma_resolve_valid(buf, pos + 1 + buf[pos], limit);
    }
}

/// One label more at the end adds its length byte and its bytes at the end.
pub proof fn lemma_labels_wire_push(labels: Seq<Seq<u8>>, label: Seq<u8>)
    ensures
        labels_wire(labels.push(label)) == labels_wire(labels) + seq![label.len() as u8] + label,
    decreases labels.len(),
{
    if labels.len() == 0 {
        assert(labels.push(label).drop_first() =~= Seq::<Seq<u8>>::empty());
        assert(labels_wire(Seq::<Seq<u8>>::empty()) =~= Seq::<u8>::empty());
        assert(labels_wire(labels.push(label)) =~= seq![label.len() as u8] + label);
        assert(labels_wire(labels) + seq![label.len() as u8] + label =~= seq![label.len() as u8]
            + label);
    } else {
        assert(labels.push(label).drop_first() =~= labels.drop_first().push(label));
        lemma_labels_wire_push(labels.drop_first(), label);
        assert(labels_wire(labels.push(label)) =~= labels_wire(labels) + seq![label.len() as u8]
            + label);
    }
}

/// Where `buf` holds at `pos` the encoding of a name, it holds there the
/// length of the first label, then its bytes, then the encoding of the
/// labels that follow; or the zero byte where there is no label.
proof fn lemma_wire_head(buf: Seq<u8>, pos: int, labels: Seq<Seq<u8>>)
    requires
        0 <= pos,
        pos + name_wire(labels).len() <= buf.len(),
        buf.subrange(pos, pos + name_wire(labels).len()) == name_wire(labels),
        labels.len() > 0 ==> labels[0].len() <= 255,
    ensures
        labels.len() == 0 ==> buf[pos] == 0,
        labels.len() > 0 ==> {
            let first = labels[0];
            let rest = name_wire(labels.drop_first());
            &&& buf[pos] == first.len()
            &&& name_wire(labels).len() == 1 + first.len() + rest.len()
            &&& buf.subrange(pos + 1, pos + 1 + first.len()) == first
            &&& buf.subrange(pos + 1 + first.len(), pos + 1 + first.len() + rest.len()) == rest
        },
{
    let w = name_wire(labels);
    assert(buf[pos] == buf.subrange(pos, pos + w.len())[0]);
    if labels.len() == 0 {
        assert(w =~= seq![0u8]);
    } else {
        let first = labels[0];
        let rest = name_wire(labels.drop_first());
        let head = seq![first.len() as u8];
        assert(w =~= head + (first + rest));
        lemma_split_at(buf, pos, head, first + rest);
        lemma_split_at(buf, pos + 1, first, rest);
    }
}

/// Where `buf` holds at `pos` the encoding of labels of at most 63 bytes,
/// reading it back gives the labels in front of the first empty one.
pub proof fn lemma_resolve_wire(buf: Seq<u8>, pos: int, limit: int, labels: Seq<Seq<u8>>)
    requires
        0 <= pos,
        pos + name_wire(labels).len() <= limit <= buf.len(),
        buf.subrange(pos, pos + name_wire(labels).len()) == name_wire(labels),
        !has_long_label(labels),
    ensures
        resolve(buf, pos, limit) == Some(until_empty(labels)),
    decreases labels.len(),
{
    if labels.len() > 0 {
        let rest = labels.drop_first();
        assert(labels[0].len() <= 63);
        lemma_wire_head(buf, pos, labels);
        if labels[0].len() > 0 {
            assert(!has_long_label(rest)) by {
                if has_long_label(rest) {
                    let k = choose|k: int| 0 <= k < rest.len() && #[trigger] rest[k].len() > 63;
                    assert(labels[k + 1].len() > 63);
                }
            }
            lemma_resolve_wire(buf, pos + 1 + labels[0].len(), limit, rest);
        }
    } else {
        lemma_wire_head(buf, pos, labels);
    }
}

/// Where `buf` holds at `pos` the encoding of labels of 1 to 63 bytes, the
/// name's own encoding ends where that encoding ends.
pub proof fn lemma_scan_wire(buf: Seq<u8>, pos: int, labels: Seq<Seq<u8>>)
    requires
        0 <= pos,
        pos + name_wire(labels).len() <= buf.len(),
        buf.subrange(pos, pos + name_wire(labels).len()) == name_wire(labels),
        labels_valid(labels),
    ensures
        scan(buf, pos) == Ok::<int, CodecError>(pos + name_wire(labels).len()),
    decreases labels.len(),
{
    lemma_wire_head(buf, pos, labels);
    if labels.len() > 0 {
        let rest = labels.drop_first();
        assert forall|i: int| 0 <= i < rest.len() implies 1 <= #[trigger] rest[i].len() <= 63 by {
            assert(rest[i] == labels[i + 1]);
        }
        lemma_scan_wire(buf, pos + 1 + labels[0].len(), rest);
    }
}

/// Reading back a name that was written gives the name again and ends
/// where its encoding ends: nothing is lost and no pointer comes in.
pub proof fn lemma_name_round_trip(buf: Seq<u8>, pos: int, labels: Seq<Seq<u8>>)
    requires
        0 <= pos,
        pos + name_wire(labels).len() <= buf.len(),
        buf.subrange(pos, pos + name_wire(labels).len()) == name_wire(labels),
        labels_valid(labels),
    ensures
        name_at(buf, pos) == Ok::<(Seq<Seq<u8>>, int), CodecError>(
            (labels, pos + name_wire(labels).len()),
        ),
{
    lemma_scan_wire(buf, pos, labels);
    lemma_until_empty_valid(labels);
    lemma_resolve_wire(buf, pos, buf.len() as int, labels);
}

/// A name that was read holds labels of 1 to 63 bytes.
pub proof fn lemma_name_at_valid(buf: Seq<u8>, pos: int)
    ensures
        name_at(buf, pos) matches Ok((labels, end)) ==> labels_valid(labels) && 0 <= pos < end
            <= buf.len(),
{
    lemma_scan_bounds(buf, pos);
    lemma_resolve_valid(buf, pos, buf.len() as int);
}

/// Labels without an empty one among them are all in front of the first
/// empty one.
pub proof fn lemma_until_empty_valid(labels: Seq<Seq<u8>>)
    requires
        labels_valid(labels),
    ensures
        until_empty(labels) == labels,
        !has_long_label(labels),
    decreases labels.len(),
{
    if labels.len() > 0 {
        let rest = labels.drop_first();
        assert forall|i: int| 0 <= i < rest.len() implies 1 <= #[trigger] rest[i].len() <= 63 by {
            assert(rest[i] == labels[i + 1]);
        }
        lemma_until_empty_valid(rest);
        assert(seq![labels[0]] + rest =~= labels);
    } else {
        assert(until_empty(labels) =~= labels);
    }
}

/// Bytes that are either borrowed from a message or owned.
#[derive(Debug)]
enum Store<'a> {
    Borrowed(&'a [u8]),
    Owned(Vec<u8>),
}

impl<'a> View for Store<'a> {
    type V = Seq<u8>;

    closed spec fn view(&self) -> Seq<u8> {
        match self {
            Store::Borrowed(s) => s@,
            Store::Owned(v) => v@,
        }
    }
}

impl<'a> Store<'a> {
    /// The bytes, whoever owns them.
    fn as_slice(&self) -> (s: &[u8])
        ensures
            s@ == self@,
    {
        match self {
            Store::Borrowed(s) => s,
            Store::Owned(v) => v.as_slice(),
        }
    }
}

impl<'a> Clone for Store<'a> {
    fn clone(&self) -> (r: Self)
        ensures
            r@ == self@,
    {
        match self {
            Store::Borrowed(s) => Store::Borrowed(s),
            Store::Owned(v) => Store::Owned(v.clone()),
        }
    }
}

/// A domain name, kept as it is encoded: the bytes among which it stands,
/// and where in them. A name read from a message borrows the message, so
/// that its pointers can be followed when its labels are asked for; a name
/// made from text owns its bytes.
#[derive(Debug)]
pub struct Qname<'a> {
    buffer: Store<'a>,
    start: usize,
    length: usize,
}

impl<'a> View for Qname<'a> {
    type V = Seq<Seq<u8>>;

    /// The labels of the name, pointers followed.
    closed spec fn view(&self) -> Seq<Seq<u8>> {
        resolve(self.buffer@, self.start as int, self.buffer@.len() as int).unwrap()
    }
}

/// Whether `buf` holds a well-formed name from `pos` to before `limit`.
fn chain_ok(buf: &[u8], pos: usize, limit: usize) -> (ok: bool)
    requires
        limit <= buf@.len(),
    ensures
        ok == resolve(buf@, pos as int, limit as int).is_some(),
{
    let mut p: usize = pos;
    let mut lim: usize = limit;
    loop
        invariant
            lim <= buf@.len(),
            resolve(buf@, pos as int, limit as int).is_some() == resolve(
                buf@,
                p as int,
                lim as int,
            ).is_some(),
        decreases lim, lim - p,
    {
        if p >= lim {
            return false;
        }
        let b: u8 = buf[p];
        if b == 0 {
            return true;
        }
        if b >= POINTER_TAG {
            if p + 1 >= lim {
                return false;
            }
            let target: usize = (b - POINTER_TAG) as usize * 256 + buf[p + 1] as usize;
            if target >= p {
                return false;
            }
            lim = p;
            p = target;
        } else {
            if b > MAX_LABEL_LEN || b as usize >= lim - p - 1 {
                return false;
            }
            p = p + 1 + b as usize;
        }
    }
}

impl<'a> Qname<'a> {
    /// The bytes that the name's own encoding takes, a pointer counted as
    /// its two bytes.
    pub closed spec fn encoded_len(&self) -> nat {
        self.length as nat
    }

    /// The bytes of the name's own encoding.
    pub closed spec fn encoding(&self) -> Seq<u8> {
        self.buffer@.subrange(self.start as int, self.start + self.length)
    }

    /// A name holds what it was made to hold: its encoding lies within its
    /// bytes, and a well-formed name stands there.
    #[verifier::type_invariant]
    pub closed spec fn wf(&self) -> bool {
        &&& self.start + self.length <= self.buffer@.len()
        &&& resolve(self.buffer@, self.start as int, self.buffer@.len() as int).is_some()
    }

    /// The name holds no pointer: its own encoding is its encoding in full.
    pub open spec fn is_plain(&self) -> bool {
        self.encoding() == name_wire(self@)
    }

    /// A name without pointer is read back from what it writes as it is:
    /// with the same labels, and with the same length.
    pub proof fn lemma_plain_round_trip(&self, buf: Seq<u8>, pos: int)
        requires
            self.wf(),
            self.is_plain(),
            0 <= pos,
            pos + name_wire(self@).len() <= buf.len(),
            buf.subrange(pos, pos + name_wire(self@).len()) == name_wire(self@),
        ensures
            name_at(buf, pos) == Ok::<(Seq<Seq<u8>>, int), CodecError>(
                (self@, pos + self.encoded_len()),
            ),
            buf.subrange(pos, pos + self.encoded_len()) == self.encoding(),
    {
        self.lemma_labels_valid();
        lemma_name_round_trip(buf, pos, self@);
    }

    /// The labels of a name are of 1 to 63 bytes each.
    pub proof fn lemma_labels_valid(&self)
        requires
            self.wf(),
        ensures
            labels_valid(self@),
    {
        lemma_resolve_valid(self.buffer@, self.start as int, self.buffer@.len() as int);
    }

    /// Reads the name at the front of `data`, which is the tail of `message`
    /// from the name's first byte on. Pointers are offsets into `message`;
    /// they are followed to see that they lead to a name, and the length of
    /// the name counts its own bytes only.
    pub fn parse(data: &'a [u8], message: &'a [u8]) -> (res: Result<Qname<'a>, CodecError>)
        requires
            data@.len() <= message@.len(),
            data@ == message@.skip(message@.len() - data@.len()),
        ensures
            match name_at(message@, message@.len() - data@.len()) {
                Ok((labels, end)) => res matches Ok(q) && q.wf() && q@ == labels
                    && q.encoded_len() == end - (message@.len() - data@.len()) && q.encoding()
                    == message@.subrange(message@.len() - data@.len(), end),
                Err(e) => res matches Err(err) && err == e,
            },
    {
        let n: usize = message.len();
        let start: usize = n - data.len();
        let mut i: usize = start;
        let ghost mut done: Seq<Seq<u8>> = Seq::empty();
        loop
            invariant
                n == message@.len(),
                start == message@.len() - data@.len(),
                start <= i,
                scan(message@, start as int) == scan(message@, i as int),
                resolve(message@, start as int, n as int) == prepend(
                    done,
                    resolve(message@, i as int, n as int),
                ),
            decreases n - i,
        {
            if i >= n {
                return Err(CodecError::TruncatedName);
            }
            let b: u8 = message[i];
            if b == 0 {
                assert(done + Seq::<Seq<u8>>::empty() =~= done);
                return Ok(Qname { buffer: Store::Borrowed(message), start, length: i + 1 - start });
            }
            if b >= POINTER_TAG {
                if i + 1 >= n {
                    return Err(CodecError::TruncatedName);
                }
                let target: usize = (b - POINTER_TAG) as usize * 256 + message[i + 1] as usize;
                if target >= i {
                    return Err(CodecError::InvalidPointer);
                }
                if !chain_ok(message, target, i) {
                    return Err(CodecError::InvalidPointer);
                }
                return Ok(Qname { buffer: Store::Borrowed(message), start, length: i + 2 - start });
            }
            if b > MAX_LABEL_LEN {
                return Err(CodecError::LabelTooLong);
            }
            if b as usize >= n - i - 1 {
                return Err(CodecError::TruncatedName);
            }
            proof {
                let label = message@.subrange(i + 1, i + 1 + b);
                let rest = resolve(message@, i + 1 + b, n as int);
                if rest.is_some() {
                    assert(done + (seq![label] + rest.unwrap()) =~= done.push(label)
                        + rest.unwrap());
                }
                done = done.push(label);
            }
            i = i + 1 + b as usize;
        }
    }

    /// The number of bytes that the name's own encoding takes.
    pub fn length(&self) -> (n: usize)
        ensures
            n == self.encoded_len(),
    {
        self.length
    }

    /// The labels of the name in order, pointers followed.
    pub fn labels(&'a self) -> (out: Vec<&'a [u8]>)
        ensures
            label_views(out@) == self@,
            labels_valid(self@),
    {
        proof {
            use_type_invariant(self);
            lemma_resolve_valid(self.buffer@, self.start as int, self.buffer@.len() as int);
        }
        let buf: &[u8] = self.buffer.as_slice();
        let mut out: Vec<&[u8]> = Vec::new();
        let mut p: usize = self.start;
        let mut lim: usize = buf.len();
        assert(label_views(out@) =~= Seq::<Seq<u8>>::empty());
        loop
            invariant
                buf@ == self.buffer@,
                lim <= buf@.len(),
                resolve(buf@, p as int, lim as int).is_some(),
                self@ == label_views(out@) + resolve(buf@, p as int, lim as int).unwrap(),
                labels_valid(self@),
            decreases lim, lim - p,
        {
            let b: u8 = buf[p];
            if b == 0 {
                assert(label_views(out@) + Seq::<Seq<u8>>::empty() =~= label_views(out@));
                return out;
            }
            if b >= POINTER_TAG {
                let target: usize = (b - POINTER_TAG) as usize * 256 + buf[p + 1] as usize;
                lim = p;
                p = target;
            } else {
                let next: usize = p + 1 + b as usize;
                let label: &[u8] = slice_subrange(buf, p + 1, next);
                proof {
                    let rest = resolve(buf@, next as int, lim as int).unwrap();
                    assert(label_views(out@.push(label)) =~= label_views(out@).push(label@));
                    assert(label_views(out@) + (seq![label@] + rest) =~= label_views(out@).push(
                        label@,
                    ) + rest);
                }
                out.push(label);
                p = next;
            }
        }
    }

    /// Appends the name to `buf` in full: every label behind its length,
    /// then a zero byte, and never a pointer.
    pub fn write_to(&self, buf: &mut Vec<u8>)
        ensures
            final(buf)@ == old(buf)@ + name_wire(self@),
    {
        let labels = self.labels();
        let mut k: usize = 0;
        assert(label_views(labels@).take(0) =~= Seq::<Seq<u8>>::empty());
        assert(buf@ =~= old(buf)@ + labels_wire(Seq::<Seq<u8>>::empty()));
        while k < labels.len()
            invariant
                k <= labels@.len(),
                label_views(labels@) == self@,
                labels_valid(self@),
                buf@ == old(buf)@ + labels_wire(self@.take(k as int)),
            decreases labels@.len() - k,
        {
            let label: &[u8] = labels[k];
            proof {
                assert(self@[k as int] == label@);
                assert(self@.take(k + 1) =~= self@.take(k as int).push(label@));
                lemma_labels_wire_push(self@.take(k as int), label@);
            }
            buf.push(label.len() as u8);
            push_all(buf, label);
            assert(buf@ =~= old(buf)@ + labels_wire(self@.take(k + 1)));
            k += 1;
        }
        assert(self@.take(k as int) =~= self@);
        buf.push(0);
    }

    /// The name as text: its labels with a dot between each two, each byte
    /// of a label as the character of the same number.
    pub fn to_text(&self) -> (text: String)
        ensures
            text@ == dotted(self@),
    {
        let labels = self.labels();
        let mut text = String::new();
        let mut k: usize = 0;
        assert(label_views(labels@).take(0) =~= Seq::<Seq<u8>>::empty());
        while k < labels.len()
            invariant
                k <= labels@.len(),
                label_views(labels@) == self@,
                text@ == dotted(self@.take(k as int)),
            decreases labels@.len() - k,
        {
            let label: &[u8] = labels[k];
            if k > 0 {
                push_char(&mut text, '.');
            }
            let ghost head = text@;
            let mut j: usize = 0;
            while j < label.len()
                invariant
                    j <= label@.len(),
                    text@ == head + label_text(label@.take(j as int)),
                decreases label@.len() - j,
            {
                push_char(&mut text, label[j] as char);
                assert(label_text(label@.take(j + 1)) =~= label_text(label@.take(j as int)).push(
                    label@[j as int] as char,
                ));
                j += 1;
            }
            proof {
                assert(label@.take(j as int) =~= label@);
                assert(self@[k as int] == label@);
                let upto = self@.take(k + 1);
                assert(upto.last() == label@);
                assert(upto.drop_last() =~= self@.take(k as int));
                if k == 0 {
                    assert(text@ =~= label_text(label@));
                }
            }
            k += 1;
        }
        assert(self@.take(k as int) =~= self@);
        text
    }

    /// The name that `value` spells: cut at its dots, each segment a label.
    /// An empty segment reads back as the end of the name. Fails where a
    /// segment is longer than 63 bytes.
    pub fn from_text(value: &str) -> (res: Result<Qname<'static>, CodecError>)
        ensures
            has_long_label(segments(value.spec_bytes())) ==> (res matches Err(e) && e
                == CodecError::LabelTooLong),
            !has_long_label(segments(value.spec_bytes())) ==> (res matches Ok(q) && q.wf() && q@
                == until_empty(segments(value.spec_bytes())) && q.encoding() == name_wire(
                segments(value.spec_bytes()),
            ) && q.encoded_len() == name_wire(segments(value.spec_bytes())).len()),
    {
        let text: &[u8] = value.as_bytes();
        let mut out: Vec<u8> = Vec::new();
        let mut from: usize = 0;
        let mut i: usize = 0;
        let ghost mut done: Seq<Seq<u8>> = Seq::empty();
        assert(text@.take(0) =~= Seq::<u8>::empty());
        assert(segments(text@.take(0)) =~= done.push(text@.subrange(0, 0)));
        while i < text.len()
            invariant
                text@ == value.spec_bytes(),
                from <= i <= text@.len(),
                segments(text@.take(i as int)) == done.push(text@.subrange(from as int, i as int)),
                !has_long_label(done),
                out@ == labels_wire(done),
            decreases text@.len() - i,
        {
            proof {
                let upto = text@.take(i + 1);
                assert(upto.drop_last() =~= text@.take(i as int));
                assert(upto.last() == text@[i as int]);
                let open_label = text@.subrange(from as int, i as int);
                if text@[i as int] == 0x2E {
                    assert(text@.subrange(i + 1, i + 1) =~= Seq::<u8>::empty());
                } else {
                    assert(done.push(open_label).drop_last() =~= done);
                    assert(open_label.push(text@[i as int]) =~= text@.subrange(
                        from as int,
                        i + 1,
                    ));
                }
            }
            if text[i] == DOT {
                let ghost label = text@.subrange(from as int, i as int);
                proof {
                    lemma_has_long_label_push(done, label);
                    lemma_labels_wire_push(done, label);
                }
                if i - from > MAX_LABEL_LEN as usize {
                    proof {
                        lemma_long_label_stays(text@, i as int);
                    }
                    return Err(CodecError::LabelTooLong);
                }
                out.push((i - from) as u8);
                push_all(&mut out, slice_subrange(text, from, i));
                proof {
                    done = done.push(label);
                }
                from = i + 1;
            }
            i += 1;
        }
        let ghost label = text@.subrange(from as int, i as int);
        proof {
            assert(text@.take(i as int) =~= text@);
            lemma_has_long_label_push(done, label);
            lemma_labels_wire_push(done, label);
        }
        if i - from > MAX_LABEL_LEN as usize {
            return Err(CodecError::LabelTooLong);
        }
        out.push((i - from) as u8);
        push_all(&mut out, slice_subrange(text, from, i));
        out.push(0);
        proof {
            let all = done.push(label);
            assert(out@ =~= name_wire(all));
            assert(out@.subrange(0, out@.len() as int) =~= out@);
            lemma_resolve_wire(out@, 0, out@.len() as int, all);
        }
        let length: usize = out.len();
        Ok(Qname { buffer: Store::Owned(out), start: 0, length })
    }
}

impl<'a> Clone for Qname<'a> {
    fn clone(&self) -> (r: Self)
        ensures
            r.wf(),
            r@ == self@,
            r.encoded_len() == self.encoded_len(),
            r.encoding() == self.encoding(),
    {
        proof {
            use_type_invariant(self);
        }
        Qname { buffer: self.buffer.clone(), start: self.start, length: self.length }
    }
}

/// Text has at least one segment.
proof fn lemma_segments_len(text: Seq<u8>)
    ensures
        segments(text).len() >= 1,
    decreases text.len(),
{
    if text.len() > 0 {
        lemma_segments_len(text.drop_last());
    }
}

/// A segment that is too long after `i` bytes of the text is too long in
/// the whole text: more text makes no segment shorter.
proof fn lemma_long_label_stays(text: Seq<u8>, i: int)
    requires
        0 <= i <= text.len(),
        has_long_label(segments(text.take(i))),
    ensures
        has_long_label(segments(text)),
    decreases text.len() - i,
{
    if i == text.len() {
        assert(text.take(i) =~= text);
    } else {
        let before = segments(text.take(i));
        let after = segments(text.take(i + 1));
        assert(text.take(i + 1).drop_last() =~= text.take(i));
        lemma_segments_len(text.take(i));
        let k = choose|k: int| 0 <= k < before.len() && #[trigger] before[k].len() > 63;
        assert(after[k].len() > 63);
        lemma_long_label_stays(text, i + 1);
    }
}

/// A label is too long among `labels` and one more exactly where one is
/// among `labels` or the new one is.
proof fn lemma_has_long_label_push(labels: Seq<Seq<u8>>, label: Seq<u8>)
    ensures
        has_long_label(labels.push(label)) == (has_long_label(labels) || label.len() > 63),
{
    let more = labels.push(label);
    if has_long_label(labels) {
        let k = choose|k: int| 0 <= k < labels.len() && #[trigger] labels[k].len() > 63;
        assert(more[k].len() > 63);
    }
    if label.len() > 63 {
        assert(more[labels.len() as int].len() > 63);
    }
    if has_long_label(more) {
        let k = choose|k: int| 0 <= k < more.len() && #[trigger] more[k].len() > 63;
        if k < labels.len() {
            assert(labels[k].len() > 63);
        }
    }
}

/// `String::push`: the string afterwards is the string before with `c` at
/// its end.
#[verifier::external_body]
fn push_char(text: &mut String, c: char)
    ensures
        final(text)@ == old(text)@.push(c),
{
    text.push(c);
}

} // verus!
