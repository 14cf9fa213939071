//! The record codec: one entry as `key_len || value_len || key || value`,
//! both lengths as four little-endian bytes.

use crate::bytes::{
    copy_range, le_bytes, le_value, lemma_le_bytes_of_value, lemma_le_value_of_bytes, push_bytes,
    push_u32_le, read_u32_le,
};
use vstd::prelude::*;

verus! {

/// One key-value pair, the unit that the log stores.
#[derive(Debug, PartialEq, Eq)]
pub struct Entry {
    pub key: Vec<u8>,
    pub value: Vec<u8>,
}

/// An entry as a pair of byte sequences.
pub struct EntryView {
    pub key: Seq<u8>,
    pub value: Seq<u8>,
}

impl View for Entry {
    type V = EntryView;

    open spec fn view(&self) -> EntryView {
        EntryView { key: self.key@, value: self.value@ }
    }
}

impl Clone for Entry {
    fn clone(&self) -> (copy: Entry)
        ensures
            copy@ == self@,
    {
        Entry { key: self.key.clone(), value: self.value.clone() }
    }
}

/// What can go wrong in the codec and the log.
#[derive(Debug, Clone, Copy, PartialEq, Eq, Structural)]
pub enum StoreError {
    /// The key is longer than a four-byte length prefix can say.
    KeyTooLarge,
    /// The value is longer than a four-byte length prefix can say.
    ValueTooLarge,
    /// A record claims more bytes than the log still holds.
    CorruptRecord,
}

/// The number of bytes that the two length prefixes take.
pub const HEADER_LEN: usize = 8;

/// Both lengths fit their four-byte prefix.
pub open spec fn encodable(entry: EntryView) -> bool {
    entry.key.len() <= u32::MAX && entry.value.len() <= u32::MAX
}

/// The record of an entry: the two length prefixes, then the key, then the value.
pub open spec fn record_bytes(entry: EntryView) -> Seq<u8> {
    le_bytes(entry.key.len()) + le_bytes(entry.value.len()) + entry.key + entry.value
}

/// The length of an entry's record.
pub open spec fn record_len(entry: EntryView) -> nat {
    HEADER_LEN as nat + entry.key.len() + entry.value.len()
}

/// What stands at one position of a log.
pub enum Parsed {
    /// A whole record, which ends where `next` begins.
    Record { entry: EntryView, next: int },
    /// Nothing: the position is the end of the log.
    EndOfStream,
    /// Some bytes, but fewer than a record needs.
    Corrupt,
}

/// Reads the bytes of `buf` from `pos` on as one record: nothing left is the
/// end of the stream; fewer bytes than the header, or than the header and the
/// two lengths that it names, is a corrupt record.
pub open spec fn parse_at(buf: Seq<u8>, pos: int) -> Parsed
    recommends
        0 <= pos <= buf.len(),
{
    let rest = buf.len() - pos;
    if rest <= 0 {
        Parsed::EndOfStream
    } else if rest < HEADER_LEN {
        Parsed::Corrupt
    } else {
        let key_len = le_value(buf.subrange(pos, pos + 4));
        let value_len = le_value(buf.subrange(pos + 4, pos + 8));
        let key_at = pos + HEADER_LEN;
        let value_at = key_at + key_len;
        let next = value_at + value_len;
        if next > buf.len() {
            Parsed::Corrupt
        } else {
            Parsed::Record {
                entry: EntryView {
                    key: buf.subrange(key_at, value_at),
                    value: buf.subrange(value_at, next),
                },
                next,
            }
        }
    }
}

/// The error that keeps an entry from being encoded, if there is one. The
/// key is looked at first.
pub open spec fn rejection(entry: EntryView) -> Option<StoreError> {
    if entry.key.len() > u32::MAX {
        Some(StoreError::KeyTooLarge)
    } else if entry.value.len() > u32::MAX {
        Some(StoreError::ValueTooLarge)
    } else {
        None
    }
}

/// The two length prefixes of a record, or the error that says which field
/// is too long for its prefix. The key is looked at first.
pub fn length_prefixes(key_len: usize, value_len: usize) -> (r: Result<(u32, u32), StoreError>)
    ensures
        match r {
            Ok((k, v)) => k == key_len && v == value_len,
            Err(e) => if key_len > u32::MAX {
                e == StoreError::KeyTooLarge
            } else {
                value_len > u32::MAX && e == StoreError::ValueTooLarge
            },
        },
{
    if key_len > u32::MAX as usize {
        Err(StoreError::KeyTooLarge)
    } else if value_len > u32::MAX as usize {
        Err(StoreError::ValueTooLarge)
    } else {
        Ok((key_len as u32, value_len as u32))
    }
}

/// Encodes an entry as one record, or says which of its fields is too long.
pub fn encode(entry: &Entry) -> (r: Result<Vec<u8>, StoreError>)
    ensures
        match r {
            Ok(bytes) => {
                &&& rejection(entry@) is None
                &&& bytes@ == record_bytes(entry@)
                &&& bytes@.len() == record_len(entry@)
            },
            Err(e) => rejection(entry@) == Some(e),
        },
{
    match length_prefixes(entry.key.len(), entry.value.len()) {
        Err(e) => Err(e),
        Ok((key_len, value_len)) => {
            let mut bytes: Vec<u8> = Vec::new();
            push_u32_le(&mut bytes, key_len);
            push_u32_le(&mut bytes, value_len);
            push_bytes(&mut bytes, entry.key.as_slice());
            push_bytes(&mut bytes, entry.value.as_slice());
            Ok(bytes)
        },
    }
}

/// A read position in a log's bytes. It never lies beyond their end.
pub struct Cursor<'a> {
    buf: &'a [u8],
    pos: usize,
}

impl<'a> Cursor<'a> {
    #[verifier::type_invariant]
    spec fn in_bounds(self) -> bool {
        self.pos <= self.buf@.len()
    }

    /// The bytes that the cursor reads from.
    pub closed spec fn bytes(&self) -> Seq<u8> {
        self.buf@
    }

    /// How many of those bytes lie before the cursor.
    pub closed spec fn position(&self) -> int {
        self.pos as int
    }

    /// A cursor at the start of `buf`.
    pub fn new(buf: &'a [u8]) -> (cursor: Cursor<'a>)
        ensures
            cursor.bytes() == buf@,
            cursor.position() == 0,
    {
        Cursor { buf, pos: 0 }
    }

    /// The number of bytes before the cursor.
    pub fn offset(&self) -> (n: usize)
        ensures
            n == self.position(),
            n <= self.bytes().len(),
    {
        proof {
            use_type_invariant(self);
        }
        self.pos
    }

    /// The number of bytes from the cursor to the end.
    pub fn remaining(&self) -> (n: usize)
        ensures
            n == self.bytes().len() - self.position(),
    {
        proof {
            use_type_invariant(self);
        }
        self.buf.len() - self.pos
    }
}

/// What a decoding step or a lookup finds: an entry, or none, or an error.
pub type Found = Result<Option<EntryView>, StoreError>;

/// What a decoding step or a lookup returns, with the entry as byte sequences.
pub open spec fn found_view(found: Result<Option<Entry>, StoreError>) -> Found {
    match found {
        Ok(Some(entry)) => Ok(Some(entry@)),
        Ok(None) => Ok(None),
        Err(e) => Err(e),
    }
}

/// Decodes the record at the cursor and moves the cursor past it.
///
/// At the end of the bytes the result is `Ok(None)`. Where bytes are left but
/// fewer than the record needs, the result is `CorruptRecord`. In both cases
/// the cursor stays where it was.
pub fn decode(cursor: &mut Cursor) -> (r: Result<Option<Entry>, StoreError>)
    ensures
        final(cursor).bytes() == old(cursor).bytes(),
        0 <= old(cursor).position() <= final(cursor).position() <= old(cursor).bytes().len(),
        match parse_at(old(cursor).bytes(), old(cursor).position()) {
            Parsed::Record { entry, next } => {
                &&& found_view(r) == Found::Ok(Some(entry))
                &&& final(cursor).position() == next
            },
            Parsed::EndOfStream => {
                &&& found_view(r) == Found::Ok(None)
                &&& final(cursor).position() == old(cursor).position()
            },
            Parsed::Corrupt => {
                &&& found_view(r) == Found::Err(StoreError::CorruptRecord)
                &&& final(cursor).position() == old(cursor).position()
            },
        },
{
    proof {
        use_type_invariant(&*cursor);
    }
    let buf = cursor.buf;
    let pos = cursor.pos;
    let rest = buf.len() - pos;
    if rest == 0 {
        return Ok(None);
    }
    if rest < HEADER_LEN {
        return Err(StoreError::CorruptRecord);
    }
    let key_len = read_u32_le(buf, pos) as usize;
    let value_len = read_u32_le(buf, pos + 4) as usize;
    let body = rest - HEADER_LEN;
    if body < key_len || body - key_len < value_len {
        return Err(StoreError::CorruptRecord);
    }
    let key_at = pos + HEADER_LEN;
    let value_at = key_at + key_len;
    let next = value_at + value_len;
    let key = copy_range(buf, key_at, value_at);
    let value = copy_range(buf, value_at, next);
    cursor.pos = next;
    Ok(Some(Entry { key, value }))
}

/// A record that is decoded gives back the entry that was encoded: the bytes
/// of `record_bytes(entry)`, read from their start, are one whole record that
/// holds `entry` and ends where they end.
pub proof fn lemma_round_trip(entry: EntryView)
    requires
        encodable(entry),
    ensures
        record_bytes(entry).len() == record_len(entry),
        parse_at(record_bytes(entry), 0) == (Parsed::Record {
            entry,
            next: record_len(entry) as int,
        }),
{
    let record = record_bytes(entry);
    assert(record.subrange(0, record_len(entry) as int) =~= record);
    lemma_record_at(record, 0, entry);
}

/// The same inside a longer log: where the bytes from `pos` on begin with the
/// record of `entry`, that is what stands at `pos`.
pub proof fn lemma_record_at(buf: Seq<u8>, pos: int, entry: EntryView)
    requires
        encodable(entry),
        0 <= pos,
        pos + record_len(entry) <= buf.len(),
        buf.subrange(pos, pos + record_len(entry)) == record_bytes(entry),
    ensures
        record_bytes(entry).len() == record_len(entry),
        parse_at(buf, pos) == (Parsed::Record { entry, next: pos + record_len(entry) }),
{
    let key_len = entry.key.len() as int;
    let value_len = entry.value.len() as int;
    let key_at = pos + 8;
    let value_at = key_at + key_len;
    let next = value_at + value_len;
    lemma_le_value_of_bytes(entry.key.len());
    lemma_le_value_of_bytes(entry.value.len());
    // Each field of the record is the same stretch of `buf`, moved by `pos`.
    let window = buf.subrange(pos, next);
    assert(buf.subrange(pos, pos + 4) =~= window.subrange(0, 4));
    assert(window.subrange(0, 4) =~= le_bytes(entry.key.len()));
    assert(buf.subrange(pos + 4, pos + 8) =~= window.subrange(4, 8));
    assert(window.subrange(4, 8) =~= le_bytes(entry.value.len()));
    assert(buf.subrange(key_at, value_at) =~= window.subrange(8, 8 + key_len));
    assert(window.subrange(8, 8 + key_len) =~= entry.key);
    assert(buf.subrange(value_at, next) =~= window.subrange(8 + key_len, 8 + key_len + value_len));
    assert(window.subrange(8 + key_len, 8 + key_len + value_len) =~= entry.value);
}

/// The other way round: a record that `parse_at` finds at `pos` is the
/// encoding of the entry that it holds, and of no other bytes.
pub proof fn lemma_parsed_is_record(buf: Seq<u8>, pos: int)
    requires
        0 <= pos,
        parse_at(buf, pos) is Record,
    ensures
        encodable(parse_at(buf, pos)->entry),
        parse_at(buf, pos)->next == pos + record_len(parse_at(buf, pos)->entry),
        parse_at(buf, pos)->next <= buf.len(),
        buf.subrange(pos, parse_at(buf, pos)->next) == record_bytes(parse_at(buf, pos)->entry),
{
    let entry = parse_at(buf, pos)->entry;
    let next = parse_at(buf, pos)->next;
    lemma_le_bytes_of_value(buf.subrange(pos, pos + 4));
    lemma_le_bytes_of_value(buf.subrange(pos + 4, pos + 8));
    assert(buf.subrange(pos, next) =~= record_bytes(entry));
}

/// A record cut short is corrupt: where the bytes from `pos` to the end are
/// the first `n` bytes of a record, with `n` more than none and fewer than
/// all, no record and no clean end stands at `pos`.
pub proof fn lemma_partial_record(buf: Seq<u8>, pos: int, entry: EntryView, n: int)
    requires
        encodable(entry),
        0 <= pos,
        0 < n < record_len(entry),
        pos + n == buf.len(),
        buf.subrange(pos, pos + n) == record_bytes(entry).take(n),
    ensures
        parse_at(buf, pos) == Parsed::Corrupt,
{
    if n >= 8 {
        // The header is whole, and names more bytes than are left.
        lemma_le_value_of_bytes(entry.key.len());
        lemma_le_value_of_bytes(entry.value.len());
        let window = buf.subrange(pos, pos + n);
        assert(buf.subrange(pos, pos + 4) =~= window.subrange(0, 4));
        assert(window.subrange(0, 4) =~= le_bytes(entry.key.len()));
        assert(buf.subrange(pos + 4, pos + 8) =~= window.subrange(4, 8));
        assert(window.subrange(4, 8) =~= le_bytes(entry.value.len()));
    }
}

} // verus!
