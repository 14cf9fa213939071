//! The log store: records appended one after another, and a point lookup
//! that decodes them from the start until a key matches.
//!
//! Where a key was written more than once, the lookup returns the entry that
//! was written first.

use crate::bytes::bytes_equal;
use crate::codec::{
    decode, encode, found_view, parse_at, record_bytes, record_len, rejection, Cursor, Entry,
    EntryView, Found, Parsed, StoreError,
};
use vstd::prelude::*;

verus! {

/// The bytes of a log into which `entries` were written, in that order.
pub open spec fn log_of(entries: Seq<EntryView>) -> Seq<u8>
    decreases entries.len(),
{
    if entries.len() == 0 {
        Seq::empty()
    } else {
        record_bytes(entries.first()) + log_of(entries.drop_first())
    }
}

/// What a scan yields: the entries that it read, or an error.
pub type Scanned = Result<Seq<EntryView>, StoreError>;

/// The outcome of a scan, with `prefix` put before the entries that it read.
pub open spec fn with_prefix(prefix: Seq<EntryView>, scanned: Scanned) -> Scanned {
    match scanned {
        Ok(rest) => Ok(prefix + rest),
        Err(e) => Err(e),
    }
}

/// The entries that a scan of `buf` from `pos` to its end yields, or
/// `CorruptRecord` where it meets bytes that are no whole record.
pub open spec fn scan_from(buf: Seq<u8>, pos: int) -> Scanned
    decreases buf.len() - pos,
{
    match parse_at(buf, pos) {
        Parsed::EndOfStream => Ok(Seq::empty()),
        Parsed::Corrupt => Err(StoreError::CorruptRecord),
        Parsed::Record { entry, next } => with_prefix(seq![entry], scan_from(buf, next)),
    }
}

/// The entries that a scan of the whole log yields.
pub open spec fn scan(buf: Seq<u8>) -> Scanned {
    scan_from(buf, 0)
}

/// The first entry with the given key that a scan of `buf` from `pos` meets.
/// The scan stops there. It fails where it meets bytes that are no whole
/// record before it has found the key.
pub open spec fn lookup_from(buf: Seq<u8>, pos: int, key: Seq<u8>) -> Found
    decreases buf.len() - pos,
{
    match parse_at(buf, pos) {
        Parsed::EndOfStream => Ok(None),
        Parsed::Corrupt => Err(StoreError::CorruptRecord),
        Parsed::Record { entry, next } => if entry.key == key {
            Ok(Some(entry))
        } else {
            lookup_from(buf, next, key)
        },
    }
}

/// The result of a point lookup in the whole log.
pub open spec fn lookup(buf: Seq<u8>, key: Seq<u8>) -> Found {
    lookup_from(buf, 0, key)
}

/// The views of a sequence of entries.
pub open spec fn entry_views(entries: Seq<Entry>) -> Seq<EntryView> {
    entries.map_values(|e: Entry| e@)
}

/// What a scan returns, with the entries as byte sequences.
pub open spec fn scan_view(scanned: Result<Vec<Entry>, StoreError>) -> Scanned {
    match scanned {
        Ok(entries) => Ok(entry_views(entries@)),
        Err(e) => Err(e),
    }
}

/// The bytes of an append-only log.
pub struct Log {
    bytes: Vec<u8>,
}

impl View for Log {
    type V = Seq<u8>;

    closed spec fn view(&self) -> Seq<u8> {
        self.bytes@
    }
}

impl Log {
    /// An empty log.
    pub fn new() -> (log: Log)
        ensures
            log@ == Seq::<u8>::empty(),
    {
        Log { bytes: Vec::new() }
    }

    /// A log with the given bytes, such as the contents of a log file.
    pub fn from_bytes(bytes: Vec<u8>) -> (log: Log)
        ensures
            log@ == bytes@,
    {
        Log { bytes }
    }

    /// The bytes of the log.
    pub fn as_bytes(&self) -> (bytes: &[u8])
        ensures
            bytes@ == self@,
    {
        self.bytes.as_slice()
    }

    /// The number of bytes in the log.
    pub fn len(&self) -> (n: usize)
        ensures
            n == self@.len(),
    {
        self.bytes.len()
    }

    /// Whether the log holds no bytes, and so no record.
    pub fn is_empty(&self) -> (empty: bool)
        ensures
            empty == (self@.len() == 0),
    {
        self.bytes.len() == 0
    }

    /// Appends the record of `entry` to the log, which grows by the length of
    /// that record. An entry with a field too long for its length prefix is
    /// refused, and the log stays as it was.
    pub fn put(&mut self, entry: &Entry) -> (r: Result<(), StoreError>)
        ensures
            match r {
                Ok(()) => {
                    &&& rejection(entry@) is None
                    &&& final(self)@ == old(self)@ + record_bytes(entry@)
                    &&& final(self)@.len() == old(self)@.len() + record_len(entry@)
                },
                Err(e) => rejection(entry@) == Some(e) && final(self)@ == old(self)@,
            },
    {
        match encode(entry) {
            Ok(mut record) => {
                self.bytes.append(&mut record);
                Ok(())
            },
            Err(e) => Err(e),
        }
    }

    /// The first entry written with the given key, found by decoding the
    /// records from the start of the log.
    pub fn get(&self, key: &[u8]) -> (r: Result<Option<Entry>, StoreError>)
        ensures
            found_view(r) == lookup(self@, key@),
    {
        let mut cursor = Cursor::new(self.bytes.as_slice());
        loop
            invariant
                cursor.bytes() == self@,
                0 <= cursor.position() <= self@.len(),
                lookup_from(self@, cursor.position(), key@) == lookup(self@, key@),
            decreases self@.len() - cursor.position(),
        {
            match decode(&mut cursor) {
                Err(e) => {
                    return Err(e);
                },
                Ok(None) => {
                    return Ok(None);
                },
                Ok(Some(entry)) => {
                    if bytes_equal(entry.key.as_slice(), key) {
                        return Ok(Some(entry));
                    }
                },
            }
        }
    }

    /// All entries of the log, in the order in which they were written.
    pub fn scan(&self) -> (r: Result<Vec<Entry>, StoreError>)
        ensures
            scan_view(r) == scan(self@),
    {
        let mut entries: Vec<Entry> = Vec::new();
        let mut cursor = Cursor::new(self.bytes.as_slice());
        assert(forall|rest: Seq<EntryView>| entry_views(entries@) + rest =~= rest);
        loop
            invariant
                cursor.bytes() == self@,
                0 <= cursor.position() <= self@.len(),
                with_prefix(entry_views(entries@), scan_from(self@, cursor.position())) == scan(
                    self@,
                ),
            decreases self@.len() - cursor.position(),
        {
            let ghost before = entry_views(entries@);
            match decode(&mut cursor) {
                Err(e) => {
                    return Err(e);
                },
                Ok(None) => {
                    assert(before + Seq::<EntryView>::empty() =~= before);
                    return Ok(entries);
                },
                Ok(Some(entry)) => {
                    entries.push(entry);
                    assert(entry_views(entries@) =~= before + seq![entry@]);
                    assert(forall|rest: Seq<EntryView>|
                        #![auto]
                        before + (seq![entry@] + rest) =~= (before + seq![entry@]) + rest);
                },
            }
        }
    }
}

} // verus!
