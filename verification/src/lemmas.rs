//! What holds of every log: how scans and lookups behave on logs that were
//! built by appending records, and on logs whose last record was cut short.

use crate::codec::{
    encodable, lemma_parsed_is_record, lemma_partial_record, lemma_record_at, lemma_round_trip,
    parse_at, record_bytes, record_len, EntryView, Found, Parsed, StoreError,
};
use crate::log::{log_of, lookup, lookup_from, scan, scan_from, with_prefix, Scanned};
use vstd::prelude::*;

verus! {

/// Every entry of the sequence can be encoded.
pub open spec fn all_encodable(entries: Seq<EntryView>) -> bool {
    forall|i: int| 0 <= i < entries.len() ==> encodable(#[trigger] entries[i])
}

/// No entry of the sequence has the key.
pub open spec fn key_absent(entries: Seq<EntryView>, key: Seq<u8>) -> bool {
    forall|i: int| 0 <= i < entries.len() ==> (#[trigger] entries[i]).key != key
}

/// `index` is the place of the first entry of the sequence that has the key.
pub open spec fn first_with_key(entries: Seq<EntryView>, key: Seq<u8>, index: int) -> bool {
    &&& 0 <= index < entries.len()
    &&& entries[index].key == key
    &&& key_absent(entries.take(index), key)
}

// Where the bytes from `pos` on are the records of `entries` and then `tail`,
// the first of the entries stands at `pos`, and the rest follows it.
proof fn lemma_first_record(buf: Seq<u8>, pos: int, entries: Seq<EntryView>, tail: Seq<u8>)
    requires
        0 <= pos <= buf.len(),
        entries.len() > 0,
        all_encodable(entries),
        buf.subrange(pos, buf.len() as int) == log_of(entries) + tail,
    ensures
        parse_at(buf, pos) == (Parsed::Record {
            entry: entries.first(),
            next: pos + record_len(entries.first()),
        }),
        pos + record_len(entries.first()) <= buf.len(),
        all_encodable(entries.drop_first()),
        buf.subrange(pos + record_len(entries.first()), buf.len() as int) == log_of(
            entries.drop_first(),
        ) + tail,
{
    let first = entries.first();
    let rest = entries.drop_first();
    let len = record_len(first) as int;
    let suffix = buf.subrange(pos, buf.len() as int);
    assert(encodable(first));
    lemma_round_trip(first);
    assert(suffix == record_bytes(first) + log_of(rest) + tail);
    assert(len <= suffix.len());
    assert(buf.subrange(pos, pos + len) =~= suffix.subrange(0, len));
    assert(suffix.subrange(0, len) =~= record_bytes(first));
    lemma_record_at(buf, pos, first);
    assert(buf.subrange(pos + len, buf.len() as int) =~= suffix.subrange(len, suffix.len() as int));
    assert(suffix.subrange(len, suffix.len() as int) =~= log_of(rest) + tail);
    assert forall|i: int| 0 <= i < rest.len() implies encodable(#[trigger] rest[i]) by {
        assert(rest[i] == entries[i + 1]);
    }
}

// A scan that starts before the records of `entries` yields them, and then
// what a scan yields that starts behind them.
proof fn lemma_scan_through(buf: Seq<u8>, pos: int, entries: Seq<EntryView>, tail: Seq<u8>)
    requires
        0 <= pos <= buf.len(),
        all_encodable(entries),
        buf.subrange(pos, buf.len() as int) == log_of(entries) + tail,
    ensures
        tail.len() <= buf.len() - pos,
        scan_from(buf, pos) == with_prefix(entries, scan_from(buf, buf.len() - tail.len())),
    decreases entries.len(),
{
    let behind = scan_from(buf, buf.len() - tail.len());
    if entries.len() == 0 {
        assert(buf.subrange(pos, buf.len() as int).len() == tail.len());
        if behind is Ok {
            assert(entries + behind->Ok_0 =~= behind->Ok_0);
        }
    } else {
        let first = entries.first();
        let rest = entries.drop_first();
        lemma_first_record(buf, pos, entries, tail);
        lemma_scan_through(buf, pos + record_len(first), rest, tail);
        if behind is Ok {
            assert(seq![first] + (rest + behind->Ok_0) =~= entries + behind->Ok_0);
        }
    }
}

// A lookup that starts before the records of `entries`, of which `index` is
// the first with the key, finds that one.
proof fn lemma_lookup_through_hit(
    buf: Seq<u8>,
    pos: int,
    entries: Seq<EntryView>,
    tail: Seq<u8>,
    key: Seq<u8>,
    index: int,
)
    requires
        0 <= pos <= buf.len(),
        all_encodable(entries),
        buf.subrange(pos, buf.len() as int) == log_of(entries) + tail,
        first_with_key(entries, key, index),
    ensures
        lookup_from(buf, pos, key) == Found::Ok(Some(entries[index])),
    decreases index,
{
    lemma_first_record(buf, pos, entries, tail);
    if index > 0 {
        let rest = entries.drop_first();
        assert(entries.take(index)[0] == entries.first());
        assert(rest[index - 1] == entries[index]);
        assert forall|i: int| 0 <= i < index - 1 implies (#[trigger] rest.take(index - 1)[i]).key
            != key by {
            assert(rest.take(index - 1)[i] == entries.take(index)[i + 1]);
        }
        let next = pos + record_len(entries.first());
        lemma_lookup_through_hit(buf, next, rest, tail, key, index - 1);
    }
}

// A lookup that starts before the records of `entries`, none of which has the
// key, goes on behind them.
proof fn lemma_lookup_through_miss(
    buf: Seq<u8>,
    pos: int,
    entries: Seq<EntryView>,
    tail: Seq<u8>,
    key: Seq<u8>,
)
    requires
        0 <= pos <= buf.len(),
        all_encodable(entries),
        buf.subrange(pos, buf.len() as int) == log_of(entries) + tail,
        key_absent(entries, key),
    ensures
        tail.len() <= buf.len() - pos,
        lookup_from(buf, pos, key) == lookup_from(buf, buf.len() - tail.len(), key),
    decreases entries.len(),
{
    if entries.len() == 0 {
        assert(buf.subrange(pos, buf.len() as int).len() == tail.len());
    } else {
        let rest = entries.drop_first();
        lemma_first_record(buf, pos, entries, tail);
        assert(entries[0].key != key);
        assert forall|i: int| 0 <= i < rest.len() implies (#[trigger] rest[i]).key != key by {
            assert(rest[i] == entries[i + 1]);
        }
        lemma_lookup_through_miss(buf, pos + record_len(entries.first()), rest, tail, key);
    }
}

// A record that stands in a log stands there still when bytes are appended.
proof fn lemma_record_survives_append(buf: Seq<u8>, extra: Seq<u8>, pos: int)
    requires
        0 <= pos,
        parse_at(buf, pos) is Record,
    ensures
        parse_at(buf + extra, pos) == parse_at(buf, pos),
{
    let longer = buf + extra;
    let next = parse_at(buf, pos)->next;
    let key_at = pos + 8;
    let value_at = key_at + parse_at(buf, pos)->entry.key.len();
    assert(longer.subrange(pos, pos + 4) =~= buf.subrange(pos, pos + 4));
    assert(longer.subrange(pos + 4, pos + 8) =~= buf.subrange(pos + 4, pos + 8));
    assert(longer.subrange(key_at, value_at) =~= buf.subrange(key_at, value_at));
    assert(longer.subrange(value_at, next) =~= buf.subrange(value_at, next));
}

// A lookup that finds its key from `pos` on finds it still when bytes are
// appended.
proof fn lemma_hit_survives_append_from(buf: Seq<u8>, extra: Seq<u8>, pos: int, key: Seq<u8>)
    requires
        0 <= pos,
        lookup_from(buf, pos, key) matches Ok(Some(_)),
    ensures
        lookup_from(buf + extra, pos, key) == lookup_from(buf, pos, key),
    decreases buf.len() - pos,
{
    lemma_record_survives_append(buf, extra, pos);
    if parse_at(buf, pos)->entry.key != key {
        lemma_hit_survives_append_from(buf, extra, parse_at(buf, pos)->next, key);
    }
}

// The bytes that a clean scan from `pos` has read are the records of the
// entries that it yields.
proof fn lemma_clean_log_from(buf: Seq<u8>, pos: int, entries: Seq<EntryView>)
    requires
        0 <= pos <= buf.len(),
        scan_from(buf, pos) == Scanned::Ok(entries),
    ensures
        all_encodable(entries),
        buf.subrange(pos, buf.len() as int) == log_of(entries),
    decreases buf.len() - pos,
{
    let suffix = buf.subrange(pos, buf.len() as int);
    match parse_at(buf, pos) {
        Parsed::EndOfStream => {
            assert(suffix =~= log_of(entries));
        },
        Parsed::Corrupt => {},
        Parsed::Record { entry, next } => {
            let rest = scan_from(buf, next)->Ok_0;
            lemma_parsed_is_record(buf, pos);
            lemma_clean_log_from(buf, next, rest);
            assert(entries.first() == entry);
            assert(entries.drop_first() =~= rest);
            assert(suffix =~= buf.subrange(pos, next) + buf.subrange(next, buf.len() as int));
            assert forall|i: int| 0 <= i < entries.len() implies encodable(
                #[trigger] entries[i],
            ) by {
                if i > 0 {
                    assert(entries[i] == rest[i - 1]);
                }
            }
        },
    }
}

/// Writing one more entry appends its record to the bytes of the log.
pub proof fn lemma_log_of_push(entries: Seq<EntryView>, entry: EntryView)
    ensures
        log_of(entries.push(entry)) == log_of(entries) + record_bytes(entry),
    decreases entries.len(),
{
    let longer = entries.push(entry);
    if entries.len() == 0 {
        assert(longer.drop_first() =~= entries);
    } else {
        lemma_log_of_push(entries.drop_first(), entry);
        assert(longer.drop_first() =~= entries.drop_first().push(entry));
    }
    assert(log_of(longer) =~= log_of(entries) + record_bytes(entry));
}

/// A scan of a log yields the entries that were written to it, in the order
/// in which they were written, and no error.
pub proof fn lemma_scan_log_of(entries: Seq<EntryView>)
    requires
        all_encodable(entries),
    ensures
        scan(log_of(entries)) == Scanned::Ok(entries),
{
    let buf = log_of(entries);
    let tail = Seq::<u8>::empty();
    assert(buf.subrange(0, buf.len() as int) =~= buf + tail);
    lemma_scan_through(buf, 0, entries, tail);
    assert(entries + Seq::<EntryView>::empty() =~= entries);
}

/// A log that a scan reads to its end without an error holds the records of
/// the entries that the scan yields, and nothing else.
pub proof fn lemma_clean_log(buf: Seq<u8>, entries: Seq<EntryView>)
    requires
        scan(buf) == Scanned::Ok(entries),
    ensures
        all_encodable(entries),
        buf == log_of(entries),
{
    lemma_clean_log_from(buf, 0, entries);
    assert(buf.subrange(0, buf.len() as int) =~= buf);
}

/// After one more entry is put into a log that scans cleanly, a scan yields
/// what it yielded before and then the new entry.
pub proof fn lemma_scan_after_put(buf: Seq<u8>, entries: Seq<EntryView>, entry: EntryView)
    requires
        scan(buf) == Scanned::Ok(entries),
        encodable(entry),
    ensures
        scan(buf + record_bytes(entry)) == Scanned::Ok(entries.push(entry)),
{
    let longer = entries.push(entry);
    lemma_clean_log(buf, entries);
    lemma_log_of_push(entries, entry);
    assert forall|i: int| 0 <= i < longer.len() implies encodable(#[trigger] longer[i]) by {
        if i < entries.len() {
            assert(longer[i] == entries[i]);
        }
    }
    lemma_scan_log_of(longer);
}

/// Two entries put into an empty log, one after the other, are what a scan
/// of the log yields, in that order.
pub proof fn lemma_sequential_append(first: EntryView, second: EntryView)
    requires
        encodable(first),
        encodable(second),
    ensures
        ({
            let log = Seq::<u8>::empty() + record_bytes(first) + record_bytes(second);
            scan(log) == Scanned::Ok(seq![first, second])
        }),
{
    let none = Seq::<EntryView>::empty();
    let log = Seq::<u8>::empty() + record_bytes(first);
    lemma_scan_log_of(none);
    lemma_scan_after_put(Seq::<u8>::empty(), none, first);
    lemma_scan_after_put(log, none.push(first), second);
    assert(none.push(first).push(second) =~= seq![first, second]);
}

/// A lookup returns the first entry that was written with the key.
pub proof fn lemma_lookup_hit(entries: Seq<EntryView>, key: Seq<u8>, index: int)
    requires
        all_encodable(entries),
        first_with_key(entries, key, index),
    ensures
        lookup(log_of(entries), key) == Found::Ok(Some(entries[index])),
{
    let buf = log_of(entries);
    let tail = Seq::<u8>::empty();
    assert(buf.subrange(0, buf.len() as int) =~= buf + tail);
    lemma_lookup_through_hit(buf, 0, entries, tail, key, index);
}

/// A lookup of a key that was never written returns `None`, and no error.
pub proof fn lemma_lookup_miss(entries: Seq<EntryView>, key: Seq<u8>)
    requires
        all_encodable(entries),
        key_absent(entries, key),
    ensures
        lookup(log_of(entries), key) == Found::Ok(None),
{
    let buf = log_of(entries);
    let tail = Seq::<u8>::empty();
    assert(buf.subrange(0, buf.len() as int) =~= buf + tail);
    lemma_lookup_through_miss(buf, 0, entries, tail, key);
}

/// An entry put under a key that the log does not hold yet is what a lookup
/// of that key returns.
pub proof fn lemma_lookup_after_put(entries: Seq<EntryView>, entry: EntryView)
    requires
        all_encodable(entries),
        encodable(entry),
        key_absent(entries, entry.key),
    ensures
        ({
            let log = log_of(entries) + record_bytes(entry);
            lookup(log, entry.key) == Found::Ok(Some(entry))
        }),
{
    let buf = log_of(entries) + record_bytes(entry);
    assert(buf.subrange(0, buf.len() as int) =~= buf);
    lemma_lookup_through_miss(buf, 0, entries, record_bytes(entry), entry.key);
    lemma_round_trip(entry);
    let at = buf.len() - record_len(entry);
    assert(buf.subrange(at, at + record_len(entry)) =~= record_bytes(entry));
    lemma_record_at(buf, at, entry);
}

/// What a lookup has found it finds still, whatever is appended to the log:
/// a later entry with the same key does not hide an earlier one.
pub proof fn lemma_hit_survives_append(buf: Seq<u8>, extra: Seq<u8>, key: Seq<u8>)
    requires
        lookup(buf, key) matches Ok(Some(_)),
    ensures
        lookup(buf + extra, key) == lookup(buf, key),
{
    lemma_hit_survives_append_from(buf, extra, 0, key);
}

/// Of two entries put under one key, a lookup returns the one that was put
/// first.
pub proof fn lemma_first_written_wins(first: EntryView, second: EntryView)
    requires
        encodable(first),
        encodable(second),
        first.key == second.key,
    ensures
        ({
            let log = Seq::<u8>::empty() + record_bytes(first) + record_bytes(second);
            lookup(log, first.key) == Found::Ok(Some(first))
        }),
{
    let log = Seq::<u8>::empty() + record_bytes(first);
    lemma_lookup_after_put(Seq::<EntryView>::empty(), first);
    lemma_hit_survives_append(log, record_bytes(second), first.key);
}

/// A scan of a log whose last record was cut short fails with
/// `CorruptRecord`: it does not stop in silence before the partial record.
pub proof fn lemma_truncated_tail_scan(entries: Seq<EntryView>, cut: EntryView, n: int)
    requires
        all_encodable(entries),
        encodable(cut),
        0 < n < record_len(cut),
    ensures
        ({
            let log = log_of(entries) + record_bytes(cut).take(n);
            scan(log) == Scanned::Err(StoreError::CorruptRecord)
        }),
{
    let tail = record_bytes(cut).take(n);
    let buf = log_of(entries) + tail;
    lemma_round_trip(cut);
    assert(buf.subrange(0, buf.len() as int) =~= buf);
    lemma_scan_through(buf, 0, entries, tail);
    assert(buf.subrange(buf.len() - n, buf.len() as int) =~= tail);
    lemma_partial_record(buf, buf.len() - n, cut, n);
}

/// In a log whose last record was cut short, a lookup still returns an entry
/// that stands whole before the partial record.
pub proof fn lemma_truncated_tail_hit(
    entries: Seq<EntryView>,
    cut: EntryView,
    n: int,
    key: Seq<u8>,
    index: int,
)
    requires
        all_encodable(entries),
        encodable(cut),
        0 < n < record_len(cut),
        first_with_key(entries, key, index),
    ensures
        ({
            let log = log_of(entries) + record_bytes(cut).take(n);
            lookup(log, key) == Found::Ok(Some(entries[index]))
        }),
{
    lemma_lookup_hit(entries, key, index);
    lemma_hit_survives_append(log_of(entries), record_bytes(cut).take(n), key);
}

/// In a log whose last record was cut short, a lookup of a key that no whole
/// record holds reaches the partial record and fails with `CorruptRecord`.
pub proof fn lemma_truncated_tail_miss(
    entries: Seq<EntryView>,
    cut: EntryView,
    n: int,
    key: Seq<u8>,
)
    requires
        all_encodable(entries),
        encodable(cut),
        0 < n < record_len(cut),
        key_absent(entries, key),
    ensures
        ({
            let log = log_of(entries) + record_bytes(cut).take(n);
            lookup(log, key) == Found::Err(StoreError::CorruptRecord)
        }),
{
    let tail = record_bytes(cut).take(n);
    let buf = log_of(entries) + tail;
    lemma_round_trip(cut);
    assert(buf.subrange(0, buf.len() as int) =~= buf);
    lemma_lookup_through_miss(buf, 0, entries, tail, key);
    assert(buf.subrange(buf.len() - n, buf.len() as int) =~= tail);
    lemma_partial_record(buf, buf.len() - n, cut, n);
}

} // verus!
