//! The self-describing command buffer: its layout, its reader and its writer.
//!
//! A buffer is the data of its entries, one after the other, then one index
//! record per entry, then a footer word that holds the offset at which the
//! index begins. An index record holds the offset at which the entry's
//! payload ends, the offset at which its extra data ends, and its bounds.

use vstd::prelude::*;
use vstd::slice::slice_subrange;
use crate::geometry::Box2d;
use crate::keys::{FontKey, IdNamespace};
use crate::wire::{
    coord_at, coord_bytes, lemma_coord_determines_bytes, lemma_coord_stored, lemma_stored_widths,
    lemma_word_determines_bytes, lemma_word_stored, read_coord, read_word, to_usize, word_at,
    word_bytes, write_bytes, write_coord, write_word, WORD_SIZE,
};

verus! {

/// The width in bytes of an index record.
pub const RECORD_SIZE: usize = 32;

/// One drawing command as a buffer holds it.
pub struct Entry {
    /// The serialized command.
    pub payload: Seq<u8>,
    /// What follows the command: the fonts it refers to.
    pub extra: Seq<u8>,
    /// The box that the command draws into.
    pub bounds: Box2d,
}

/// One record of the index.
pub struct IndexRecord {
    pub payload_end: int,
    pub extra_end: int,
    pub bounds: Box2d,
}

/// The box that `b` holds in the sixteen bytes from `at` on.
pub open spec fn box_at(b: Seq<u8>, at: int) -> Box2d {
    Box2d {
        x1: coord_at(b, at),
        y1: coord_at(b, at + 4),
        x2: coord_at(b, at + 8),
        y2: coord_at(b, at + 12),
    }
}

/// The record that `b` holds in the thirty-two bytes from `at` on.
pub open spec fn record_from(b: Seq<u8>, at: int) -> IndexRecord {
    IndexRecord {
        payload_end: word_at(b, at),
        extra_end: word_at(b, at + 8),
        bounds: box_at(b, at + 16),
    }
}

/// The bytes of one index record.
pub open spec fn record_bytes(payload_end: u64, extra_end: u64, bounds: Box2d) -> Seq<u8> {
    word_bytes(payload_end) + word_bytes(extra_end) + coord_bytes(bounds.x1) + coord_bytes(
        bounds.y1,
    ) + coord_bytes(bounds.x2) + coord_bytes(bounds.y2)
}

/// The number of records in the index `index`.
pub open spec fn record_count(index: Seq<u8>) -> int {
    index.len() as int / 32
}

/// Record `k` of the index `index`.
pub open spec fn record_at(index: Seq<u8>, k: int) -> IndexRecord {
    record_from(index, 32 * k)
}

/// The offset at which the data of entry `k` begins: where its predecessor
/// ends.
pub open spec fn entry_begin(index: Seq<u8>, k: int) -> int {
    if k <= 0 {
        0
    } else {
        record_at(index, k - 1).extra_end
    }
}

/// Record `k` names a range of data that begins where its predecessor ends,
/// is split in payload and extra data, and lies in a data region of
/// `data_len` bytes.
pub open spec fn record_ok(index: Seq<u8>, k: int, data_len: int) -> bool {
    entry_begin(index, k) <= record_at(index, k).payload_end <= record_at(index, k).extra_end
        <= data_len
}

/// `index` is a whole number of records, each of them in order.
pub open spec fn index_ok(index: Seq<u8>, data_len: int) -> bool {
    &&& index.len() % 32 == 0
    &&& forall|k: int| 0 <= k < record_count(index) ==> #[trigger] record_ok(index, k, data_len)
}

/// The offset at which the last entry of `index` ends.
pub open spec fn data_end(index: Seq<u8>) -> int {
    entry_begin(index, record_count(index))
}

/// Entry `k` of the data `data` under the index `index`.
pub open spec fn entry_at(data: Seq<u8>, index: Seq<u8>, k: int) -> Entry {
    Entry {
        payload: data.subrange(entry_begin(index, k), record_at(index, k).payload_end),
        extra: data.subrange(record_at(index, k).payload_end, record_at(index, k).extra_end),
        bounds: record_at(index, k).bounds,
    }
}

/// The entries of the data `data` under the index `index`, in order.
pub open spec fn entries_of(data: Seq<u8>, index: Seq<u8>) -> Seq<Entry> {
    Seq::new(record_count(index) as nat, |k: int| entry_at(data, index, k))
}

/// The offset that the footer of `b` gives for the index.
pub open spec fn index_begin(b: Seq<u8>) -> int {
    word_at(b, b.len() - 8)
}

/// `b` ends in a footer that points at or before itself.
pub open spec fn has_index(b: Seq<u8>) -> bool {
    b.len() >= 8 && index_begin(b) <= b.len() - 8
}

/// The index region of `b`.
pub open spec fn index_of(b: Seq<u8>) -> Seq<u8> {
    b.subrange(index_begin(b), b.len() - 8)
}

/// The data region of `b`.
pub open spec fn data_of(b: Seq<u8>) -> Seq<u8> {
    b.subrange(0, index_begin(b))
}

/// `b` is a command buffer: it has a footer, and its index is a whole number
/// of records that name consecutive ranges of its data region.
pub open spec fn valid_buffer(b: Seq<u8>) -> bool {
    has_index(b) && index_ok(index_of(b), index_begin(b))
}

/// The entries of the command buffer `b`, in order.
pub open spec fn buffer_entries(b: Seq<u8>) -> Seq<Entry> {
    entries_of(data_of(b), index_of(b))
}

/// `b` is a command buffer whose entries fill its data region.
pub open spec fn canonical_buffer(b: Seq<u8>) -> bool {
    valid_buffer(b) && data_end(index_of(b)) == index_begin(b)
}

/// The data and the index that hold `entries`, written one after the other.
pub open spec fn written(entries: Seq<Entry>) -> (Seq<u8>, Seq<u8>)
    decreases entries.len(),
{
    if entries.len() == 0 {
        (Seq::empty(), Seq::empty())
    } else {
        let before = written(entries.drop_last());
        let entry = entries.last();
        let end = before.0.len() + entry.payload.len() + entry.extra.len();
        (
            before.0 + entry.payload + entry.extra,
            before.1 + record_bytes((end - entry.extra.len()) as u64, end as u64, entry.bounds),
        )
    }
}

/// The command buffer that holds `entries`: their data, their index, and the
/// footer.
pub open spec fn encoded(entries: Seq<Entry>) -> Seq<u8> {
    written(entries).0 + written(entries).1 + word_bytes(written(entries).0.len() as u64)
}

/// The font key that `b` holds in the eight bytes from `at` on.
pub open spec fn font_key_at(b: Seq<u8>, at: int) -> FontKey {
    FontKey(IdNamespace(coord_at(b, at)), coord_at(b, at + 4))
}

/// A cursor over the bytes of an index or of an entry's extra data.
pub struct BufReader<'a> {
    pub buf: &'a [u8],
    pub pos: usize,
}

impl<'a> BufReader<'a> {
    pub fn new(buf: &'a [u8]) -> (r: BufReader<'a>)
        ensures
            r.buf@ == buf@,
            r.pos == 0,
    {
        BufReader { buf: buf, pos: 0 }
    }

    /// Reads the word under the cursor and moves past it.
    pub fn read_word(&mut self) -> (v: u64)
        requires
            old(self).pos + 8 <= old(self).buf.len(),
        ensures
            v == word_at(old(self).buf@, old(self).pos as int),
            final(self).pos == old(self).pos + 8,
            final(self).buf == old(self).buf,
    {
        let v = read_word(self.buf, self.pos);
        self.pos = self.pos + 8;
        v
    }

    /// Reads the font key under the cursor and moves past it.
    pub fn read_font_key(&mut self) -> (key: FontKey)
        requires
            old(self).pos + 8 <= old(self).buf.len(),
        ensures
            key == font_key_at(old(self).buf@, old(self).pos as int),
            final(self).pos == old(self).pos + 8,
            final(self).buf == old(self).buf,
    {
        let namespace = read_coord(self.buf, self.pos);
        let key = read_coord(self.buf, self.pos + 4);
        self.pos = self.pos + 8;
        FontKey(IdNamespace(namespace), key)
    }

    /// Reads the word under the cursor as an offset or a count and moves past
    /// it.
    pub fn read_usize(&mut self) -> (v: usize)
        requires
            old(self).pos + 8 <= old(self).buf.len(),
            word_at(old(self).buf@, old(self).pos as int) <= usize::MAX,
        ensures
            v == word_at(old(self).buf@, old(self).pos as int),
            final(self).pos == old(self).pos + 8,
            final(self).buf == old(self).buf,
    {
        self.read_word() as usize
    }

    /// Reads the index record under the cursor, its offsets as they are
    /// stored, and moves past it.
    pub fn read_record(&mut self) -> (r: (u64, u64, Box2d))
        requires
            old(self).pos + 32 <= old(self).buf.len(),
        ensures
            r.0 == record_from(old(self).buf@, old(self).pos as int).payload_end,
            r.1 == record_from(old(self).buf@, old(self).pos as int).extra_end,
            r.2 == record_from(old(self).buf@, old(self).pos as int).bounds,
            final(self).pos == old(self).pos + 32,
            final(self).buf == old(self).buf,
    {
        let payload_end = self.read_word();
        let extra_end = self.read_word();
        let bounds = Box2d {
            x1: read_coord(self.buf, self.pos),
            y1: read_coord(self.buf, self.pos + 4),
            x2: read_coord(self.buf, self.pos + 8),
            y2: read_coord(self.buf, self.pos + 12),
        };
        self.pos = self.pos + 16;
        (payload_end, extra_end, bounds)
    }

    /// Reads the index record under the cursor and moves past it: the offset
    /// at which the entry's payload ends, the offset at which its extra data
    /// ends, and its bounds.
    pub fn read_entry(&mut self) -> (r: (usize, usize, Box2d))
        requires
            old(self).pos + 32 <= old(self).buf.len(),
            record_from(old(self).buf@, old(self).pos as int).payload_end <= usize::MAX,
            record_from(old(self).buf@, old(self).pos as int).extra_end <= usize::MAX,
        ensures
            r.0 == record_from(old(self).buf@, old(self).pos as int).payload_end,
            r.1 == record_from(old(self).buf@, old(self).pos as int).extra_end,
            r.2 == record_from(old(self).buf@, old(self).pos as int).bounds,
            final(self).pos == old(self).pos + 32,
            final(self).buf == old(self).buf,
    {
        let (end, extra_end, bounds) = self.read_record();
        (end as usize, extra_end as usize, bounds)
    }
}

/// A reader over the index region of the command buffer `buf`.
pub fn create_index_reader(buf: &[u8]) -> (r: BufReader<'_>)
    requires
        has_index(buf@),
    ensures
        r.buf@ == index_of(buf@),
        r.pos == 0,
{
    // the offset of the index is at the end of the buffer
    let index_offset_pos = buf.len() - WORD_SIZE;
    let footer = slice_subrange(buf, index_offset_pos, buf.len());
    assert(footer@.subrange(0, 8) =~= buf@.subrange(buf@.len() - 8, buf@.len() - 8 + 8));
    let index_offset = to_usize(footer);
    BufReader::new(slice_subrange(buf, index_offset, index_offset_pos))
}

/// Whether `buf` is a command buffer.
pub fn is_valid_buffer(buf: &[u8]) -> (ok: bool)
    ensures
        ok == valid_buffer(buf@),
{
    if buf.len() < WORD_SIZE {
        return false;
    }
    let index_offset_pos = buf.len() - WORD_SIZE;
    let index_offset = read_word(buf, index_offset_pos);
    if index_offset > index_offset_pos as u64 {
        return false;
    }
    if (index_offset_pos - index_offset as usize) % RECORD_SIZE != 0 {
        return false;
    }
    let mut index = create_index_reader(buf);
    let mut begin: u64 = 0;
    let ghost mut k: int = 0;
    while index.pos < index.buf.len()
        invariant
            index.buf@ == index_of(buf@),
            index.buf@.len() % 32 == 0,
            index.pos == 32 * k,
            0 <= k <= record_count(index.buf@),
            begin == entry_begin(index.buf@, k),
            index_offset == index_begin(buf@),
            has_index(buf@),
            forall|j: int| 0 <= j < k ==> #[trigger] record_ok(index.buf@, j, index_offset as int),
        decreases index.buf.len() - index.pos,
    {
        let (end, extra_end, _) = index.read_record();
        if !(begin <= end && end <= extra_end && extra_end <= index_offset) {
            assert(!record_ok(index.buf@, k, index_offset as int));
            return false;
        }
        begin = extra_end;
        proof {
            k = k + 1;
        }
    }
    true
}

/// Builds a command buffer entry by entry.
pub struct BufWriter {
    pub buf: Vec<u8>,
    pub index: Vec<u8>,
}

impl BufWriter {
    /// The index written so far describes the data written so far, all of it.
    pub open spec fn wf(&self) -> bool {
        &&& index_ok(self.index@, self.buf@.len() as int)
        &&& data_end(self.index@) == self.buf@.len()
    }

    /// The entries written so far, in order.
    pub open spec fn entries(&self) -> Seq<Entry> {
        entries_of(self.buf@, self.index@)
    }

    pub fn new() -> (w: BufWriter)
        ensures
            w.wf(),
            w.entries() == Seq::<Entry>::empty(),
            w.buf@ == Seq::<u8>::empty(),
            w.index@ == Seq::<u8>::empty(),
    {
        BufWriter { buf: Vec::new(), index: Vec::new() }
    }

    /// The number of entries written so far.
    pub fn len(&self) -> (n: usize)
        requires
            self.wf(),
        ensures
            n == self.entries().len(),
    {
        self.index.len() / RECORD_SIZE
    }

    /// Appends an entry with the bytes `data`, of which the last `extra_size`
    /// are its extra data, and with the bounds `bounds`.
    pub fn new_entry(&mut self, extra_size: usize, bounds: Box2d, data: &[u8])
        requires
            old(self).wf(),
            extra_size <= data@.len(),
        ensures
            final(self).wf(),
            final(self).entries() == old(self).entries().push(
                Entry {
                    payload: data@.subrange(0, data@.len() - extra_size),
                    extra: data@.subrange(data@.len() - extra_size, data@.len() as int),
                    bounds,
                },
            ),
            final(self).buf@ == old(self).buf@ + data@,
            final(self).index@ == old(self).index@ + record_bytes(
                (old(self).buf@.len() + data@.len() - extra_size) as u64,
                (old(self).buf@.len() + data@.len()) as u64,
                bounds,
            ),
    {
        write_bytes(&mut self.buf, data);
        let end = self.buf.len();
        write_word(&mut self.index, end - extra_size);
        write_word(&mut self.index, end);
        write_coord(&mut self.index, bounds.x1);
        write_coord(&mut self.index, bounds.y1);
        write_coord(&mut self.index, bounds.x2);
        write_coord(&mut self.index, bounds.y2);
        proof {
            lemma_entry_appended(
                old(self).buf@,
                old(self).index@,
                data@,
                extra_size as int,
                bounds,
            );
            assert(self.index@ =~= old(self).index@ + record_bytes(
                (end - extra_size) as u64,
                end as u64,
                bounds,
            ));
        }
    }

    /// Appends the index and the footer to the data, which completes the
    /// command buffer.
    pub fn finish(self) -> (out: Vec<u8>)
        requires
            self.wf(),
        ensures
            out@ == encoded(self.entries()),
            out@ == self.buf@ + self.index@ + word_bytes(self.buf@.len() as u64),
            canonical_buffer(out@),
            buffer_entries(out@) == self.entries(),
    {
        let ghost data = self.buf@;
        let ghost index = self.index@;
        let mut out = self.buf;
        // append the index to the end of the buffer
        // and then append the offset to the begining of the index
        let index_begin = out.len();
        write_bytes(&mut out, self.index.as_slice());
        write_word(&mut out, index_begin);
        proof {
            lemma_written_is_read(data, index);
            lemma_canonical_is_encoded(out@);
        }
        out
    }
}

/// A record reads the same from an index and from any part of a longer
/// sequence that holds the same thirty-two bytes.
pub proof fn lemma_record_moved(a: Seq<u8>, at: int, b: Seq<u8>, bt: int)
    requires
        0 <= at,
        at + 32 <= a.len(),
        0 <= bt,
        bt + 32 <= b.len(),
        a.subrange(at, at + 32) == b.subrange(bt, bt + 32),
    ensures
        record_from(a, at) == record_from(b, bt),
{
    let s = a.subrange(at, at + 32);
    let t = b.subrange(bt, bt + 32);
    assert(a.subrange(at, at + 8) =~= s.subrange(0, 8));
    assert(b.subrange(bt, bt + 8) =~= t.subrange(0, 8));
    assert(a.subrange(at + 8, at + 8 + 8) =~= s.subrange(8, 16));
    assert(b.subrange(bt + 8, bt + 8 + 8) =~= t.subrange(8, 16));
    assert(a.subrange(at + 16, at + 16 + 4) =~= s.subrange(16, 20));
    assert(b.subrange(bt + 16, bt + 16 + 4) =~= t.subrange(16, 20));
    assert(a.subrange(at + 16 + 4, at + 16 + 4 + 4) =~= s.subrange(20, 24));
    assert(b.subrange(bt + 16 + 4, bt + 16 + 4 + 4) =~= t.subrange(20, 24));
    assert(a.subrange(at + 16 + 8, at + 16 + 8 + 4) =~= s.subrange(24, 28));
    assert(b.subrange(bt + 16 + 8, bt + 16 + 8 + 4) =~= t.subrange(24, 28));
    assert(a.subrange(at + 16 + 12, at + 16 + 12 + 4) =~= s.subrange(28, 32));
    assert(b.subrange(bt + 16 + 12, bt + 16 + 12 + 4) =~= t.subrange(28, 32));
}

/// The bytes of a record read back as the record.
pub proof fn lemma_record_stored(
    b: Seq<u8>,
    at: int,
    payload_end: u64,
    extra_end: u64,
    bounds: Box2d,
)
    requires
        0 <= at,
        at + 32 <= b.len(),
        b.subrange(at, at + 32) == record_bytes(payload_end, extra_end, bounds),
    ensures
        record_from(b, at) == (IndexRecord {
            payload_end: payload_end as int,
            extra_end: extra_end as int,
            bounds,
        }),
{
    let r = record_bytes(payload_end, extra_end, bounds);
    lemma_stored_widths(payload_end, bounds.x1);
    lemma_stored_widths(extra_end, bounds.y1);
    lemma_stored_widths(extra_end, bounds.x2);
    lemma_stored_widths(extra_end, bounds.y2);
    assert(r.len() == 32);
    assert(b.subrange(at, at + 8) =~= r.subrange(0, 8));
    assert(r.subrange(0, 8) =~= word_bytes(payload_end));
    lemma_word_stored(b, at, payload_end);
    assert(b.subrange(at + 8, at + 8 + 8) =~= r.subrange(8, 16));
    assert(r.subrange(8, 16) =~= word_bytes(extra_end));
    lemma_word_stored(b, at + 8, extra_end);
    assert(b.subrange(at + 16, at + 16 + 4) =~= r.subrange(16, 20));
    assert(r.subrange(16, 20) =~= coord_bytes(bounds.x1));
    lemma_coord_stored(b, at + 16, bounds.x1);
    assert(b.subrange(at + 16 + 4, at + 16 + 4 + 4) =~= r.subrange(20, 24));
    assert(r.subrange(20, 24) =~= coord_bytes(bounds.y1));
    lemma_coord_stored(b, at + 16 + 4, bounds.y1);
    assert(b.subrange(at + 16 + 8, at + 16 + 8 + 4) =~= r.subrange(24, 28));
    assert(r.subrange(24, 28) =~= coord_bytes(bounds.x2));
    lemma_coord_stored(b, at + 16 + 8, bounds.x2);
    assert(b.subrange(at + 16 + 12, at + 16 + 12 + 4) =~= r.subrange(28, 32));
    assert(r.subrange(28, 32) =~= coord_bytes(bounds.y2));
    lemma_coord_stored(b, at + 16 + 12, bounds.y2);
}

/// Thirty-two bytes are the only ones that store their record.
pub proof fn lemma_record_determines_bytes(a: Seq<u8>, at: int, b: Seq<u8>, bt: int)
    requires
        0 <= at,
        at + 32 <= a.len(),
        0 <= bt,
        bt + 32 <= b.len(),
        record_from(a, at) == record_from(b, bt),
    ensures
        a.subrange(at, at + 32) == b.subrange(bt, bt + 32),
{
    lemma_word_determines_bytes(a, at, b, bt);
    lemma_word_determines_bytes(a, at + 8, b, bt + 8);
    lemma_coord_determines_bytes(a, at + 16, b, bt + 16);
    lemma_coord_determines_bytes(a, at + 16 + 4, b, bt + 16 + 4);
    lemma_coord_determines_bytes(a, at + 16 + 8, b, bt + 16 + 8);
    lemma_coord_determines_bytes(a, at + 16 + 12, b, bt + 16 + 12);
    let s = a.subrange(at, at + 32);
    let t = b.subrange(bt, bt + 32);
    assert forall|i: int| 0 <= i < 32 implies s[i] == t[i] by {
        if i < 8 {
            assert(s[i] == a.subrange(at, at + 8)[i]);
            assert(t[i] == b.subrange(bt, bt + 8)[i]);
        } else if i < 16 {
            assert(s[i] == a.subrange(at + 8, at + 8 + 8)[i - 8]);
            assert(t[i] == b.subrange(bt + 8, bt + 8 + 8)[i - 8]);
        } else if i < 20 {
            assert(s[i] == a.subrange(at + 16, at + 16 + 4)[i - 16]);
            assert(t[i] == b.subrange(bt + 16, bt + 16 + 4)[i - 16]);
        } else if i < 24 {
            assert(s[i] == a.subrange(at + 16 + 4, at + 16 + 4 + 4)[i - 20]);
            assert(t[i] == b.subrange(bt + 16 + 4, bt + 16 + 4 + 4)[i - 20]);
        } else if i < 28 {
            assert(s[i] == a.subrange(at + 16 + 8, at + 16 + 8 + 4)[i - 24]);
            assert(t[i] == b.subrange(bt + 16 + 8, bt + 16 + 8 + 4)[i - 24]);
        } else {
            assert(s[i] == a.subrange(at + 16 + 12, at + 16 + 12 + 4)[i - 28]);
            assert(t[i] == b.subrange(bt + 16 + 12, bt + 16 + 12 + 4)[i - 28]);
        }
    }
    assert(s =~= t);
}

/// Appending the bytes of an entry to the data and its record to the index
/// appends the entry to the entries.
pub proof fn lemma_entry_appended(
    data: Seq<u8>,
    index: Seq<u8>,
    more: Seq<u8>,
    extra_size: int,
    bounds: Box2d,
)
    requires
        index_ok(index, data.len() as int),
        data_end(index) == data.len(),
        0 <= extra_size <= more.len(),
        data.len() + more.len() <= u64::MAX,
    ensures
        ({
            let end = (data.len() + more.len()) as int;
            let index2 = index + record_bytes((end - extra_size) as u64, end as u64, bounds);
            &&& index_ok(index2, end)
            &&& data_end(index2) == end
            &&& entries_of(data + more, index2) == entries_of(data, index).push(
                Entry {
                    payload: more.subrange(0, more.len() - extra_size),
                    extra: more.subrange(more.len() - extra_size, more.len() as int),
                    bounds,
                },
            )
        }),
{
    let end = (data.len() + more.len()) as int;
    let rec = record_bytes((end - extra_size) as u64, end as u64, bounds);
    let index2 = index + rec;
    let n = record_count(index);
    lemma_stored_widths((end - extra_size) as u64, bounds.x1);
    lemma_stored_widths(end as u64, bounds.y1);
    lemma_stored_widths(end as u64, bounds.x2);
    lemma_stored_widths(end as u64, bounds.y2);
    assert(rec.len() == 32);
    assert(index.len() == 32 * n);
    assert(record_count(index2) == n + 1);
    assert forall|k: int| 0 <= k < n implies record_at(index2, k) == record_at(index, k) by {
        assert(index2.subrange(32 * k, 32 * k + 32) =~= index.subrange(32 * k, 32 * k + 32));
        lemma_record_moved(index2, 32 * k, index, 32 * k);
    }
    assert(index2.subrange(32 * n, 32 * n + 32) =~= rec);
    lemma_record_stored(index2, 32 * n, (end - extra_size) as u64, end as u64, bounds);
    assert forall|k: int| 0 <= k <= n implies entry_begin(index2, k) == entry_begin(index, k) by {
        if k > 0 {
            assert(record_at(index2, k - 1) == record_at(index, k - 1));
        }
    }
    assert forall|k: int| 0 <= k < record_count(index2) implies #[trigger] record_ok(
        index2,
        k,
        end,
    ) by {
        if k < n {
            assert(record_ok(index, k, data.len() as int));
        }
    }
    let e = Entry {
        payload: more.subrange(0, more.len() - extra_size),
        extra: more.subrange(more.len() - extra_size, more.len() as int),
        bounds,
    };
    let lhs = entries_of(data + more, index2);
    let rhs = entries_of(data, index).push(e);
    assert(lhs.len() == rhs.len());
    assert forall|k: int| 0 <= k < lhs.len() implies lhs[k] == rhs[k] by {
        if k < n {
            assert(record_ok(index, k, data.len() as int));
            let b = entry_begin(index, k);
            let p = record_at(index, k).payload_end;
            let x = record_at(index, k).extra_end;
            assert(b >= 0) by {
                if k > 0 {
                    assert(record_ok(index, k - 1, data.len() as int));
                }
            }
            assert((data + more).subrange(b, p) =~= data.subrange(b, p));
            assert((data + more).subrange(p, x) =~= data.subrange(p, x));
        } else {
            assert((data + more).subrange(data.len() as int, end - extra_size) =~= e.payload);
            assert((data + more).subrange(end - extra_size, end) =~= e.extra);
        }
    }
    assert(lhs =~= rhs);
}

/// What the writer wrote, the reader reads: the data `data` and the index
/// `index` of a writer, followed by the footer, are a command buffer whose
/// entries fill its data region and are the entries that were written, with
/// their payloads, their extra data and their bounds, in the order in which
/// they were written.
pub proof fn lemma_written_is_read(data: Seq<u8>, index: Seq<u8>)
    requires
        index_ok(index, data.len() as int),
        data_end(index) == data.len(),
        data.len() <= u64::MAX,
    ensures
        ({
            let b = data + index + word_bytes(data.len() as u64);
            &&& canonical_buffer(b)
            &&& index_begin(b) == data.len()
            &&& data_of(b) == data
            &&& index_of(b) == index
            &&& buffer_entries(b) == entries_of(data, index)
        }),
{
    let footer = word_bytes(data.len() as u64);
    let b = data + index + footer;
    lemma_stored_widths(data.len() as u64, 0);
    assert(b.subrange(b.len() - 8, b.len() - 8 + 8) =~= footer);
    lemma_word_stored(b, b.len() - 8, data.len() as u64);
    assert(data_of(b) =~= data);
    assert(index_of(b) =~= index);
}

/// Entry `k` of a command buffer is what the writer makes of the bytes
/// between the end of its predecessor and its own end.
pub proof fn lemma_entry_slice(b: Seq<u8>, k: int)
    requires
        valid_buffer(b),
        0 <= k < record_count(index_of(b)),
    ensures
        ({
            let begin = entry_begin(index_of(b), k);
            let rec = record_at(index_of(b), k);
            let data = b.subrange(begin, rec.extra_end);
            let extra_size = rec.extra_end - rec.payload_end;
            &&& 0 <= begin <= rec.payload_end <= rec.extra_end <= b.len() - 8
            &&& buffer_entries(b).len() == record_count(index_of(b))
            &&& buffer_entries(b)[k] == (Entry {
                payload: data.subrange(0, data.len() - extra_size),
                extra: data.subrange(data.len() - extra_size, data.len() as int),
                bounds: rec.bounds,
            })
        }),
{
    let begin = entry_begin(index_of(b), k);
    let rec = record_at(index_of(b), k);
    let data = b.subrange(begin, rec.extra_end);
    assert(record_ok(index_of(b), k, index_begin(b)));
    assert(buffer_entries(b)[k] == entry_at(data_of(b), index_of(b), k));
    assert(data.subrange(0, rec.payload_end - begin) =~= data_of(b).subrange(
        begin,
        rec.payload_end,
    ));
    assert(data.subrange(rec.payload_end - begin, data.len() as int) =~= data_of(b).subrange(
        rec.payload_end,
        rec.extra_end,
    ));
}

/// What the reader reads of record `k` of a command buffer describes entry
/// `k` of the buffer: the bounds are the entry's, and from the end of the
/// record before, the offsets give the lengths of the entry's payload and of
/// its extra data.
pub proof fn lemma_record_describes_entry(b: Seq<u8>, k: int)
    requires
        valid_buffer(b),
        0 <= k < record_count(index_of(b)),
    ensures
        ({
            let read = record_from(index_of(b), 32 * k);
            let entry = buffer_entries(b)[k];
            &&& buffer_entries(b).len() == record_count(index_of(b))
            &&& read.bounds == entry.bounds
            &&& read.payload_end - entry_begin(index_of(b), k) == entry.payload.len()
            &&& read.extra_end - read.payload_end == entry.extra.len()
        }),
{
    assert(record_ok(index_of(b), k, index_begin(b)));
    assert(buffer_entries(b)[k] == entry_at(data_of(b), index_of(b), k));
}

/// The bytes of a record are those that store what is read from them.
pub proof fn lemma_record_bytes_of_record(b: Seq<u8>, at: int)
    requires
        0 <= at,
        at + 32 <= b.len(),
    ensures
        b.subrange(at, at + 32) == record_bytes(
            record_from(b, at).payload_end as u64,
            record_from(b, at).extra_end as u64,
            record_from(b, at).bounds,
        ),
{
    let r = record_from(b, at);
    let c = record_bytes(r.payload_end as u64, r.extra_end as u64, r.bounds);
    lemma_stored_widths(r.payload_end as u64, r.bounds.x1);
    lemma_stored_widths(r.extra_end as u64, r.bounds.y1);
    lemma_stored_widths(r.extra_end as u64, r.bounds.x2);
    lemma_stored_widths(r.extra_end as u64, r.bounds.y2);
    assert(c.len() == 32);
    assert(c.subrange(0, 32) =~= c);
    lemma_record_stored(c, 0, r.payload_end as u64, r.extra_end as u64, r.bounds);
    lemma_record_determines_bytes(b, at, c, 0);
}

/// Entries that are written one after the other are read back: the data and
/// the index that hold them are in order, are filled by them, and give them
/// back, with their payloads, their extra data and their bounds, in the order
/// in which they were written.
pub proof fn lemma_written_entries(entries: Seq<Entry>)
    requires
        written(entries).0.len() <= u64::MAX,
    ensures
        index_ok(written(entries).1, written(entries).0.len() as int),
        data_end(written(entries).1) == written(entries).0.len(),
        entries_of(written(entries).0, written(entries).1) == entries,
    decreases entries.len(),
{
    if entries.len() == 0 {
        assert(entries_of(written(entries).0, written(entries).1) =~= entries);
    } else {
        let before = written(entries.drop_last());
        let entry = entries.last();
        let more = entry.payload + entry.extra;
        lemma_written_entries(entries.drop_last());
        lemma_entry_appended(before.0, before.1, more, entry.extra.len() as int, entry.bounds);
        assert(before.0 + entry.payload + entry.extra =~= before.0 + more);
        assert(more.subrange(0, more.len() - entry.extra.len()) =~= entry.payload);
        assert(more.subrange(more.len() - entry.extra.len(), more.len() as int) =~= entry.extra);
        assert(entries.drop_last().push(entry) =~= entries);
    }
}

/// Writing any number of entries and reading the buffer gives the entries
/// back: the buffer that holds them is a command buffer, its entries fill its
/// data region, and they are the entries that were written, in the same
/// order.
pub proof fn lemma_round_trip(entries: Seq<Entry>)
    requires
        written(entries).0.len() <= u64::MAX,
    ensures
        canonical_buffer(encoded(entries)),
        buffer_entries(encoded(entries)) == entries,
{
    lemma_written_entries(entries);
    lemma_written_is_read(written(entries).0, written(entries).1);
}

/// The first `k` entries of a command buffer are held by the data and by the
/// index records that come before entry `k`.
proof fn lemma_prefix_is_written(b: Seq<u8>, k: int)
    requires
        valid_buffer(b),
        0 <= k <= record_count(index_of(b)),
    ensures
        0 <= entry_begin(index_of(b), k) <= index_begin(b),
        written(buffer_entries(b).take(k)) == (
            b.subrange(0, entry_begin(index_of(b), k)),
            index_of(b).subrange(0, 32 * k),
        ),
    decreases k,
{
    let index = index_of(b);
    let entries = buffer_entries(b);
    if k == 0 {
        assert(written(entries.take(0)).0 =~= b.subrange(0, 0));
        assert(written(entries.take(0)).1 =~= index.subrange(0, 0));
    } else {
        lemma_prefix_is_written(b, k - 1);
        lemma_entry_slice(b, k - 1);
        assert(record_ok(index, k - 1, index_begin(b)));
        lemma_record_bytes_of_record(index, 32 * (k - 1));
        let begin = entry_begin(index, k - 1);
        let rec = record_at(index, k - 1);
        let entry = entries[k - 1];
        assert(entries.take(k).drop_last() =~= entries.take(k - 1));
        assert(entries.take(k).last() == entry);
        assert(entry == entry_at(data_of(b), index, k - 1));
        assert(b.subrange(0, begin) + entry.payload + entry.extra =~= b.subrange(
            0,
            rec.extra_end,
        ));
        assert(index.subrange(0, 32 * (k - 1)) + index.subrange(32 * (k - 1), 32 * (k - 1) + 32)
            =~= index.subrange(0, 32 * k));
    }
}

/// A command buffer whose entries fill its data region is the buffer that
/// holds its entries: nothing else is in it.
pub proof fn lemma_canonical_is_encoded(b: Seq<u8>)
    requires
        canonical_buffer(b),
    ensures
        b == encoded(buffer_entries(b)),
{
    let index = index_of(b);
    let entries = buffer_entries(b);
    let n = record_count(index);
    lemma_prefix_is_written(b, n);
    assert(entries.take(n) =~= entries);
    assert(index.subrange(0, 32 * n) =~= index);
    let footer = word_bytes(index_begin(b) as u64);
    lemma_stored_widths(index_begin(b) as u64, 0);
    assert(footer.subrange(0, 8) =~= footer);
    lemma_word_stored(footer, 0, index_begin(b) as u64);
    lemma_word_determines_bytes(b, b.len() - 8, footer, 0);
    assert(b =~= b.subrange(0, index_begin(b)) + index + b.subrange(b.len() - 8, b.len() - 8 + 8));
}

/// The entries of a command buffer that fill its data region determine its
/// bytes: two such buffers with the same entries are the same.
pub proof fn lemma_canonical_unique(a: Seq<u8>, b: Seq<u8>)
    requires
        canonical_buffer(a),
        canonical_buffer(b),
        buffer_entries(a) == buffer_entries(b),
    ensures
        a == b,
{
    lemma_canonical_is_encoded(a);
    lemma_canonical_is_encoded(b);
}

} // verus!
