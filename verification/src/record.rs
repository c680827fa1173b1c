//! Pull-based decoder for the IPS record stream.
//!
//! The stream is a five-byte magic tag, then records: a three-byte
//! big-endian offset (or the three-byte end marker, which terminates the
//! stream), a two-byte big-endian size, and then either `size` literal
//! chunk bytes, or — when `size` is zero — a two-byte fill count and a
//! one-byte fill value. A short read anywhere ends the stream the same way
//! as the end marker does.
//!
//! Chunk payloads are decoded into the parser's scratch arena; the record
//! carries a stamped view of it, valid until the next record is parsed.

use vstd::prelude::*;

use crate::mem::{overwrite, BorrowedMut, Owner};
use crate::mem::slice_copy;

verus! {

/// Big-endian 16-bit value of two bytes.
pub open spec fn spec_u16(b0: u8, b1: u8) -> int {
    b0 as int * 256 + b1 as int
}

/// Big-endian 24-bit value of three bytes.
pub open spec fn spec_u24(b0: u8, b1: u8, b2: u8) -> int {
    b0 as int * 65536 + b1 as int * 256 + b2 as int
}

/// The five-byte magic tag that every patch stream must begin with.
pub open spec fn magic() -> Seq<u8> {
    seq![0x50u8, 0x41u8, 0x54u8, 0x43u8, 0x48u8]
}

/// The three-byte end marker that terminates the record stream.
pub open spec fn end_marker() -> Seq<u8> {
    seq![0x45u8, 0x4Fu8, 0x46u8]
}

/// Whether `s` begins with the magic tag.
pub open spec fn has_magic(s: Seq<u8>) -> bool {
    s.len() >= 5 && s.subrange(0, 5) == magic()
}

/// The abstract content of one record.
pub enum RecordModel {
    Fill { off: int, byte: u8, count: int },
    Chunk { off: int, bytes: Seq<u8> },
}

/// Every record the format can encode: a 24-bit offset, a 16-bit fill
/// count, and one to `0xFFFF` chunk bytes.
pub open spec fn model_wf(m: RecordModel) -> bool {
    match m {
        RecordModel::Fill { off, byte, count } => {
            &&& 0 <= off < 0x1000000
            &&& 0 <= count <= 0xFFFF
        },
        RecordModel::Chunk { off, bytes } => {
            &&& 0 <= off < 0x1000000
            &&& 1 <= bytes.len() <= 0xFFFF
        },
    }
}

/// Parses one record from the front of `s` (the bytes after the magic
/// tag): the record and the number of bytes it occupies. `None` both for
/// the end marker and for a truncated record.
pub open spec fn parse_record(s: Seq<u8>) -> Option<(RecordModel, int)> {
    if s.len() < 3 {
        None
    } else if s.subrange(0, 3) == end_marker() {
        None
    } else if s.len() < 5 {
        None
    } else {
        let off = spec_u24(s[0], s[1], s[2]);
        let size = spec_u16(s[3], s[4]);
        if size == 0 {
            if s.len() < 8 {
                None
            } else {
                Some((RecordModel::Fill { off, byte: s[7], count: spec_u16(s[5], s[6]) }, 8))
            }
        } else {
            if s.len() < 5 + size {
                None
            } else {
                Some((RecordModel::Chunk { off, bytes: s.subrange(5, 5 + size) }, 5 + size))
            }
        }
    }
}

/// All records encoded at the front of `s` (the bytes after the magic
/// tag), up to the end marker or the first truncated record.
pub open spec fn records_from(s: Seq<u8>) -> Seq<RecordModel>
    decreases s.len(),
{
    match parse_record(s) {
        None => Seq::empty(),
        Some((m, n)) => seq![m] + records_from(s.skip(n)),
    }
}

/// All records of the patch stream `s`: none unless `s` begins with the
/// magic tag.
pub open spec fn records_of(s: Seq<u8>) -> Seq<RecordModel> {
    if has_magic(s) {
        records_from(s.skip(5))
    } else {
        Seq::empty()
    }
}

/// The payload of a parsed record: literal chunk bytes held in the
/// parser's arena, or a run-length-encoded fill.
pub enum Data {
    RLE { byte: u8, size: usize },
    Chunk(BorrowedMut),
}

/// One parsed patch record: a destination offset and a payload.
pub struct Record {
    _off: u64,
    _data: Data,
}

/// Whether the concrete record `rec`, with chunk bytes resolved against
/// `arena`, carries the content of the abstract record `m`.
pub open spec fn record_matches(rec: Record, m: RecordModel, arena: Owner) -> bool {
    match m {
        RecordModel::Fill { off, byte, count } => {
            &&& rec.off_spec() == off
            &&& rec.data_spec() matches Data::RLE { byte: b, size: c } && b == byte && c as int
                == count
        },
        RecordModel::Chunk { off, bytes } => {
            &&& rec.off_spec() == off
            &&& rec.data_spec() matches Data::Chunk(v) && v.valid(arena) && v.bytes(arena) == bytes
        },
    }
}

impl Record {
    pub closed spec fn off_spec(self) -> u64 {
        self._off
    }

    pub closed spec fn data_spec(self) -> Data {
        self._data
    }

    /// The record's payload.
    pub fn data(self) -> (r: Data)
        ensures
            r == self.data_spec(),
    {
        self._data
    }

    /// The destination offset the record is to be written at.
    pub fn off(&self) -> (r: u64)
        ensures
            r == self.off_spec(),
    {
        self._off
    }
}

impl Data {
    fn run_length_encoded(byte: u8, size: usize) -> (r: Data)
        ensures
            r == (Data::RLE { byte, size }),
    {
        Data::RLE { byte, size }
    }

    fn chunk(chk: BorrowedMut) -> (r: Data)
        ensures
            r matches Data::Chunk(c) && c == chk,
    {
        Data::Chunk(chk)
    }
}

/// Decodes a patch byte stream into records, one `next` call at a time.
pub struct RecordIterator {
    first_read: bool,
    done: bool,
    patch: Vec<u8>,
    pos: usize,
    buf: Vec<u8>,
    chunks: Owner,
}

/// The records a parser in this state will still emit.
pub open spec fn pending_records(p: RecordIterator) -> Seq<RecordModel> {
    if p.finished() {
        Seq::empty()
    } else if p.at_start() {
        records_of(p.remaining())
    } else {
        records_from(p.remaining())
    }
}

impl RecordIterator {
    /// The patch bytes not yet consumed.
    pub closed spec fn remaining(self) -> Seq<u8> {
        self.patch@.skip(self.pos as int)
    }

    /// Whether the magic tag is still to be read.
    pub closed spec fn at_start(self) -> bool {
        self.first_read
    }

    /// Whether the parser has terminated: every further `next` is `None`.
    pub closed spec fn finished(self) -> bool {
        self.done
    }

    /// The arena holding the bytes of the most recent chunk record.
    pub closed spec fn arena_spec(self) -> Owner {
        self.chunks
    }

    pub closed spec fn wf(self) -> bool {
        &&& self.pos <= self.patch@.len()
        &&& self.buf@.len() >= 5
        &&& 5 * (self.chunks.stamp_spec() as int) <= self.pos as int
    }

    /// The arena that the views of this parser's chunk records resolve
    /// against.
    pub fn arena(&self) -> (r: &Owner)
        ensures
            *r == self.arena_spec(),
    {
        &self.chunks
    }

    /// A parser over `patch` with the default working-buffer capacity.
    pub fn new(patch: Vec<u8>) -> (r: RecordIterator)
        ensures
            r.wf(),
            r.remaining() == patch@,
            r.at_start(),
            !r.finished(),
    {
        RecordIterator::new_with_bufsize(patch, 512)
    }

    /// A parser over `patch` whose working buffer for reads off the stream
    /// holds `bufsize` bytes. The buffer must hold at least the five-byte
    /// magic tag.
    pub fn new_with_bufsize(patch: Vec<u8>, bufsize: usize) -> (r: RecordIterator)
        requires
            bufsize >= 5,
        ensures
            r.wf(),
            r.remaining() == patch@,
            r.at_start(),
            !r.finished(),
    {
        RecordIterator {
            first_read: true,
            done: false,
            buf: vec![0u8; bufsize],
            chunks: Owner::new(0),
            pos: 0,
            patch,
        }
    }

    /// Copies the next `hi - lo` patch bytes into `buf[lo .. hi]` and
    /// consumes them; `None`, consuming nothing, if fewer are left.
    fn read_exact(&mut self, lo: usize, hi: usize) -> (r: Option<()>)
        requires
            lo <= hi,
            hi <= old(self).buf@.len(),
            old(self).pos <= old(self).patch@.len(),
        ensures
            final(self).patch == old(self).patch,
            final(self).chunks == old(self).chunks,
            final(self).first_read == old(self).first_read,
            final(self).done == old(self).done,
            final(self).buf@.len() == old(self).buf@.len(),
            final(self).pos <= final(self).patch@.len(),
            r is Some <==> old(self).pos + (hi - lo) <= old(self).patch@.len(),
            r is Some ==> final(self).pos == old(self).pos + (hi - lo) && final(self).buf@
                == overwrite(
                old(self).buf@,
                lo as int,
                old(self).patch@.subrange(old(self).pos as int, old(self).pos + (hi - lo)),
            ),
            r is None ==> *final(self) == *old(self),
    {
        let n: usize = hi - lo;
        if self.patch.len() - self.pos < n {
            return None;
        }
        slice_copy(&mut self.buf, lo, &self.patch, self.pos, n);
        self.pos = self.pos + n;
        Some(())
    }

    /// Reads the five tag bytes and says whether they are the magic tag;
    /// `None` if fewer than five bytes are left.
    fn check_header(&mut self) -> (r: Option<bool>)
        requires
            old(self).buf@.len() >= 5,
            old(self).pos <= old(self).patch@.len(),
        ensures
            final(self).patch == old(self).patch,
            final(self).chunks == old(self).chunks,
            final(self).first_read == old(self).first_read,
            final(self).done == old(self).done,
            final(self).buf@.len() == old(self).buf@.len(),
            final(self).pos <= final(self).patch@.len(),
            r is Some <==> old(self).remaining().len() >= 5,
            r is None ==> *final(self) == *old(self),
            r matches Some(b) ==> final(self).pos == old(self).pos + 5 && (b
                <==> old(self).remaining().subrange(0, 5) == magic()),
    {
        match self.read_exact(0, 5) {
            None => None,
            Some(_) => {
                let ghost s = old(self).remaining();
                proof {
                    assert(s.len() >= 5);
                    assert forall|i: int| 0 <= i < 5 implies self.buf@[i] == s.subrange(0, 5)[i] by {
                        assert(self.buf@[i] == old(self).patch@[old(self).pos + i]);
                        assert(s[i] == old(self).patch@[old(self).pos + i]);
                    }
                }
                let b = self.buf[0] == 0x50u8 && self.buf[1] == 0x41u8 && self.buf[2] == 0x54u8
                    && self.buf[3] == 0x43u8 && self.buf[4] == 0x48u8;
                proof {
                    if b {
                        assert(s.subrange(0, 5) =~= magic());
                    } else {
                        assert(s.subrange(0, 5) != magic());
                    }
                }
                Some(b)
            },
        }
    }

    /// Parses the next record off the stream.
    ///
    /// Returns `None` — and terminates the parser for good — when the
    /// stream does not begin with the magic tag, at the end marker, and at
    /// any short read. Otherwise the returned record carries the content
    /// of the first pending record; a chunk record's bytes live in the
    /// parser's arena, where they stay valid until the next record is
    /// parsed.
    #[verifier::rlimit(60)]
    pub fn next(&mut self) -> (r: Option<Record>)
        requires
            old(self).wf(),
        ensures
            final(self).wf(),
            final(self).remaining().len() <= old(self).remaining().len(),
            final(self).arena_spec().stamp_spec() >= old(self).arena_spec().stamp_spec(),
            old(self).finished() ==> r is None && *final(self) == *old(self),
            !old(self).finished() && r is None ==> final(self).finished() && pending_records(
                *old(self),
            ) == Seq::<RecordModel>::empty(),
            r matches Some(rec) ==> {
                &&& !old(self).finished()
                &&& pending_records(*old(self)).len() >= 1
                &&& model_wf(pending_records(*old(self))[0])
                &&& record_matches(rec, pending_records(*old(self))[0], final(self).arena_spec())
                &&& pending_records(*final(self)) == pending_records(*old(self)).skip(1)
                &&& !final(self).finished()
                &&& final(self).remaining().len() + 6 <= old(self).remaining().len()
                &&& (pending_records(*old(self))[0] is Chunk
                    ==> final(self).arena_spec().stamp_spec()
                    > old(self).arena_spec().stamp_spec())
            },
    {
        if self.done {
            return None;
        }
        if self.first_read {
            let hv = self.check_header();
            match hv {
                None => {
                    self.done = true;
                    return None;
                },
                Some(false) => {
                    self.done = true;
                    return None;
                },
                Some(true) => {
                    self.first_read = false;
                },
            }
        }
        let ghost s: Seq<u8> = self.remaining();
        let ghost pos1: int = self.pos as int;
        proof {
            if old(self).at_start() {
                assert(has_magic(old(self).remaining()));
                assert(s =~= old(self).remaining().skip(5));
                assert(pending_records(*old(self)) == records_from(s));
            } else {
                assert(pending_records(*old(self)) == records_from(s));
            }
        }
        if self.read_exact(0, 3).is_none() {
            self.done = true;
            proof {
                assert(s.len() < 3);
                assert(records_from(s) == Seq::<RecordModel>::empty());
            }
            return None;
        }
        proof {
            assert(self.buf@[0] == s[0]);
            assert(self.buf@[1] == s[1]);
            assert(self.buf@[2] == s[2]);
        }
        if self.buf[0] == 0x45u8 && self.buf[1] == 0x4fu8 && self.buf[2] == 0x46u8 {
            self.done = true;
            proof {
                assert(s.subrange(0, 3) =~= end_marker());
                assert(records_from(s) == Seq::<RecordModel>::empty());
            }
            return None;
        }
        proof {
            if s.subrange(0, 3) == end_marker() {
                assert(s[0] == 0x45u8 && s[1] == 0x4fu8 && s[2] == 0x46u8) by {
                    assert(s.subrange(0, 3)[0] == s[0]);
                    assert(s.subrange(0, 3)[1] == s[1]);
                    assert(s.subrange(0, 3)[2] == s[2]);
                }
                assert(false);
            }
        }
        if self.read_exact(3, 5).is_none() {
            self.done = true;
            proof {
                assert(s.len() < 5);
                assert(records_from(s) == Seq::<RecordModel>::empty());
            }
            return None;
        }
        proof {
            assert(self.buf@[0] == s[0]);
            assert(self.buf@[1] == s[1]);
            assert(self.buf@[2] == s[2]);
            assert(self.buf@[3] == s[3]);
            assert(self.buf@[4] == s[4]);
        }
        let off: u64 = (self.buf[0] as u64) * 65536 + (self.buf[1] as u64) * 256 + (self.buf[2]
            as u64);
        let size: usize = (self.buf[3] as usize) * 256 + (self.buf[4] as usize);
        proof {
            assert(off as int == spec_u24(s[0], s[1], s[2]));
            assert(size as int == spec_u16(s[3], s[4]));
        }
        if size == 0 {
            if self.read_exact(0, 3).is_none() {
                self.done = true;
                proof {
                    assert(s.len() < 8);
                    assert(records_from(s) == Seq::<RecordModel>::empty());
                }
                return None;
            }
            let count: usize = (self.buf[0] as usize) * 256 + (self.buf[1] as usize);
            let byte: u8 = self.buf[2];
            proof {
                assert(self.buf@[0] == s[5]);
                assert(self.buf@[1] == s[6]);
                assert(self.buf@[2] == s[7]);
                let m = RecordModel::Fill { off: off as int, byte, count: count as int };
                assert(parse_record(s) == Some((m, 8int)));
                assert(records_from(s) == seq![m] + records_from(s.skip(8)));
                assert(records_from(s)[0] == m);
                assert(self.remaining() =~= s.skip(8));
                assert(records_from(s).skip(1) =~= records_from(s.skip(8)));
            }
            return Some(Record { _off: off, _data: Data::run_length_encoded(byte, count) });
        }
        proof {
            assert(self.chunks.stamp_spec() < u64::MAX);
        }
        let ghost stamp0 = self.chunks.stamp_spec();
        let borrow = self.chunks.slice_mut(0, size);
        let ghost arena_len = self.chunks.bytes().len();
        let mut left: usize = size;
        while left != 0
            invariant
                1 <= size <= 0xFFFF,
                left <= size,
                self.buf@.len() == old(self).buf@.len(),
                self.buf@.len() >= 5,
                self.done == false,
                self.first_read == false,
                self.patch == old(self).patch,
                s == self.patch@.skip(pos1),
                0 <= pos1,
                pos1 + 5 <= self.patch@.len(),
                self.pos as int == pos1 + 5 + (size - left),
                self.pos <= self.patch@.len(),
                5 * (stamp0 as int) <= pos1,
                stamp0 == old(self).arena_spec().stamp_spec(),
                !old(self).finished(),
                pending_records(*old(self)) == records_from(s),
                s.len() <= old(self).remaining().len(),
                self.chunks.stamp_spec() == stamp0 + 1,
                borrow.lo_spec() == 0,
                borrow.hi_spec() == size as int,
                borrow.stamp_spec() == self.chunks.stamp_spec(),
                borrow.valid(self.chunks),
                self.chunks.bytes().len() == arena_len,
                arena_len >= size,
                self.chunks.bytes().subrange(0, size - left) == self.patch@.subrange(
                    pos1 + 5,
                    pos1 + 5 + (size - left),
                ),
                size as int == spec_u16(s[3], s[4]),
                off as int == spec_u24(s[0], s[1], s[2]),
                s.subrange(0, 3) != end_marker(),
            decreases left,
        {
            let take: usize = if left >= self.buf.len() {
                self.buf.len()
            } else {
                left
            };
            let ghost pos_before: int = self.pos as int;
            if self.read_exact(0, take).is_none() {
                self.done = true;
                proof {
                    assert(s.len() < 5 + size);
                    assert(parse_record(s) is None);
                    assert(records_from(s) == Seq::<RecordModel>::empty());
                }
                return None;
            }
            borrow.write_at(&mut self.chunks, size - left, &self.buf, 0, take);
            proof {
                assert(self.buf@.subrange(0, take as int) =~= self.patch@.subrange(
                    pos_before,
                    pos_before + take,
                ));
                assert(self.chunks.bytes().subrange(0, size - (left - take)) =~= self.patch@
                    .subrange(pos1 + 5, pos1 + 5 + (size - (left - take))));
            }
            left = left - take;
        }
        proof {
            let bytes = s.subrange(5, 5 + size as int);
            let m = RecordModel::Chunk { off: off as int, bytes };
            assert(s.len() >= 5 + size);
            assert(parse_record(s) == Some((m, 5 + size as int)));
            assert(borrow.bytes(self.chunks) =~= bytes) by {
                assert(self.chunks.bytes().subrange(0, size as int) == self.patch@.subrange(
                    pos1 + 5,
                    pos1 + 5 + size as int,
                ));
            }
            assert(records_from(s) == seq![m] + records_from(s.skip(5 + size as int)));
            assert(records_from(s)[0] == m);
            assert(self.remaining() =~= s.skip(5 + size as int));
            assert(records_from(s).skip(1) =~= records_from(s.skip(5 + size as int)));
        }
        Some(Record { _off: off, _data: Data::chunk(borrow) })
    }
}

/// Header validation law: a stream that does not begin with the magic
/// tag encodes no records at all.
pub proof fn lemma_header_validation(s: Seq<u8>)
    requires
        !has_magic(s),
    ensures
        records_of(s) == Seq::<RecordModel>::empty(),
{
}

/// End-marker law: the magic tag followed immediately by the end marker
/// encodes no records.
pub proof fn lemma_end_marker_only()
    ensures
        records_of(magic() + end_marker()) == Seq::<RecordModel>::empty(),
{
    let s = magic() + end_marker();
    assert(s.subrange(0, 5) =~= magic());
    assert(s.skip(5) =~= end_marker());
    assert(end_marker().subrange(0, 3) =~= end_marker());
    assert(records_from(end_marker()) == Seq::<RecordModel>::empty());
}

/// The unconsumed part of the patch always fits the address space: it is
/// a suffix of the patch byte buffer.
pub proof fn lemma_remaining_in_bounds(p: RecordIterator)
    requires
        p.wf(),
    ensures
        p.remaining().len() <= usize::MAX,
{
    assert(p.patch.len() == p.patch@.len());
}

} // verus!
