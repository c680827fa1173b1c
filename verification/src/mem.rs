//! Scratch arena: one growable, zero-filled backing buffer, with
//! range-bounded views into it.
//!
//! The arena hands out stamped views. Every call that issues a view bumps
//! the arena's stamp, so at most one view resolves against the arena at a
//! time: an earlier view becomes stale the moment a new one is issued, and
//! resolving a stale view yields `None`, never stale bytes.

use vstd::prelude::*;
use vstd::slice::slice_subrange;

verus! {

/// `s` with `xs` written in place starting at `at`; indices outside
/// `[at, at + xs.len())` keep their old values, and the length is unchanged.
pub open spec fn overwrite<T>(s: Seq<T>, at: int, xs: Seq<T>) -> Seq<T> {
    Seq::new(
        s.len(),
        |i: int| if at <= i < at + xs.len() { xs[i - at] } else { s[i] },
    )
}

/// `s` extended with zero bytes to length at least `n`.
pub open spec fn zero_extend(s: Seq<u8>, n: int) -> Seq<u8> {
    if n <= s.len() {
        s
    } else {
        s + Seq::new((n - s.len()) as nat, |i: int| 0u8)
    }
}

/// Copies `src[src_at .. src_at + n]` into `dst[dst_at .. dst_at + n]`.
pub fn slice_copy<T: Copy>(dst: &mut Vec<T>, dst_at: usize, src: &Vec<T>, src_at: usize, n: usize)
    requires
        dst_at + n <= old(dst)@.len(),
        src_at + n <= src@.len(),
    ensures
        final(dst)@ == overwrite(
            old(dst)@,
            dst_at as int,
            src@.subrange(src_at as int, src_at + n),
        ),
{
    let mut j: usize = 0;
    while j < n
        invariant
            j <= n,
            dst_at + n <= dst.len(),
            src_at + n <= src.len(),
            dst@ == overwrite(old(dst)@, dst_at as int, src@.subrange(src_at as int, src_at + j)),
        decreases n - j,
    {
        dst[dst_at + j] = src[src_at + j];
        proof {
            assert(dst@ =~= overwrite(
                old(dst)@,
                dst_at as int,
                src@.subrange(src_at as int, src_at + j + 1),
            ));
        }
        j += 1;
    }
}

/// Owns the arena's single backing buffer. The stamp counts the views
/// issued so far; a view resolves only while its stamp matches.
pub struct Owner {
    buf: Vec<u8>,
    stamp: u64,
}

/// A read-only view of the byte range `[lo, hi)` of an arena's buffer,
/// stamped at issue time.
pub struct Borrowed {
    lo: usize,
    hi: usize,
    stamp: u64,
}

/// A writable view of a byte range of an arena's buffer.
pub struct BorrowedMut(Borrowed);

impl Owner {
    /// The bytes of the backing buffer.
    pub closed spec fn bytes(self) -> Seq<u8> {
        self.buf@
    }

    /// The stamp of the most recently issued view.
    pub closed spec fn stamp_spec(self) -> u64 {
        self.stamp
    }

    /// An arena over `len` zero bytes.
    pub fn new(len: usize) -> (r: Owner)
        ensures
            r.bytes() == Seq::new(len as nat, |i: int| 0u8),
            r.stamp_spec() == 0,
    {
        let buf: Vec<u8> = vec![0u8; len];
        proof {
            assert(buf@ =~= Seq::new(len as nat, |i: int| 0u8));
        }
        Owner::of(buf)
    }

    /// An arena whose backing buffer starts as `v`.
    pub fn of(v: Vec<u8>) -> (r: Owner)
        ensures
            r.bytes() == v@,
            r.stamp_spec() == 0,
    {
        Owner { buf: v, stamp: 0 }
    }

    /// Issues a read view of `[lo, hi)`, growing the buffer with zero bytes
    /// to length `hi` if it is shorter. Every earlier view goes stale.
    pub fn slice(&mut self, lo: usize, hi: usize) -> (r: Borrowed)
        requires
            lo <= hi,
            old(self).stamp_spec() < u64::MAX,
        ensures
            final(self).bytes() == zero_extend(old(self).bytes(), hi as int),
            final(self).stamp_spec() == old(self).stamp_spec() + 1,
            r.lo_spec() == lo as int,
            r.hi_spec() == hi as int,
            r.stamp_spec() == final(self).stamp_spec(),
            r.valid(*final(self)),
    {
        if hi > self.buf.len() {
            self.buf.resize(hi, 0u8);
            proof {
                assert(self.buf@ =~= zero_extend(old(self).buf@, hi as int));
            }
        }
        self.stamp = self.stamp + 1;
        Borrowed { lo, hi, stamp: self.stamp }
    }

    /// Issues a write view of `[lo, hi)`, growing the buffer like `slice`.
    pub fn slice_mut(&mut self, lo: usize, hi: usize) -> (r: BorrowedMut)
        requires
            lo <= hi,
            old(self).stamp_spec() < u64::MAX,
        ensures
            final(self).bytes() == zero_extend(old(self).bytes(), hi as int),
            final(self).stamp_spec() == old(self).stamp_spec() + 1,
            r.lo_spec() == lo as int,
            r.hi_spec() == hi as int,
            r.stamp_spec() == final(self).stamp_spec(),
            r.valid(*final(self)),
    {
        BorrowedMut(self.slice(lo, hi))
    }
}

impl Borrowed {
    pub closed spec fn lo_spec(self) -> int {
        self.lo as int
    }

    pub closed spec fn hi_spec(self) -> int {
        self.hi as int
    }

    pub closed spec fn stamp_spec(self) -> u64 {
        self.stamp
    }

    /// The view resolves only against the arena state whose stamp it
    /// carries and whose buffer covers its range.
    pub open spec fn valid(self, o: Owner) -> bool {
        &&& self.stamp_spec() == o.stamp_spec()
        &&& 0 <= self.lo_spec() <= self.hi_spec() <= o.bytes().len()
    }

    /// The bytes the view designates inside `o`'s buffer.
    pub open spec fn bytes(self, o: Owner) -> Seq<u8> {
        o.bytes().subrange(self.lo_spec(), self.hi_spec())
    }

    /// Resolves the view: its bytes if it is still the arena's current
    /// view, absent if it has gone stale.
    pub fn get<'a>(&self, o: &'a Owner) -> (r: Option<&'a [u8]>)
        ensures
            r is Some <==> self.valid(*o),
            r matches Some(s) ==> s@ == self.bytes(*o),
    {
        if self.stamp == o.stamp && self.lo <= self.hi && self.hi <= o.buf.len() {
            Some(slice_subrange(o.buf.as_slice(), self.lo, self.hi))
        } else {
            None
        }
    }
}

impl BorrowedMut {
    pub closed spec fn lo_spec(self) -> int {
        self.0.lo_spec()
    }

    pub closed spec fn hi_spec(self) -> int {
        self.0.hi_spec()
    }

    pub closed spec fn stamp_spec(self) -> u64 {
        self.0.stamp_spec()
    }

    /// The view resolves only against the arena state whose stamp it
    /// carries and whose buffer covers its range.
    pub open spec fn valid(self, o: Owner) -> bool {
        &&& self.stamp_spec() == o.stamp_spec()
        &&& 0 <= self.lo_spec() <= self.hi_spec() <= o.bytes().len()
    }

    /// The bytes the view designates inside `o`'s buffer.
    pub open spec fn bytes(self, o: Owner) -> Seq<u8> {
        o.bytes().subrange(self.lo_spec(), self.hi_spec())
    }

    /// Resolves the view for reading, like `Borrowed::get`.
    pub fn get<'a>(&self, o: &'a Owner) -> (r: Option<&'a [u8]>)
        ensures
            r is Some <==> self.valid(*o),
            r matches Some(s) ==> s@ == self.bytes(*o),
    {
        self.0.get(o)
    }

    /// Writes `src[src_at .. src_at + n]` into the view at offset `at`,
    /// leaving the arena's stamp unchanged: the view stays current.
    pub fn write_at(&self, o: &mut Owner, at: usize, src: &Vec<u8>, src_at: usize, n: usize)
        requires
            self.valid(*old(o)),
            self.lo_spec() + at + n <= self.hi_spec(),
            src_at + n <= src@.len(),
        ensures
            final(o).stamp_spec() == old(o).stamp_spec(),
            final(o).bytes() == overwrite(
                old(o).bytes(),
                self.lo_spec() + at,
                src@.subrange(src_at as int, src_at + n),
            ),
            self.valid(*final(o)),
    {
        slice_copy(&mut o.buf, self.0.lo + at, src, src_at, n);
    }

    /// Sets every byte of the view to `byte`, leaving the arena's stamp
    /// unchanged: the view stays current.
    pub fn fill(&self, o: &mut Owner, byte: u8)
        requires
            self.valid(*old(o)),
        ensures
            final(o).stamp_spec() == old(o).stamp_spec(),
            final(o).bytes() == overwrite(
                old(o).bytes(),
                self.lo_spec(),
                Seq::new((self.hi_spec() - self.lo_spec()) as nat, |i: int| byte),
            ),
            self.valid(*final(o)),
    {
        let mut j: usize = self.0.lo;
        while j < self.0.hi
            invariant
                self.0.lo <= j <= self.0.hi,
                self.valid(*old(o)),
                o.stamp_spec() == old(o).stamp_spec(),
                o.bytes().len() == old(o).bytes().len(),
                o.bytes() == overwrite(
                    old(o).bytes(),
                    self.lo_spec(),
                    Seq::new((j - self.0.lo) as nat, |i: int| byte),
                ),
            decreases self.0.hi - j,
        {
            o.buf[j] = byte;
            proof {
                assert(o.buf@ =~= overwrite(
                    old(o).bytes(),
                    self.lo_spec(),
                    Seq::new((j + 1 - self.0.lo) as nat, |i: int| byte),
                ));
            }
            j += 1;
        }
    }
}

/// Single-validity law: views carrying different stamps can never both
/// resolve against the same arena state.
pub proof fn lemma_single_validity(o: Owner, a: Borrowed, b: Borrowed)
    requires
        a.stamp_spec() != b.stamp_spec(),
    ensures
        !(a.valid(o) && b.valid(o)),
{
}

} // verus!
