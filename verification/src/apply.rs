//! Applies parsed records to a destination byte buffer.
//!
//! The destination is a byte buffer holding the pre-patch content; each
//! record is written at its offset, growing the buffer with zero bytes
//! when a write reaches past its end. Fill records are expanded in runs
//! the size of the largest power of two at most the fill count, then byte
//! by byte, out of a single reusable scratch buffer.

use vstd::prelude::*;
use vstd::slice::slice_index_get;

use crate::mem::{overwrite, zero_extend, Owner};
use crate::record::{pending_records, Data, RecordIterator, RecordModel};

verus! {

/// `d` with `xs` written at `off`, the buffer first grown with zero bytes
/// when the write reaches past its end. Writing nothing changes nothing.
pub open spec fn write_bytes(d: Seq<u8>, off: int, xs: Seq<u8>) -> Seq<u8> {
    if xs.len() == 0 {
        d
    } else {
        overwrite(zero_extend(d, off + xs.len()), off, xs)
    }
}

/// `count` copies of `byte`.
pub open spec fn repeated(byte: u8, count: int) -> Seq<u8>
    recommends
        count >= 0,
{
    Seq::new(count as nat, |i: int| byte)
}

/// The destination after one record.
pub open spec fn apply_model(d: Seq<u8>, m: RecordModel) -> Seq<u8> {
    match m {
        RecordModel::Fill { off, byte, count } => write_bytes(d, off, repeated(byte, count)),
        RecordModel::Chunk { off, bytes } => write_bytes(d, off, bytes),
    }
}

/// The destination after a sequence of records, applied in order.
pub open spec fn apply_records(d: Seq<u8>, ms: Seq<RecordModel>) -> Seq<u8>
    decreases ms.len(),
{
    if ms.len() == 0 {
        d
    } else {
        apply_records(apply_model(d, ms[0]), ms.skip(1))
    }
}

/// The destination after applying every record of the patch stream
/// `patch` to `d`.
pub open spec fn apply_patch(d: Seq<u8>, patch: Seq<u8>) -> Seq<u8> {
    apply_records(d, crate::record::records_of(patch))
}

/// Whether `p` is a power of two.
pub open spec fn is_power_of_two(p: int) -> bool
    decreases p,
{
    if p <= 0 {
        false
    } else if p == 1 {
        true
    } else {
        p % 2 == 0 && is_power_of_two(p / 2)
    }
}

/// The largest power of two at most `x`; zero when `x` is zero.
pub fn lower_power_of_two(x: usize) -> (r: usize)
    ensures
        x == 0 ==> r == 0,
        x > 0 ==> is_power_of_two(r as int) && r <= x && x < 2 * r,
{
    if x == 0 {
        return 0;
    }
    let mut r: usize = 1;
    while x / 2 >= r
        invariant
            1 <= r <= x,
            is_power_of_two(r as int),
        decreases x - r,
    {
        r = r * 2;
    }
    r
}

proof fn lemma_pow2_gap(q: int, r: int)
    requires
        is_power_of_two(q),
        is_power_of_two(r),
        q > r,
    ensures
        q >= 2 * r,
    decreases q + r,
{
    if q == 1 {
        assert(false);
    } else {
        if q / 2 == r {
        } else if q / 2 > r {
            lemma_pow2_gap(q / 2, r);
        } else {
            lemma_pow2_gap(r, q / 2);
            assert(false);
        }
    }
}

/// Largest-power-of-two law: a power of two `r` with `r <= x < 2 * r` is
/// the largest power of two at most `x` — exactly what
/// `lower_power_of_two` returns for positive `x`.
pub proof fn lemma_lower_power_of_two_largest(q: int, r: int, x: int)
    requires
        is_power_of_two(q),
        is_power_of_two(r),
        q <= x,
        r <= x,
        x < 2 * r,
    ensures
        q <= r,
{
    if q > r {
        lemma_pow2_gap(q, r);
    }
}

/// Writes `src[.. n]` into `dst` at `off`, growing `dst` with zero bytes
/// first when the write reaches past its end.
pub fn write_at(dst: &mut Vec<u8>, off: usize, src: &[u8], n: usize)
    requires
        n <= src@.len(),
        off + n <= usize::MAX,
    ensures
        final(dst)@ == write_bytes(old(dst)@, off as int, src@.subrange(0, n as int)),
{
    if n == 0 {
        return ;
    }
    if dst.len() < off + n {
        dst.resize(off + n, 0u8);
    }
    proof {
        assert(dst@ =~= zero_extend(old(dst)@, off + n));
    }
    let mut j: usize = 0;
    while j < n
        invariant
            j <= n,
            1 <= n <= src@.len(),
            off + n <= dst.len(),
            dst@ == overwrite(
                zero_extend(old(dst)@, off + n),
                off as int,
                src@.subrange(0, j as int),
            ),
        decreases n - j,
    {
        dst[off + j] = *slice_index_get(src, j);
        proof {
            assert(dst@ =~= overwrite(
                zero_extend(old(dst)@, off + n),
                off as int,
                src@.subrange(0, j + 1),
            ));
        }
        j += 1;
    }
}

/// Writing `a` at `off` and then `b` right behind it writes `a + b`.
pub proof fn lemma_write_bytes_concat(d: Seq<u8>, off: int, a: Seq<u8>, b: Seq<u8>)
    requires
        0 <= off,
    ensures
        write_bytes(write_bytes(d, off, a), off + a.len(), b) == write_bytes(d, off, a + b),
{
    if a.len() == 0 {
        assert(a + b =~= b);
    } else if b.len() == 0 {
        assert(a + b =~= a);
    } else {
        assert(write_bytes(write_bytes(d, off, a), off + a.len(), b) =~= write_bytes(
            d,
            off,
            a + b,
        ));
    }
}

/// Ordering law: when two writes touch overlapping ranges, the later
/// write wins on the overlap, and the earlier one shows through only
/// outside it.
pub proof fn lemma_later_write_wins(
    d: Seq<u8>,
    off1: int,
    xs1: Seq<u8>,
    off2: int,
    xs2: Seq<u8>,
    i: int,
)
    requires
        0 <= off1,
        0 <= off2,
    ensures
        off2 <= i < off2 + xs2.len() ==> write_bytes(write_bytes(d, off1, xs1), off2, xs2)[i]
            == xs2[i - off2],
        off1 <= i < off1 + xs1.len() && !(off2 <= i < off2 + xs2.len()) ==> write_bytes(
            write_bytes(d, off1, xs1),
            off2,
            xs2,
        )[i] == xs1[i - off1],
{
}

/// Expands one fill record: writes `count` copies of `byte` at `off`, in
/// runs of the largest power of two at most `count`, then byte by byte,
/// using `rle`'s buffer for the runs.
pub fn fill_run(dst: &mut Vec<u8>, off: usize, byte: u8, count: usize, rle: &mut Owner)
    requires
        off + count <= usize::MAX,
        old(rle).stamp_spec() < u64::MAX,
    ensures
        final(dst)@ == write_bytes(old(dst)@, off as int, repeated(byte, count as int)),
        final(rle).stamp_spec() == old(rle).stamp_spec() + 1,
{
    let pow: usize = lower_power_of_two(count);
    let view = rle.slice_mut(0, pow);
    view.fill(rle, byte);
    proof {
        assert(view.bytes(*rle) =~= repeated(byte, pow as int));
    }
    let mut cursor: usize = off;
    let mut left: usize = count;
    while left > pow
        invariant
            count == 0 ==> pow == 0,
            count > 0 ==> 1 <= pow <= count,
            left <= count,
            cursor as int == off + (count - left),
            off + count <= usize::MAX,
            view.lo_spec() == 0,
            view.hi_spec() == pow as int,
            view.valid(*rle),
            rle.stamp_spec() == old(rle).stamp_spec() + 1,
            view.bytes(*rle) == repeated(byte, pow as int),
            dst@ == write_bytes(old(dst)@, off as int, repeated(byte, count - left)),
        decreases left,
    {
        match view.get(rle) {
            Some(s) => {
                write_at(dst, cursor, s, pow);
                proof {
                    assert(s@.subrange(0, pow as int) =~= repeated(byte, pow as int));
                    lemma_write_bytes_concat(
                        old(dst)@,
                        off as int,
                        repeated(byte, count - left),
                        repeated(byte, pow as int),
                    );
                    assert(repeated(byte, count - left) + repeated(byte, pow as int) =~= repeated(
                        byte,
                        count - left + pow,
                    ));
                }
            },
            None => {
                proof {
                    assert(false);
                }
            },
        }
        cursor = cursor + pow;
        left = left - pow;
    }
    while left != 0
        invariant
            count == 0 ==> pow == 0,
            count > 0 ==> 1 <= pow <= count,
            left <= count,
            cursor as int == off + (count - left),
            off + count <= usize::MAX,
            view.lo_spec() == 0,
            view.hi_spec() == pow as int,
            view.valid(*rle),
            rle.stamp_spec() == old(rle).stamp_spec() + 1,
            view.bytes(*rle) == repeated(byte, pow as int),
            dst@ == write_bytes(old(dst)@, off as int, repeated(byte, count - left)),
        decreases left,
    {
        match view.get(rle) {
            Some(s) => {
                write_at(dst, cursor, s, 1);
                proof {
                    assert(s@.subrange(0, 1) =~= repeated(byte, 1));
                    lemma_write_bytes_concat(
                        old(dst)@,
                        off as int,
                        repeated(byte, count - left),
                        repeated(byte, 1),
                    );
                    assert(repeated(byte, count - left) + repeated(byte, 1) =~= repeated(
                        byte,
                        count - left + 1,
                    ));
                }
            },
            None => {
                proof {
                    assert(false);
                }
            },
        }
        cursor = cursor + 1;
        left = left - 1;
    }
}

/// Applies every record `parser` still has to `dst`, in emission order:
/// later records win where ranges overlap.
pub fn apply(parser: &mut RecordIterator, dst: &mut Vec<u8>)
    requires
        old(parser).wf(),
    ensures
        final(parser).wf(),
        final(dst)@ == apply_records(old(dst)@, pending_records(*old(parser))),
{
    let mut rle = Owner::new(0);
    proof {
        crate::record::lemma_remaining_in_bounds(*old(parser));
    }
    loop
        invariant
            parser.wf(),
            old(parser).remaining().len() <= usize::MAX,
            apply_records(dst@, pending_records(*parser)) == apply_records(
                old(dst)@,
                pending_records(*old(parser)),
            ),
            6 * (rle.stamp_spec() as int) + parser.remaining().len() <= old(
                parser,
            ).remaining().len(),
        ensures
            parser.wf(),
            dst@ == apply_records(old(dst)@, pending_records(*old(parser))),
        decreases pending_records(*parser).len(),
    {
        let ghost p0 = *parser;
        let ghost d0 = dst@;
        let rec_opt = parser.next();
        match rec_opt {
            None => {
                proof {
                    assert(pending_records(p0) == Seq::<RecordModel>::empty());
                    assert(apply_records(dst@, pending_records(p0)) == dst@);
                }
                break ;
            },
            Some(rec) => {
                let ghost m = pending_records(p0)[0];
                let off64: u64 = rec.off();
                let off: usize = off64 as usize;
                match rec.data() {
                    Data::Chunk(v) => {
                        match v.get(parser.arena()) {
                            Some(s) => {
                                let n: usize = s.len();
                                write_at(dst, off, s, n);
                                proof {
                                    assert(s@.subrange(0, n as int) =~= s@);
                                    assert(dst@ == apply_model(d0, m));
                                }
                            },
                            None => {
                                proof {
                                    assert(false);
                                }
                            },
                        }
                    },
                    Data::RLE { byte, size } => {
                        proof {
                            assert(6 * (rle.stamp_spec() as int) <= usize::MAX as int);
                            assert(rle.stamp_spec() < u64::MAX);
                        }
                        fill_run(dst, off, byte, size, &mut rle);
                        proof {
                            assert(dst@ == apply_model(d0, m));
                        }
                    },
                }
                proof {
                    assert(pending_records(p0).len() >= 1);
                    assert(apply_records(d0, pending_records(p0)) == apply_records(
                        apply_model(d0, m),
                        pending_records(p0).skip(1),
                    ));
                }
            },
        }
    }
}

} // verus!
