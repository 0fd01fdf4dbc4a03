//! The steps of streaming tensors from one file to another: where to read,
//! how to share out the rows, how much to pad.

use vstd::prelude::*;

use crate::layout::{next_multiple_of, Plan};
use crate::order::{sort_positions, LargestFirst};
use crate::quantize::TensorType;

verus! {

/// How much of a file is read for its header at first.
pub const FIRST_HEAD: usize = 0x200_0000;

/// What came of parsing the head of a file.
#[derive(Clone, Copy, Debug, PartialEq, Eq, Structural)]
pub enum Parsed {
    Header,
    /// The head ends before the header does.
    Truncated,
    /// The head is no header.
    Bad,
}

/// What to do next with the head of a file.
#[derive(Clone, Copy, Debug, PartialEq, Eq, Structural)]
pub enum HeadStep {
    Accept,
    /// Read the file again from its start, so many bytes of it.
    Reread(usize),
    Reject,
}

/// What follows after `got` of `n` bytes were read and parsed.
pub open spec fn next_step(n: int, got: int, parsed: Parsed) -> HeadStep {
    match parsed {
        Parsed::Header => HeadStep::Accept,
        Parsed::Truncated => if got == n {
            HeadStep::Reread((2 * n) as usize)
        } else {
            HeadStep::Reject
        },
        Parsed::Bad => HeadStep::Reject,
    }
}

/// Decides after `got` of `n` bytes were read and parsed. A head that was cut
/// off is read again at twice the length, unless the file ends before.
pub fn head_step(n: usize, got: usize, parsed: Parsed) -> (step: HeadStep)
    requires
        n <= usize::MAX / 2,
    ensures
        step == (match parsed {
            Parsed::Header => HeadStep::Accept,
            Parsed::Truncated => if got == n {
                HeadStep::Reread((2 * n) as usize)
            } else {
                HeadStep::Reject
            },
            Parsed::Bad => HeadStep::Reject,
        }),        step == next_step(n as int, got as int, parsed),
{
    match parsed {
        Parsed::Header => HeadStep::Accept,
        Parsed::Truncated => if got == n {
            HeadStep::Reread(2 * n)
        } else {
            HeadStep::Reject
        },
        Parsed::Bad => HeadStep::Reject,
    }
}

/// The sum of the first `n` lengths.
pub open spec fn sum_below(lens: Seq<u64>, n: int) -> int
    decreases n,
{
    if n <= 0 {
        0
    } else {
        sum_below(lens, n - 1) + lens[n - 1]
    }
}

proof fn lemma_sum_grows(lens: Seq<u64>, m: int, n: int)
    requires
        m <= n,
    ensures
        sum_below(lens, m) <= sum_below(lens, n),
    decreases n - m,
{
    if m < n {
        lemma_sum_grows(lens, m, n - 1);
    }
}

/// Whether an offset lies in file `i` of some files, `local` bytes in.
pub open spec fn is_route(bases: Seq<u64>, off: int, i: int, local: int) -> bool {
    &&& 0 <= i < bases.len()
    &&& bases[i] + local == off
    &&& local >= 0
    &&& i + 1 < bases.len() ==> off < bases[i + 1]
}

/// Files taken as one: each starts where the one before it ends.
pub struct VFile {
    pub bases: Vec<u64>,
}

impl VFile {
    /// Whether the files come one after the other, from 0.
    pub open spec fn wf(&self) -> bool {
        &&& self.bases@.len() > 0
        &&& self.bases@[0] == 0
        &&& forall|i: int, j: int|
            0 <= i <= j < self.bases@.len() ==> self.bases@[i] <= self.bases@[j]
    }

    /// Puts files of the given lengths one after the other. `None` where their
    /// lengths together do not fit in 64 bits.
    pub fn new(lens: &Vec<u64>) -> (r: Option<VFile>)
        ensures
            match r {
                Some(v) => {
                    &&& sum_below(lens@, lens@.len() as int) <= u64::MAX
                    &&& v.bases@.len() == lens@.len()
                    &&& forall|i: int|
                        0 <= i < lens@.len() ==> #[trigger] v.bases@[i] == sum_below(lens@, i)
                    &&& lens@.len() > 0 ==> v.wf()
                },
                None => sum_below(lens@, lens@.len() as int) > u64::MAX,
            },
    {
        let mut bases: Vec<u64> = Vec::new();
        let mut base: u64 = 0;
        let mut i: usize = 0;
        while i < lens.len()
            invariant
                i <= lens@.len(),
                base == sum_below(lens@, i as int),
                bases@.len() == i,
                forall|k: int| 0 <= k < i ==> #[trigger] bases@[k] == sum_below(lens@, k),
            decreases lens@.len() - i,
        {
            bases.push(base);
            match base.checked_add(lens[i]) {
                Some(b) => {
                    base = b;
                },
                None => {
                    proof {
                        lemma_sum_grows(lens@, i + 1, lens@.len() as int);
                    }
                    return None;
                },
            }
            i += 1;
        }
        proof {
            assert forall|a: int, b: int| 0 <= a <= b < bases@.len() implies bases@[a]
                <= bases@[b] by {
                lemma_sum_grows(lens@, a, b);
            }
        }
        Some(VFile { bases })
    }

    /// Routes an offset to a file and an offset in it: the last file that
    /// starts at the offset or before.
    pub fn route(&self, off: u64) -> (r: (usize, u64))
        requires
            self.wf(),
        ensures
            r.0 < self.bases@.len(),
            self.bases@[r.0 as int] + r.1 == off,
            r.0 + 1 < self.bases@.len() ==> off < self.bases@[r.0 + 1],
            is_route(self.bases@, off as int, r.0 as int, r.1 as int),
    {
        let mut lo: usize = 0;
        let mut hi: usize = self.bases.len();
        while hi - lo > 1
            invariant
                self.wf(),
                lo < hi <= self.bases@.len(),
                self.bases@[lo as int] <= off,
                hi < self.bases@.len() ==> off < self.bases@[hi as int],
            decreases hi - lo,
        {
            let mid: usize = lo + (hi - lo) / 2;
            if self.bases[mid] <= off {
                lo = mid;
            } else {
                hi = mid;
            }
        }
        (lo, off - self.bases[lo])
    }
}

/// An offset inside the files is routed into the file that holds it: the
/// local offset is below the file's length.
pub proof fn route_stays_inside(lens: Seq<u64>, v: VFile, off: u64, i: int, local: u64)
    requires
        v.bases@.len() == lens.len(),
        forall|k: int| 0 <= k < lens.len() ==> #[trigger] v.bases@[k] == sum_below(lens, k),
        off < sum_below(lens, lens.len() as int),
        0 <= i < v.bases@.len(),
        v.bases@[i] + local == off,
        i + 1 < v.bases@.len() ==> off < v.bases@[i + 1],
    ensures
        local < lens[i],
{
    assert(sum_below(lens, i + 1) == sum_below(lens, i) + lens[i]);
    if i + 1 < v.bases@.len() {
        assert(v.bases@[i + 1] == sum_below(lens, i + 1));
    }
}

/// How many rows one of `threads` gets.
pub open spec fn chunk_size(rows: int, threads: int) -> int {
    (rows + threads - 1) / threads
}

/// Whether `chunks` share `rows` out, in order and without a gap.
pub open spec fn covers(chunks: Seq<(usize, usize)>, rows: int) -> bool {
    &&& chunks.len() == 0 <==> rows == 0
    &&& chunks.len() > 0 ==> chunks[0].0 == 0 && chunks.last().1 == rows
    &&& forall|c: int| 0 <= c < chunks.len() ==> (#[trigger] chunks[c]).0 < chunks[c].1
    &&& forall|c: int|
        0 <= c < chunks.len() - 1 ==> (#[trigger] chunks[c]).1 == chunks[c + 1].0
}

/// Whether `chunks` share rows out over threads: none is longer than can be
/// helped, and all but the last are just as long.
pub open spec fn share_out(chunks: Seq<(usize, usize)>, rows: int, threads: int) -> bool {
    &&& covers(chunks, rows)
    &&& chunks.len() <= threads
    &&& forall|c: int|
        0 <= c < chunks.len() - 1 ==> (#[trigger] chunks[c]).1 - chunks[c].0 == chunk_size(
            rows,
            threads,
        )
    &&& forall|c: int|
        0 <= c < chunks.len() ==> (#[trigger] chunks[c]).1 - chunks[c].0 <= chunk_size(
            rows,
            threads,
        )
}

/// Shares rows out over threads, as `lo..hi`: all the same number but for the
/// last.
pub fn row_chunks(rows: usize, threads: usize) -> (chunks: Vec<(usize, usize)>)
    requires
        threads > 0,
    ensures
        covers(chunks@, rows as int),
        chunks@.len() <= threads,
        forall|c: int|
            0 <= c < chunks@.len() ==> {
                let per = chunk_size(rows as int, threads as int);
                let end = (c + 1) * per;
                &&& (#[trigger] chunks@[c]).0 == c * per
                &&& chunks@[c].1 == if end < rows {
                    end
                } else {
                    rows as int
                }
            },
        share_out(chunks@, rows as int, threads as int),
{
    proof {
        lemma_ceil(rows as int, threads as int);
    }
    let rem: usize = rows % threads;
    let per: usize = if rem == 0 {
        rows / threads
    } else {
        rows / threads + 1
    };
    let mut chunks: Vec<(usize, usize)> = Vec::new();
    let mut c: usize = 0;
    let mut lo: usize = 0;
    while c < threads && lo < rows
        invariant
            c <= threads,
            lo <= rows,
            rows > 0 ==> per > 0,
            per == chunk_size(rows as int, threads as int),
            per * threads >= rows,
            chunks@.len() == c,
            lo == c * per || lo == rows && c * per >= rows,
            c > 0 ==> chunks@[0].0 == 0 && chunks@.last().1 == lo && lo > 0,
            c == 0 ==> lo == 0,
            forall|k: int|
                0 <= k < c ==> {
                    &&& (#[trigger] chunks@[k]).0 == k * per
                    &&& chunks@[k].0 < chunks@[k].1
                    &&& chunks@[k].1 == if (k + 1) * per < rows {
                        (k + 1) * per
                    } else {
                        rows as int
                    }
                },
            forall|k: int| 0 <= k < c - 1 ==> (#[trigger] chunks@[k]).1 == chunks@[k + 1].0,
        decreases threads - c,
    {
        let hi: usize = if rows - lo < per {
            rows
        } else {
            lo + per
        };
        proof {
            assert((c + 1) * per == c * per + per) by (nonlinear_arith);
        }
        chunks.push((lo, hi));
        lo = hi;
        c += 1;
    }
    assert(c == threads ==> c * per == per * threads) by (nonlinear_arith);
    proof {
        assert forall|k: int| 0 <= k < chunks@.len() implies {
            let len = (#[trigger] chunks@[k]).1 - chunks@[k].0;
            len <= per && (k < chunks@.len() - 1 ==> len == per)
        } by {
            assert((k + 1) * per == k * per + per) by (nonlinear_arith);
            if k < chunks@.len() - 1 {
                assert(chunks@[k].1 == chunks@[k + 1].0);
            }
        }
    }
    chunks
}

proof fn lemma_ceil(a: int, b: int)
    requires
        a >= 0,
        b > 0,
    ensures
        chunk_size(a, b) == if a % b == 0 {
            a / b
        } else {
            a / b + 1
        },
        chunk_size(a, b) * b >= a,
        a % b != 0 ==> a / b < a,
        a > 0 ==> chunk_size(a, b) > 0,
{
    let q = a / b;
    let r = a % b;
    assert(a == b * q + r && 0 <= r < b && q >= 0) by (nonlinear_arith)
        requires
            a >= 0,
            b > 0,
            q == a / b,
            r == a % b,
    ;
    if r == 0 {
        assert(q * b == b * q) by (nonlinear_arith);
        vstd::arithmetic::div_mod::lemma_fundamental_div_mod_converse(a + b - 1, b, q, b - 1);
        if a > 0 {
            assert(q > 0) by (nonlinear_arith)
                requires
                    a == b * q,
                    a > 0,
                    q >= 0,
            ;
        }
    } else {
        assert((q + 1) * b == b * q + b) by (nonlinear_arith);
        vstd::arithmetic::div_mod::lemma_fundamental_div_mod_converse(
            a + b - 1,
            b,
            q + 1,
            r - 1,
        );
        assert(q < a) by (nonlinear_arith)
            requires
                a == b * q + r,
                r > 0,
                b > 0,
                q >= 0,
        ;
    }
}

/// The expert that a row belongs to.
pub open spec fn expert_of(r: int, rows_per_expert: int) -> int {
    r / (if rows_per_expert < 1 {
        1
    } else {
        rows_per_expert
    })
}

/// The weights for row `r` in an importance entry of length `len`: all of it,
/// or the part for the row's expert.
pub open spec fn weights_of(len: int, row: int, rows_per_expert: int, r: int) -> (int, int) {
    if len == row {
        (0, len)
    } else {
        let e = expert_of(r, rows_per_expert);
        (e * row, (e + 1) * row)
    }
}

/// The weights for row `r` in an importance entry, as `lo..hi`.
pub fn imatrix_range(len: usize, row: usize, rows_per_expert: usize, r: usize) -> (range: (
    usize,
    usize,
))
    requires
        weights_of(len as int, row as int, rows_per_expert as int, r as int).1 <= len,
    ensures
        (range.0 as int, range.1 as int) == weights_of(
            len as int,
            row as int,
            rows_per_expert as int,
            r as int,
        ),
{
    if len == row {
        return (0, len);
    }
    let per: usize = if rows_per_expert < 1 {
        1
    } else {
        rows_per_expert
    };
    let e: usize = r / per;
    proof {
        let x = e as int;
        let w = row as int;
        assert(x * w <= (x + 1) * w) by (nonlinear_arith)
            requires
                x >= 0,
                w >= 0,
        ;
        assert(x * w + w == (x + 1) * w) by (nonlinear_arith);
    }
    let lo: usize = e * row;
    (lo, lo + row)
}

/// A usable importance entry of a tensor with at most three dimensions has
/// weights for every row.
pub proof fn usable_imatrix_covers_rows(dims: Seq<u64>, len: u64, r: int)
    requires
        1 <= dims.len() <= 3,
        crate::layout::usable_imatrix(Some(len), dims),
        crate::layout::experts_of(dims) > 0,
        0 <= r < crate::layout::rows_of(dims),
    ensures
        ({
            let per = if dims.len() > 1 {
                dims[1] as int
            } else {
                1
            };
            weights_of(len as int, dims[0] as int, per, r).1 <= len
        }),
{
    reveal_with_fuel(crate::layout::rows_below, 4);
    let row = dims[0] as int;
    if len != row {
        assert(dims.len() == 3);
        let ne1 = dims[1] as int;
        let n = dims[2] as int;
        let per = if ne1 < 1 {
            1
        } else {
            ne1
        };
        let e = expert_of(r, ne1);
        assert(e < n) by (nonlinear_arith)
            requires
                n > 0,
                per == (if ne1 < 1 {
                    1
                } else {
                    ne1
                }),
                ne1 >= 0,
                e == r / per,
                0 <= r < (if ne1 * n < 1 {
                    1
                } else {
                    ne1 * n
                }),
        {
            assert(ne1 < 1 ==> ne1 * n == 0);
            assert(r < per * n);
            if e >= n {
                assert(per * e >= per * n);
                vstd::arithmetic::div_mod::lemma_fundamental_div_mod(r, per);
            }
        }
        assert((e + 1) * row <= row * n) by (nonlinear_arith)
            requires
                e < n,
                row >= 0,
        ;
    }
}

/// Where the tensor behind tensor `i` starts, once `nbytes` of `i` are
/// written. Behind the last one the file ends aligned.
pub open spec fn next_start(p: Plan, i: int, nbytes: int) -> int {
    if i + 1 < p.tensors@.len() {
        p.tensors@[i + 1].out_off as int
    } else {
        crate::layout::next_multiple(p.tensors@[i].out_off + nbytes, p.align as int)
    }
}

/// Whether `pad` zero bytes lead from the end of tensor `i` to the next start.
pub open spec fn is_padding(p: Plan, i: int, nbytes: int, pad: Option<u64>) -> bool {
    let end = p.tensors@[i].out_off + nbytes;
    let next = next_start(p, i, nbytes);
    match pad {
        Some(n) => end + n == next && next <= u64::MAX,
        None => end > next || next > u64::MAX,
    }
}

/// How many zero bytes follow tensor `i`, of which `nbytes` were written.
/// `None` where they are too many: they run into the next tensor, or past 64
/// bits.
pub fn padding_after(p: &Plan, i: usize, nbytes: u64) -> (pad: Option<u64>)
    requires
        i < p.tensors@.len(),
        p.align > 0,
    ensures
        ({
            let end = p.tensors@[i as int].out_off + nbytes;
            let next = next_start(*p, i as int, nbytes as int);
            match pad {
                Some(n) => end + n == next && next <= u64::MAX,
                None => end > next || next > u64::MAX,
            }
        }),
        is_padding(*p, i as int, nbytes as int, pad),
{
    let end: u64 = match p.tensors[i].out_off.checked_add(nbytes) {
        Some(e) => e,
        None => {
            proof {
                crate::layout::lemma_next_multiple(
                    p.tensors@[i as int].out_off + nbytes,
                    p.align as int,
                );
            }
            return None;
        },
    };
    let next: u64 = if p.tensors.len() - i > 1 {
        p.tensors[i + 1].out_off
    } else {
        match next_multiple_of(end, p.align) {
            Some(n) => n,
            None => {
                return None;
            },
        }
    };
    proof {
        crate::layout::lemma_next_multiple(end as int, p.align as int);
    }
    next.checked_sub(end)
}

/// A tensor whose bytes are all written is padded to where the layout puts
/// the next one; the last one, to the end of the data section.
pub proof fn padding_reaches_the_next_tensor(
    ts: Seq<crate::layout::SourceTensor>,
    recipe: crate::layout::Recipe,
    p: Plan,
    i: int,
)
    requires
        p.tensors@.len() == ts.len(),
        p.align == recipe.align,
        forall|k: int|
            0 <= k < ts.len() ==> (#[trigger] p.tensors@[k]).out_off == crate::layout::offset_of(
                ts,
                recipe,
                k,
            ),
        0 <= i < ts.len(),
    ensures
        next_start(p, i, crate::layout::size_of(ts[i], recipe)) == crate::layout::offset_of(
            ts,
            recipe,
            i + 1,
        ),
{
    assert(p.tensors@[i].out_off == crate::layout::offset_of(ts, recipe, i));
    if i + 1 < ts.len() {
        assert(p.tensors@[i + 1].out_off == crate::layout::offset_of(ts, recipe, i + 1));
    }
}

/// Whether progress is due after tensor `i` of `n`.
pub open spec fn is_due(i: int, n: int) -> bool {
    i % 50 == 0 || i + 1 == n
}

/// Whether progress is reported after tensor `i` of `n`: every 50th, and the
/// last.
pub fn progress_due(i: usize, n: usize) -> (r: bool)
    requires
        i < n,
    ensures
        r == (i % 50 == 0 || i + 1 == n),
        r == is_due(i as int, n as int),
{
    i % 50 == 0 || i + 1 == n
}

/// The bytes that were written in a type, in the first `n` tensors.
pub open spec fn bytes_in(written: Seq<(TensorType, u64)>, ty: TensorType, n: int) -> int
    decreases n,
{
    if n <= 0 {
        0
    } else {
        bytes_in(written, ty, n - 1) + if written[n - 1].0 == ty {
            written[n - 1].1 as int
        } else {
            0
        }
    }
}

/// The bytes that were written in the first `n` tensors.
pub open spec fn bytes_below(written: Seq<(TensorType, u64)>, n: int) -> int
    decreases n,
{
    if n <= 0 {
        0
    } else {
        bytes_below(written, n - 1) + written[n - 1].1
    }
}

/// Whether a tensor was written in a type.
pub open spec fn occurs(written: Seq<(TensorType, u64)>, ty: TensorType) -> bool {
    exists|i: int| 0 <= i < written.len() && (#[trigger] written[i]).0 == ty
}

proof fn lemma_bytes_in(written: Seq<(TensorType, u64)>, ty: TensorType, m: int, n: int)
    requires
        0 <= m <= n <= written.len(),
    ensures
        0 <= bytes_in(written, ty, m) <= bytes_below(written, m) <= bytes_below(written, n),
    decreases n,
{
    if m < n {
        lemma_bytes_in(written, ty, m, n - 1);
    } else if n > 0 {
        lemma_bytes_in(written, ty, m - 1, n - 1);
    }
}

fn type_total(written: &Vec<(TensorType, u64)>, ty: TensorType) -> (r: Option<u64>)
    requires
        bytes_below(written@, written@.len() as int) <= u64::MAX,
    ensures
        match r {
            Some(n) => occurs(written@, ty) && n == bytes_in(
                written@,
                ty,
                written@.len() as int,
            ),
            None => !occurs(written@, ty),
        },
{
    let mut sum: u64 = 0;
    let mut found: bool = false;
    let mut i: usize = 0;
    while i < written.len()
        invariant
            i <= written@.len(),
            bytes_below(written@, written@.len() as int) <= u64::MAX,
            sum == bytes_in(written@, ty, i as int),
            found == exists|k: int| 0 <= k < i && (#[trigger] written@[k]).0 == ty,
        decreases written@.len() - i,
    {
        proof {
            lemma_bytes_in(written@, ty, i + 1, written@.len() as int);
        }
        let w: (TensorType, u64) = written[i];
        if w.0 == ty {
            assert(written@[i as int].0 == ty);
            sum = sum + w.1;
            found = true;
        }
        i += 1;
    }
    if found {
        Some(sum)
    } else {
        None
    }
}

/// All types, by number.
pub open spec fn type_numbered(i: int) -> TensorType {
    if i == 0 {
        TensorType::F32
    } else if i == 1 {
        TensorType::F16
    } else if i == 2 {
        TensorType::Q8_0
    } else if i == 3 {
        TensorType::Q2K
    } else if i == 4 {
        TensorType::Q3K
    } else if i == 5 {
        TensorType::Q4K
    } else if i == 6 {
        TensorType::Q5K
    } else if i == 7 {
        TensorType::Q6K
    } else {
        TensorType::IQ2XXS
    }
}

fn numbered_type(i: usize) -> (ty: TensorType)
    ensures
        ty == type_numbered(i as int),
{
    if i == 0 {
        TensorType::F32
    } else if i == 1 {
        TensorType::F16
    } else if i == 2 {
        TensorType::Q8_0
    } else if i == 3 {
        TensorType::Q2K
    } else if i == 4 {
        TensorType::Q3K
    } else if i == 5 {
        TensorType::Q4K
    } else if i == 6 {
        TensorType::Q5K
    } else if i == 7 {
        TensorType::Q6K
    } else {
        TensorType::IQ2XXS
    }
}

/// Whether `totals` are the bytes in each type that occurs, largest first.
pub open spec fn are_totals(totals: Seq<(TensorType, u64)>, written: Seq<(TensorType, u64)>) -> bool {
    &&& forall|k: int|
        0 <= k < totals.len() ==> occurs(written, (#[trigger] totals[k]).0) && totals[k].1
            == bytes_in(written, totals[k].0, written.len() as int)
    &&& forall|ty: TensorType| #[trigger]
        occurs(written, ty) ==> exists|k: int|
            0 <= k < totals.len() && (#[trigger] totals[k]).0 == ty
    &&& forall|j: int, k: int|
        0 <= j < k < totals.len() ==> (#[trigger] totals[j]).0 != (#[trigger] totals[k]).0
            && totals[j].1 >= totals[k].1
}

/// The bytes in each type that occurs, largest first.
pub fn totals_by_type(written: &Vec<(TensorType, u64)>) -> (totals: Vec<(TensorType, u64)>)
    requires
        bytes_below(written@, written@.len() as int) <= u64::MAX,
    ensures
        are_totals(totals@, written@),
{
    let mut found: Vec<(TensorType, u64)> = Vec::new();
    let mut keys: Vec<u64> = Vec::new();
    let mut all: Vec<usize> = Vec::new();
    let mut from: Ghost<Seq<int>> = Ghost(Seq::empty());
    let mut i: usize = 0;
    while i < 9
        invariant
            i <= 9,
            bytes_below(written@, written@.len() as int) <= u64::MAX,
            found@.len() == keys@.len() == all@.len() == from@.len(),
            found@.len() <= i,
            forall|k: int| 0 <= k < found@.len() ==> (#[trigger] all@[k]) == k,
            forall|k: int|
                0 <= k < found@.len() ==> {
                    &&& 0 <= (#[trigger] from@[k]) < i
                    &&& found@[k].0 == type_numbered(from@[k])
                    &&& keys@[k] == found@[k].1
                    &&& occurs(written@, found@[k].0)
                    &&& found@[k].1 == bytes_in(written@, found@[k].0, written@.len() as int)
                },
            forall|j: int, k: int| 0 <= j < k < from@.len() ==> from@[j] < from@[k],
            forall|n: int|
                0 <= n < i && occurs(written@, #[trigger] type_numbered(n)) ==> exists|k: int|
                    0 <= k < from@.len() && #[trigger] from@[k] == n,
        decreases 9 - i,
    {
        let ty: TensorType = numbered_type(i);
        let ghost before = from@;
        match type_total(written, ty) {
            Some(n) => {
                all.push(found.len());
                keys.push(n);
                found.push((ty, n));
                proof {
                    from@ = before.push(i as int);
                    assert(from@[before.len() as int] == i);
                    assert forall|m: int|
                        0 <= m < i && occurs(written@, #[trigger] type_numbered(m)) implies exists|
                        k: int,
                    |
                        0 <= k < from@.len() && #[trigger] from@[k] == m by {
                        let k = choose|k: int| 0 <= k < before.len() && #[trigger] before[k] == m;
                        assert(from@[k] == m);
                    }
                }
            },
            None => {},
        }
        i += 1;
    }
    let ghost start = crate::order::positions(all@);
    let sorter: LargestFirst = LargestFirst { keys };
    let order: Vec<usize> = sort_positions(&sorter, all);
    let mut totals: Vec<(TensorType, u64)> = Vec::new();
    i = 0;
    while i < order.len()
        invariant
            i <= order@.len(),
            forall|k: int| 0 <= k < order@.len() ==> (#[trigger] order@[k]) < found@.len(),
            totals@.len() == i,
            forall|k: int| 0 <= k < i ==> #[trigger] totals@[k] == found@[order@[k] as int],
        decreases order@.len() - i,
    {
        totals.push(found[order[i]]);
        i += 1;
    }
    proof {
        broadcast use vstd::seq_lib::group_to_multiset_ensures;

        let leq = crate::order::by_key_desc(sorter.keys@);
        let at = crate::order::positions(order@);
        start.lemma_sort_by_ensures(leq);
        assert(start.no_duplicates());
        start.lemma_multiset_has_no_duplicates();
        at.lemma_multiset_has_no_duplicates_conv();
        assert forall|k: int| 0 <= k < totals@.len() implies occurs(
            written@,
            (#[trigger] totals@[k]).0,
        ) && totals@[k].1 == bytes_in(written@, totals@[k].0, written@.len() as int) by {
            let a = at[k];
            assert(0 <= from@[a]);
        }
        assert forall|ty: TensorType| #[trigger] occurs(written@, ty) implies exists|k: int|
            0 <= k < totals@.len() && (#[trigger] totals@[k]).0 == ty by {
            let n = if ty == TensorType::F32 {
                0int
            } else if ty == TensorType::F16 {
                1
            } else if ty == TensorType::Q8_0 {
                2
            } else if ty == TensorType::Q2K {
                3
            } else if ty == TensorType::Q3K {
                4
            } else if ty == TensorType::Q4K {
                5
            } else if ty == TensorType::Q5K {
                6
            } else if ty == TensorType::Q6K {
                7
            } else {
                8
            };
            assert(occurs(written@, type_numbered(n)));
            let k = choose|k: int| 0 <= k < from@.len() && #[trigger] from@[k] == n;
            assert(start[k] == k);
            assert(start.to_multiset().count(k) > 0);
            assert(at.contains(k));
            let m = choose|m: int| 0 <= m < at.len() && at[m] == k;
            assert(totals@[m].0 == ty);
        }
        assert forall|j: int, k: int| 0 <= j < k < totals@.len() implies (
        #[trigger] totals@[j]).0 != (#[trigger] totals@[k]).0 && totals@[j].1 >= totals@[k].1 by {
            assert(leq(at[j], at[k]));
            assert(at[j] != at[k]);
            let a = at[j];
            let b = at[k];
            assert(from@[a] != from@[b]);
        }
    }
    totals
}

/// A header is taken as soon as it parses. Only one that was cut off, with
/// every byte that was asked for, is asked for again, twice as much of it.
pub proof fn only_a_cut_off_head_is_read_again(n: int, got: int, parsed: Parsed, m: usize)
    requires
        0 <= n <= usize::MAX / 2,
    ensures
        next_step(n, got, parsed) == HeadStep::Accept <==> parsed == Parsed::Header,
        next_step(n, got, parsed) == HeadStep::Reread(m) <==> parsed == Parsed::Truncated && got == n
            && m == n + n,
{
}

/// Files start at 0, and each is followed at once by the next.
pub proof fn files_follow_each_other(lens: Seq<u64>, i: int)
    requires
        0 <= i < lens.len(),
    ensures
        sum_below(lens, 0) == 0,
        sum_below(lens, i + 1) - sum_below(lens, i) == lens[i],
{
}

/// A chunk is as small as `threads` of them can be and still hold all rows.
pub proof fn chunks_are_as_small_as_can_be(rows: int, threads: int, k: int)
    requires
        rows >= 0,
        threads > 0,
    ensures
        chunk_size(rows, threads) * threads >= rows,
        k * threads >= rows ==> chunk_size(rows, threads) <= k,
{
    lemma_ceil(rows, threads);
    let c = chunk_size(rows, threads);
    if k * threads >= rows && k < c {
        let q = rows / threads;
        let r = rows % threads;
        assert(rows == threads * q + r && 0 <= r < threads) by (nonlinear_arith)
            requires
                rows >= 0,
                threads > 0,
                q == rows / threads,
                r == rows % threads,
        ;
        if r == 0 {
            assert(k * threads < threads * q) by (nonlinear_arith)
                requires
                    k < q,
                    threads > 0,
            ;
        } else {
            assert(k * threads <= threads * q) by (nonlinear_arith)
                requires
                    k <= q,
                    threads > 0,
            ;
        }
    }
}

/// Every row is in exactly one chunk.
pub proof fn every_row_is_in_one_chunk(chunks: Seq<(usize, usize)>, rows: int, r: int)
    requires
        covers(chunks, rows),
        0 <= r < rows,
    ensures
        exists|c: int|
            0 <= c < chunks.len() && (#[trigger] chunks[c]).0 <= r < chunks[c].1 && forall|d: int|
                0 <= d < chunks.len() && (#[trigger] chunks[d]).0 <= r < chunks[d].1 ==> d == c,
        forall|c: int| 0 <= c < chunks.len() ==> (#[trigger] chunks[c]).1 <= rows,
{
    let c = lemma_find_chunk(chunks, rows, r, chunks.len() as int);
    assert(chunks[c].0 <= r < chunks[c].1);
    assert forall|d: int|
        0 <= d < chunks.len() && (#[trigger] chunks[d]).0 <= r < chunks[d].1 implies d == c by {
        if d < c {
            lemma_chunks_rise(chunks, rows, d, c);
        } else if c < d {
            lemma_chunks_rise(chunks, rows, c, d);
        }
    }
    assert forall|d: int| 0 <= d < chunks.len() implies (#[trigger] chunks[d]).1 <= rows by {
        if d < chunks.len() - 1 {
            lemma_chunks_rise(chunks, rows, d, chunks.len() - 1);
        }
    }
}

proof fn lemma_chunks_rise(chunks: Seq<(usize, usize)>, rows: int, c: int, d: int)
    requires
        covers(chunks, rows),
        0 <= c < d < chunks.len(),
    ensures
        chunks[c].1 <= chunks[d].0,
        chunks[c].1 <= chunks[d].1,
    decreases d - c,
{
    assert(chunks[d].0 < chunks[d].1);
    assert(chunks[d - 1].1 == chunks[d].0);
    if c < d - 1 {
        lemma_chunks_rise(chunks, rows, c, d - 1);
    }
}

proof fn lemma_find_chunk(chunks: Seq<(usize, usize)>, rows: int, r: int, n: int) -> (c: int)
    requires
        covers(chunks, rows),
        0 < n <= chunks.len() || rows > 0 && n == chunks.len(),
        0 <= r < chunks[n - 1].1,
    ensures
        0 <= c < chunks.len(),
        chunks[c].0 <= r < chunks[c].1,
    decreases n,
{
    if chunks[n - 1].0 <= r {
        n - 1
    } else {
        assert(n > 1);
        assert(chunks[n - 2].1 == chunks[n - 1].0);
        lemma_find_chunk(chunks, rows, r, n - 1)
    }
}

/// The weights of a row: all of an entry as long as the row; else, with `per`
/// rows to an expert, row `j` of expert `e` has the weights from `e * row` on.
pub proof fn rows_have_their_experts_weights(len: int, row: int, per: int, e: int, j: int)
    requires
        per > 0,
        0 <= e,
        0 <= j < per,
    ensures
        weights_of(row, row, per, e * per + j) == (0int, row),
        len != row ==> weights_of(len, row, per, e * per + j) == (e * row, e * row + row),
        len != row ==> weights_of(len, row, 0, e) == (e * row, e * row + row),
{
    vstd::arithmetic::div_mod::lemma_fundamental_div_mod_converse(e * per + j, per, e, j);
    assert((e + 1) * row == e * row + row) by (nonlinear_arith);
}

/// What is written last is padded to a multiple of the alignment, anything
/// else to the offset of what follows.
pub proof fn the_next_start_is_planned(p: Plan, i: int, nbytes: int)
    requires
        0 <= i < p.tensors@.len(),
        p.align > 0,
    ensures
        i + 1 < p.tensors@.len() ==> next_start(p, i, nbytes) == p.tensors@[i + 1].out_off,
        i + 1 == p.tensors@.len() ==> {
            let end = p.tensors@[i].out_off + nbytes;
            next_start(p, i, nbytes) % (p.align as int) == 0 && end <= next_start(p, i, nbytes) < end
                + p.align
        },
{
    crate::layout::lemma_next_multiple(p.tensors@[i].out_off + nbytes, p.align as int);
}

/// Progress is due at the last tensor, and before it at every 50th, counted
/// from the first.
pub proof fn progress_is_due_every_fifty(i: int, n: int)
    requires
        0 <= i < n,
    ensures
        is_due(n - 1, n),
        is_due(0, n),
        i + 51 < n ==> is_due(i + 50, n) == is_due(i, n),
        0 < i < 50 && i + 1 < n ==> !is_due(i, n),
{
}

/// One more tensor adds its bytes to the total of its own type and to no
/// other, and makes its type occur.
pub proof fn a_tensor_counts_for_its_type(
    written: Seq<(TensorType, u64)>,
    ty: TensorType,
    x: (TensorType, u64),
)
    ensures
        bytes_in(Seq::empty(), ty, 0) == 0,
        !occurs(Seq::empty(), ty),
        bytes_in(written.push(x), ty, (written.len() + 1) as int) == bytes_in(
            written,
            ty,
            written.len() as int,
        ) + if x.0 == ty {
            x.1 as int
        } else {
            0
        },
        occurs(written.push(x), ty) <==> occurs(written, ty) || x.0 == ty,
{
    let more = written.push(x);
    lemma_bytes_prefix(written, x, ty, written.len() as int);
    if occurs(written, ty) {
        let i = choose|i: int| 0 <= i < written.len() && (#[trigger] written[i]).0 == ty;
        assert(more[i].0 == ty);
    }
    assert(more[written.len() as int] == x);
    if occurs(more, ty) && x.0 != ty {
        let i = choose|i: int| 0 <= i < more.len() && (#[trigger] more[i]).0 == ty;
        assert(written[i].0 == ty);
    }
}

proof fn lemma_bytes_prefix(
    written: Seq<(TensorType, u64)>,
    x: (TensorType, u64),
    ty: TensorType,
    n: int,
)
    requires
        n <= written.len(),
    ensures
        bytes_in(written.push(x), ty, n) == bytes_in(written, ty, n),
    decreases n,
{
    if n > 0 {
        lemma_bytes_prefix(written, x, ty, n - 1);
    }
}

/// Totals hold each type that occurs once, with its bytes, never a larger one
/// behind a smaller, and no type that does not occur.
pub proof fn totals_hold_each_type_once(
    totals: Seq<(TensorType, u64)>,
    written: Seq<(TensorType, u64)>,
    ty: TensorType,
    j: int,
    k: int,
)
    requires
        are_totals(totals, written),
        0 <= k < totals.len(),
    ensures
        0 <= j < k ==> totals[j].0 != totals[k].0 && totals[j].1 >= totals[k].1,
        totals[k].1 == bytes_in(written, totals[k].0, written.len() as int),
        occurs(written, totals[k].0),
        occurs(written, ty) ==> exists|m: int|
            0 <= m < totals.len() && (#[trigger] totals[m]).0 == ty,
{
}

/// No type that occurs is left out of the totals.
pub proof fn no_type_is_left_out(
    totals: Seq<(TensorType, u64)>,
    written: Seq<(TensorType, u64)>,
    ty: TensorType,
)
    requires
        are_totals(totals, written),
        occurs(written, ty),
    ensures
        exists|m: int|
            0 <= m < totals.len() && (#[trigger] totals[m]).0 == ty && totals[m].1 == bytes_in(
                written,
                ty,
                written.len() as int,
            ),
{
    let m = choose|m: int| 0 <= m < totals.len() && (#[trigger] totals[m]).0 == ty;
    assert(totals[m].0 == ty);
}

/// An offset is routed to one file: the last that starts at it or before. The
/// file's start and the offset in it make up the offset.
pub proof fn an_offset_has_one_file(
    bases: Seq<u64>,
    off: int,
    i: int,
    local: int,
    j: int,
)
    requires
        is_route(bases, off, i, local),
        forall|a: int, b: int| 0 <= a <= b < bases.len() ==> bases[a] <= bases[b],
        0 <= j < bases.len(),
    ensures
        bases[i] + local == off,
        local >= 0,
        bases[j] <= off <==> j <= i,
{
    if j > i {
        assert(bases[i + 1] <= bases[j]);
    } else {
        assert(bases[j] <= bases[i]);
    }
}

/// Sharing out gives no more chunks than threads, no chunk longer than the
/// smallest length that does, and every row to one of them.
pub proof fn rows_are_shared_out(
    chunks: Seq<(usize, usize)>,
    rows: int,
    threads: int,
    c: int,
    k: int,
)
    requires
        share_out(chunks, rows, threads),
        rows >= 0,
        threads > 0,
        0 <= c < chunks.len(),
        k * threads >= rows,
    ensures
        chunks.len() <= threads,
        chunks[0].0 == 0,
        chunks.last().1 == rows,
        0 < chunks[c].1 - chunks[c].0 <= k,
        c + 1 < chunks.len() ==> chunks[c].1 == chunks[c + 1].0 && (chunks[c].1 - chunks[c].0)
            * threads >= rows,
{
    chunks_are_as_small_as_can_be(rows, threads, k);
}

/// Padding leads from the last byte of a tensor to the start of the next, or,
/// behind the last, to the next multiple of the alignment; there is none to
/// write only where the tensor runs past that, or that past 64 bits.
pub proof fn padding_fills_the_gap(p: Plan, i: int, nbytes: int, pad: Option<u64>)
    requires
        is_padding(p, i, nbytes, pad),
        0 <= i < p.tensors@.len(),
        p.align > 0,
    ensures
        pad is Some && i + 1 < p.tensors@.len() ==> p.tensors@[i].out_off + nbytes + pad->0
            == p.tensors@[i + 1].out_off,
        pad is Some && i + 1 == p.tensors@.len() ==> pad->0 < p.align && (p.tensors@[i].out_off
            + nbytes + pad->0) % (p.align as int) == 0,
        pad is None && i + 1 < p.tensors@.len() ==> p.tensors@[i].out_off + nbytes
            > p.tensors@[i + 1].out_off,
{
    the_next_start_is_planned(p, i, nbytes);
}

} // verus!
