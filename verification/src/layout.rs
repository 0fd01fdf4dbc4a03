//! The layout of a quantized file: what each tensor becomes and where it
//! stands.

use vstd::prelude::*;

use crate::quantize::{pick, Choice, Fallback, TensorType};
use crate::text::{joined, owned};

verus! {

/// Something for each type that a tensor can be written in.
pub struct PerType<T> {
    pub single: T,
    pub half: T,
    pub q8_0: T,
    pub q2_k: T,
    pub q3_k: T,
    pub q4_k: T,
    pub q5_k: T,
    pub q6_k: T,
    pub iq2_xxs: T,
}

impl<T> PerType<T> {
    pub open spec fn at(&self, ty: TensorType) -> T {
        match ty {
            TensorType::F32 => self.single,
            TensorType::F16 => self.half,
            TensorType::Q8_0 => self.q8_0,
            TensorType::Q2K => self.q2_k,
            TensorType::Q3K => self.q3_k,
            TensorType::Q4K => self.q4_k,
            TensorType::Q5K => self.q5_k,
            TensorType::Q6K => self.q6_k,
            TensorType::IQ2XXS => self.iq2_xxs,
        }
    }

    /// What is held for a type.
    pub fn get(&self, ty: TensorType) -> (r: &T)
        ensures
            *r == self.at(ty),
    {
        match ty {
            TensorType::F32 => &self.single,
            TensorType::F16 => &self.half,
            TensorType::Q8_0 => &self.q8_0,
            TensorType::Q2K => &self.q2_k,
            TensorType::Q3K => &self.q3_k,
            TensorType::Q4K => &self.q4_k,
            TensorType::Q5K => &self.q5_k,
            TensorType::Q6K => &self.q6_k,
            TensorType::IQ2XXS => &self.iq2_xxs,
        }
    }
}

/// The types that a tensor can be read from.
#[derive(Clone, Copy, Debug, PartialEq, Eq, Structural)]
pub enum FloatType {
    F32,
    F16,
    BF16,
}

/// The type of a source tensor.
pub enum SourceType {
    Float(FloatType),
    /// Any other type, by its name.
    Other(String),
}

/// A tensor of the source file.
pub struct SourceTensor {
    pub name: String,
    pub dims: Vec<u64>,
    pub ty: SourceType,
    /// Where its data starts, in the source taken as one file.
    pub offset: u64,
    /// The bytes of one row in each target type, where the type has rows of
    /// this width.
    pub row_bytes: PerType<Option<u64>>,
    /// The length of its importance entry, where it has one.
    pub imatrix_len: Option<u64>,
}

/// A tensor of the output file.
pub struct OutTensor {
    pub name: String,
    pub dims: Vec<u64>,
    pub ty: TensorType,
    pub src_ty: FloatType,
    /// Where its data starts in the source.
    pub src_off: u64,
    /// Where its data starts, relative to the output's data section.
    pub out_off: u64,
    /// Why it is not in the type that the recipe asks for.
    pub fallback: Fallback,
}

/// The layout of an output file.
pub struct Plan {
    pub tensors: Vec<OutTensor>,
    pub align: u64,
    /// The length of the data section.
    pub data_len: u64,
}

/// Why there is no layout.
pub enum PlanError {
    /// A source tensor that is not in a float type.
    NotFloat(String),
    /// A tensor whose row has no size in its type.
    RowBytes,
    /// A size or an offset that does not fit in 64 bits.
    TooLarge,
}

/// The first source tensor that there is no layout for, by its position, and
/// why.
pub struct PlanFailure {
    pub at: usize,
    pub error: PlanError,
}

impl PlanError {
    pub open spec fn text(&self) -> Seq<char> {
        match self {
            PlanError::NotFloat(m) => m@,
            PlanError::RowBytes => "row_bytes"@,
            PlanError::TooLarge => "tensor sizes overflow"@,
        }
    }

    /// The error as a message for people.
    pub fn message(&self) -> (m: String)
        ensures
            m@ == self.text(),
    {
        match self {
            PlanError::NotFloat(m) => owned(m.as_str()),
            PlanError::RowBytes => owned("row_bytes"),
            PlanError::TooLarge => owned("tensor sizes overflow"),
        }
    }
}

/// The smallest multiple of `a` that is not below `x`.
pub open spec fn next_multiple(x: int, a: int) -> int {
    if x % a == 0 {
        x
    } else {
        x + a - x % a
    }
}

/// The smallest multiple of `a` that is not below `x`, where it fits.
pub fn next_multiple_of(x: u64, a: u64) -> (r: Option<u64>)
    requires
        a > 0,
    ensures
        match r {
            Some(m) => m == next_multiple(x as int, a as int),
            None => next_multiple(x as int, a as int) > u64::MAX,
        },
{
    let rem: u64 = x % a;
    if rem == 0 {
        Some(x)
    } else {
        x.checked_add(a - rem)
    }
}

/// The number of rows in `dims[1..n]`.
pub open spec fn rows_below(dims: Seq<u64>, n: int) -> int
    decreases n,
{
    if n <= 1 {
        1
    } else {
        rows_below(dims, n - 1) * dims[n - 1]
    }
}

/// Whether the rows can be counted in 64 bits, dimension by dimension.
pub open spec fn rows_fit(dims: Seq<u64>) -> bool {
    forall|n: int| 0 <= n <= dims.len() ==> #[trigger] rows_below(dims, n) <= u64::MAX
}

/// The number of rows of a tensor: the product of all dimensions but the
/// first, at least 1.
pub open spec fn rows_of(dims: Seq<u64>) -> int {
    let n = rows_below(dims, dims.len() as int);
    if n < 1 {
        1
    } else {
        n
    }
}

/// The width of a tensor's rows.
pub open spec fn row_of(dims: Seq<u64>) -> u64 {
    if dims.len() == 0 {
        1
    } else {
        dims[0]
    }
}

/// How many experts a tensor holds.
pub open spec fn experts_of(dims: Seq<u64>) -> u64 {
    if dims.len() > 2 {
        dims[2]
    } else {
        1
    }
}

/// Whether an importance entry has a weight for each column, or one for each
/// column of each expert.
pub open spec fn usable_imatrix(len: Option<u64>, dims: Seq<u64>) -> bool {
    match len {
        Some(n) => n == row_of(dims) || n == row_of(dims) * experts_of(dims),
        None => false,
    }
}

/// The type that a tensor gets. Without a usable importance entry iq2_xxs
/// becomes q2_k.
pub open spec fn chosen(
    t: SourceTensor,
    maps: Seq<(Seq<char>, TensorType)>,
    default_ty: TensorType,
) -> Choice {
    let c = crate::quantize::picked(t.name@, t.dims@, maps, default_ty);
    if c.ty == TensorType::IQ2XXS && !usable_imatrix(t.imatrix_len, t.dims@) {
        Choice { ty: TensorType::Q2K, fallback: Fallback::NoImatrix }
    } else {
        c
    }
}

/// A recipe and the alignment of the file that it is used on.
pub struct Recipe {
    pub maps: Seq<(Seq<char>, TensorType)>,
    pub default_ty: TensorType,
    pub align: int,
}

/// The bytes of one row of a tensor, in the type that it gets.
pub open spec fn row_size(t: SourceTensor, recipe: Recipe) -> Option<u64> {
    t.row_bytes.at(chosen(t, recipe.maps, recipe.default_ty).ty)
}

/// The bytes of a tensor, in the type that it gets.
pub open spec fn size_of(t: SourceTensor, recipe: Recipe) -> int {
    row_size(t, recipe).unwrap_or(0) * rows_of(t.dims@)
}

/// Where tensor `i` starts: one after the other, each aligned.
pub open spec fn offset_of(ts: Seq<SourceTensor>, recipe: Recipe, i: int) -> int
    decreases i,
{
    if i <= 0 {
        0
    } else {
        next_multiple(
            offset_of(ts, recipe, i - 1) + size_of(ts[i - 1], recipe),
            recipe.align,
        )
    }
}

/// What keeps tensor `i` out of a layout.
pub enum Obstacle {
    NotFloat,
    RowBytes,
    TooLarge,
}

pub open spec fn obstacle_at(ts: Seq<SourceTensor>, recipe: Recipe, i: int) -> Option<Obstacle> {
    if ts[i].ty is Other {
        Some(Obstacle::NotFloat)
    } else if !rows_fit(ts[i].dims@) {
        Some(Obstacle::TooLarge)
    } else if row_size(ts[i], recipe) is None {
        Some(Obstacle::RowBytes)
    } else if offset_of(ts, recipe, i + 1) > u64::MAX {
        Some(Obstacle::TooLarge)
    } else {
        None
    }
}

/// Whether `e` says what keeps `t` out.
pub open spec fn reports(e: PlanError, t: SourceTensor, o: Obstacle) -> bool {
    match o {
        Obstacle::NotFloat => e is NotFloat && e.text() == t.name@ + ": source type "@
            + t.ty->Other_0@ + " is not a float type"@,
        Obstacle::RowBytes => e is RowBytes,
        Obstacle::TooLarge => e is TooLarge,
    }
}

/// Whether `out` is `t` as a recipe writes it, at `off`.
pub open spec fn is_output(out: OutTensor, t: SourceTensor, recipe: Recipe, off: int) -> bool {
    let c = chosen(t, recipe.maps, recipe.default_ty);
    &&& out.name@ == t.name@
    &&& out.dims@ == t.dims@
    &&& out.ty == c.ty
    &&& out.fallback == c.fallback
    &&& t.ty == SourceType::Float(out.src_ty)
    &&& out.src_off == t.offset
    &&& out.out_off == off
}

/// The alignment that a file is written with.
pub open spec fn align_of(alignment: u64) -> u64 {
    if alignment > 32 {
        alignment
    } else {
        32
    }
}

/// The next multiple is a multiple, and less than one step away.
pub proof fn lemma_next_multiple(x: int, a: int)
    requires
        a > 0,
    ensures
        next_multiple(x, a) % a == 0,
        x <= next_multiple(x, a) < x + a,
{
    if x % a != 0 {
        let q = x / a;
        assert(x == a * q + x % a) by (nonlinear_arith)
            requires
                a > 0,
                q == x / a,
        ;
        assert((x + a - x % a) % a == 0) by (nonlinear_arith)
            requires
                a > 0,
                x == a * q + x % a,
        {
            assert(x + a - x % a == a * (q + 1));
            vstd::arithmetic::div_mod::lemma_mod_multiples_basic(q + 1, a);
        }
    }
}

/// The number of rows of a tensor, where it fits.
pub fn row_count(dims: &Vec<u64>) -> (r: Option<u64>)
    ensures
        match r {
            Some(n) => rows_fit(dims@) && n == rows_of(dims@),
            None => !rows_fit(dims@),
        },
{
    let mut n: u64 = 1;
    let mut i: usize = 1;
    while i < dims.len()
        invariant
            1 <= i,
            i <= dims@.len() || i == 1,
            n == rows_below(dims@, i as int),
            forall|k: int| 0 <= k <= i ==> #[trigger] rows_below(dims@, k) <= u64::MAX,
        decreases dims@.len() - i,
    {
        assert(rows_below(dims@, i + 1) == rows_below(dims@, i as int) * dims@[i as int]);
        match n.checked_mul(dims[i]) {
            Some(m) => {
                n = m;
            },
            None => {
                assert(rows_below(dims@, i + 1) > u64::MAX);
                return None;
            },
        }
        i += 1;
    }
    assert(rows_below(dims@, 0) == 1 && rows_below(dims@, 1) == 1);
    assert(rows_fit(dims@));
    Some(
        if n < 1 {
            1
        } else {
            n
        },
    )
}

fn imatrix_ok(len: Option<u64>, dims: &Vec<u64>) -> (r: bool)
    ensures
        r == usable_imatrix(len, dims@),
{
    match len {
        Some(n) => {
            let row: u64 = if dims.len() == 0 {
                1
            } else {
                dims[0]
            };
            let experts: u64 = if dims.len() > 2 {
                dims[2]
            } else {
                1
            };
            n == row || match row.checked_mul(experts) {
                Some(m) => n == m,
                None => false,
            }
        },
        None => false,
    }
}

/// The type that a tensor gets.
pub fn choose_type(t: &SourceTensor, maps: &Vec<(String, TensorType)>, default_ty: TensorType) -> (c:
    Choice)
    ensures
        c == chosen(*t, crate::options::map_views(maps@), default_ty),
{
    let c: Choice = pick(t.name.as_str(), &t.dims, maps, default_ty);
    if c.ty == TensorType::IQ2XXS && !imatrix_ok(t.imatrix_len, &t.dims) {
        Choice { ty: TensorType::Q2K, fallback: Fallback::NoImatrix }
    } else {
        c
    }
}

fn not_float(name: &str, ty: &str) -> (e: PlanError)
    ensures
        e is NotFloat,
        e.text() == name@ + ": source type "@ + ty@ + " is not a float type"@,
{
    let mut m: String = joined(name, ": source type ");
    m.append(ty);
    m.append(" is not a float type");
    assert(m@ =~= name@ + ": source type "@ + ty@ + " is not a float type"@);
    PlanError::NotFloat(m)
}

/// Whether a plan is the layout of some tensors.
pub open spec fn is_plan(p: Plan, ts: Seq<SourceTensor>, recipe: Recipe) -> bool {
    &&& forall|i: int| 0 <= i < ts.len() ==> #[trigger] obstacle_at(ts, recipe, i) is None
    &&& p.tensors@.len() == ts.len()
    &&& forall|i: int|
        0 <= i < ts.len() ==> is_output(
            #[trigger] p.tensors@[i],
            ts[i],
            recipe,
            offset_of(ts, recipe, i),
        )
    &&& p.align == recipe.align
    &&& p.data_len == offset_of(ts, recipe, ts.len() as int)
}

/// Whether a failure is that of some tensors: its place is the first that has
/// an obstacle, and it reports that.
pub open spec fn is_failure(f: PlanFailure, ts: Seq<SourceTensor>, recipe: Recipe) -> bool {
    let o = obstacle_at(ts, recipe, f.at as int);
    &&& f.at < ts.len()
    &&& o is Some
    &&& reports(f.error, ts[f.at as int], o->Some_0)
    &&& forall|j: int| 0 <= j < f.at ==> #[trigger] obstacle_at(ts, recipe, j) is None
}

/// Lays the output file out: picks each tensor's type and places it behind
/// the one before it.
pub fn plan_tensors(
    tensors: &Vec<SourceTensor>,
    alignment: u64,
    maps: &Vec<(String, TensorType)>,
    default_ty: TensorType,
) -> (r: Result<Plan, PlanFailure>)
    ensures
        ({
            let recipe = Recipe {
                maps: crate::options::map_views(maps@),
                default_ty,
                align: align_of(alignment) as int,
            };
            let ts = tensors@;
            match r {
                Ok(p) => {
                    &&& forall|i: int|
                        0 <= i < ts.len() ==> #[trigger] obstacle_at(ts, recipe, i) is None
                    &&& p.tensors@.len() == ts.len()
                    &&& forall|i: int|
                        0 <= i < ts.len() ==> is_output(
                            #[trigger] p.tensors@[i],
                            ts[i],
                            recipe,
                            offset_of(ts, recipe, i),
                        )
                    &&& p.align == recipe.align
                    &&& p.data_len == offset_of(ts, recipe, ts.len() as int)
                },
                Err(f) => {
                    let o = obstacle_at(ts, recipe, f.at as int);
                    &&& f.at < ts.len()
                    &&& o is Some
                    &&& reports(f.error, ts[f.at as int], o->Some_0)
                    &&& forall|j: int|
                        0 <= j < f.at ==> #[trigger] obstacle_at(ts, recipe, j) is None
                },
            }
        }),
        ({
            let recipe = Recipe {
                maps: crate::options::map_views(maps@),
                default_ty,
                align: align_of(alignment) as int,
            };
            match r {
                Ok(p) => is_plan(p, tensors@, recipe),
                Err(f) => is_failure(f, tensors@, recipe),
            }
        }),
{
    let align: u64 = if alignment > 32 {
        alignment
    } else {
        32
    };
    let ghost recipe = Recipe {
        maps: crate::options::map_views(maps@),
        default_ty,
        align: align as int,
    };
    let ghost ts = tensors@;
    let mut out: Vec<OutTensor> = Vec::new();
    let mut off: u64 = 0;
    let mut i: usize = 0;
    while i < tensors.len()
        invariant
            i <= ts.len(),
            ts == tensors@,
            align > 0,
            align == align_of(alignment),
            recipe == (Recipe {
                maps: crate::options::map_views(maps@),
                default_ty,
                align: align as int,
            }),
            off == offset_of(ts, recipe, i as int),
            out@.len() == i,
            forall|j: int| 0 <= j < i ==> #[trigger] obstacle_at(ts, recipe, j) is None,
            forall|j: int|
                0 <= j < i ==> is_output(
                    #[trigger] out@[j],
                    ts[j],
                    recipe,
                    offset_of(ts, recipe, j),
                ),
        decreases ts.len() - i,
    {
        let t: &SourceTensor = &tensors[i];
        let ghost here = obstacle_at(ts, recipe, i as int);
        let src_ty: FloatType = match &t.ty {
            SourceType::Float(f) => *f,
            SourceType::Other(name) => {
                let e: PlanError = not_float(t.name.as_str(), name.as_str());
                assert(here == Some(Obstacle::NotFloat));
                return Err(PlanFailure { at: i, error: e });
            },
        };
        let c: Choice = choose_type(t, maps, default_ty);
        let rows: u64 = match row_count(&t.dims) {
            Some(n) => n,
            None => {
                assert(here == Some(Obstacle::TooLarge));
                return Err(PlanFailure { at: i, error: PlanError::TooLarge });
            },
        };
        let row_bytes: u64 = match t.row_bytes.get(c.ty) {
            Some(n) => *n,
            None => {
                assert(here == Some(Obstacle::RowBytes));
                return Err(PlanFailure { at: i, error: PlanError::RowBytes });
            },
        };
        proof {
            assert(size_of(ts[i as int], recipe) == row_bytes * rows);
            assert(row_bytes * rows >= 0) by (nonlinear_arith);
            lemma_next_multiple(off + row_bytes * rows, align as int);
        }
        let next: Option<u64> = match row_bytes.checked_mul(rows) {
            Some(bytes) => match off.checked_add(bytes) {
                Some(end) => next_multiple_of(end, align),
                None => None,
            },
            None => None,
        };
        match next {
            Some(n) => {
                let dims: Vec<u64> = t.dims.clone();
                assert(dims@ =~= t.dims@);
                out.push(
                    OutTensor {
                        name: t.name.clone(),
                        dims,
                        ty: c.ty,
                        src_ty,
                        src_off: t.offset,
                        out_off: off,
                        fallback: c.fallback,
                    },
                );
                off = n;
            },
            None => {
                assert(here == Some(Obstacle::TooLarge));
                return Err(PlanFailure { at: i, error: PlanError::TooLarge });
            },
        }
        i += 1;
    }
    Ok(Plan { tensors: out, align, data_len: off })
}

/// Every tensor starts at a multiple of the alignment.
pub proof fn offsets_are_aligned(ts: Seq<SourceTensor>, recipe: Recipe, i: int)
    requires
        recipe.align > 0,
    ensures
        offset_of(ts, recipe, i) % recipe.align == 0,
{
    if i > 0 {
        lemma_next_multiple(
            offset_of(ts, recipe, i - 1) + size_of(ts[i - 1], recipe),
            recipe.align,
        );
    } else {
        assert(0int % recipe.align == 0) by (nonlinear_arith)
            requires
                recipe.align > 0,
        ;
    }
}

/// A tensor ends before the next one starts, and less than one alignment
/// before it.
pub proof fn padding_is_short(ts: Seq<SourceTensor>, recipe: Recipe, i: int)
    requires
        recipe.align > 0,
        0 <= i,
    ensures
        offset_of(ts, recipe, i) + size_of(ts[i], recipe) <= offset_of(ts, recipe, i + 1)
            < offset_of(ts, recipe, i) + size_of(ts[i], recipe) + recipe.align,
{
    lemma_next_multiple(offset_of(ts, recipe, i) + size_of(ts[i], recipe), recipe.align);
}

/// No two tensors share a byte of the data section.
pub proof fn tensors_do_not_overlap(ts: Seq<SourceTensor>, recipe: Recipe, i: int, j: int)
    requires
        recipe.align > 0,
        0 <= i < j,
    ensures
        offset_of(ts, recipe, i) + size_of(ts[i], recipe) <= offset_of(ts, recipe, j),
    decreases j,
{
    padding_is_short(ts, recipe, j - 1);
    if i < j - 1 {
        tensors_do_not_overlap(ts, recipe, i, j - 1);
        let rb = row_size(ts[j - 1], recipe).unwrap_or(0);
        let n = rows_of(ts[j - 1].dims@);
        assert(rb * n >= 0) by (nonlinear_arith)
            requires
                rb >= 0,
                n >= 1,
        ;
    }
}

/// A data section that starts at a multiple of the alignment has every
/// tensor at one, counted from the start of the file.
pub proof fn tensor_data_is_aligned(ts: Seq<SourceTensor>, recipe: Recipe, head: int, i: int)
    requires
        recipe.align > 0,
    ensures
        (next_multiple(head, recipe.align) + offset_of(ts, recipe, i)) % recipe.align == 0,
{
    offsets_are_aligned(ts, recipe, i);
    lemma_next_multiple(head, recipe.align);
    let a = next_multiple(head, recipe.align);
    let b = offset_of(ts, recipe, i);
    vstd::arithmetic::div_mod::lemma_add_mod_noop(a, b, recipe.align);
    vstd::arithmetic::div_mod::lemma_mod_self_0(recipe.align);
    assert(0int % recipe.align == 0) by (nonlinear_arith)
        requires
            recipe.align > 0,
    ;
}

/// Every type has its own place in a table.
pub proof fn each_type_has_its_own_place<T>(p: PerType<T>)
    ensures
        p.at(TensorType::F32) == p.single,
        p.at(TensorType::F16) == p.half,
        p.at(TensorType::Q8_0) == p.q8_0,
        p.at(TensorType::Q2K) == p.q2_k,
        p.at(TensorType::Q3K) == p.q3_k,
        p.at(TensorType::Q4K) == p.q4_k,
        p.at(TensorType::Q5K) == p.q5_k,
        p.at(TensorType::Q6K) == p.q6_k,
        p.at(TensorType::IQ2XXS) == p.iq2_xxs,
{
}

proof fn lemma_rows_positive(dims: Seq<u64>, n: int)
    requires
        n <= dims.len(),
        forall|i: int| 1 <= i < n ==> #[trigger] dims[i] > 0,
    ensures
        rows_below(dims, n) >= 1,
    decreases n,
{
    if n > 1 {
        lemma_rows_positive(dims, n - 1);
        let a = rows_below(dims, n - 1);
        let b = dims[n - 1] as int;
        assert(a * b >= 1) by (nonlinear_arith)
            requires
                a >= 1,
                b >= 1,
        ;
    }
}

proof fn lemma_rows_zero(dims: Seq<u64>, n: int, i: int)
    requires
        1 <= i < n <= dims.len(),
        dims[i] == 0,
    ensures
        rows_below(dims, n) == 0,
    decreases n,
{
    let a = rows_below(dims, n - 1);
    let b = dims[n - 1] as int;
    if i < n - 1 {
        lemma_rows_zero(dims, n - 1, i);
        assert(0 * b == 0) by (nonlinear_arith);
    } else {
        assert(a * 0 == 0) by (nonlinear_arith);
    }
}

proof fn lemma_rows_prefix(dims: Seq<u64>, x: u64, n: int)
    requires
        n <= dims.len(),
    ensures
        rows_below(dims.push(x), n) == rows_below(dims, n),
    decreases n,
{
    if n > 1 {
        lemma_rows_prefix(dims, x, n - 1);
    }
}

proof fn lemma_rows_grow(dims: Seq<u64>, m: int, n: int)
    requires
        m <= n <= dims.len(),
        forall|i: int| 1 <= i < n ==> #[trigger] dims[i] > 0,
    ensures
        rows_below(dims, m) <= rows_below(dims, n),
    decreases n - m,
{
    if m < n {
        lemma_rows_grow(dims, m, n - 1);
        lemma_rows_positive(dims, n - 1);
        let a = rows_below(dims, n - 1);
        let b = dims[n - 1] as int;
        if n > 1 {
            assert(a * b >= a) by (nonlinear_arith)
                requires
                    a >= 1,
                    b >= 1,
            ;
        }
    }
}

/// A tensor with one dimension has one row; one more dimension has as many
/// rows for each that was there, and a dimension of nothing leaves one row.
pub proof fn rows_multiply(dims: Seq<u64>, x: u64)
    requires
        dims.len() >= 1,
    ensures
        dims.len() == 1 ==> rows_of(dims) == 1,
        x > 0 && (forall|i: int| 1 <= i < dims.len() ==> #[trigger] dims[i] > 0) ==> rows_of(
            dims.push(x),
        ) == rows_of(dims) * x,
        x == 0 || (exists|i: int| 1 <= i < dims.len() && #[trigger] dims[i] == 0) ==> rows_of(
            dims.push(x),
        ) == 1,
{
    let n = dims.len() as int;
    let more = dims.push(x);
    lemma_rows_prefix(dims, x, n);
    assert(rows_below(more, n + 1) == rows_below(dims, n) * x);
    if x == 0 || exists|i: int| 1 <= i < dims.len() && #[trigger] dims[i] == 0 {
        if x == 0 {
            lemma_rows_zero(more, n + 1, n);
        } else {
            let i = choose|i: int| 1 <= i < dims.len() && #[trigger] dims[i] == 0;
            assert(more[i] == 0);
            lemma_rows_zero(more, n + 1, i);
        }
    } else if forall|i: int| 1 <= i < dims.len() ==> #[trigger] dims[i] > 0 {
        lemma_rows_positive(dims, n);
        assert forall|i: int| 1 <= i < n + 1 implies #[trigger] more[i] > 0 by {
            if i < n {
                assert(dims[i] > 0);
            }
        }
        lemma_rows_positive(more, n + 1);
    }
}

/// Where no dimension is nothing, the rows can be counted exactly if their
/// number fits in 64 bits.
pub proof fn rows_fit_where_their_number_does(dims: Seq<u64>)
    requires
        forall|i: int| 1 <= i < dims.len() ==> #[trigger] dims[i] > 0,
    ensures
        rows_fit(dims) <==> rows_of(dims) <= u64::MAX,
{
    let len = dims.len() as int;
    lemma_rows_positive(dims, len);
    if rows_of(dims) <= u64::MAX {
        assert forall|n: int| 0 <= n <= dims.len() implies #[trigger] rows_below(dims, n)
            <= u64::MAX by {
            lemma_rows_grow(dims, n, len);
        }
    } else {
        assert(rows_below(dims, len) > u64::MAX);
    }
}

/// An importance entry is usable with one weight for each column, or, where
/// there is a third dimension, with one for each column of each of so many
/// experts. No entry is not usable.
pub proof fn imatrix_has_a_weight_for_each_column(n: u64, dims: Seq<u64>)
    requires
        dims.len() >= 1,
    ensures
        usable_imatrix(Some(n), dims) <==> n == dims[0] || dims.len() >= 3 && n == dims[0]
            * dims[2],
        !usable_imatrix(None, dims),
{
    let row = dims[0] as int;
    assert(row * 1 == row) by (nonlinear_arith);
}

/// A tensor gets the picked type, except that iq2_xxs without a usable
/// importance entry becomes q2_k and is reported.
pub proof fn iq2_needs_its_weights(
    t: SourceTensor,
    maps: Seq<(Seq<char>, TensorType)>,
    default_ty: TensorType,
)
    ensures
        ({
            let p = crate::quantize::picked(t.name@, t.dims@, maps, default_ty);
            let c = chosen(t, maps, default_ty);
            &&& p.ty != TensorType::IQ2XXS || usable_imatrix(t.imatrix_len, t.dims@) ==> c == p
            &&& p.ty == TensorType::IQ2XXS && !usable_imatrix(t.imatrix_len, t.dims@) ==> c.ty
                == TensorType::Q2K && c.fallback == Fallback::NoImatrix
            &&& c.ty == TensorType::IQ2XXS ==> usable_imatrix(t.imatrix_len, t.dims@)
            &&& c.fallback == Fallback::NoImatrix ==> p.ty == TensorType::IQ2XXS
        }),
{
}

/// A tensor takes as many bytes as its rows do in the type that it gets; the
/// first starts the data section; and what a file aligns to is at least 32.
pub proof fn sizes_and_starts(ts: Seq<SourceTensor>, recipe: Recipe, t: SourceTensor, a: u64)
    ensures
        t.row_bytes.at(chosen(t, recipe.maps, recipe.default_ty).ty) matches Some(n) ==> size_of(
            t,
            recipe,
        ) == n * rows_of(t.dims@),
        offset_of(ts, recipe, 0) == 0,
        align_of(a) >= 32,
        align_of(a) >= a,
        align_of(a) == 32 || align_of(a) == a,
{
}

/// A tensor is in a layout exactly if it is in a float type, its rows can be
/// counted, its rows have a size in the type that it gets, and the place
/// behind it can still be told in 64 bits. What is reported else is the first
/// of these that fails.
pub proof fn what_keeps_a_tensor_out(ts: Seq<SourceTensor>, recipe: Recipe, i: int)
    ensures
        ({
            let t = ts[i];
            let size = t.row_bytes.at(chosen(t, recipe.maps, recipe.default_ty).ty);
            let o = obstacle_at(ts, recipe, i);
            &&& o is None <==> t.ty is Float && rows_fit(t.dims@) && size is Some && offset_of(
                ts,
                recipe,
                i + 1,
            ) <= u64::MAX
            &&& o == Some(Obstacle::NotFloat) <==> t.ty is Other
            &&& o == Some(Obstacle::RowBytes) <==> t.ty is Float && rows_fit(t.dims@) && size
                is None
        }),
{
}

/// An output tensor is its source tensor under the same name, with the same
/// dimensions, from the same place, in the type that the recipe gives it, with
/// the reason for it, at its offset.
pub proof fn an_output_is_its_source(out: OutTensor, t: SourceTensor, recipe: Recipe, off: int)
    requires
        is_output(out, t, recipe, off),
    ensures
        out.name@ == t.name@,
        out.dims@ == t.dims@,
        out.src_off == t.offset,
        t.ty == SourceType::Float(out.src_ty),
        out.ty == chosen(t, recipe.maps, recipe.default_ty).ty,
        out.fallback == chosen(t, recipe.maps, recipe.default_ty).fallback,
        out.out_off == off,
{
}

/// A report fits its obstacle, and names the tensor and its type where the
/// type is the obstacle.
pub proof fn reports_fit_their_obstacles(e: PlanError, t: SourceTensor)
    ensures
        reports(e, t, Obstacle::RowBytes) <==> e is RowBytes,
        reports(e, t, Obstacle::TooLarge) <==> e is TooLarge,
        reports(e, t, Obstacle::NotFloat) ==> e is NotFloat && e.text() == t.name@
            + ": source type "@ + t.ty->Other_0@ + " is not a float type"@,
        e is RowBytes ==> e.text() == "row_bytes"@,
        e is TooLarge ==> e.text() == "tensor sizes overflow"@,
        e matches PlanError::NotFloat(m) ==> e.text() == m@,
{
}

/// A plan has each tensor of the source, in order, at a place of its own: the
/// first at 0, each at a multiple of the alignment, behind all the bytes of
/// the one before it and less than one alignment behind them; the data end
/// where the next tensor would start.
pub proof fn a_plan_places_every_tensor(
    p: Plan,
    ts: Seq<SourceTensor>,
    recipe: Recipe,
    i: int,
)
    requires
        is_plan(p, ts, recipe),
        recipe.align > 0,
        0 <= i < ts.len(),
    ensures
        p.align == recipe.align,
        p.tensors@.len() == ts.len(),
        p.tensors@[0].out_off == 0,
        p.tensors@[i].out_off as int % recipe.align == 0,
        ({
            let t = ts[i];
            let out = p.tensors@[i];
            let n = t.row_bytes.at(chosen(t, recipe.maps, recipe.default_ty).ty)->0 * rows_of(
                t.dims@,
            );
            let next = if i + 1 < ts.len() {
                p.tensors@[i + 1].out_off
            } else {
                p.data_len
            };
            &&& out.out_off + n <= next < out.out_off + n + recipe.align
            &&& next as int % recipe.align == 0
            &&& out.name@ == t.name@
            &&& out.dims@ == t.dims@
            &&& out.ty == chosen(t, recipe.maps, recipe.default_ty).ty
            &&& t.ty == SourceType::Float(out.src_ty)
            &&& out.src_off == t.offset
        }),
{
    assert(obstacle_at(ts, recipe, i) is None);
    assert(is_output(p.tensors@[0], ts[0], recipe, offset_of(ts, recipe, 0)));
    assert(is_output(p.tensors@[i], ts[i], recipe, offset_of(ts, recipe, i)));
    if i + 1 < ts.len() {
        assert(is_output(p.tensors@[i + 1], ts[i + 1], recipe, offset_of(ts, recipe, i + 1)));
    }
    offsets_are_aligned(ts, recipe, i);
    offsets_are_aligned(ts, recipe, i + 1);
    padding_is_short(ts, recipe, i);
}

/// There is a plan or a failure for some tensors, never both, and a failure
/// is of the first tensor that cannot be placed.
pub proof fn a_plan_or_a_failure(
    p: Plan,
    f: PlanFailure,
    ts: Seq<SourceTensor>,
    recipe: Recipe,
    j: int,
)
    ensures
        !(is_plan(p, ts, recipe) && is_failure(f, ts, recipe)),
        is_failure(f, ts, recipe) && 0 <= j < f.at ==> obstacle_at(ts, recipe, j) is None,
        is_failure(f, ts, recipe) ==> f.at < ts.len() && obstacle_at(ts, recipe, f.at as int)
            is Some && (f.error is NotFloat <==> ts[f.at as int].ty is Other),
{
    if is_plan(p, ts, recipe) && is_failure(f, ts, recipe) {
        assert(obstacle_at(ts, recipe, f.at as int) is None);
    }
}

/// One more dimension can be counted exactly if those before it can and the
/// product with it fits; no dimension, and one, always can and have one row.
pub proof fn rows_fit_dimension_by_dimension(dims: Seq<u64>, x: u64)
    ensures
        dims.len() == 0 ==> rows_of(dims) == 1 && rows_fit(dims) && rows_fit(dims.push(x)),
        dims.len() >= 1 ==> (rows_fit(dims.push(x)) <==> rows_fit(dims) && rows_below(
            dims,
            dims.len() as int,
        ) * x <= u64::MAX),
{
    let more = dims.push(x);
    let len = dims.len() as int;
    if dims.len() == 0 {
        assert(rows_below(more, 0) == 1 && rows_below(more, 1) == 1);
    } else {
        lemma_rows_prefix(dims, x, len);
        assert(rows_below(more, len + 1) == rows_below(dims, len) * x);
        if rows_fit(more) {
            assert forall|n: int| 0 <= n <= len implies #[trigger] rows_below(dims, n)
                <= u64::MAX by {
                lemma_rows_prefix(dims, x, n);
                assert(rows_below(more, n) <= u64::MAX);
            }
            assert(rows_below(more, len + 1) <= u64::MAX);
        }
        if rows_fit(dims) && rows_below(dims, len) * x <= u64::MAX {
            assert forall|n: int| 0 <= n <= len + 1 implies #[trigger] rows_below(more, n)
                <= u64::MAX by {
                if n <= len {
                    lemma_rows_prefix(dims, x, n);
                    assert(rows_below(dims, n) <= u64::MAX);
                }
            }
        }
    }
}

} // verus!
