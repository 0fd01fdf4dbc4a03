//! The recipe of a quantization run: target types, command line, and which
//! tensor becomes what.
//!
//! Recipe rules: `--map pat=type` (repeatable, comma-separable) matches by
//! substring against the tensor name, first match wins; `--default` covers
//! unmatched 2D+ tensors. 1D tensors (norms, biases) always stay f32.
//! K-quant targets need row width % 256 == 0; offenders fall back to q8_0
//! (width % 32) or f16.

use vstd::prelude::*;

use crate::text::{str_eq, to_chars};

verus! {

/// The types that a tensor can be written in.
#[derive(Clone, Copy, Debug, PartialEq, Eq, Structural)]
pub enum TensorType {
    F32,
    F16,
    Q8_0,
    Q2K,
    Q3K,
    Q4K,
    Q5K,
    Q6K,
    IQ2XXS,
}

/// A character, an ASCII capital as its small letter.
pub open spec fn lower(c: char) -> char {
    if 'A' <= c && c <= 'Z' {
        (c as u32 + 32) as char
    } else {
        c
    }
}

/// A string with its ASCII capitals as small letters.
pub open spec fn lowered(s: Seq<char>) -> Seq<char> {
    s.map_values(|c: char| lower(c))
}

/// The type that a small-letter name stands for.
pub open spec fn type_named(s: Seq<char>) -> Option<TensorType> {
    if s == "q8_0"@ {
        Some(TensorType::Q8_0)
    } else if s == "q2_k"@ {
        Some(TensorType::Q2K)
    } else if s == "q3_k"@ {
        Some(TensorType::Q3K)
    } else if s == "q4_k"@ {
        Some(TensorType::Q4K)
    } else if s == "q5_k"@ {
        Some(TensorType::Q5K)
    } else if s == "q6_k"@ {
        Some(TensorType::Q6K)
    } else if s == "iq2_xxs"@ {
        Some(TensorType::IQ2XXS)
    } else if s == "f16"@ {
        Some(TensorType::F16)
    } else if s == "f32"@ {
        Some(TensorType::F32)
    } else {
        None
    }
}

/// What is said of a name that stands for no type.
pub open spec fn unknown_type(s: Seq<char>) -> Seq<char> {
    "unknown target type "@ + lowered(s) + " (stage 1: q8_0 q2_k..q6_k f16 f32)"@
}

fn to_ascii_lowercase(s: &str) -> (r: String)
    ensures
        r@ == lowered(s@),
{
    let mut r: String = String::new();
    for c in it: s.chars()
        invariant
            it.seq() == s@,
            r@ == lowered(s@.take(it.index())),
    {
        let small: char = if 'A' <= c && c <= 'Z' {
            proof {
                vstd::utf8::char_u32_cast(c, c as u32);
            }
            match char::from_u32(c as u32 + 32) {
                Some(d) => d,
                None => c,
            }
        } else {
            c
        };
        r.push(small);
        assert(r@ =~= lowered(s@.take(it.index() + 1)));
    }
    assert(s@.take(s@.len() as int) =~= s@);
    r
}

/// The target type of a name, in capitals or small letters.
pub fn parse_type(s: &str) -> (r: Result<TensorType, String>)
    ensures
        match r {
            Ok(ty) => type_named(lowered(s@)) == Some(ty),
            Err(e) => type_named(lowered(s@)) is None && e@ == unknown_type(s@),
        },
{
    let name: String = to_ascii_lowercase(s);
    let n: &str = name.as_str();
    if str_eq(n, "q8_0") {
        Ok(TensorType::Q8_0)
    } else if str_eq(n, "q2_k") {
        Ok(TensorType::Q2K)
    } else if str_eq(n, "q3_k") {
        Ok(TensorType::Q3K)
    } else if str_eq(n, "q4_k") {
        Ok(TensorType::Q4K)
    } else if str_eq(n, "q5_k") {
        Ok(TensorType::Q5K)
    } else if str_eq(n, "q6_k") {
        Ok(TensorType::Q6K)
    } else if str_eq(n, "iq2_xxs") {
        Ok(TensorType::IQ2XXS)
    } else if str_eq(n, "f16") {
        Ok(TensorType::F16)
    } else if str_eq(n, "f32") {
        Ok(TensorType::F32)
    } else {
        let mut e: String = String::new();
        e.append("unknown target type ");
        e.append(n);
        e.append(" (stage 1: q8_0 q2_k..q6_k f16 f32)");
        assert(e@ =~= unknown_type(s@));
        Err(e)
    }
}

/// Whether `p` stands in `s` at position `i`.
pub open spec fn occurs_at(s: Seq<char>, p: Seq<char>, i: int) -> bool {
    0 <= i <= s.len() - p.len() && s.subrange(i, i + p.len()) == p
}

/// Whether `p` stands somewhere in `s`.
pub open spec fn has_substring(s: Seq<char>, p: Seq<char>) -> bool {
    exists|i: int| occurs_at(s, p, i)
}

/// The type that a recipe asks for: that of the first pattern in the name, or
/// the default.
pub open spec fn wanted(
    name: Seq<char>,
    maps: Seq<(Seq<char>, TensorType)>,
    default_ty: TensorType,
) -> TensorType
    decreases maps.len(),
{
    if maps.len() == 0 {
        default_ty
    } else if has_substring(name, maps[0].0) {
        maps[0].1
    } else {
        wanted(name, maps.drop_first(), default_ty)
    }
}

/// Whether rows of a width can be written in a type, whose blocks they have to
/// fill.
pub open spec fn width_fits(ty: TensorType, row: u64) -> bool {
    match ty {
        TensorType::Q2K
        | TensorType::Q3K
        | TensorType::Q4K
        | TensorType::Q5K
        | TensorType::Q6K
        | TensorType::IQ2XXS => row % 256 == 0,
        TensorType::Q8_0 => row % 32 == 0,
        TensorType::F16 | TensorType::F32 => true,
    }
}

/// Why a tensor is not written in the type that the recipe asks for.
#[derive(Clone, Copy, Debug, PartialEq, Eq, Structural)]
pub enum Fallback {
    /// It is.
    Kept,
    /// The width is no multiple of 256: q8_0.
    NotBy256,
    /// The width is no multiple of 32: f16.
    NotBy32,
    /// No importance entry of a usable length: q2_k.
    NoImatrix,
}

/// A type, and why it is not the one that was asked for.
#[derive(Clone, Copy, Debug, PartialEq, Eq, Structural)]
pub struct Choice {
    pub ty: TensorType,
    pub fallback: Fallback,
}

/// The type that a recipe gives a tensor.
pub open spec fn picked(
    name: Seq<char>,
    dims: Seq<u64>,
    maps: Seq<(Seq<char>, TensorType)>,
    default_ty: TensorType,
) -> Choice {
    let want = wanted(name, maps, default_ty);
    if dims.len() < 2 {
        Choice { ty: TensorType::F32, fallback: Fallback::Kept }
    } else if width_fits(want, dims[0]) {
        Choice { ty: want, fallback: Fallback::Kept }
    } else if dims[0] % 32 == 0 {
        Choice { ty: TensorType::Q8_0, fallback: Fallback::NotBy256 }
    } else {
        Choice { ty: TensorType::F16, fallback: Fallback::NotBy32 }
    }
}

/// The first pattern that stands in the name decides, and the default where
/// none does.
pub proof fn first_match_wins(
    name: Seq<char>,
    maps: Seq<(Seq<char>, TensorType)>,
    default_ty: TensorType,
    i: int,
)
    requires
        0 <= i <= maps.len(),
        forall|j: int| 0 <= j < i ==> !has_substring(name, (#[trigger] maps[j]).0),
        i < maps.len() ==> has_substring(name, maps[i].0),
    ensures
        wanted(name, maps, default_ty) == if i < maps.len() {
            maps[i].1
        } else {
            default_ty
        },
    decreases maps.len(),
{
    if i > 0 {
        let rest = maps.drop_first();
        assert(!has_substring(name, maps[0].0));
        assert forall|j: int| 0 <= j < i - 1 implies !has_substring(
            name,
            (#[trigger] rest[j]).0,
        ) by {
            assert(rest[j] == maps[j + 1]);
        }
        first_match_wins(name, rest, default_ty, i - 1);
    }
}

/// A tensor gets a type whose blocks its rows fill, and a 1D tensor stays
/// f32.
pub proof fn picked_type_fits(
    name: Seq<char>,
    dims: Seq<u64>,
    maps: Seq<(Seq<char>, TensorType)>,
    default_ty: TensorType,
)
    ensures
        dims.len() < 2 ==> picked(name, dims, maps, default_ty).ty == TensorType::F32,
        dims.len() >= 2 ==> width_fits(picked(name, dims, maps, default_ty).ty, dims[0]),
{
}

fn contains(s: &Vec<char>, p: &Vec<char>) -> (r: bool)
    ensures
        r == has_substring(s@, p@),
{
    if p.len() > s.len() {
        return false;
    }
    let last: usize = s.len() - p.len();
    let mut i: usize = 0;
    loop
        invariant
            i <= last,
            last == s@.len() - p@.len(),
            s@.len() == s.len(),
            forall|j: int| 0 <= j < i ==> !occurs_at(s@, p@, j),
        decreases last - i,
    {
        let mut k: usize = 0;
        while k < p.len() && s[i + k] == p[k]
            invariant
                i <= last,
                last == s@.len() - p@.len(),
                s@.len() == s.len(),
                k <= p@.len(),
                forall|m: int| 0 <= m < k ==> s@[i + m] == p@[m],
            decreases p@.len() - k,
        {
            k += 1;
        }
        if k == p.len() {
            assert(s@.subrange(i as int, i + p@.len()) =~= p@);
            assert(occurs_at(s@, p@, i as int));
            return true;
        }
        assert(!occurs_at(s@, p@, i as int)) by {
            if occurs_at(s@, p@, i as int) {
                assert(s@.subrange(i as int, i + p@.len())[k as int] == p@[k as int]);
            }
        }
        if i == last {
            return false;
        }
        i += 1;
    }
}

/// The type that a recipe gives a tensor.
pub fn pick(
    name: &str,
    dims: &Vec<u64>,
    maps: &Vec<(String, TensorType)>,
    default_ty: TensorType,
) -> (c: Choice)
    ensures
        c == picked(name@, dims@, crate::options::map_views(maps@), default_ty),
{
    if dims.len() < 2 {
        return Choice { ty: TensorType::F32, fallback: Fallback::Kept };
    }
    let ghost all = crate::options::map_views(maps@);
    let chars: Vec<char> = to_chars(name);
    let mut want: TensorType = default_ty;
    let mut i: usize = 0;
    assert(all.skip(0) =~= all);
    while i < maps.len()
        invariant_except_break
            want == default_ty,
            wanted(name@, all.skip(i as int), default_ty) == wanted(name@, all, default_ty),
        invariant
            i <= maps@.len(),
            chars@ == name@,
            all == crate::options::map_views(maps@),
        ensures
            want == wanted(name@, all, default_ty),
        decreases maps@.len() - i,
    {
        let pat: Vec<char> = to_chars(maps[i].0.as_str());
        assert(all.skip(i as int)[0] == (pat@, maps@[i as int].1));
        if contains(&chars, &pat) {
            want = maps[i].1;
            break;
        }
        assert(all.skip(i as int).drop_first() =~= all.skip(i + 1));
        i += 1;
    }
    let row: u64 = dims[0];
    let ok: bool = match want {
        TensorType::Q2K
        | TensorType::Q3K
        | TensorType::Q4K
        | TensorType::Q5K
        | TensorType::Q6K
        | TensorType::IQ2XXS => row % 256 == 0,
        TensorType::Q8_0 => row % 32 == 0,
        TensorType::F16 | TensorType::F32 => true,
    };
    if ok {
        Choice { ty: want, fallback: Fallback::Kept }
    } else if row % 32 == 0 {
        Choice { ty: TensorType::Q8_0, fallback: Fallback::NotBy256 }
    } else {
        Choice { ty: TensorType::F16, fallback: Fallback::NotBy32 }
    }
}

/// A pattern is in a name exactly if the name is something, the pattern, and
/// something.
pub proof fn a_substring_is_a_middle_part(s: Seq<char>, p: Seq<char>)
    ensures
        has_substring(s, p) <==> exists|a: Seq<char>, b: Seq<char>| s == #[trigger] (a + p + b),
{
    if has_substring(s, p) {
        let i = choose|i: int| occurs_at(s, p, i);
        let a = s.take(i);
        let b = s.skip(i + p.len());
        assert(s =~= a + s.subrange(i, i + p.len()) + b);
        assert(s == a + p + b);
    }
    if exists|a: Seq<char>, b: Seq<char>| s == #[trigger] (a + p + b) {
        let (a, b) = choose|a: Seq<char>, b: Seq<char>| s == #[trigger] (a + p + b);
        assert(s.subrange(a.len() as int, (a.len() + p.len()) as int) =~= p);
        assert(occurs_at(s, p, a.len() as int));
    }
}

/// The names of the types, each of one type only.
pub proof fn types_have_these_names(s: Seq<char>)
    ensures
        type_named(s) == Some(TensorType::F32) <==> s == "f32"@,
        type_named(s) == Some(TensorType::F16) <==> s == "f16"@,
        type_named(s) == Some(TensorType::Q8_0) <==> s == "q8_0"@,
        type_named(s) == Some(TensorType::Q2K) <==> s == "q2_k"@,
        type_named(s) == Some(TensorType::Q3K) <==> s == "q3_k"@,
        type_named(s) == Some(TensorType::Q4K) <==> s == "q4_k"@,
        type_named(s) == Some(TensorType::Q5K) <==> s == "q5_k"@,
        type_named(s) == Some(TensorType::Q6K) <==> s == "q6_k"@,
        type_named(s) == Some(TensorType::IQ2XXS) <==> s == "iq2_xxs"@,
{
    reveal_strlit("q8_0");
    reveal_strlit("q2_k");
    reveal_strlit("q3_k");
    reveal_strlit("q4_k");
    reveal_strlit("q5_k");
    reveal_strlit("q6_k");
    reveal_strlit("iq2_xxs");
    reveal_strlit("f16");
    reveal_strlit("f32");
    assert("q8_0"@[1] == '8' && "q2_k"@[1] == '2' && "q3_k"@[1] == '3' && "q4_k"@[1] == '4');
    assert("q5_k"@[1] == '5' && "q6_k"@[1] == '6');
    assert("iq2_xxs"@.len() == 7 && "f16"@.len() == 3 && "f32"@.len() == 3);
    assert("f16"@[1] == '1' && "f32"@[1] == '3');
}

/// Lower case moves the 26 ASCII capitals to their small letters and leaves
/// every other character.
pub proof fn lower_case_moves_capitals_only(s: Seq<char>, i: int)
    requires
        0 <= i < s.len(),
    ensures
        lowered(s).len() == s.len(),
        lowered(s)[i] as u32 == if 65 <= s[i] as u32 <= 90 {
            s[i] as u32 + 32
        } else {
            s[i] as int
        },
{
    let c = s[i];
    vstd::utf8::char_u32_cast(c, c as u32);
    if 'A' <= c && c <= 'Z' {
        let d = (c as u32 + 32) as u32;
        vstd::utf8::char_u32_cast(d as char, d);
    }
}

/// The case of ASCII letters does not matter to a type's name.
pub proof fn case_does_not_matter(s: Seq<char>, t: Seq<char>)
    requires
        s.len() == t.len(),
        forall|i: int|
            0 <= i < s.len() ==> {
                ||| #[trigger] s[i] == t[i]
                ||| 65 <= s[i] as u32 <= 90 && t[i] as u32 == s[i] as u32 + 32
                ||| 65 <= t[i] as u32 <= 90 && s[i] as u32 == t[i] as u32 + 32
            },
    ensures
        type_named(lowered(s)) == type_named(lowered(t)),
        unknown_type(s) == unknown_type(t),
{
    assert forall|i: int| 0 <= i < s.len() implies lowered(s)[i] == lowered(t)[i] by {
        assert(s[i] == s[i]);
        lower_case_moves_capitals_only(s, i);
        lower_case_moves_capitals_only(t, i);
        vstd::utf8::char_u32_cast(lowered(s)[i], lowered(s)[i] as u32);
        vstd::utf8::char_u32_cast(lowered(t)[i], lowered(t)[i] as u32);
    }
    assert(lowered(s) =~= lowered(t));
}

/// An unknown type is named in the message, in small letters.
pub proof fn the_unknown_type_is_named(s: Seq<char>)
    ensures
        unknown_type(s) == "unknown target type "@ + lowered(s)
            + " (stage 1: q8_0 q2_k..q6_k f16 f32)"@,
{
}

/// A tensor of two or more dimensions gets the type that is wanted wherever
/// its width fills that type's blocks: any width for f16 and f32, one by 32
/// for q8_0, one by 256 for the rest. It is reported as kept exactly then.
/// Otherwise it gets q8_0 where its width is by 32, and f16 where it is not.
pub proof fn a_fitting_type_is_kept(
    name: Seq<char>,
    dims: Seq<u64>,
    maps: Seq<(Seq<char>, TensorType)>,
    default_ty: TensorType,
)
    requires
        dims.len() >= 2,
    ensures
        ({
            let want = wanted(name, maps, default_ty);
            let c = picked(name, dims, maps, default_ty);
            let step = if want == TensorType::F16 || want == TensorType::F32 {
                1int
            } else if want == TensorType::Q8_0 {
                32
            } else {
                256
            };
            &&& dims[0] as int % step == 0 <==> c.ty == want
            &&& c.fallback == Fallback::Kept <==> c.ty == want
            &&& c.ty != want && dims[0] % 32 == 0 ==> c.ty == TensorType::Q8_0 && c.fallback
                == Fallback::NotBy256
            &&& c.ty != want && dims[0] % 32 != 0 ==> c.ty == TensorType::F16 && c.fallback
                == Fallback::NotBy32
        }),
{
}

/// A tensor of fewer than two dimensions stays f32 whatever is wanted, and is
/// not reported.
pub proof fn a_vector_stays_as_it_is(
    name: Seq<char>,
    dims: Seq<u64>,
    maps: Seq<(Seq<char>, TensorType)>,
    default_ty: TensorType,
)
    requires
        dims.len() < 2,
    ensures
        picked(name, dims, maps, default_ty).ty == TensorType::F32,
        picked(name, dims, maps, default_ty).fallback == Fallback::Kept,
{
}

} // verus!
