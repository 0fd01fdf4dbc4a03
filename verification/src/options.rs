//! The command line of a quantization run.

use vstd::prelude::*;

use crate::quantize::{parse_type, TensorType};
use crate::text::{from_chars, joined, owned, str_eq, to_chars};

verus! {

/// What the command line asks for.
pub struct Options {
    pub input: String,
    pub output: String,
    /// Name patterns and the types of the tensors that match, in order.
    pub maps: Vec<(String, TensorType)>,
    /// The type where no pattern matches.
    pub default_ty: TensorType,
    pub imatrix: Option<String>,
}

/// The position of the first `c` in `s` from `i` on, or the end.
pub open spec fn find_char(s: Seq<char>, c: char, i: int) -> int
    decreases s.len() - i,
{
    if i >= s.len() || s[i] == c {
        i
    } else {
        find_char(s, c, i + 1)
    }
}

/// The parts of `s` from `i` on, between the occurrences of `c`.
pub open spec fn split_on(s: Seq<char>, c: char, i: int) -> Seq<Seq<char>>
    decreases s.len() - i,
    when 0 <= i <= s.len()
    via split_on_decreases
{
    let k = find_char(s, c, i);
    if k >= s.len() {
        seq![s.subrange(i, s.len() as int)]
    } else {
        seq![s.subrange(i, k)] + split_on(s, c, k + 1)
    }
}

#[via_fn]
proof fn split_on_decreases(s: Seq<char>, c: char, i: int) {
    lemma_find_char(s, c, i);
}

proof fn lemma_find_char(s: Seq<char>, c: char, i: int)
    requires
        0 <= i <= s.len(),
    ensures
        i <= find_char(s, c, i) <= s.len(),
        find_char(s, c, i) < s.len() ==> s[find_char(s, c, i)] == c,
        forall|j: int| i <= j < find_char(s, c, i) ==> s[j] != c,
    decreases s.len() - i,
{
    if i < s.len() && s[i] != c {
        lemma_find_char(s, c, i + 1);
    }
}

/// What a `--map` entry says: what comes before its first `=` is the pattern,
/// what comes after it the type.
pub open spec fn map_entry(part: Seq<char>) -> Result<(Seq<char>, TensorType), Seq<char>> {
    let k = find_char(part, '=', 0);
    if k >= part.len() {
        Err("bad --map entry "@ + part)
    } else {
        let name = part.skip(k + 1);
        match crate::quantize::type_named(crate::quantize::lowered(name)) {
            Some(ty) => Ok((part.take(k), ty)),
            None => Err(crate::quantize::unknown_type(name)),
        }
    }
}

/// What `--map` entries say, or what is wrong with the first bad one.
pub open spec fn map_entries(parts: Seq<Seq<char>>) -> Result<
    Seq<(Seq<char>, TensorType)>,
    Seq<char>,
>
    decreases parts.len(),
{
    if parts.len() == 0 {
        Ok(Seq::empty())
    } else {
        match map_entries(parts.drop_last()) {
            Err(e) => Err(e),
            Ok(done) => match map_entry(parts.last()) {
                Err(e) => Err(e),
                Ok(entry) => Ok(done.push(entry)),
            },
        }
    }
}

/// A command line as far as it was read.
pub struct ArgsModel {
    pub input: Option<Seq<char>>,
    pub output: Option<Seq<char>>,
    pub maps: Seq<(Seq<char>, TensorType)>,
    pub default_ty: TensorType,
    pub imatrix: Option<Seq<char>>,
}

/// Nothing read yet: q8_0 is the type of what no pattern matches.
pub open spec fn no_args() -> ArgsModel {
    ArgsModel {
        input: None,
        output: None,
        maps: Seq::empty(),
        default_ty: TensorType::Q8_0,
        imatrix: None,
    }
}

/// What one argument and its value change.
pub open spec fn take_arg(m: ArgsModel, a: Seq<char>, value: Seq<char>) -> Result<
    ArgsModel,
    Seq<char>,
> {
    if a == "-i"@ {
        Ok(ArgsModel { input: Some(value), ..m })
    } else if a == "-o"@ {
        Ok(ArgsModel { output: Some(value), ..m })
    } else if a == "--map"@ {
        match map_entries(split_on(value, ',', 0)) {
            Ok(entries) => Ok(ArgsModel { maps: m.maps + entries, ..m }),
            Err(e) => Err(e),
        }
    } else if a == "--default"@ {
        match crate::quantize::type_named(crate::quantize::lowered(value)) {
            Some(ty) => Ok(ArgsModel { default_ty: ty, ..m }),
            None => Err(crate::quantize::unknown_type(value)),
        }
    } else {
        Ok(ArgsModel { imatrix: Some(value), ..m })
    }
}

/// Whether an argument is known. Each known one takes a value.
pub open spec fn is_known(a: Seq<char>) -> bool {
    a == "-i"@ || a == "-o"@ || a == "--map"@ || a == "--default"@ || a == "--imatrix"@
}

/// What a command line says, or what is wrong with the first bad argument. A
/// later argument replaces an earlier one, but patterns add up.
pub open spec fn read_args(args: Seq<Seq<char>>, m: ArgsModel) -> Result<ArgsModel, Seq<char>>
    decreases args.len(),
{
    if args.len() == 0 {
        Ok(m)
    } else if !is_known(args[0]) {
        Err("unknown arg "@ + args[0])
    } else if args.len() == 1 {
        Err(args[0] + " needs a value"@)
    } else {
        match take_arg(m, args[0], args[1]) {
            Ok(next) => read_args(args.skip(2), next),
            Err(e) => Err(e),
        }
    }
}

/// What a whole command line says. Input and output have to be named.
pub open spec fn parsed_args(args: Seq<Seq<char>>) -> Result<ArgsModel, Seq<char>> {
    match read_args(args, no_args()) {
        Err(e) => Err(e),
        Ok(m) => if m.input is None {
            Err("-i required"@)
        } else if m.output is None {
            Err("-o required"@)
        } else {
            Ok(m)
        },
    }
}

pub open spec fn map_views(maps: Seq<(String, TensorType)>) -> Seq<(Seq<char>, TensorType)> {
    maps.map_values(|m: (String, TensorType)| (m.0@, m.1))
}

pub open spec fn option_view(s: Option<String>) -> Option<Seq<char>> {
    match s {
        Some(v) => Some(v@),
        None => None,
    }
}

impl Options {
    pub open spec fn model(&self) -> ArgsModel {
        ArgsModel {
            input: Some(self.input@),
            output: Some(self.output@),
            maps: map_views(self.maps@),
            default_ty: self.default_ty,
            imatrix: option_view(self.imatrix),
        }
    }
}

fn find_from(v: &Vec<char>, c: char, from: usize) -> (k: usize)
    requires
        from <= v@.len(),
    ensures
        k == find_char(v@, c, from as int),
        from <= k <= v@.len(),
{
    let mut k: usize = from;
    while k < v.len() && v[k] != c
        invariant
            from <= k <= v@.len(),
            find_char(v@, c, k as int) == find_char(v@, c, from as int),
        decreases v@.len() - k,
    {
        k += 1;
    }
    k
}

fn split_commas(s: &str) -> (parts: Vec<String>)
    ensures
        crate::bpe::string_views(parts@) == split_on(s@, ',', 0),
{
    let v: Vec<char> = to_chars(s);
    let mut parts: Vec<String> = Vec::new();
    let mut i: usize = 0;
    assert(crate::bpe::string_views(parts@) + split_on(v@, ',', 0) =~= split_on(v@, ',', 0));
    loop
        invariant_except_break
            i <= v@.len(),
            crate::bpe::string_views(parts@) + split_on(v@, ',', i as int) == split_on(v@, ',', 0),
        ensures
            crate::bpe::string_views(parts@) == split_on(v@, ',', 0),
        decreases v@.len() - i,
    {
        let ghost before = parts@;
        let k: usize = find_from(&v, ',', i);
        parts.push(from_chars(&v, i, k));
        assert(crate::bpe::string_views(parts@) =~= crate::bpe::string_views(before).push(
            v@.subrange(i as int, k as int),
        ));
        if k >= v.len() {
            assert(crate::bpe::string_views(parts@) =~= crate::bpe::string_views(before)
                + split_on(v@, ',', i as int));
            break;
        }
        assert(crate::bpe::string_views(parts@) + split_on(v@, ',', k + 1)
            =~= crate::bpe::string_views(before) + split_on(v@, ',', i as int));
        i = k + 1;
    }
    parts
}

fn parse_map_entry(part: &str) -> (r: Result<(String, TensorType), String>)
    ensures
        match r {
            Ok(m) => map_entry(part@) == Ok::<(Seq<char>, TensorType), Seq<char>>((m.0@, m.1)),
            Err(e) => map_entry(part@) == Err::<(Seq<char>, TensorType), Seq<char>>(e@),
        },
{
    let v: Vec<char> = to_chars(part);
    let k: usize = find_from(&v, '=', 0);
    if k >= v.len() {
        return Err(joined("bad --map entry ", part));
    }
    let pat: String = from_chars(&v, 0, k);
    let name: String = from_chars(&v, k + 1, v.len());
    assert(pat@ =~= part@.take(k as int));
    assert(name@ =~= part@.skip(k + 1));
    match parse_type(name.as_str()) {
        Ok(ty) => Ok((pat, ty)),
        Err(e) => Err(e),
    }
}

fn parse_map_entries(parts: &Vec<String>, maps: &mut Vec<(String, TensorType)>) -> (r: Result<
    (),
    String,
>)
    ensures
        match r {
            Ok(_) => map_entries(crate::bpe::string_views(parts@)) matches Ok(entries)
                && map_views(final(maps)@) == map_views(old(maps)@) + entries,
            Err(e) => map_entries(crate::bpe::string_views(parts@)) == Err::<
                Seq<(Seq<char>, TensorType)>,
                Seq<char>,
            >(e@),
        },
{
    let ghost all = crate::bpe::string_views(parts@);
    let mut i: usize = 0;
    assert(map_views(maps@) =~= map_views(old(maps)@) + Seq::<(Seq<char>, TensorType)>::empty());
    while i < parts.len()
        invariant
            i <= parts@.len(),
            all == crate::bpe::string_views(parts@),
            map_entries(all.take(i as int)) matches Ok(entries) && map_views(maps@) == map_views(
                old(maps)@,
            ) + entries,
        decreases parts@.len() - i,
    {
        assert(all.take(i + 1).drop_last() =~= all.take(i as int));
        let ghost before = maps@;
        match parse_map_entry(parts[i].as_str()) {
            Ok(m) => {
                maps.push(m);
                assert(map_views(maps@) =~= map_views(before).push((m.0@, m.1)));
                assert(map_views(maps@) =~= map_views(old(maps)@) + map_entries(
                    all.take(i + 1),
                )->Ok_0);
            },
            Err(e) => {
                proof {
                    lemma_map_entries_err(all, i + 1);
                }
                return Err(e);
            },
        }
        i += 1;
    }
    assert(all.take(all.len() as int) =~= all);
    Ok(())
}

proof fn lemma_map_entries_err(parts: Seq<Seq<char>>, n: int)
    requires
        0 <= n <= parts.len(),
        map_entries(parts.take(n)) is Err,
    ensures
        map_entries(parts) == map_entries(parts.take(n)),
    decreases parts.len() - n,
{
    if n < parts.len() {
        assert(parts.take(n + 1).drop_last() =~= parts.take(n));
        lemma_map_entries_err(parts, n + 1);
    } else {
        assert(parts.take(n) =~= parts);
    }
}

/// Reads the command line, without the program's name.
pub fn parse_args(args: &Vec<String>) -> (r: Result<Options, String>)
    ensures
        match r {
            Ok(o) => parsed_args(crate::bpe::string_views(args@)) == Ok::<ArgsModel, Seq<char>>(
                o.model(),
            ),
            Err(e) => parsed_args(crate::bpe::string_views(args@)) == Err::<ArgsModel, Seq<char>>(
                e@,
            ),
        },
{
    let ghost all = crate::bpe::string_views(args@);
    let mut input: Option<String> = None;
    let mut output: Option<String> = None;
    let mut maps: Vec<(String, TensorType)> = Vec::new();
    let mut default_ty: TensorType = TensorType::Q8_0;
    let mut imatrix: Option<String> = None;
    let mut i: usize = 0;
    assert(all.skip(0) =~= all);
    assert(map_views(maps@) =~= Seq::<(Seq<char>, TensorType)>::empty());
    while i < args.len()
        invariant
            i <= args@.len(),
            all == crate::bpe::string_views(args@),
            read_args(all, no_args()) == read_args(
                all.skip(i as int),
                (ArgsModel {
                    input: option_view(input),
                    output: option_view(output),
                    maps: map_views(maps@),
                    default_ty,
                    imatrix: option_view(imatrix),
                }),
            ),
        decreases args@.len() - i,
    {
        let a: &str = args[i].as_str();
        let ghost rest = all.skip(i as int);
        assert(rest[0] == a@);
        if !(str_eq(a, "-i") || str_eq(a, "-o") || str_eq(a, "--map") || str_eq(a, "--default")
            || str_eq(a, "--imatrix")) {
            return Err(joined("unknown arg ", a));
        }
        if args.len() - i < 2 {
            return Err(joined(a, " needs a value"));
        }
        let value: String = args[i + 1].clone();
        assert(rest[1] == value@);
        assert(rest.skip(2) =~= all.skip(i + 2));
        if str_eq(a, "-i") {
            input = Some(value);
        } else if str_eq(a, "-o") {
            output = Some(value);
        } else if str_eq(a, "--map") {
            let parts: Vec<String> = split_commas(value.as_str());
            match parse_map_entries(&parts, &mut maps) {
                Ok(_) => {},
                Err(e) => {
                    return Err(e);
                },
            }
        } else if str_eq(a, "--default") {
            match parse_type(value.as_str()) {
                Ok(ty) => {
                    default_ty = ty;
                },
                Err(e) => {
                    return Err(e);
                },
            }
        } else {
            imatrix = Some(value);
        }
        i += 2;
    }
    match input {
        None => Err(owned("-i required")),
        Some(input) => match output {
            None => Err(owned("-o required")),
            Some(output) => Ok(Options { input, output, maps, default_ty, imatrix }),
        },
    }
}

proof fn lemma_find_in_front(a: Seq<char>, b: Seq<char>, c: char, i: int)
    requires
        0 <= i <= a.len(),
    ensures
        find_char(a.push(c) + b, c, i) == find_char(a, c, i),
    decreases a.len() - i,
{
    if i < a.len() && a[i] != c {
        lemma_find_in_front(a, b, c, i + 1);
    }
}

proof fn lemma_find_behind(a: Seq<char>, b: Seq<char>, c: char, i: int)
    requires
        0 <= i <= b.len(),
    ensures
        find_char(a.push(c) + b, c, a.len() + 1 + i) == a.len() + 1 + find_char(b, c, i),
    decreases b.len() - i,
{
    if i < b.len() && b[i] != c {
        lemma_find_behind(a, b, c, i + 1);
    }
}

proof fn lemma_split_behind(a: Seq<char>, b: Seq<char>, c: char, i: int)
    requires
        0 <= i <= b.len(),
    ensures
        split_on(a.push(c) + b, c, a.len() + 1 + i) == split_on(b, c, i),
    decreases b.len() - i,
{
    let s = a.push(c) + b;
    lemma_find_char(b, c, i);
    lemma_find_behind(a, b, c, i);
    let k = find_char(b, c, i);
    assert(s.subrange(a.len() + 1 + i, a.len() + 1 + k) =~= b.subrange(i, k));
    if k < b.len() {
        lemma_split_behind(a, b, c, k + 1);
    }
}

/// What stands between separators does not change when two lists are joined
/// by one.
proof fn lemma_split_joined(a: Seq<char>, b: Seq<char>, c: char, i: int)
    requires
        0 <= i <= a.len(),
    ensures
        split_on(a.push(c) + b, c, i) == split_on(a, c, i) + split_on(b, c, 0),
    decreases a.len() - i,
{
    let s = a.push(c) + b;
    lemma_find_char(a, c, i);
    lemma_find_in_front(a, b, c, i);
    let k = find_char(a, c, i);
    assert(s.subrange(i, k) =~= a.subrange(i, k));
    if k < a.len() {
        lemma_split_joined(a, b, c, k + 1);
        assert(split_on(s, c, i) =~= split_on(a, c, i) + split_on(b, c, 0));
    } else {
        lemma_split_behind(a, b, c, 0);
        assert(split_on(s, c, i) =~= split_on(a, c, i) + split_on(b, c, 0));
    }
}

proof fn lemma_entries_joined(x: Seq<Seq<char>>, y: Seq<Seq<char>>)
    ensures
        map_entries(x + y) == (match map_entries(x) {
            Err(e) => Err::<Seq<(Seq<char>, TensorType)>, Seq<char>>(e),
            Ok(p) => match map_entries(y) {
                Err(e) => Err(e),
                Ok(q) => Ok(p + q),
            },
        }),
    decreases y.len(),
{
    if y.len() == 0 {
        assert(x + y =~= x);
        if let Ok(p) = map_entries(x) {
            assert(p + Seq::<(Seq<char>, TensorType)>::empty() =~= p);
        }
    } else {
        lemma_entries_joined(x, y.drop_last());
        assert((x + y).drop_last() =~= x + y.drop_last());
        assert((x + y).last() == y.last());
        if let Ok(p) = map_entries(x) {
            if let Ok(q) = map_entries(y.drop_last()) {
                if let Ok(e) = map_entry(y.last()) {
                    assert((p + q).push(e) =~= p + q.push(e));
                }
            }
        }
    }
}

/// Patterns may come in one `--map` or in several: `--map a --map b` says what
/// `--map a,b` says, or fails alike.
pub proof fn maps_join_by_comma(
    a: Seq<char>,
    b: Seq<char>,
    rest: Seq<Seq<char>>,
    m: ArgsModel,
)
    ensures
        read_args(seq!["--map"@, a, "--map"@, b] + rest, m) == read_args(
            seq!["--map"@, a.push(',') + b] + rest,
            m,
        ),
{
    let two = seq!["--map"@, a, "--map"@, b] + rest;
    let one = seq!["--map"@, a.push(',') + b] + rest;
    reveal_strlit("-i");
    reveal_strlit("-o");
    reveal_strlit("--map");
    assert("--map"@[1] == '-' && "-i"@[1] == 'i' && "-o"@[1] == 'o');
    lemma_split_joined(a, b, ',', 0);
    lemma_entries_joined(split_on(a, ',', 0), split_on(b, ',', 0));
    assert(one.skip(2) =~= rest);
    assert(two.skip(2) =~= seq!["--map"@, b] + rest);
    assert(two.skip(2).skip(2) =~= rest);
    if let Ok(p) = map_entries(split_on(a, ',', 0)) {
        if let Ok(q) = map_entries(split_on(b, ',', 0)) {
            assert(m.maps + (p + q) =~= m.maps + p + q);
        }
    }
    reveal_with_fuel(read_args, 3);
}

proof fn lemma_flags_differ()
    ensures
        "-i"@ != "-o"@,
        "-i"@ != "--map"@,
        "-i"@ != "--default"@,
        "-i"@ != "--imatrix"@,
        "-o"@ != "--map"@,
        "-o"@ != "--default"@,
        "-o"@ != "--imatrix"@,
        "--map"@ != "--default"@,
        "--map"@ != "--imatrix"@,
        "--default"@ != "--imatrix"@,
{
    reveal_strlit("-i");
    reveal_strlit("-o");
    reveal_strlit("--map");
    reveal_strlit("--default");
    reveal_strlit("--imatrix");
    assert("-i"@[1] == 'i' && "-o"@[1] == 'o');
    assert("-i"@.len() == 2 && "-o"@.len() == 2 && "--map"@.len() == 5);
    assert("--default"@.len() == 9 && "--imatrix"@.len() == 9);
    assert("--default"@[2] == 'd' && "--imatrix"@[2] == 'i');
}

/// Each argument with its value changes one thing, whatever follows it: `-i`
/// the input, `-o` the output, `--imatrix` the importance file, `--default`
/// the default type, `--map` adds patterns. A name of no type, and a bad
/// pattern, end the reading.
pub proof fn each_argument_changes_one_thing(
    v: Seq<char>,
    rest: Seq<Seq<char>>,
    m: ArgsModel,
)
    ensures
        read_args(seq!["-i"@, v] + rest, m) == read_args(
            rest,
            (ArgsModel {
                input: Some(v),
                output: m.output,
                maps: m.maps,
                default_ty: m.default_ty,
                imatrix: m.imatrix,
            }),
        ),
        read_args(seq!["-o"@, v] + rest, m) == read_args(
            rest,
            (ArgsModel {
                input: m.input,
                output: Some(v),
                maps: m.maps,
                default_ty: m.default_ty,
                imatrix: m.imatrix,
            }),
        ),
        read_args(seq!["--imatrix"@, v] + rest, m) == read_args(
            rest,
            (ArgsModel {
                input: m.input,
                output: m.output,
                maps: m.maps,
                default_ty: m.default_ty,
                imatrix: Some(v),
            }),
        ),
        crate::quantize::type_named(crate::quantize::lowered(v)) matches Some(ty) ==> read_args(
            seq!["--default"@, v] + rest,
            m,
        ) == read_args(
            rest,
            (ArgsModel {
                input: m.input,
                output: m.output,
                maps: m.maps,
                default_ty: ty,
                imatrix: m.imatrix,
            }),
        ),
        crate::quantize::type_named(crate::quantize::lowered(v)) is None ==> read_args(
            seq!["--default"@, v] + rest,
            m,
        ) == Err::<ArgsModel, Seq<char>>(crate::quantize::unknown_type(v)),
        map_entries(split_on(v, ',', 0)) matches Ok(entries) ==> read_args(
            seq!["--map"@, v] + rest,
            m,
        ) == read_args(
            rest,
            (ArgsModel {
                input: m.input,
                output: m.output,
                maps: m.maps + entries,
                default_ty: m.default_ty,
                imatrix: m.imatrix,
            }),
        ),
        map_entries(split_on(v, ',', 0)) matches Err(e) ==> read_args(seq!["--map"@, v] + rest, m)
            == Err::<ArgsModel, Seq<char>>(e),
{
    lemma_flags_differ();
    assert((seq!["-i"@, v] + rest).skip(2) =~= rest);
    assert((seq!["-o"@, v] + rest).skip(2) =~= rest);
    assert((seq!["--map"@, v] + rest).skip(2) =~= rest);
    assert((seq!["--default"@, v] + rest).skip(2) =~= rest);
    assert((seq!["--imatrix"@, v] + rest).skip(2) =~= rest);
}

/// Reading ends at the end, at an argument that is none of the five, and at
/// one of the five without a value.
pub proof fn reading_ends_here(a: Seq<char>, rest: Seq<Seq<char>>, m: ArgsModel)
    ensures
        read_args(Seq::empty(), m) == Ok::<ArgsModel, Seq<char>>(m),
        a != "-i"@ && a != "-o"@ && a != "--map"@ && a != "--default"@ && a != "--imatrix"@
            ==> read_args(seq![a] + rest, m) == Err::<ArgsModel, Seq<char>>("unknown arg "@ + a),
        a == "-i"@ || a == "-o"@ || a == "--map"@ || a == "--default"@ || a == "--imatrix"@
            ==> read_args(seq![a], m) == Err::<ArgsModel, Seq<char>>(a + " needs a value"@),
{
    assert((seq![a] + rest)[0] == a);
}

/// A command line starts with nothing named and q8_0 as the default, and has
/// to name an input and an output in the end; the input is missed first.
pub proof fn input_and_output_are_required(args: Seq<Seq<char>>)
    ensures
        no_args().input is None,
        no_args().output is None,
        no_args().imatrix is None,
        no_args().maps.len() == 0,
        no_args().default_ty == TensorType::Q8_0,
        match read_args(args, no_args()) {
            Err(e) => parsed_args(args) == Err::<ArgsModel, Seq<char>>(e),
            Ok(m) => {
                &&& m.input is None ==> parsed_args(args) == Err::<ArgsModel, Seq<char>>(
                    "-i required"@,
                )
                &&& m.input is Some && m.output is None ==> parsed_args(args) == Err::<
                    ArgsModel,
                    Seq<char>,
                >("-o required"@)
                &&& m.input is Some && m.output is Some ==> parsed_args(args) == Ok::<
                    ArgsModel,
                    Seq<char>,
                >(m)
            },
        },
{
}

/// A list without a separator is one part; one with a separator is the parts
/// before it and the parts behind it.
pub proof fn lists_split_at_separators(a: Seq<char>, b: Seq<char>, c: char)
    ensures
        !a.contains(c) ==> split_on(a, c, 0) == seq![a],
        split_on(a.push(c) + b, c, 0) == split_on(a, c, 0) + split_on(b, c, 0),
{
    lemma_split_joined(a, b, c, 0);
    if !a.contains(c) {
        lemma_find_char(a, c, 0);
        let k = find_char(a, c, 0);
        if k < a.len() {
            assert(a[k] == c);
        }
        assert(a.subrange(0, a.len() as int) =~= a);
    }
}

/// Entries are read in order, and the first bad one ends the reading.
pub proof fn entries_go_one_by_one(x: Seq<Seq<char>>, y: Seq<Seq<char>>, p: Seq<char>)
    ensures
        map_entries(Seq::empty()) == Ok::<Seq<(Seq<char>, TensorType)>, Seq<char>>(Seq::empty()),
        map_entries(x) matches Err(e) ==> map_entries(x + y) == Err::<
            Seq<(Seq<char>, TensorType)>,
            Seq<char>,
        >(e),
        map_entries(x) is Ok ==> match map_entries(y) {
            Err(e) => map_entries(x + y) == Err::<Seq<(Seq<char>, TensorType)>, Seq<char>>(e),
            Ok(q) => map_entries(x + y) == Ok::<Seq<(Seq<char>, TensorType)>, Seq<char>>(
                map_entries(x)->Ok_0 + q,
            ),
        },
        map_entry(p) matches Ok(entry) ==> map_entries(seq![p]) == Ok::<
            Seq<(Seq<char>, TensorType)>,
            Seq<char>,
        >(seq![entry]),
        map_entry(p) matches Err(e) ==> map_entries(seq![p]) == Err::<
            Seq<(Seq<char>, TensorType)>,
            Seq<char>,
        >(e),
{
    lemma_entries_joined(x, y);
    reveal_with_fuel(map_entries, 2);
    assert(seq![p].drop_last() =~= Seq::<Seq<char>>::empty());
    assert(seq![p].last() == p);
    if let Ok(entry) = map_entry(p) {
        assert(Seq::<(Seq<char>, TensorType)>::empty().push(entry) =~= seq![entry]);
    }
}

/// An entry is a pattern, the first `=`, and the name of a type.
pub proof fn an_entry_is_pattern_and_type(a: Seq<char>, b: Seq<char>)
    requires
        !a.contains('='),
    ensures
        map_entry(a) == Err::<(Seq<char>, TensorType), Seq<char>>("bad --map entry "@ + a),
        match crate::quantize::type_named(crate::quantize::lowered(b)) {
            Some(ty) => map_entry(a.push('=') + b) == Ok::<(Seq<char>, TensorType), Seq<char>>(
                (a, ty),
            ),
            None => map_entry(a.push('=') + b) == Err::<(Seq<char>, TensorType), Seq<char>>(
                crate::quantize::unknown_type(b),
            ),
        },
{
    let part = a.push('=') + b;
    lemma_find_char(a, '=', 0);
    let k = find_char(a, '=', 0);
    if k < a.len() {
        assert(a[k] == '=');
    }
    lemma_find_in_front(a, b, '=', 0);
    assert(part.take(k) =~= a);
    assert(part.skip(k + 1) =~= b);
}

/// Options hold what their model says, pattern by pattern.
pub proof fn options_hold_their_model(o: Options, i: int)
    ensures
        o.model().input == Some(o.input@),
        o.model().output == Some(o.output@),
        o.model().default_ty == o.default_ty,
        o.model().maps.len() == o.maps@.len(),
        0 <= i < o.maps@.len() ==> o.model().maps[i].0 == o.maps@[i].0@ && o.model().maps[i].1
            == o.maps@[i].1,
        o.imatrix matches Some(p) ==> o.model().imatrix == Some(p@),
        o.imatrix is None ==> o.model().imatrix is None,
{
}

} // verus!
