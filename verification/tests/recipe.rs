use pulsar::layout::{
    choose_type, next_multiple_of, plan_tensors, row_count, FloatType, PerType, PlanError,
    PlanFailure, SourceTensor, SourceType,
};
use pulsar::options::{parse_args, Options};
use pulsar::quantize::{parse_type, pick, Choice, Fallback, TensorType};

fn args(list: &[&str]) -> Result<Options, String> {
    parse_args(&list.iter().map(|s| s.to_string()).collect())
}

fn args_error(list: &[&str]) -> String {
    match args(list) {
        Ok(_) => panic!("accepted"),
        Err(e) => e,
    }
}

#[test]
fn type_names_in_any_case() {
    let names = [
        ("q8_0", TensorType::Q8_0), ("q2_k", TensorType::Q2K), ("q3_k", TensorType::Q3K),
        ("q4_k", TensorType::Q4K), ("q5_k", TensorType::Q5K), ("q6_k", TensorType::Q6K),
        ("iq2_xxs", TensorType::IQ2XXS), ("f16", TensorType::F16), ("f32", TensorType::F32),
    ];
    for (name, ty) in names {
        assert_eq!(parse_type(name), Ok(ty));
        assert_eq!(parse_type(&name.to_uppercase()), Ok(ty));
    }
    assert_eq!(
        parse_type("Q7_Z"),
        Err("unknown target type q7_z (stage 1: q8_0 q2_k..q6_k f16 f32)".to_string())
    );
    assert!(parse_type("").is_err());
    assert!(parse_type("q8_0 ").is_err());
}

#[test]
fn args_with_everything() {
    let o = args(&[
        "-i", "in.gguf", "-o", "out.gguf", "--map", "_exps.=q2_k,attn=Q8_0", "--default", "f16",
        "--imatrix", "im.dat", "--map", "x=y=f32",
    ]);
    // the type is what comes behind the first '='
    assert_eq!(o.err(), Some("unknown target type y=f32 (stage 1: q8_0 q2_k..q6_k f16 f32)".to_string()));
    let o = args(&[
        "-i", "in.gguf", "-o", "out.gguf", "--map", "_exps.=q2_k,attn=Q8_0", "--default", "f16",
        "--imatrix", "im.dat", "--map", "=f32",
    ])
    .ok()
    .unwrap();
    assert_eq!((o.input.as_str(), o.output.as_str()), ("in.gguf", "out.gguf"));
    assert_eq!(
        o.maps,
        vec![
            ("_exps.".to_string(), TensorType::Q2K),
            ("attn".to_string(), TensorType::Q8_0),
            (String::new(), TensorType::F32),
        ]
    );
    assert_eq!(o.default_ty, TensorType::F16);
    assert_eq!(o.imatrix, Some("im.dat".to_string()));
}

#[test]
fn args_defaults_and_repeats() {
    let o = args(&["-i", "a", "-o", "b", "-i", "c"]).ok().unwrap();
    assert_eq!(o.input, "c");
    assert!(o.maps.is_empty());
    assert_eq!(o.default_ty, TensorType::Q8_0);
    assert_eq!(o.imatrix, None);
}

#[test]
fn args_errors() {
    assert_eq!(args_error(&[]), "-i required");
    assert_eq!(args_error(&["-i", "a"]), "-o required");
    assert_eq!(args_error(&["-o", "a"]), "-i required");
    assert_eq!(args_error(&["-i"]), "-i needs a value");
    assert_eq!(args_error(&["--map"]), "--map needs a value");
    assert_eq!(args_error(&["--what", "x"]), "unknown arg --what");
    assert_eq!(args_error(&["--map", "a"]), "bad --map entry a");
    assert_eq!(args_error(&["--map", ""]), "bad --map entry ");
    assert_eq!(args_error(&["--map", "a=f32,"]), "bad --map entry ");
    assert_eq!(
        args_error(&["--default", "X"]),
        "unknown target type x (stage 1: q8_0 q2_k..q6_k f16 f32)"
    );
    // the first bad argument counts
    assert_eq!(args_error(&["--nope", "--map", "a"]), "unknown arg --nope");
}

#[test]
fn maps_joined_by_comma_or_repeated_are_the_same() {
    let a = args(&["-i", "a", "-o", "b", "--map", "x=f32", "--map", "y=f16,z=q2_k"]).ok().unwrap();
    let b = args(&["-i", "a", "-o", "b", "--map", "x=f32,y=f16,z=q2_k"]).ok().unwrap();
    assert_eq!(a.maps, b.maps);
}

fn maps(list: &[(&str, TensorType)]) -> Vec<(String, TensorType)> {
    list.iter().map(|(p, t)| (p.to_string(), *t)).collect()
}

#[test]
fn pick_takes_the_first_pattern_in_the_name() {
    let m = maps(&[("_exps.", TensorType::Q2K), ("ffn", TensorType::Q4K), ("", TensorType::F16)]);
    let ty = |name: &str| pick(name, &vec![256, 4], &m, TensorType::Q8_0).ty;
    assert_eq!(ty("blk.0.ffn_up_exps.weight"), TensorType::Q2K);
    assert_eq!(ty("blk.0.ffn_up.weight"), TensorType::Q4K);
    // the empty pattern is in every name
    assert_eq!(ty("output.weight"), TensorType::F16);
    let none = pick("output.weight", &vec![256, 4], &vec![], TensorType::Q6K);
    assert_eq!(none, Choice { ty: TensorType::Q6K, fallback: Fallback::Kept });
}

#[test]
fn pick_keeps_1d_tensors_f32() {
    let m = maps(&[("norm", TensorType::Q2K)]);
    for dims in [vec![], vec![256]] {
        let c = pick("attn_norm.weight", &dims, &m, TensorType::Q8_0);
        assert_eq!(c, Choice { ty: TensorType::F32, fallback: Fallback::Kept });
    }
}

#[test]
fn pick_falls_back_by_width() {
    let at = |ty: TensorType, row: u64| pick("x", &vec![row, 2], &vec![], ty);
    for ty in [
        TensorType::Q2K, TensorType::Q3K, TensorType::Q4K, TensorType::Q5K, TensorType::Q6K,
        TensorType::IQ2XXS,
    ] {
        assert_eq!(at(ty, 512), Choice { ty, fallback: Fallback::Kept });
        assert_eq!(at(ty, 96), Choice { ty: TensorType::Q8_0, fallback: Fallback::NotBy256 });
        assert_eq!(at(ty, 100), Choice { ty: TensorType::F16, fallback: Fallback::NotBy32 });
    }
    assert_eq!(at(TensorType::Q8_0, 64), Choice { ty: TensorType::Q8_0, fallback: Fallback::Kept });
    assert_eq!(at(TensorType::Q8_0, 65), Choice { ty: TensorType::F16, fallback: Fallback::NotBy32 });
    assert_eq!(at(TensorType::F16, 65), Choice { ty: TensorType::F16, fallback: Fallback::Kept });
    assert_eq!(at(TensorType::F32, 65), Choice { ty: TensorType::F32, fallback: Fallback::Kept });
}

/// Row sizes with made-up numbers, the width where there is no block.
fn sizes(row: u64) -> PerType<Option<u64>> {
    PerType {
        single: Some(4 * row),
        half: Some(2 * row),
        q8_0: if row % 32 == 0 { Some(row / 32 * 34) } else { None },
        q2_k: if row % 256 == 0 { Some(row / 256 * 84) } else { None },
        q3_k: None,
        q4_k: None,
        q5_k: None,
        q6_k: None,
        iq2_xxs: if row % 256 == 0 { Some(row / 256 * 66) } else { None },
    }
}

fn source(name: &str, dims: &[u64], imatrix_len: Option<u64>) -> SourceTensor {
    SourceTensor {
        name: name.to_string(),
        dims: dims.to_vec(),
        ty: SourceType::Float(FloatType::F16),
        offset: 1000,
        row_bytes: sizes(*dims.first().unwrap_or(&1)),
        imatrix_len,
    }
}

#[test]
fn iq2_needs_a_usable_imatrix() {
    let ty = |len: Option<u64>| {
        choose_type(&source("x", &[256, 4, 8], len), &vec![], TensorType::IQ2XXS)
    };
    let kept = Choice { ty: TensorType::IQ2XXS, fallback: Fallback::Kept };
    let fallen = Choice { ty: TensorType::Q2K, fallback: Fallback::NoImatrix };
    assert_eq!(ty(Some(256)), kept);
    assert_eq!(ty(Some(2048)), kept);
    assert_eq!(ty(Some(512)), fallen);
    assert_eq!(ty(None), fallen);
    let flat = choose_type(&source("x", &[256, 4], Some(256)), &vec![], TensorType::IQ2XXS);
    assert_eq!(flat, kept);
    // other types do not look at it
    assert_eq!(choose_type(&source("x", &[256, 4], None), &vec![], TensorType::Q2K).ty, TensorType::Q2K);
}

#[test]
fn plan_places_tensors_one_after_the_other() {
    let ts = vec![
        source("norm", &[10], None),
        source("big", &[256, 3], None),
        source("odd", &[33, 5], None),
    ];
    let p = plan_tensors(&ts, 16, &vec![], TensorType::Q2K).ok().unwrap();
    assert_eq!(p.align, 32);
    let offs: Vec<u64> = p.tensors.iter().map(|t| t.out_off).collect();
    // 10 * 4 = 40 -> 64; 3 * 84 = 252 -> 64 + 256; 5 * 66 = 330 -> + 352
    assert_eq!(offs, vec![0, 64, 320]);
    assert_eq!(p.data_len, 672);
    let tys: Vec<TensorType> = p.tensors.iter().map(|t| t.ty).collect();
    assert_eq!(tys, vec![TensorType::F32, TensorType::Q2K, TensorType::F16]);
    assert_eq!(p.tensors[2].fallback, Fallback::NotBy32);
    assert_eq!(p.tensors[1].name, "big");
    assert_eq!(p.tensors[1].dims, vec![256, 3]);
    assert_eq!(p.tensors[1].src_off, 1000);
    assert_eq!(p.tensors[1].src_ty, FloatType::F16);
    for t in &p.tensors {
        assert_eq!(t.out_off % p.align, 0);
    }
    let p = plan_tensors(&ts, 4096, &vec![], TensorType::Q2K).ok().unwrap();
    assert_eq!(p.align, 4096);
    assert_eq!(p.data_len, 3 * 4096);
}

fn plan_error(ts: Vec<SourceTensor>, ty: TensorType) -> PlanFailure {
    match plan_tensors(&ts, 32, &vec![], ty) {
        Ok(_) => panic!("planned"),
        Err(e) => e,
    }
}

#[test]
fn plan_errors() {
    let mut q = source("w", &[256, 2], None);
    q.ty = SourceType::Other("Q4K".to_string());
    let e = plan_error(vec![source("v", &[256, 2], None), q], TensorType::Q8_0);
    assert_eq!(e.at, 1);
    assert!(matches!(e.error, PlanError::NotFloat(_)));
    assert_eq!(e.error.message(), "w: source type Q4K is not a float type");

    let e = plan_error(vec![source("w", &[256, 2], None)], TensorType::Q3K);
    assert_eq!(e.at, 0);
    assert!(matches!(e.error, PlanError::RowBytes));
    assert_eq!(e.error.message(), "row_bytes");

    for dims in [vec![32, u64::MAX], vec![32, 1 << 40, 1 << 40, 0], vec![u64::MAX - 31, 1]] {
        let mut t = source("w", &[32], None);
        t.dims = dims;
        t.row_bytes.q8_0 = Some(u64::MAX - 10);
        t.row_bytes.half = Some(u64::MAX - 10);
        let e = plan_error(vec![source("v", &[1 << 60], None), t], TensorType::Q8_0);
        assert_eq!(e.at, 1);
        assert!(matches!(e.error, PlanError::TooLarge));
        assert_eq!(e.error.message(), "tensor sizes overflow");
    }
}

#[test]
fn rows_are_the_product_of_all_but_the_first_dimension() {
    assert_eq!(row_count(&vec![]), Some(1));
    assert_eq!(row_count(&vec![7]), Some(1));
    assert_eq!(row_count(&vec![7, 3, 5]), Some(15));
    assert_eq!(row_count(&vec![7, 0, 5]), Some(1));
    assert_eq!(row_count(&vec![7, u64::MAX, 2]), None);
}

#[test]
fn next_multiples() {
    assert_eq!(next_multiple_of(0, 32), Some(0));
    assert_eq!(next_multiple_of(1, 32), Some(32));
    assert_eq!(next_multiple_of(64, 32), Some(64));
    assert_eq!(next_multiple_of(u64::MAX, 32), None);
    assert_eq!(next_multiple_of(u64::MAX, 1), Some(u64::MAX));
}

#[test]
fn per_type_tells_the_types_apart() {
    let p = PerType {
        single: 0, half: 1, q8_0: 2, q2_k: 3, q3_k: 4, q4_k: 5, q5_k: 6, q6_k: 7, iq2_xxs: 8,
    };
    let all = [
        TensorType::F32, TensorType::F16, TensorType::Q8_0, TensorType::Q2K, TensorType::Q3K,
        TensorType::Q4K, TensorType::Q5K, TensorType::Q6K, TensorType::IQ2XXS,
    ];
    for (i, ty) in all.into_iter().enumerate() {
        assert_eq!(*p.get(ty), i);
    }
}
