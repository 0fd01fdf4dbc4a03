use pulsar::gguf::{Gguf, MetaEntry, Value};
use pulsar::gguf_write::{push_le, value_type_id, write_string, write_value_payload};
use pulsar::header::write_header;
use pulsar::layout::{FloatType, OutTensor, PerType};
use pulsar::quantize::{Fallback, TensorType};

fn payload(v: &Value) -> Vec<u8> {
    let mut out = Vec::new();
    assert_eq!(write_value_payload(&mut out, v), Ok(()));
    out
}

#[test]
fn string_is_length_and_bytes() {
    let mut out = vec![9];
    write_string(&mut out, "hé");
    assert_eq!(out, vec![9, 3, 0, 0, 0, 0, 0, 0, 0, b'h', 0xc3, 0xa9]);
    out.clear();
    write_string(&mut out, "");
    assert_eq!(out, vec![0; 8]);
}

#[test]
fn numbers_are_little_endian() {
    let mut out = Vec::new();
    push_le(&mut out, 0x0102_0304_0506_0708, 8);
    push_le(&mut out, 0x1_0000_0003, 4);
    push_le(&mut out, 77, 0);
    assert_eq!(out, vec![8, 7, 6, 5, 4, 3, 2, 1, 3, 0, 0, 0]);
}

#[test]
fn payloads_of_scalars() {
    assert_eq!(payload(&Value::U8(0xfe)), vec![0xfe]);
    assert_eq!(payload(&Value::I8(-2)), (-2i8).to_le_bytes());
    assert_eq!(payload(&Value::I8(5)), vec![5]);
    assert_eq!(payload(&Value::U16(0x1234)), vec![0x34, 0x12]);
    assert_eq!(payload(&Value::I16(-300)), (-300i16).to_le_bytes());
    assert_eq!(payload(&Value::U32(0xdead_beef)), 0xdead_beefu32.to_le_bytes());
    assert_eq!(payload(&Value::I32(i32::MIN)), i32::MIN.to_le_bytes());
    assert_eq!(payload(&Value::I32(7)), 7i32.to_le_bytes());
    assert_eq!(payload(&Value::F32(1.5f32.to_bits())), 1.5f32.to_le_bytes());
    assert_eq!(payload(&Value::Bool(true)), vec![1]);
    assert_eq!(payload(&Value::Bool(false)), vec![0]);
    assert_eq!(payload(&Value::U64(u64::MAX)), vec![255; 8]);
    assert_eq!(payload(&Value::I64(-1)), vec![255; 8]);
    assert_eq!(payload(&Value::I64(i64::MIN)), i64::MIN.to_le_bytes());
    assert_eq!(payload(&Value::F64((-2.5f64).to_bits())), (-2.5f64).to_le_bytes());
    assert_eq!(payload(&Value::String("a".to_string())), vec![1, 0, 0, 0, 0, 0, 0, 0, b'a']);
}

#[test]
fn type_ids_count_up() {
    let values = [
        Value::U8(0), Value::I8(0), Value::U16(0), Value::I16(0), Value::U32(0), Value::I32(0),
        Value::F32(0), Value::Bool(false), Value::String(String::new()), Value::Array(vec![]),
        Value::U64(0), Value::I64(0), Value::F64(0),
    ];
    for (i, v) in values.iter().enumerate() {
        assert_eq!(value_type_id(v), i as u32);
    }
}

#[test]
fn payloads_of_arrays() {
    let mut want = vec![4, 0, 0, 0];
    want.extend_from_slice(&0u64.to_le_bytes());
    assert_eq!(payload(&Value::Array(vec![])), want);

    let mut want = vec![2, 0, 0, 0];
    want.extend_from_slice(&2u64.to_le_bytes());
    want.extend_from_slice(&[1, 0, 2, 0]);
    assert_eq!(payload(&Value::Array(vec![Value::U16(1), Value::U16(2)])), want);

    let nested = Value::Array(vec![Value::Array(vec![Value::U8(3)])]);
    let mut want = vec![9, 0, 0, 0];
    want.extend_from_slice(&1u64.to_le_bytes());
    want.extend_from_slice(&[0, 0, 0, 0]);
    want.extend_from_slice(&1u64.to_le_bytes());
    want.push(3);
    assert_eq!(payload(&nested), want);
}

#[test]
fn mixed_arrays_are_refused() {
    let mut out = vec![1];
    let mixed = Value::Array(vec![Value::U8(1), Value::U16(2)]);
    assert_eq!(
        write_value_payload(&mut out, &mixed),
        Err("heterogeneous metadata array".to_string())
    );
    assert_eq!(out, vec![1]);
    // what comes before the mixed array stays
    let outer = Value::Array(vec![Value::Array(vec![Value::U8(7)]), mixed]);
    assert!(write_value_payload(&mut out, &outer).is_err());
    assert_eq!(out.len(), 1 + 12 + 13);
}

fn entry(key: &str, value: Value) -> MetaEntry {
    MetaEntry { key: key.to_string(), value, number: None }
}

fn ids() -> PerType<u32> {
    PerType {
        single: 100, half: 101, q8_0: 102, q2_k: 103, q3_k: 104, q4_k: 105, q5_k: 106, q6_k: 107,
        iq2_xxs: 108,
    }
}

fn tensor(name: &str, dims: &[u64], ty: TensorType, out_off: u64) -> OutTensor {
    OutTensor {
        name: name.to_string(),
        dims: dims.to_vec(),
        ty,
        src_ty: FloatType::BF16,
        src_off: 0,
        out_off,
        fallback: Fallback::Kept,
    }
}

#[test]
fn header_bytes_are_exact() {
    let meta = vec![
        entry("zeta", Value::Bool(true)),
        entry("split.count", Value::U16(3)),
        entry("a", Value::U8(5)),
    ];
    let tensors = vec![tensor("t", &[256, 2], TensorType::Q2K, 64)];
    let head = write_header(0x4655_4747, &meta, &tensors, &ids()).unwrap();
    let mut want = Vec::new();
    want.extend_from_slice(b"GGUF");
    want.extend_from_slice(&3u32.to_le_bytes());
    want.extend_from_slice(&1u64.to_le_bytes());
    want.extend_from_slice(&2u64.to_le_bytes());
    write_string(&mut want, "a");
    want.extend_from_slice(&[0, 0, 0, 0, 5]);
    write_string(&mut want, "zeta");
    want.extend_from_slice(&[7, 0, 0, 0, 1]);
    write_string(&mut want, "t");
    want.extend_from_slice(&2u32.to_le_bytes());
    want.extend_from_slice(&256u64.to_le_bytes());
    want.extend_from_slice(&2u64.to_le_bytes());
    want.extend_from_slice(&103u32.to_le_bytes());
    want.extend_from_slice(&64u64.to_le_bytes());
    assert_eq!(head, want);
}

#[test]
fn header_does_not_depend_on_metadata_order() {
    let keys = ["general.name", "a", "general", "z", "é", "general.architecture", "B"];
    let make = |order: &[usize]| {
        let meta: Vec<MetaEntry> =
            order.iter().map(|&i| entry(keys[i], Value::U32(i as u32))).collect();
        write_header(1, &meta, &vec![], &ids()).unwrap()
    };
    let head = make(&[0, 1, 2, 3, 4, 5, 6]);
    assert_eq!(make(&[6, 5, 4, 3, 2, 1, 0]), head);
    assert_eq!(make(&[3, 0, 6, 2, 5, 1, 4]), head);
    // keys come in the order of their bytes
    let mut sorted = keys;
    sorted.sort();
    let mut at = 0;
    for k in sorted {
        let found = head[at..].windows(k.len()).position(|w| w == k.as_bytes()).unwrap();
        at += found + k.len();
    }
}

#[test]
fn header_with_a_mixed_array_is_refused_unless_it_is_dropped() {
    let mixed = || Value::Array(vec![Value::U8(1), Value::Bool(true)]);
    let e = write_header(1, &vec![entry("x", mixed())], &vec![], &ids());
    assert_eq!(e, Err("heterogeneous metadata array".to_string()));
    assert!(write_header(1, &vec![entry("split.x", mixed())], &vec![], &ids()).is_ok());
    assert!(write_header(1, &vec![entry("split", mixed())], &vec![], &ids()).is_err());
}

#[test]
fn metadata_lookup_takes_the_first_entry() {
    let g = Gguf { metadata: vec![entry("k", Value::U8(1)), entry("k", Value::U8(2))] };
    assert!(matches!(g.get("k"), Some(MetaEntry { value: Value::U8(1), .. })));
    assert!(g.get("x").is_none());
}

#[test]
fn different_values_of_one_type_are_written_differently() {
    let text = |s: &str| Value::String(s.to_string());
    let groups: Vec<Vec<Value>> = vec![
        vec![Value::I8(-1), Value::I8(1), Value::I8(-128), Value::I8(127)],
        vec![Value::I32(-1), Value::I32(i32::MAX), Value::I32(i32::MIN), Value::I32(0)],
        vec![text(""), text("a"), text("ab"), text("b")],
        vec![
            Value::Array(vec![]),
            Value::Array(vec![Value::U32(0)]),
            Value::Array(vec![text(""), text("a")]),
            Value::Array(vec![text("a"), text("")]),
            Value::Array(vec![Value::Array(vec![]), Value::Array(vec![Value::U8(1)])]),
        ],
    ];
    for group in &groups {
        let bytes: Vec<Vec<u8>> = group.iter().map(payload).collect();
        for i in 0..bytes.len() {
            for j in 0..i {
                // neither is the start of the other, so what follows cannot mix them up
                assert!(!bytes[i].starts_with(&bytes[j]) && !bytes[j].starts_with(&bytes[i]));
            }
        }
    }
}

#[test]
fn different_headers_are_written_differently() {
    let t = |name: &str, dims: &[u64], ty: TensorType, off: u64| vec![tensor(name, dims, ty, off)];
    let heads: Vec<Vec<u8>> = vec![
        write_header(1, &vec![], &vec![], &ids()).unwrap(),
        write_header(2, &vec![], &vec![], &ids()).unwrap(),
        write_header(1, &vec![entry("a", Value::U8(1))], &vec![], &ids()).unwrap(),
        write_header(1, &vec![entry("a", Value::U8(2))], &vec![], &ids()).unwrap(),
        write_header(1, &vec![entry("b", Value::U8(1))], &vec![], &ids()).unwrap(),
        write_header(1, &vec![], &t("x", &[1], TensorType::F32, 0), &ids()).unwrap(),
        write_header(1, &vec![], &t("x", &[1, 1], TensorType::F32, 0), &ids()).unwrap(),
        write_header(1, &vec![], &t("x", &[1], TensorType::F16, 0), &ids()).unwrap(),
        write_header(1, &vec![], &t("x", &[1], TensorType::F32, 32), &ids()).unwrap(),
        write_header(1, &vec![], &t("y", &[1], TensorType::F32, 0), &ids()).unwrap(),
    ];
    for i in 0..heads.len() {
        for j in 0..i {
            assert!(!heads[i].starts_with(&heads[j]) && !heads[j].starts_with(&heads[i]));
        }
    }
}
