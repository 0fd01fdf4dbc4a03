use pulsar::layout::{plan_tensors, FloatType, PerType, Plan, SourceTensor, SourceType};
use pulsar::order::{bytes_le, sort_positions, LargestFirst, SmallestFirst};
use pulsar::quantize::TensorType;
use pulsar::stream::{
    head_step, imatrix_range, padding_after, progress_due, row_chunks, totals_by_type, HeadStep,
    Parsed, VFile, FIRST_HEAD,
};
use pulsar::text::{from_chars, joined, owned, starts_with, str_eq, to_chars};

#[test]
fn head_grows_while_it_is_cut_off() {
    assert_eq!(FIRST_HEAD, 32 << 20);
    assert_eq!(head_step(100, 100, Parsed::Header), HeadStep::Accept);
    assert_eq!(head_step(100, 50, Parsed::Header), HeadStep::Accept);
    assert_eq!(head_step(100, 100, Parsed::Truncated), HeadStep::Reread(200));
    assert_eq!(head_step(100, 99, Parsed::Truncated), HeadStep::Reject);
    assert_eq!(head_step(100, 100, Parsed::Bad), HeadStep::Reject);
}

#[test]
fn offsets_are_routed_to_the_file_that_holds_them() {
    let lens = vec![10u64, 5, 20];
    let v = VFile::new(&lens).unwrap();
    assert_eq!(v.bases, vec![0, 10, 15]);
    assert_eq!(v.route(0), (0, 0));
    assert_eq!(v.route(9), (0, 9));
    assert_eq!(v.route(10), (1, 0));
    assert_eq!(v.route(14), (1, 4));
    assert_eq!(v.route(15), (2, 0));
    assert_eq!(v.route(34), (2, 19));
    for off in 0..35 {
        let (i, local) = v.route(off);
        assert!(local < lens[i]);
    }
    assert_eq!(VFile::new(&vec![7]).unwrap().route(6), (0, 6));
    assert!(VFile::new(&vec![u64::MAX, 1]).is_none());
}

#[test]
fn chunks_cover_the_rows_in_order() {
    assert_eq!(row_chunks(10, 4), vec![(0, 3), (3, 6), (6, 9), (9, 10)]);
    assert_eq!(row_chunks(3, 8), vec![(0, 1), (1, 2), (2, 3)]);
    assert_eq!(row_chunks(9, 4), vec![(0, 3), (3, 6), (6, 9)]);
    assert_eq!(row_chunks(5, 1), vec![(0, 5)]);
    assert!(row_chunks(0, 3).is_empty());
    for rows in 1..60 {
        for threads in 1..20 {
            let chunks = row_chunks(rows, threads);
            assert!(chunks.len() <= threads);
            let per = rows.div_ceil(threads);
            let mut at = 0;
            for (lo, hi) in chunks {
                assert_eq!(lo, at);
                assert_eq!(hi, (lo + per).min(rows));
                at = hi;
            }
            assert_eq!(at, rows);
        }
    }
}

#[test]
fn imatrix_weights_follow_the_expert() {
    // one entry for all rows
    assert_eq!(imatrix_range(256, 256, 4, 3), (0, 256));
    // eight experts of four rows
    assert_eq!(imatrix_range(2048, 256, 4, 0), (0, 256));
    assert_eq!(imatrix_range(2048, 256, 4, 7), (256, 512));
    assert_eq!(imatrix_range(2048, 256, 4, 31), (1792, 2048));
    assert_eq!(imatrix_range(20, 10, 0, 1), (10, 20));
}

fn plan() -> Plan {
    let source = |rows: u64| SourceTensor {
        name: "t".to_string(),
        dims: vec![10, rows],
        ty: SourceType::Float(FloatType::F32),
        offset: 0,
        row_bytes: PerType {
            single: Some(40), half: Some(20), q8_0: None, q2_k: None, q3_k: None, q4_k: None,
            q5_k: None, q6_k: None, iq2_xxs: None,
        },
        imatrix_len: None,
    };
    plan_tensors(&vec![source(1), source(3)], 32, &vec![], TensorType::F32).ok().unwrap()
}

#[test]
fn padding_reaches_the_next_offset() {
    let p = plan();
    assert_eq!(p.tensors[1].out_off, 64);
    assert_eq!(padding_after(&p, 0, 40), Some(24));
    assert_eq!(padding_after(&p, 0, 64), Some(0));
    assert_eq!(padding_after(&p, 0, 65), None);
    // 64 + 120 = 184 -> 192
    assert_eq!(padding_after(&p, 1, 120), Some(8));
    assert_eq!(p.data_len, 192);
    assert_eq!(padding_after(&p, 1, u64::MAX), None);
    assert_eq!(padding_after(&p, 1, u64::MAX - 64), None);
}

#[test]
fn progress_every_fifty_and_at_the_end() {
    assert!(progress_due(0, 200) && progress_due(50, 200) && progress_due(199, 200));
    assert!(!progress_due(1, 200) && !progress_due(51, 200));
    assert!(progress_due(0, 1));
}

#[test]
fn totals_come_largest_first() {
    let w = vec![
        (TensorType::Q8_0, 5), (TensorType::F32, 1), (TensorType::Q2K, 100), (TensorType::Q8_0, 7),
        (TensorType::IQ2XXS, 0),
    ];
    assert_eq!(
        totals_by_type(&w),
        vec![
            (TensorType::Q2K, 100), (TensorType::Q8_0, 12), (TensorType::F32, 1),
            (TensorType::IQ2XXS, 0),
        ]
    );
    assert!(totals_by_type(&vec![]).is_empty());
}

#[test]
fn positions_sort_stably() {
    let keys = vec![3u64, 1, 3, 0, 1];
    let all = vec![0usize, 1, 2, 3, 4];
    assert_eq!(sort_positions(&SmallestFirst { keys: keys.clone() }, all.clone()), vec![3, 1, 4, 0, 2]);
    assert_eq!(sort_positions(&LargestFirst { keys: keys.clone() }, all), vec![0, 2, 1, 4, 3]);
    assert_eq!(sort_positions(&LargestFirst { keys }, vec![4, 0, 4]), vec![0, 4, 4]);
}

#[test]
fn bytes_compare_lexicographically() {
    let words: [&[u8]; 6] = [b"", b"a", b"ab", b"b", &[0xc3, 0xa9], &[0xff]];
    for (i, a) in words.iter().enumerate() {
        for (j, b) in words.iter().enumerate() {
            assert_eq!(bytes_le(a, b), i <= j);
        }
    }
}

#[test]
fn text_helpers() {
    assert!(str_eq("né", "né") && !str_eq("ne", "né") && !str_eq("a", "ab") && str_eq("", ""));
    assert_eq!(to_chars("né"), vec!['n', 'é']);
    assert_eq!(from_chars(&vec!['a', 'é', '漢'], 1, 3), "é漢");
    assert_eq!(joined("a", "é"), "aé");
    assert_eq!(owned("é"), "é");
    assert!(starts_with("split.no", "split.") && !starts_with("split", "split."));
    assert!(starts_with("x", "") && !starts_with("xsplit.", "split."));
}

#[test]
fn a_usable_imatrix_has_weights_for_every_row() {
    for (row, ne1, experts) in [(8usize, 3usize, 5usize), (4, 1, 1), (2, 0, 3)] {
        let rows = (ne1 * experts).max(1);
        for len in [row, row * experts] {
            for r in 0..rows {
                let (lo, hi) = imatrix_range(len, row, ne1, r);
                assert_eq!(hi - lo, row);
                assert!(hi <= len);
            }
        }
    }
}

#[test]
fn planned_tensors_are_aligned_and_apart() {
    let p = plan();
    let bytes = [40u64, 120];
    let head = 77u64;
    let start = head.next_multiple_of(p.align);
    for (t, b) in p.tensors.iter().zip(bytes) {
        assert_eq!((start + t.out_off) % p.align, 0);
        let pad = padding_after(&p, if t.out_off == 0 { 0 } else { 1 }, b).unwrap();
        assert!(pad < p.align);
    }
    assert!(p.tensors[0].out_off + bytes[0] <= p.tensors[1].out_off);
    assert!(p.tensors[1].out_off + bytes[1] <= p.data_len);
}
