use pulsar::byte_map::gpt2_byte_to_char;
use pulsar::chat::{ChatMarkers, ChatStyle};
use pulsar::gguf::{Gguf, MetaEntry, Value};
use pulsar::tokenizer::{string_array, Error, Tokenizer};

fn strings(list: &[&str]) -> Value {
    Value::Array(list.iter().map(|s| Value::String(s.to_string())).collect())
}

fn entry(key: &str, value: Value) -> MetaEntry {
    let number = match value {
        Value::U32(n) => Some(n as u64),
        Value::U64(n) => Some(n),
        _ => None,
    };
    MetaEntry { key: key.to_string(), value, number }
}

fn model(tokens: &[&str], merges: &[&str]) -> Gguf {
    Gguf {
        metadata: vec![
            entry("general.name", Value::String("toy".to_string())),
            entry("tokenizer.ggml.tokens", strings(tokens)),
            entry("tokenizer.ggml.merges", strings(merges)),
        ],
    }
}

fn build(tokens: &[&str], merges: &[&str]) -> Tokenizer {
    match Tokenizer::from_gguf(&model(tokens, merges)) {
        Ok(t) => t,
        Err(e) => panic!("{}", e.message()),
    }
}

/// A vocabulary with every byte and the given tokens behind them.
fn byte_vocab(more: &[&str], merges: &[&str]) -> Tokenizer {
    let chars: Vec<String> = (0..=255u8).map(|b| gpt2_byte_to_char(b).to_string()).collect();
    let mut tokens: Vec<&str> = chars.iter().map(|s| s.as_str()).collect();
    tokens.extend_from_slice(more);
    build(&tokens, merges)
}

#[test]
fn encode_merges_by_rank() {
    let t = byte_vocab(&["ab", "bc", "abc"], &["b c", "a b", "a bc"]);
    // "b c" has the lowest rank, so "abc" merges from the right
    assert_eq!(t.encode("abc"), vec![258]);
    let t = byte_vocab(&["ab", "bc", "abc"], &["a b", "b c"]);
    assert_eq!(t.encode("abc"), vec![256, 'c' as u32]);
}

#[test]
fn encode_takes_the_leftmost_of_equal_merges() {
    let t = byte_vocab(&["aa"], &["a a"]);
    assert_eq!(t.encode("aaa"), vec![256, 'a' as u32]);
}

#[test]
fn encode_falls_back_to_single_characters() {
    // "ab" merges but is no token, and "b" is none either
    let t = build(&["a", "c"], &["a b"]);
    assert_eq!(t.encode("abc"), vec![0, 1]);
}

#[test]
fn encode_uses_the_byte_encoded_space() {
    let t = byte_vocab(&["\u{120}x"], &["\u{120} x"]);
    assert_eq!(t.encode("x x"), vec!['x' as u32, 256]);
    assert_eq!(t.encode(""), Vec::<u32>::new());
}

#[test]
fn bpe_piece_appends_to_what_is_there() {
    let t = byte_vocab(&["ab"], &["a b"]);
    let mut out = vec![7];
    t.bpe_piece(b"abz", &mut out);
    assert_eq!(out, vec![7, 256, 'z' as u32]);
}

#[test]
fn decode_inverts_encode_on_a_byte_level_vocab() {
    let t = byte_vocab(&["he", "ll", "\u{120}w"], &["h e", "l l", "\u{120} w"]);
    for text in ["", "hello world\n", "naïve 漢字 😀 \u{0}\u{7f}", "    tabs\t12345;;\r\n"] {
        let ids = t.encode(text);
        assert_eq!(t.decode(&ids), text.as_bytes());
        assert!(ids.iter().all(|&id| (id as usize) < t.n_vocab()));
    }
}

#[test]
fn decode_skips_unknown_ids_and_passes_control_text_through() {
    let t = byte_vocab(&["<｜hy_User:opensource｜>"], &[]);
    assert_eq!(t.decode(&[9999, 65]), b"A");
    // '｜' is no byte character, so it comes out as UTF-8
    assert_eq!(t.decode(&[256]), "<｜hy_User:opensource｜>".as_bytes());
}

#[test]
fn vocabulary_lookups() {
    let t = build(&["a", "b", "a"], &[]);
    assert_eq!(t.n_vocab(), 3);
    assert_eq!(t.token_str(1), Some("b"));
    assert_eq!(t.token_str(3), None);
    assert_eq!(t.find_token("b"), Some(1));
    // of a string that occurs twice the last id counts
    assert_eq!(t.find_token("a"), Some(2));
    assert_eq!(t.find_token("c"), None);
}

#[test]
fn special_ids_come_from_the_metadata() {
    let mut g = model(&["a"], &[]);
    g.metadata.push(entry("tokenizer.ggml.bos_token_id", Value::U32(5)));
    g.metadata.push(entry("tokenizer.ggml.eos_token_id", Value::U64(0x1_0000_0007)));
    g.metadata.push(entry("tokenizer.ggml.eot_token_id", Value::String("x".to_string())));
    let t = Tokenizer::from_gguf(&g).ok().unwrap();
    assert_eq!(t.bos_id, Some(5));
    assert_eq!(t.eos_id, Some(7));
    assert_eq!(t.eot_id, None);
}

#[test]
fn missing_and_bad_keys() {
    let g = Gguf { metadata: vec![] };
    let e = Tokenizer::from_gguf(&g).err().unwrap();
    assert!(matches!(e, Error::MissingKey("tokenizer.ggml.tokens")));
    assert_eq!(e.message(), "gguf metadata is missing tokenizer.ggml.tokens");

    let mut g = model(&["a"], &[]);
    g.metadata[2].value = Value::U8(1);
    let e = Tokenizer::from_gguf(&g).err().unwrap();
    assert!(matches!(e, Error::MissingKey("tokenizer.ggml.merges")));

    g.metadata[2].value = Value::Array(vec![Value::String("a b".to_string()), Value::U8(1)]);
    let e = Tokenizer::from_gguf(&g).err().unwrap();
    assert!(matches!(e, Error::BadKey("tokenizer.ggml.merges")));
    assert_eq!(e.message(), "gguf metadata key tokenizer.ggml.merges has the wrong shape");

    assert_eq!(string_array(&model(&["x", "y"], &[]), "tokenizer.ggml.tokens").ok(), Some(vec!["x".to_string(), "y".to_string()]));
}

fn chat_model(tokens: &[&str], bos: bool, eos: bool) -> Tokenizer {
    let mut g = model(tokens, &[]);
    if bos {
        g.metadata.push(entry("tokenizer.ggml.bos_token_id", Value::U32(10)));
    }
    if eos {
        g.metadata.push(entry("tokenizer.ggml.eos_token_id", Value::U32(11)));
    }
    Tokenizer::from_gguf(&g).ok().unwrap()
}

const MARKERS: [&str; 4] = [
    "<｜hy_User:opensource｜>",
    "<｜hy_Assistant:opensource｜>",
    "<think:opensource>",
    "</think:opensource>",
];

#[test]
fn chat_markers_resolve() {
    let m = ChatMarkers::resolve(&chat_model(&MARKERS, true, true)).ok().unwrap();
    assert_eq!((m.bos, m.eos, m.eot), (10, 11, None));
    assert_eq!(m.style, ChatStyle::Hy3);
    assert_eq!((m.user, m.assistant), (Some(0), Some(1)));
    assert_eq!((m.think_start, m.think_end), (Some(2), Some(3)));
    assert_eq!((m.turn_start, m.turn_end, m.middle), (None, None, None));
    assert!(m.is_stop(11) && !m.is_stop(10));
    let with_eot = ChatMarkers { eot: Some(12), ..m };
    assert!(with_eot.is_stop(12) && with_eot.is_stop(11) && !with_eot.is_stop(13));
}

#[test]
fn chat_markers_report_the_first_that_is_missing() {
    let missing = |t: &Tokenizer| match ChatMarkers::resolve(t) {
        Err(Error::MissingKey(k)) => k,
        _ => panic!("resolved"),
    };
    assert_eq!(missing(&chat_model(&MARKERS, false, false)), "bos_token_id");
    assert_eq!(missing(&chat_model(&MARKERS, true, false)), "eos_token_id");
    for i in 0..4 {
        assert_eq!(missing(&chat_model(&MARKERS[..i], true, true)), MARKERS[i]);
    }
}

/// The markers of each family, in the order in which they are tried.
const FAMILIES: [(ChatStyle, &[&str]); 11] = [
    (ChatStyle::Hy3, &MARKERS),
    (ChatStyle::Kimi, &["<|im_user|>", "<|im_middle|>"]),
    (ChatStyle::ChatMl, &["<|im_start|>", "<|im_end|>"]),
    (ChatStyle::Gemma, &["<start_of_turn>", "<end_of_turn>"]),
    (ChatStyle::MiniMax, &["]~b]", "[e~[", "<mm:think>"]),
    (ChatStyle::Inkling, &["<|message_user|>", "<|message_model|>"]),
    (ChatStyle::DeepSeek, &["<｜User｜>", "<｜Assistant｜>"]),
    (ChatStyle::Glm, &["[gMASK]", "<sop>", "<|user|>", "<|assistant|>"]),
    (ChatStyle::Laguna, &["<assistant>", "<think>"]),
    (ChatStyle::Harmony, &["<|start|>", "<|channel|>"]),
    (ChatStyle::KimiK3, &["<|open|>", "<|close|>", "<|end_of_msg|>"]),
];

fn markers(tokens: &[&str]) -> ChatMarkers {
    ChatMarkers::resolve(&chat_model(tokens, true, true)).ok().unwrap()
}

#[test]
fn every_chat_family_is_recognized() {
    for (style, tokens) in FAMILIES {
        assert_eq!(markers(tokens).style, style);
        // one marker short, nothing is found, and the first Hy3 marker is named
        for skip in 0..tokens.len() {
            let rest: Vec<&str> =
                (0..tokens.len()).filter(|&i| i != skip).map(|i| tokens[i]).collect();
            match ChatMarkers::resolve(&chat_model(&rest, true, true)) {
                Err(Error::MissingKey(k)) => {
                    let want = if style == ChatStyle::Hy3 { MARKERS[skip] } else { MARKERS[0] };
                    assert_eq!(k, want);
                }
                _ => panic!("resolved"),
            }
        }
    }
}

#[test]
fn the_first_chat_family_wins() {
    for i in 0..FAMILIES.len() {
        let tokens: Vec<&str> = FAMILIES[i..].iter().flat_map(|f| f.1.iter().copied()).collect();
        assert_eq!(markers(&tokens).style, FAMILIES[i].0);
    }
}

#[test]
fn chat_families_fill_their_markers() {
    let m = markers(FAMILIES[1].1);
    assert_eq!((m.user, m.middle), (Some(0), Some(1)));
    for i in [2, 3] {
        let m = markers(FAMILIES[i].1);
        assert_eq!((m.turn_start, m.turn_end), (Some(0), Some(1)));
        assert_eq!((m.user, m.assistant, m.think_start, m.think_end), (None, None, None, None));
        assert_eq!((m.bos, m.eos), (10, 11));
        assert!(m.is_stop(11) && !m.is_stop(1));
    }
    let m = markers(FAMILIES[4].1);
    assert_eq!((m.turn_start, m.turn_end, m.think_start), (Some(0), Some(1), Some(2)));
    let m = markers(FAMILIES[5].1);
    assert_eq!((m.user, m.assistant), (Some(0), Some(1)));
    let m = markers(FAMILIES[6].1);
    assert_eq!((m.user, m.assistant, m.think_start, m.think_end), (Some(0), Some(1), None, None));
    let m = markers(&["<｜User｜>", "<｜Assistant｜>", "<think>", "</think>"]);
    assert_eq!((m.think_start, m.think_end), (Some(2), Some(3)));
    let m = markers(FAMILIES[7].1);
    assert_eq!((m.prefix, m.prefix_end, m.user, m.assistant), (Some(0), Some(1), Some(2), Some(3)));
    let m = markers(&["[gMASK]<sop>", "<|user|>", "<|assistant|>"]);
    assert_eq!(m.style, ChatStyle::Glm);
    assert_eq!((m.prefix, m.prefix_end, m.user, m.assistant), (Some(0), None, Some(1), Some(2)));
    let m = markers(&["<assistant>", "<think>", "</think>"]);
    assert_eq!((m.assistant, m.think_start, m.think_end), (Some(0), Some(1), Some(2)));
    let m = markers(FAMILIES[9].1);
    assert_eq!((m.turn_start, m.middle), (Some(0), Some(1)));
    let m = markers(FAMILIES[10].1);
    assert_eq!((m.turn_start, m.turn_end, m.message_end), (Some(0), Some(1), Some(2)));
}

#[test]
fn chat_families_need_bos_and_eos() {
    for (_, tokens) in FAMILIES {
        assert!(ChatMarkers::resolve(&chat_model(tokens, false, true)).is_err());
        assert!(ChatMarkers::resolve(&chat_model(tokens, true, false)).is_err());
    }
}
