use pulsar::byte_map::gpt2_byte_to_char;
use pulsar::pretokenize::{
    ascii_alpha, ascii_digit, ascii_newline, ascii_space, cjk_at, consume_letters, letter_like_at,
    next_char, peek_codepoint, pretokenize, punct_symbol, utf8_char_len,
};

#[test]
fn byte_char_map_is_a_bijection() {
    let mut seen = std::collections::HashSet::new();
    for b in 0..=255u8 {
        assert!(seen.insert(gpt2_byte_to_char(b)));
    }
    // spot checks against the canonical GPT-2 table
    assert_eq!(gpt2_byte_to_char(b' '), '\u{120}'); // Ġ
    assert_eq!(gpt2_byte_to_char(b'\n'), '\u{10a}'); // Ċ
    assert_eq!(gpt2_byte_to_char(b'!'), '!');
}

#[test]
fn byte_char_map_covers_the_gaps() {
    assert_eq!(gpt2_byte_to_char(0), '\u{100}');
    assert_eq!(gpt2_byte_to_char(127), '\u{121}');
    assert_eq!(gpt2_byte_to_char(160), '\u{142}');
    assert_eq!(gpt2_byte_to_char(161), '\u{a1}');
    assert_eq!(gpt2_byte_to_char(173), '\u{143}');
    assert_eq!(gpt2_byte_to_char(255), '\u{ff}');
}

#[test]
fn pretokenize_splits_leading_space_runs() {
    let pieces: Vec<&[u8]> = pretokenize(b"    int x");
    assert_eq!(pieces, vec![&b"   "[..], &b" int"[..], &b" x"[..]]);
}

#[test]
fn pretokenize_groups_digits_by_three() {
    let pieces: Vec<&[u8]> = pretokenize(b"12345");
    assert_eq!(pieces, vec![&b"123"[..], &b"45"[..]]);
}

#[test]
fn pretokenize_keeps_newlines_with_punct() {
    let pieces: Vec<&[u8]> = pretokenize(b"x;\ny");
    assert_eq!(pieces, vec![&b"x"[..], &b";\n"[..], &b"y"[..]]);
}

#[test]
fn pretokenize_empty_text_has_no_pieces() {
    assert!(pretokenize(b"").is_empty());
}

#[test]
fn pretokenize_joins_one_punct_with_letters() {
    let pieces: Vec<&[u8]> = pretokenize(b"a.bc_d (x)!!");
    assert_eq!(
        pieces,
        vec![&b"a"[..], &b".bc"[..], &b"_d"[..], &b" ("[..], &b"x"[..], &b")!!"[..]]
    );
}

#[test]
fn pretokenize_ends_space_runs_after_the_last_newline() {
    let pieces: Vec<&[u8]> = pretokenize(b"a \n\t\n  b");
    assert_eq!(pieces, vec![&b"a"[..], &b" \n\t\n"[..], &b" "[..], &b" b"[..]]);
    let pieces: Vec<&[u8]> = pretokenize(b"a   ");
    assert_eq!(pieces, vec![&b"a"[..], &b"   "[..]]);
}

#[test]
fn pretokenize_separates_cjk_from_letters() {
    let text = "ab漢字かなé";
    let pieces = pretokenize(text.as_bytes());
    // a run of letters takes in what follows it outside ASCII
    assert_eq!(pieces, vec![text.as_bytes()]);
    let pieces = pretokenize("漢字ab".as_bytes());
    assert_eq!(pieces, vec!["漢字".as_bytes(), &b"ab"[..]]);
    let pieces = pretokenize("漢é".as_bytes());
    assert_eq!(pieces, vec!["漢".as_bytes(), "é".as_bytes()]);
}

#[test]
fn pretokenize_takes_broken_bytes_one_by_one() {
    // a byte outside ASCII counts as a letter, whatever it announces
    let pieces = pretokenize(&[0xe6, 0xbc]);
    assert_eq!(pieces, vec![&[0xe6u8, 0xbc][..]]);
    let pieces = pretokenize(&[0x01, 0x02]);
    assert_eq!(pieces, vec![&[0x01u8][..], &[0x02][..]]);
}

#[test]
fn pieces_rejoin_to_the_text() {
    let texts: [&[u8]; 6] = [
        b"fn main() {\n    println!(\"hi\");\n}\n",
        "今日は2024年、I'm fine…".as_bytes(),
        &[0xff, 0x20, 0x31, 0xc3, 0x28],
        b"\r\n\r\n  \x0b\x0c x",
        b"   ",
        "ﷺ ～!\n".as_bytes(),
    ];
    for t in texts {
        let pieces = pretokenize(t);
        assert_eq!(pieces.concat(), t);
        assert!(pieces.iter().all(|p| !p.is_empty()));
    }
}

#[test]
fn byte_classes() {
    assert!(ascii_alpha(b'q') && ascii_alpha(b'Z') && !ascii_alpha(b'1') && !ascii_alpha(0xe9));
    assert!(ascii_digit(b'0') && ascii_digit(b'9') && !ascii_digit(b'a'));
    for c in 0..=255u8 {
        assert_eq!(ascii_space(c), matches!(c, 32 | 9..=13));
        assert_eq!(ascii_newline(c), c == 10 || c == 13);
        assert_eq!(punct_symbol(c), c.is_ascii_punctuation());
    }
}

#[test]
fn utf8_lengths_and_codepoints() {
    assert_eq!(utf8_char_len(b'a'), 1);
    assert_eq!(utf8_char_len(0xc3), 2);
    assert_eq!(utf8_char_len(0xe6), 3);
    assert_eq!(utf8_char_len(0xf0), 4);
    assert_eq!(utf8_char_len(0x80), 1);
    assert_eq!(utf8_char_len(0xff), 1);
    for c in ['a', 'é', '漢', '😀'] {
        let s = c.to_string();
        assert_eq!(peek_codepoint(s.as_bytes(), 0), c as u32);
        assert_eq!(next_char(s.as_bytes(), 0), s.len());
    }
    assert_eq!(peek_codepoint(&[0xe6, 0xbc], 0), 0xe6);
    assert_eq!(next_char(&[0xe6, 0xbc], 0), 1);
}

#[test]
fn cjk_ranges_have_exact_ends() {
    let at = |c: char| cjk_at(c.to_string().as_bytes(), 0);
    for (c, want) in [
        ('\u{4dff}', false), ('\u{4e00}', true), ('\u{9fa5}', true), ('\u{9fa6}', false),
        ('\u{303f}', false), ('\u{3040}', true), ('\u{309f}', true), ('\u{30a0}', true),
        ('\u{30ff}', true), ('\u{3100}', false), ('a', false),
    ] {
        assert_eq!(at(c), want, "{c:?}");
    }
}

#[test]
fn letters_run_over_anything_outside_ascii() {
    let s = "aé漢1".as_bytes();
    assert!(letter_like_at(s, 0) && letter_like_at(s, 1));
    assert_eq!(consume_letters(s, 0), s.len() - 1);
    assert_eq!(consume_letters(s, s.len() - 1), s.len() - 1);
}

#[test]
fn pieces_of_text_are_text() {
    for t in ["aé漢字!ü\n  ñ 12３", "…\u{a0}x\u{2028}", "😀😀 q😀"] {
        for p in pretokenize(t.as_bytes()) {
            assert!(std::str::from_utf8(p).is_ok());
        }
    }
}
