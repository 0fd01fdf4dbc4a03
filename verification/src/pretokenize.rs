//! The pre-tokenizer: splits text into the words that byte-pair merges are
//! confined to. The split is defined on bytes, so that it is total; on UTF-8
//! text no character is ever torn apart.

use vstd::prelude::*;
use vstd::slice::slice_subrange;
use vstd::utf8::*;

verus! {

pub open spec fn is_ascii_alpha(c: u8) -> bool {
    0x41 <= c <= 0x5a || 0x61 <= c <= 0x7a
}

pub open spec fn is_ascii_digit(c: u8) -> bool {
    0x30 <= c <= 0x39
}

/// Space, tab, line feed, vertical tab, form feed or carriage return.
pub open spec fn is_ascii_space(c: u8) -> bool {
    c == 0x20 || 0x09 <= c <= 0x0d
}

/// Line feed or carriage return.
pub open spec fn is_ascii_newline(c: u8) -> bool {
    c == 0x0a || c == 0x0d
}

/// Printable ASCII that is neither a letter, nor a digit, nor the space.
pub open spec fn is_punct_symbol(c: u8) -> bool {
    0x21 <= c <= 0x2f || 0x3a <= c <= 0x40 || 0x5b <= c <= 0x60 || 0x7b <= c <= 0x7e
}

/// The number of bytes that a UTF-8 leading byte announces, 1 for any byte
/// that leads nothing.
pub open spec fn announced_len(c: u8) -> int {
    if 0xc0 <= c <= 0xdf {
        2
    } else if 0xe0 <= c <= 0xef {
        3
    } else if 0xf0 <= c <= 0xf7 {
        4
    } else {
        1
    }
}

/// Where the character at `pos` ends: past its announced bytes, or past one
/// byte where the text ends too early for those.
pub open spec fn char_end(s: Seq<u8>, pos: int) -> int {
    let n = announced_len(s[pos]);
    if pos + n > s.len() {
        pos + 1
    } else {
        pos + n
    }
}

/// The code point that the bytes at `pos` spell, the byte itself where they
/// announce more than the text holds.
pub open spec fn codepoint_at(s: Seq<u8>, pos: int) -> u32 {
    let n = announced_len(s[pos]);
    if pos + n > s.len() || n == 1 {
        s[pos] as u32
    } else if n == 2 {
        codepoint_width_2(s[pos], s[pos + 1])
    } else if n == 3 {
        codepoint_width_3(s[pos], s[pos + 1], s[pos + 2])
    } else {
        codepoint_width_4(s[pos], s[pos + 1], s[pos + 2], s[pos + 3])
    }
}

/// The Han, Hiragana and Katakana blocks that are split on their own.
pub open spec fn is_cjk(cp: u32) -> bool {
    0x4e00 <= cp <= 0x9fa5 || 0x3040 <= cp <= 0x309f || 0x30a0 <= cp <= 0x30ff
}

pub open spec fn is_cjk_at(s: Seq<u8>, pos: int) -> bool {
    s[pos] >= 128 && is_cjk(codepoint_at(s, pos))
}

/// An ASCII letter, or any byte outside ASCII.
pub open spec fn is_letter_like(c: u8) -> bool {
    c >= 128 || is_ascii_alpha(c)
}

/// The end of the run of `class` bytes that starts at `pos`.
pub open spec fn run_end(s: Seq<u8>, pos: int, class: spec_fn(u8) -> bool) -> int
    decreases s.len() - pos,
{
    if 0 <= pos < s.len() && class(s[pos]) {
        run_end(s, pos + 1, class)
    } else {
        pos
    }
}

/// The end of the run of letter-like characters that starts at `pos`.
pub open spec fn letters_end(s: Seq<u8>, pos: int) -> int
    decreases s.len() - pos,
{
    if 0 <= pos < s.len() && is_letter_like(s[pos]) {
        letters_end(s, char_end(s, pos))
    } else {
        pos
    }
}

/// The end of the run of CJK characters that starts at `pos`.
pub open spec fn cjk_end(s: Seq<u8>, pos: int) -> int
    decreases s.len() - pos,
{
    if 0 <= pos < s.len() && is_cjk_at(s, pos) {
        cjk_end(s, char_end(s, pos))
    } else {
        pos
    }
}

/// The position after the last newline in `s[start..end]`.
pub open spec fn after_last_newline(s: Seq<u8>, start: int, end: int) -> Option<int>
    decreases end - start,
{
    if end <= start {
        None
    } else if is_ascii_newline(s[end - 1]) {
        Some(end)
    } else {
        after_last_newline(s, start, end - 1)
    }
}

/// Where a run of white space that starts at `pos` is cut: after its last
/// newline; else before its last space, where that space and at least one
/// more precede a word; else at its end.
pub open spec fn space_end(s: Seq<u8>, pos: int) -> int {
    let p = run_end(s, pos, |c: u8| is_ascii_space(c));
    match after_last_newline(s, pos, p) {
        Some(e) => e,
        None => if p < s.len() && p > pos + 1 && (is_letter_like(s[p]) || is_punct_symbol(s[p])) {
            p - 1
        } else {
            p
        },
    }
}

/// The end of the newlines that follow the punctuation run at `pos`.
pub open spec fn punct_end(s: Seq<u8>, pos: int) -> int {
    run_end(s, run_end(s, pos, |c: u8| is_punct_symbol(c)), |c: u8| is_ascii_newline(c))
}

/// Where the piece that starts at `pos` ends.
pub open spec fn piece_end(s: Seq<u8>, pos: int) -> int {
    let c = s[pos];
    let more = pos + 1 < s.len();
    if is_ascii_digit(c) {
        // numbers are cut in groups of three
        let e = run_end(s, pos, |c: u8| is_ascii_digit(c));
        if e > pos + 3 {
            pos + 3
        } else {
            e
        }
    } else if is_cjk_at(s, pos) {
        cjk_end(s, pos)
    } else if is_punct_symbol(c) && more && is_ascii_alpha(s[pos + 1]) {
        run_end(s, pos + 1, |c: u8| is_ascii_alpha(c))
    } else if is_letter_like(c) {
        letters_end(s, pos)
    } else if !is_ascii_newline(c) && !is_punct_symbol(c) && more && is_letter_like(s[pos + 1]) {
        letters_end(s, pos + 1)
    } else if c == 0x20 && more && is_punct_symbol(s[pos + 1]) {
        punct_end(s, pos + 1)
    } else if is_punct_symbol(c) {
        punct_end(s, pos)
    } else if is_ascii_space(c) {
        space_end(s, pos)
    } else {
        char_end(s, pos)
    }
}

/// The pieces of `s` from `pos` on.
pub open spec fn pieces(s: Seq<u8>, pos: int) -> Seq<Seq<u8>>
    decreases s.len() - pos,
    when 0 <= pos <= s.len()
    via pieces_decreases
{
    if pos == s.len() {
        Seq::empty()
    } else {
        seq![s.subrange(pos, piece_end(s, pos))] + pieces(s, piece_end(s, pos))
    }
}

#[via_fn]
proof fn pieces_decreases(s: Seq<u8>, pos: int) {
    if pos < s.len() {
        lemma_piece_end(s, pos);
    }
}

/// A text as its sequence of pieces.
pub open spec fn split_pieces(s: Seq<u8>) -> Seq<Seq<u8>> {
    pieces(s, 0)
}

proof fn lemma_run_end(s: Seq<u8>, pos: int, class: spec_fn(u8) -> bool)
    requires
        0 <= pos <= s.len(),
    ensures
        pos <= run_end(s, pos, class) <= s.len(),
        forall|i: int| pos <= i < run_end(s, pos, class) ==> class(#[trigger] s[i]),
        run_end(s, pos, class) < s.len() ==> !class(s[run_end(s, pos, class)]),
    decreases s.len() - pos,
{
    if pos < s.len() && class(s[pos]) {
        lemma_run_end(s, pos + 1, class);
    }
}

proof fn lemma_letters_end(s: Seq<u8>, pos: int)
    requires
        0 <= pos <= s.len(),
    ensures
        pos <= letters_end(s, pos) <= s.len(),
    decreases s.len() - pos,
{
    if pos < s.len() && is_letter_like(s[pos]) {
        lemma_letters_end(s, char_end(s, pos));
    }
}

proof fn lemma_cjk_end(s: Seq<u8>, pos: int)
    requires
        0 <= pos <= s.len(),
    ensures
        pos <= cjk_end(s, pos) <= s.len(),
    decreases s.len() - pos,
{
    if pos < s.len() && is_cjk_at(s, pos) {
        lemma_cjk_end(s, char_end(s, pos));
    }
}

proof fn lemma_after_last_newline(s: Seq<u8>, start: int, end: int)
    ensures
        after_last_newline(s, start, end) matches Some(e) ==> start < e <= end,
    decreases end - start,
{
    if start < end && !is_ascii_newline(s[end - 1]) {
        lemma_after_last_newline(s, start, end - 1);
    }
}

proof fn lemma_punct_end(s: Seq<u8>, pos: int)
    requires
        0 <= pos <= s.len(),
    ensures
        pos <= punct_end(s, pos) <= s.len(),
        pos < s.len() && is_punct_symbol(s[pos]) ==> pos < punct_end(s, pos),
{
    let punct = |c: u8| is_punct_symbol(c);
    lemma_run_end(s, pos, punct);
    lemma_run_end(s, run_end(s, pos, punct), |c: u8| is_ascii_newline(c));
}

/// Every piece holds at least one byte and ends inside the text.
pub proof fn lemma_piece_end(s: Seq<u8>, pos: int)
    requires
        0 <= pos < s.len(),
    ensures
        pos < piece_end(s, pos) <= s.len(),
{
    lemma_run_end(s, pos, |c: u8| is_ascii_digit(c));
    lemma_run_end(s, pos, |c: u8| is_ascii_space(c));
    lemma_run_end(s, pos + 1, |c: u8| is_ascii_alpha(c));
    lemma_letters_end(s, char_end(s, pos));
    lemma_letters_end(s, pos + 1);
    lemma_cjk_end(s, char_end(s, pos));
    lemma_punct_end(s, pos);
    lemma_punct_end(s, pos + 1);
    lemma_after_last_newline(s, pos, run_end(s, pos, |c: u8| is_ascii_space(c)));
}

proof fn lemma_pieces_flatten(s: Seq<u8>, pos: int)
    requires
        0 <= pos <= s.len(),
    ensures
        pieces(s, pos).flatten() == s.subrange(pos, s.len() as int),
        forall|i: int| 0 <= i < pieces(s, pos).len() ==> (#[trigger] pieces(s, pos)[i]).len() > 0,
    decreases s.len() - pos,
{
    if pos < s.len() {
        let e = piece_end(s, pos);
        lemma_piece_end(s, pos);
        lemma_pieces_flatten(s, e);
        let first = s.subrange(pos, e);
        assert(pieces(s, pos).first() == first);
        assert(pieces(s, pos).drop_first() =~= pieces(s, e));
        assert(first + s.subrange(e, s.len() as int) =~= s.subrange(pos, s.len() as int));
    } else {
        assert(s.subrange(pos, s.len() as int) =~= Seq::<u8>::empty());
    }
}

/// The split loses nothing: the pieces, put back together in order, are the
/// text, and none of them is empty.
pub proof fn pieces_rejoin(s: Seq<u8>)
    ensures
        split_pieces(s).flatten() == s,
        forall|i: int| 0 <= i < split_pieces(s).len() ==> (#[trigger] split_pieces(s)[i]).len() > 0,
{
    lemma_pieces_flatten(s, 0);
    assert(s.subrange(0, s.len() as int) =~= s);
}

/// The text from `pos` on.
pub open spec fn tail(s: Seq<u8>, pos: int) -> Seq<u8> {
    s.subrange(pos, s.len() as int)
}

proof fn lemma_char_step(s: Seq<u8>, pos: int)
    requires
        0 <= pos < s.len(),
        valid_utf8(tail(s, pos)),
    ensures
        pos < char_end(s, pos) <= s.len(),
        valid_utf8(tail(s, char_end(s, pos))),
        s[pos] < 128 ==> char_end(s, pos) == pos + 1,
        !is_continuation_byte(s[pos]),
{
    assert(pop_first_scalar(tail(s, pos)) =~= tail(s, char_end(s, pos)));
}

proof fn lemma_ascii_steps(s: Seq<u8>, pos: int, end: int)
    requires
        0 <= pos <= end <= s.len(),
        valid_utf8(tail(s, pos)),
        forall|i: int| pos <= i < end ==> #[trigger] s[i] < 128,
    ensures
        forall|k: int| pos <= k <= end ==> valid_utf8(#[trigger] tail(s, k)),
    decreases end - pos,
{
    if pos < end {
        lemma_char_step(s, pos);
        lemma_ascii_steps(s, pos + 1, end);
    }
}

proof fn lemma_letters_step(s: Seq<u8>, pos: int)
    requires
        0 <= pos <= s.len(),
        valid_utf8(tail(s, pos)),
    ensures
        valid_utf8(tail(s, letters_end(s, pos))),
    decreases s.len() - pos,
{
    if pos < s.len() && is_letter_like(s[pos]) {
        lemma_char_step(s, pos);
        lemma_letters_step(s, char_end(s, pos));
    }
}

proof fn lemma_cjk_step(s: Seq<u8>, pos: int)
    requires
        0 <= pos <= s.len(),
        valid_utf8(tail(s, pos)),
    ensures
        valid_utf8(tail(s, cjk_end(s, pos))),
    decreases s.len() - pos,
{
    if pos < s.len() && is_cjk_at(s, pos) {
        lemma_char_step(s, pos);
        lemma_cjk_step(s, char_end(s, pos));
    }
}

proof fn lemma_run_step(s: Seq<u8>, pos: int, class: spec_fn(u8) -> bool)
    requires
        0 <= pos <= s.len(),
        valid_utf8(tail(s, pos)),
        forall|c: u8| #[trigger] class(c) ==> c < 128,
    ensures
        forall|k: int| pos <= k <= run_end(s, pos, class) ==> valid_utf8(#[trigger] tail(s, k)),
        pos <= run_end(s, pos, class) <= s.len(),
{
    lemma_run_end(s, pos, class);
    assert forall|i: int| pos <= i < run_end(s, pos, class) implies #[trigger] s[i] < 128 by {
        assert(class(s[i]));
    }
    lemma_ascii_steps(s, pos, run_end(s, pos, class));
}

proof fn lemma_piece_step(s: Seq<u8>, pos: int)
    requires
        0 <= pos < s.len(),
        valid_utf8(tail(s, pos)),
    ensures
        valid_utf8(tail(s, piece_end(s, pos))),
{
    let punct = |c: u8| is_punct_symbol(c);
    let newline = |c: u8| is_ascii_newline(c);
    let space = |c: u8| is_ascii_space(c);
    lemma_char_step(s, pos);
    lemma_run_step(s, pos, |c: u8| is_ascii_digit(c));
    lemma_cjk_step(s, pos);
    lemma_letters_step(s, pos);
    lemma_run_step(s, pos, punct);
    lemma_run_step(s, run_end(s, pos, punct), newline);
    lemma_run_step(s, pos, space);
    lemma_after_last_newline(s, pos, run_end(s, pos, space));
    if s[pos] < 128 {
        lemma_run_step(s, pos + 1, |c: u8| is_ascii_alpha(c));
        lemma_letters_step(s, pos + 1);
        lemma_run_step(s, pos + 1, punct);
        lemma_run_step(s, run_end(s, pos + 1, punct), newline);
    }
}

proof fn lemma_pieces_utf8(s: Seq<u8>, pos: int)
    requires
        0 <= pos <= s.len(),
        valid_utf8(tail(s, pos)),
    ensures
        forall|i: int| 0 <= i < pieces(s, pos).len() ==> valid_utf8(#[trigger] pieces(s, pos)[i]),
    decreases s.len() - pos,
{
    if pos < s.len() {
        let e = piece_end(s, pos);
        let t = tail(s, pos);
        lemma_piece_end(s, pos);
        lemma_piece_step(s, pos);
        assert(is_char_boundary(t, e - pos)) by {
            if e < s.len() {
                lemma_char_step(s, e);
                assert(t[e - pos] == s[e]);
                is_char_boundary_iff_not_is_continuation_byte(t, e - pos);
            } else {
                is_char_boundary_start_end_of_seq(t);
            }
        }
        valid_utf8_split(t, e - pos);
        assert(t.subrange(0, e - pos) =~= s.subrange(pos, e));
        lemma_pieces_utf8(s, e);
        assert forall|i: int| 0 <= i < pieces(s, pos).len() implies valid_utf8(
            #[trigger] pieces(s, pos)[i],
        ) by {
            if i > 0 {
                assert(pieces(s, pos)[i] == pieces(s, e)[i - 1]);
            }
        }
    }
}

/// The split respects characters: every piece of UTF-8 text is UTF-8 text.
pub proof fn pieces_are_utf8(s: Seq<u8>)
    requires
        valid_utf8(s),
    ensures
        forall|i: int| 0 <= i < split_pieces(s).len() ==> valid_utf8(#[trigger] split_pieces(s)[i]),
{
    assert(tail(s, 0) =~= s);
    lemma_pieces_utf8(s, 0);
}

/// At a character of UTF-8 text, the code point that is peeked is that
/// character.
pub proof fn codepoint_is_the_char(s: Seq<u8>, pos: int)
    requires
        0 <= pos < s.len(),
        valid_utf8(tail(s, pos)),
    ensures
        codepoint_at(s, pos) == decode_first_scalar(tail(s, pos)),
{
    let b = s[pos];
    assert(b <= 0x7f ==> leading_bits_width_1(b) == b as u32) by (bit_vector);
}

pub fn ascii_alpha(c: u8) -> (r: bool)
    ensures
        r == is_ascii_alpha(c),
{
    (0x41 <= c && c <= 0x5a) || (0x61 <= c && c <= 0x7a)
}

pub fn ascii_digit(c: u8) -> (r: bool)
    ensures
        r == is_ascii_digit(c),
{
    0x30 <= c && c <= 0x39
}

pub fn ascii_space(c: u8) -> (r: bool)
    ensures
        r == is_ascii_space(c),
{
    c == 0x20 || c == 0x09 || c == 0x0a || c == 0x0d || c == 0x0b || c == 0x0c
}

pub fn ascii_newline(c: u8) -> (r: bool)
    ensures
        r == is_ascii_newline(c),
{
    c == 0x0a || c == 0x0d
}

pub fn punct_symbol(c: u8) -> (r: bool)
    ensures
        r == is_punct_symbol(c),
{
    (0x21 <= c && c <= 0x2f) || (0x3a <= c && c <= 0x40) || (0x5b <= c && c <= 0x60) || (0x7b <= c
        && c <= 0x7e)
}

/// The length that a UTF-8 leading byte announces.
pub fn utf8_char_len(c: u8) -> (n: usize)
    ensures
        n == announced_len(c),
{
    assert(c & 0xe0 == 0xc0 <==> 0xc0 <= c <= 0xdf) by (bit_vector);
    assert(c & 0xf0 == 0xe0 <==> 0xe0 <= c <= 0xef) by (bit_vector);
    assert(c & 0xf8 == 0xf0 <==> 0xf0 <= c <= 0xf7) by (bit_vector);
    if c < 0x80 {
        1
    } else if c & 0xe0 == 0xc0 {
        2
    } else if c & 0xf0 == 0xe0 {
        3
    } else if c & 0xf8 == 0xf0 {
        4
    } else {
        1
    }
}

/// The position after the character at `pos`.
pub fn next_char(s: &[u8], pos: usize) -> (end: usize)
    requires
        pos < s@.len(),
    ensures
        end == char_end(s@, pos as int),
        pos < end <= s@.len(),
{
    let n: usize = utf8_char_len(s[pos]);
    if n > s.len() - pos {
        pos + 1
    } else {
        pos + n
    }
}

/// The code point at `pos`, read without checking continuation bytes.
pub fn peek_codepoint(s: &[u8], pos: usize) -> (cp: u32)
    requires
        pos < s@.len(),
    ensures
        cp == codepoint_at(s@, pos as int),
{
    let n: usize = utf8_char_len(s[pos]);
    if n > s.len() - pos || n == 1 {
        return s[pos] as u32;
    }
    let c1: u32 = (s[pos + 1] & 0x3f) as u32;
    if n == 2 {
        return ((s[pos] & 0x1f) as u32) << 6 | c1;
    }
    let c2: u32 = (s[pos + 2] & 0x3f) as u32;
    if n == 3 {
        return ((s[pos] & 0x0f) as u32) << 12 | c1 << 6 | c2;
    }
    let c3: u32 = (s[pos + 3] & 0x3f) as u32;
    ((s[pos] & 0x07) as u32) << 18 | c1 << 12 | c2 << 6 | c3
}

pub fn cjk_at(s: &[u8], pos: usize) -> (r: bool)
    requires
        pos < s@.len(),
    ensures
        r == is_cjk_at(s@, pos as int),
{
    if s[pos] < 128 {
        return false;
    }
    let cp: u32 = peek_codepoint(s, pos);
    (0x4e00 <= cp && cp <= 0x9fa5) || (0x3040 <= cp && cp <= 0x309f) || (0x30a0 <= cp && cp
        <= 0x30ff)
}

/// ASCII letters, plus any non-ASCII character; a caller that treats CJK
/// apart tests for it first.
pub fn letter_like_at(s: &[u8], pos: usize) -> (r: bool)
    requires
        pos < s@.len(),
    ensures
        r == is_letter_like(s@[pos as int]),
{
    let c: u8 = s[pos];
    if c < 128 {
        ascii_alpha(c)
    } else {
        true
    }
}

pub fn consume_letters(s: &[u8], start: usize) -> (end: usize)
    requires
        start <= s@.len(),
    ensures
        end == letters_end(s@, start as int),
        start <= end <= s@.len(),
{
    let mut pos: usize = start;
    while pos < s.len() && letter_like_at(s, pos)
        invariant
            start <= pos <= s@.len(),
            letters_end(s@, pos as int) == letters_end(s@, start as int),
        decreases s@.len() - pos,
    {
        pos = next_char(s, pos);
    }
    pos
}

fn consume_alpha(s: &[u8], start: usize) -> (end: usize)
    requires
        start <= s@.len(),
    ensures
        end == run_end(s@, start as int, |c: u8| is_ascii_alpha(c)),
        start <= end <= s@.len(),
{
    let mut pos: usize = start;
    let ghost class = |c: u8| is_ascii_alpha(c);
    while pos < s.len() && ascii_alpha(s[pos])
        invariant
            start <= pos <= s@.len(),
            class == (|c: u8| is_ascii_alpha(c)),
            run_end(s@, pos as int, class) == run_end(s@, start as int, class),
        decreases s@.len() - pos,
    {
        pos += 1;
    }
    pos
}

/// Passes over a run of punctuation and the newlines behind it.
fn consume_punct(s: &[u8], start: usize) -> (end: usize)
    requires
        start <= s@.len(),
    ensures
        end == punct_end(s@, start as int),
        start <= end <= s@.len(),
{
    let mut pos: usize = start;
    let ghost punct = |c: u8| is_punct_symbol(c);
    let ghost newline = |c: u8| is_ascii_newline(c);
    while pos < s.len() && punct_symbol(s[pos])
        invariant
            start <= pos <= s@.len(),
            punct == (|c: u8| is_punct_symbol(c)),
            run_end(s@, pos as int, punct) == run_end(s@, start as int, punct),
        decreases s@.len() - pos,
    {
        pos += 1;
    }
    while pos < s.len() && ascii_newline(s[pos])
        invariant
            start <= pos <= s@.len(),
            newline == (|c: u8| is_ascii_newline(c)),
            run_end(s@, pos as int, newline) == punct_end(s@, start as int),
        decreases s@.len() - pos,
    {
        pos += 1;
    }
    pos
}

fn consume_space(s: &[u8], start: usize) -> (end: usize)
    requires
        start < s@.len(),
    ensures
        end == space_end(s@, start as int),
{
    let mut p: usize = start;
    let mut last_newline_end: usize = 0;
    let ghost space = |c: u8| is_ascii_space(c);
    while p < s.len() && ascii_space(s[p])
        invariant
            start <= p <= s@.len(),
            space == (|c: u8| is_ascii_space(c)),
            run_end(s@, p as int, space) == run_end(s@, start as int, space),
            after_last_newline(s@, start as int, p as int) == (if last_newline_end == 0 {
                None
            } else {
                Some(last_newline_end as int)
            }),
        decreases s@.len() - p,
    {
        p += 1;
        if ascii_newline(s[p - 1]) {
            last_newline_end = p;
        }
    }
    if last_newline_end != 0 {
        last_newline_end
    } else if p < s.len() && p > start + 1 && (letter_like_at(s, p) || punct_symbol(s[p])) {
        // a single leading space joins the following word:
        // "    int" splits as "   " + " int", not "    " + "int"
        p - 1
    } else {
        p
    }
}

/// The end of the piece that starts at `start`.
fn next_piece(s: &[u8], start: usize) -> (end: usize)
    requires
        start < s@.len(),
    ensures
        end == piece_end(s@, start as int),
        start < end <= s@.len(),
{
    proof {
        lemma_piece_end(s@, start as int);
    }
    let c: u8 = s[start];
    let more: bool = start + 1 < s.len();
    if ascii_digit(c) {
        let mut pos: usize = start;
        let ghost digit = |c: u8| is_ascii_digit(c);
        while pos < s.len() && ascii_digit(s[pos]) && pos - start < 3
            invariant
                start <= pos <= s@.len(),
                pos <= start + 3,
                digit == (|c: u8| is_ascii_digit(c)),
                run_end(s@, pos as int, digit) == run_end(s@, start as int, digit),
            decreases s@.len() - pos,
        {
            pos += 1;
        }
        proof {
            lemma_run_end(s@, pos as int, digit);
        }
        pos
    } else if cjk_at(s, start) {
        let mut pos: usize = next_char(s, start);
        while pos < s.len() && cjk_at(s, pos)
            invariant
                start < pos <= s@.len(),
                cjk_end(s@, pos as int) == cjk_end(s@, start as int),
            decreases s@.len() - pos,
        {
            pos = next_char(s, pos);
        }
        pos
    } else if punct_symbol(c) && more && ascii_alpha(s[start + 1]) {
        consume_alpha(s, start + 1)
    } else if letter_like_at(s, start) {
        consume_letters(s, start)
    } else if !ascii_newline(c) && !punct_symbol(c) && more && letter_like_at(s, start + 1) {
        consume_letters(s, start + 1)
    } else if c == 0x20 && more && punct_symbol(s[start + 1]) {
        consume_punct(s, start + 1)
    } else if punct_symbol(c) {
        consume_punct(s, start)
    } else if ascii_space(c) {
        consume_space(s, start)
    } else {
        next_char(s, start)
    }
}

/// Byte slices as the byte sequences that they hold.
pub open spec fn slice_views(v: Seq<&[u8]>) -> Seq<Seq<u8>> {
    v.map_values(|p: &[u8]| p@)
}

/// Splits text into BPE words.
pub fn pretokenize(s: &[u8]) -> (out: Vec<&[u8]>)
    ensures
        slice_views(out@) == split_pieces(s@),
{
    let mut out: Vec<&[u8]> = Vec::new();
    let mut pos: usize = 0;
    while pos < s.len()
        invariant
            pos <= s@.len(),
            slice_views(out@) + pieces(s@, pos as int) == split_pieces(s@),
        decreases s@.len() - pos,
    {
        let end: usize = next_piece(s, pos);
        let ghost before = out@;
        out.push(slice_subrange(s, pos, end));
        assert(slice_views(out@) =~= slice_views(before).push(
            s@.subrange(pos as int, end as int),
        ));
        assert(slice_views(out@) + pieces(s@, end as int) =~= slice_views(before) + pieces(
            s@,
            pos as int,
        ));
        pos = end;
    }
    out
}

/// The bytes of each class: letters and digits of ASCII, its six white-space
/// bytes of which two end a line, and every other printable byte of it as
/// punctuation. No byte outside ASCII is in any of these, and each of those
/// counts as a letter.
pub proof fn classes_hold_these_bytes(c: u8)
    ensures
        is_ascii_digit(c) <==> c == 0x30 || c == 0x31 || c == 0x32 || c == 0x33 || c == 0x34 || c
            == 0x35 || c == 0x36 || c == 0x37 || c == 0x38 || c == 0x39,
        is_ascii_alpha(c) <==> (c as int - 0x41) / 26 == 0 || (c as int - 0x61) / 26 == 0,
        is_ascii_space(c) <==> c == 9 || c == 10 || c == 11 || c == 12 || c == 13 || c == 32,
        is_ascii_newline(c) <==> c == 10 || c == 13,
        is_punct_symbol(c) <==> 32 < c < 127 && !is_ascii_digit(c) && !is_ascii_alpha(c),
        is_letter_like(c) <==> c >= 128 || is_ascii_alpha(c),
{
}

/// The characters that are split on their own: Hiragana and Katakana, and the
/// Han characters of the first block, up to U+9FA5.
pub proof fn cjk_is_kana_and_han(cp: u32)
    ensures
        is_cjk(cp) <==> cp / 0x40 == 0xc1 || cp / 0x40 == 0xc2 || cp / 0x40 == 0xc3 || 0x4e00 <= cp
            < 0x9fa6,
{
}

/// A character is as long as its leading byte announces in its top bits, and
/// one byte where it announces nothing, or more than the text holds.
pub proof fn char_length_is_announced(s: Seq<u8>, pos: int)
    requires
        0 <= pos < s.len(),
    ensures
        ({
            let b = s[pos];
            let n = if b & 0b1110_0000 == 0b1100_0000 {
                2int
            } else if b & 0b1111_0000 == 0b1110_0000 {
                3
            } else if b & 0b1111_1000 == 0b1111_0000 {
                4
            } else {
                1
            };
            char_end(s, pos) == if pos + n <= s.len() {
                pos + n
            } else {
                pos + 1
            }
        }),
{
    let b = s[pos];
    assert(b & 0b1110_0000 == 0b1100_0000 <==> 0xc0 <= b <= 0xdf) by (bit_vector);
    assert(b & 0b1111_0000 == 0b1110_0000 <==> 0xe0 <= b <= 0xef) by (bit_vector);
    assert(b & 0b1111_1000 == 0b1111_0000 <==> 0xf0 <= b <= 0xf7) by (bit_vector);
}

/// A code point is the bits that its bytes carry, six in each byte behind the
/// first.
pub proof fn codepoint_joins_the_bits(s: Seq<u8>, pos: int)
    requires
        0 <= pos < s.len(),
    ensures
        char_end(s, pos) == pos + 1 ==> codepoint_at(s, pos) == s[pos],
        char_end(s, pos) == pos + 2 ==> codepoint_at(s, pos) == s[pos] % 32 * 64 + s[pos + 1] % 64,
        char_end(s, pos) == pos + 3 ==> codepoint_at(s, pos) == s[pos] % 16 * 4096 + s[pos + 1] % 64
            * 64 + s[pos + 2] % 64,
        char_end(s, pos) == pos + 4 ==> codepoint_at(s, pos) == s[pos] % 8 * 262144 + s[pos + 1]
            % 64 * 4096 + s[pos + 2] % 64 * 64 + s[pos + 3] % 64,
{
    let a = s[pos];
    let b = s[pos + 1];
    let c = s[pos + 2];
    let d = s[pos + 3];
    assert(codepoint_width_2(a, b) == a % 32 * 64 + b % 64) by (bit_vector);
    assert(codepoint_width_3(a, b, c) == a % 16 * 4096 + b % 64 * 64 + c % 64) by (bit_vector);
    assert(codepoint_width_4(a, b, c, d) == a % 8 * 262144 + b % 64 * 4096 + c % 64 * 64 + d % 64)
        by (bit_vector);
}

proof fn lemma_piece_place(s: Seq<u8>, pos: int, i: int)
    requires
        0 <= pos <= s.len(),
        0 <= i < pieces(s, pos).len(),
    ensures
        ({
            let at = pos + pieces(s, pos).take(i).flatten().len();
            &&& pos <= at < s.len()
            &&& pieces(s, pos)[i] == s.subrange(at, piece_end(s, at))
        }),
    decreases i,
{
    let ps = pieces(s, pos);
    let e = piece_end(s, pos);
    lemma_piece_end(s, pos);
    if i == 0 {
        assert(ps.take(0) =~= Seq::<Seq<u8>>::empty());
        assert(ps.take(0).flatten().len() == 0);
    } else {
        let rest = pieces(s, e);
        assert(ps[i] == rest[i - 1]);
        lemma_piece_place(s, e, i - 1);
        assert(ps.take(i).first() == s.subrange(pos, e));
        assert(ps.take(i).drop_first() =~= rest.take(i - 1));
    }
}

/// Each piece starts where those before it end, and ends where a piece that
/// starts there does.
pub proof fn pieces_follow_each_other(s: Seq<u8>, i: int)
    requires
        0 <= i < split_pieces(s).len(),
    ensures
        ({
            let at = split_pieces(s).take(i).flatten().len() as int;
            &&& at < s.len()
            &&& split_pieces(s)[i] == s.subrange(at, piece_end(s, at))
        }),
{
    lemma_piece_place(s, 0, i);
}

/// A piece that starts at a digit is one to three digits, fewer than three
/// only where no digit follows.
pub proof fn digits_go_by_three(s: Seq<u8>, pos: int)
    requires
        0 <= pos < s.len(),
        is_ascii_digit(s[pos]),
    ensures
        ({
            let e = piece_end(s, pos);
            &&& pos < e <= pos + 3
            &&& forall|i: int| pos <= i < e ==> is_ascii_digit(#[trigger] s[i])
            &&& e == pos + 3 || e == s.len() || !is_ascii_digit(s[e])
        }),
{
    let digit = |c: u8| is_ascii_digit(c);
    lemma_run_end(s, pos, digit);
    assert(forall|i: int| pos <= i < run_end(s, pos, digit) ==> digit(#[trigger] s[i]));
}

proof fn lemma_cjk_cuts(s: Seq<u8>, pos: int) -> (cuts: Seq<int>)
    requires
        0 <= pos <= s.len(),
    ensures
        cuts.len() >= 1,
        cuts[0] == pos,
        cuts.last() == cjk_end(s, pos),
        forall|k: int|
            0 <= k < cuts.len() - 1 ==> is_cjk_at(s, #[trigger] cuts[k]) && cuts[k + 1] == char_end(
                s,
                cuts[k],
            ),
        cjk_end(s, pos) < s.len() ==> !is_cjk_at(s, cjk_end(s, pos)),
    decreases s.len() - pos,
{
    if pos < s.len() && is_cjk_at(s, pos) {
        let rest = lemma_cjk_cuts(s, char_end(s, pos));
        let cuts = seq![pos] + rest;
        assert forall|k: int| 0 <= k < cuts.len() - 1 implies is_cjk_at(s, #[trigger] cuts[k])
            && cuts[k + 1] == char_end(s, cuts[k]) by {
            if k > 0 {
                assert(cuts[k] == rest[k - 1]);
            }
        }
        cuts
    } else {
        seq![pos]
    }
}

proof fn lemma_letter_cuts(s: Seq<u8>, pos: int) -> (cuts: Seq<int>)
    requires
        0 <= pos <= s.len(),
    ensures
        cuts.len() >= 1,
        cuts[0] == pos,
        cuts.last() == letters_end(s, pos),
        forall|k: int|
            0 <= k < cuts.len() - 1 ==> is_letter_like(s[#[trigger] cuts[k]]) && cuts[k + 1]
                == char_end(s, cuts[k]),
        letters_end(s, pos) < s.len() ==> !is_letter_like(s[letters_end(s, pos)]),
        pos < s.len() && is_letter_like(s[pos]) ==> cuts.len() >= 2,
    decreases s.len() - pos,
{
    if pos < s.len() && is_letter_like(s[pos]) {
        let rest = lemma_letter_cuts(s, char_end(s, pos));
        let cuts = seq![pos] + rest;
        assert forall|k: int| 0 <= k < cuts.len() - 1 implies is_letter_like(
            s[#[trigger] cuts[k]],
        ) && cuts[k + 1] == char_end(s, cuts[k]) by {
            if k > 0 {
                assert(cuts[k] == rest[k - 1]);
            }
        }
        cuts
    } else {
        seq![pos]
    }
}

/// A piece that starts at a CJK character is the whole run of them: it goes
/// from character to character, each a CJK one, and no such character follows.
pub proof fn cjk_characters_stay_together(s: Seq<u8>, pos: int) -> (cuts: Seq<int>)
    requires
        0 <= pos < s.len(),
        s[pos] >= 128,
        is_cjk(codepoint_at(s, pos)),
    ensures
        cuts.len() >= 2,
        cuts[0] == pos,
        cuts.last() == piece_end(s, pos),
        forall|k: int|
            0 <= k < cuts.len() - 1 ==> {
                &&& s[#[trigger] cuts[k]] >= 128
                &&& is_cjk(codepoint_at(s, cuts[k]))
                &&& cuts[k + 1] == char_end(s, cuts[k])
            },
        piece_end(s, pos) < s.len() ==> s[piece_end(s, pos)] < 128 || !is_cjk(
            codepoint_at(s, piece_end(s, pos)),
        ),
{
    let cuts = lemma_cjk_cuts(s, pos);
    lemma_piece_end(s, pos);
    cuts
}

/// A punctuation mark in front of an ASCII letter takes the whole run of ASCII
/// letters with it.
pub proof fn punctuation_leads_a_word(s: Seq<u8>, pos: int)
    requires
        0 <= pos < s.len() - 1,
        is_punct_symbol(s[pos]),
        is_ascii_alpha(s[pos + 1]),
    ensures
        ({
            let e = piece_end(s, pos);
            &&& pos + 2 <= e <= s.len()
            &&& forall|i: int| pos < i < e ==> is_ascii_alpha(#[trigger] s[i])
            &&& e == s.len() || !is_ascii_alpha(s[e])
        }),
{
    let alpha = |c: u8| is_ascii_alpha(c);
    lemma_run_end(s, pos + 1, alpha);
    assert(forall|i: int| pos + 1 <= i < run_end(s, pos + 1, alpha) ==> alpha(#[trigger] s[i]));
}

/// A piece that starts at a letter, ASCII or not, but not at a CJK character,
/// is the whole run of letters: it goes from character to character, each led
/// by a letter byte, and none follows.
pub proof fn letters_stay_together(s: Seq<u8>, pos: int) -> (cuts: Seq<int>)
    requires
        0 <= pos < s.len(),
        is_letter_like(s[pos]),
        s[pos] < 128 || !is_cjk(codepoint_at(s, pos)),
    ensures
        cuts.len() >= 2,
        cuts[0] == pos,
        cuts.last() == piece_end(s, pos),
        forall|k: int|
            0 <= k < cuts.len() - 1 ==> is_letter_like(s[#[trigger] cuts[k]]) && cuts[k + 1]
                == char_end(s, cuts[k]),
        piece_end(s, pos) < s.len() ==> !is_letter_like(s[piece_end(s, pos)]),
{
    lemma_letter_cuts(s, pos)
}

/// One byte that is no line end, no punctuation, no digit and no letter, such
/// as a space, joins the letters behind it, all of them.
pub proof fn a_space_joins_the_word_behind_it(s: Seq<u8>, pos: int) -> (cuts: Seq<int>)
    requires
        0 <= pos < s.len() - 1,
        s[pos] < 128,
        !is_ascii_alpha(s[pos]),
        !is_ascii_digit(s[pos]),
        !is_punct_symbol(s[pos]),
        s[pos] != 10 && s[pos] != 13,
        is_letter_like(s[pos + 1]),
    ensures
        cuts.len() >= 2,
        cuts[0] == pos + 1,
        cuts.last() == piece_end(s, pos),
        forall|k: int|
            0 <= k < cuts.len() - 1 ==> is_letter_like(s[#[trigger] cuts[k]]) && cuts[k + 1]
                == char_end(s, cuts[k]),
        piece_end(s, pos) < s.len() ==> !is_letter_like(s[piece_end(s, pos)]),
{
    lemma_letter_cuts(s, pos + 1)
}

proof fn lemma_punct_parts(s: Seq<u8>, pos: int) -> (m: int)
    requires
        0 <= pos <= s.len(),
    ensures
        pos <= m <= punct_end(s, pos) <= s.len(),
        forall|i: int| pos <= i < m ==> is_punct_symbol(#[trigger] s[i]),
        m == s.len() || !is_punct_symbol(s[m]),
        forall|i: int| m <= i < punct_end(s, pos) ==> is_ascii_newline(#[trigger] s[i]),
        punct_end(s, pos) == s.len() || !is_ascii_newline(s[punct_end(s, pos)]),
{
    let punct = |c: u8| is_punct_symbol(c);
    let newline = |c: u8| is_ascii_newline(c);
    let m = run_end(s, pos, punct);
    lemma_run_end(s, pos, punct);
    lemma_run_end(s, m, newline);
    assert(forall|i: int| pos <= i < m ==> punct(#[trigger] s[i]));
    assert(forall|i: int| m <= i < punct_end(s, pos) ==> newline(#[trigger] s[i]));
    m
}

/// Punctuation that no ASCII letter follows at once stays together, all of it,
/// with all the line ends behind it. A space in front of punctuation joins it.
pub proof fn punctuation_keeps_its_line_ends(s: Seq<u8>, pos: int) -> (m: int)
    requires
        0 <= pos < s.len(),
        ({
            ||| is_punct_symbol(s[pos]) && (pos + 1 == s.len() || !is_ascii_alpha(s[pos + 1]))
            ||| s[pos] == 0x20 && pos + 1 < s.len() && is_punct_symbol(s[pos + 1])
        }),
    ensures
        pos < m <= piece_end(s, pos) <= s.len(),
        forall|i: int| pos < i < m ==> is_punct_symbol(#[trigger] s[i]),
        m == s.len() || !is_punct_symbol(s[m]),
        forall|i: int| m <= i < piece_end(s, pos) ==> is_ascii_newline(#[trigger] s[i]),
        piece_end(s, pos) == s.len() || !is_ascii_newline(s[piece_end(s, pos)]),
{
    if is_punct_symbol(s[pos]) {
        lemma_punct_parts(s, pos)
    } else {
        lemma_punct_parts(s, pos + 1)
    }
}

proof fn lemma_last_newline(s: Seq<u8>, start: int, end: int)
    ensures
        match after_last_newline(s, start, end) {
            Some(e) => start < e <= end && is_ascii_newline(s[e - 1]) && forall|i: int|
                e <= i < end ==> !is_ascii_newline(#[trigger] s[i]),
            None => forall|i: int| start <= i < end ==> !is_ascii_newline(#[trigger] s[i]),
        },
    decreases end - start,
{
    if start < end && !is_ascii_newline(s[end - 1]) {
        lemma_last_newline(s, start, end - 1);
    }
}

/// White space that joins nothing behind it, up to `p` where it ends: with a
/// line end in it, the piece ends after the last of them; without, it leaves
/// its last space to a word or a punctuation mark behind it, where there is
/// more than that one space; and else it is all of it.
pub proof fn white_space_is_cut(s: Seq<u8>, pos: int) -> (p: int)
    requires
        0 <= pos < s.len(),
        is_ascii_space(s[pos]),
        s[pos] == 10 || s[pos] == 13 || pos + 1 == s.len() || !is_letter_like(s[pos + 1]),
        s[pos] != 0x20 || pos + 1 == s.len() || !is_punct_symbol(s[pos + 1]),
    ensures
        pos < p <= s.len(),
        forall|i: int| pos <= i < p ==> is_ascii_space(#[trigger] s[i]),
        p == s.len() || !is_ascii_space(s[p]),
        ({
            let e = piece_end(s, pos);
            ||| {
                &&& pos < e <= p
                &&& s[e - 1] == 10 || s[e - 1] == 13
                &&& forall|i: int| e <= i < p ==> #[trigger] s[i] != 10 && s[i] != 13
            }
            ||| {
                &&& forall|i: int| pos <= i < p ==> #[trigger] s[i] != 10 && s[i] != 13
                &&& e == if p < s.len() && p - pos >= 2 && (is_letter_like(s[p])
                    || is_punct_symbol(s[p])) {
                    p - 1
                } else {
                    p
                }
            }
        }),
{
    let space = |c: u8| is_ascii_space(c);
    let p = run_end(s, pos, space);
    lemma_run_end(s, pos, space);
    lemma_run_end(s, pos + 1, space);
    assert(forall|i: int| pos <= i < p ==> space(#[trigger] s[i]));
    lemma_last_newline(s, pos, p);
    match after_last_newline(s, pos, p) {
        Some(e) => {
            assert forall|i: int| e <= i < p implies #[trigger] s[i] != 10 && s[i] != 13 by {
                assert(!is_ascii_newline(s[i]));
            }
        },
        None => {
            assert forall|i: int| pos <= i < p implies #[trigger] s[i] != 10 && s[i] != 13 by {
                assert(!is_ascii_newline(s[i]));
            }
        },
    }
    p
}

/// A control byte that no letter follows is a piece of its own.
pub proof fn a_control_byte_stands_alone(s: Seq<u8>, pos: int)
    requires
        0 <= pos < s.len(),
        s[pos] < 9 || 13 < s[pos] < 32 || s[pos] == 127,
        pos + 1 == s.len() || !is_letter_like(s[pos + 1]),
    ensures
        piece_end(s, pos) == pos + 1,
{
}

/// Slices are their bytes, one by one.
pub proof fn slices_are_their_bytes(v: Seq<&[u8]>, i: int)
    ensures
        slice_views(v).len() == v.len(),
        0 <= i < v.len() ==> slice_views(v)[i] == v[i]@,
{
}

} // verus!
