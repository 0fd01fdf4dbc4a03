//! What encoding and decoding have to do with each other.

use vstd::prelude::*;
use vstd::utf8::*;

verus! {

/// The most strings that a 32-bit id can tell apart.
pub open spec fn max_vocab() -> int {
    0x1_0000_0000
}

/// Whether the vocabulary can spell a symbol: as a token of its own, or
/// character by character.
pub open spec fn can_spell(ids: Map<Seq<char>, u32>, s: Seq<char>) -> bool {
    crate::bpe::lookup(ids, s) is Some || forall|i: int|
        0 <= i < s.len() ==> crate::bpe::lookup(ids, seq![#[trigger] s[i]]) is Some
}

pub open spec fn can_spell_all(ids: Map<Seq<char>, u32>, sym: Seq<Seq<char>>) -> bool {
    forall|k: int| 0 <= k < sym.len() ==> can_spell(ids, #[trigger] sym[k])
}

/// Whether the vocabulary can spell every symbol of a text.
pub open spec fn can_spell_text(
    ids: Map<Seq<char>, u32>,
    ranks: Map<Seq<char>, u32>,
    text: Seq<u8>,
) -> bool {
    forall|p: int|
        0 <= p < crate::pretokenize::split_pieces(text).len() ==> can_spell_all(
            ids,
            crate::tokenizer::piece_symbols(
                ranks,
                #[trigger] crate::pretokenize::split_pieces(text)[p],
            ),
        )
}

/// A string is found under an id exactly if the vocabulary holds it, and the
/// id leads back to the string.
pub proof fn found_token_is_the_string(vocab: Seq<Seq<char>>, s: Seq<char>)
    requires
        vocab.len() <= max_vocab(),
    ensures
        crate::bpe::lookup(crate::bpe::numbering(vocab), s) is Some <==> vocab.contains(s),
        crate::bpe::lookup(crate::bpe::numbering(vocab), s) matches Some(id) ==> (id as int)
            < vocab.len() && vocab[id as int] == s,
    decreases vocab.len(),
{
    if vocab.len() > 0 {
        let rest = vocab.drop_last();
        found_token_is_the_string(rest, s);
        if vocab.last() != s {
            if vocab.contains(s) {
                let i = choose|i: int| 0 <= i < vocab.len() && vocab[i] == s;
                assert(rest[i] == s);
            }
            if rest.contains(s) {
                let i = choose|i: int| 0 <= i < rest.len() && rest[i] == s;
                assert(vocab[i] == s);
            }
        } else {
            assert(vocab[vocab.len() - 1] == s);
        }
    }
}

/// Where a string stands in the vocabulary more than once, the last place
/// gives its id.
pub proof fn last_duplicate_wins(vocab: Seq<Seq<char>>, i: int)
    requires
        0 <= i < vocab.len() <= max_vocab(),
    ensures
        crate::bpe::lookup(crate::bpe::numbering(vocab), vocab[i]) matches Some(id) && i <= id,
    decreases vocab.len(),
{
    if i < vocab.len() - 1 {
        last_duplicate_wins(vocab.drop_last(), i);
    }
}

/// Decoding goes id by id: the bytes of two sequences, one behind the other,
/// are those of the first and then those of the second.
pub proof fn decoding_concat(vocab: Seq<Seq<char>>, a: Seq<u32>, b: Seq<u32>)
    ensures
        crate::tokenizer::decoding(vocab, a + b) == crate::tokenizer::decoding(vocab, a)
            + crate::tokenizer::decoding(vocab, b),
    decreases b.len(),
{
    if b.len() == 0 {
        assert(a + b =~= a);
    } else {
        decoding_concat(vocab, a, b.drop_last());
        assert((a + b).drop_last() =~= a + b.drop_last());
        assert((a + b).last() == b.last());
    }
}

proof fn lemma_token_bytes_concat(a: Seq<char>, b: Seq<char>)
    ensures
        crate::tokenizer::token_bytes(a + b) == crate::tokenizer::token_bytes(a)
            + crate::tokenizer::token_bytes(b),
    decreases b.len(),
{
    if b.len() == 0 {
        assert(a + b =~= a);
    } else {
        lemma_token_bytes_concat(a, b.drop_last());
        assert((a + b).drop_last() =~= a + b.drop_last());
        assert((a + b).last() == b.last());
    }
}

proof fn lemma_one_char_bytes(c: char)
    ensures
        crate::tokenizer::token_bytes(seq![c]) == crate::tokenizer::char_bytes(c),
        crate::tokenizer::char_bytes(c).len() > 0,
{
    reveal_with_fuel(crate::tokenizer::token_bytes, 2);
    assert(seq![c].drop_last() =~= Seq::empty());
    assert(crate::tokenizer::token_bytes(seq![c]) =~= crate::tokenizer::char_bytes(c));
}

proof fn lemma_one_id(vocab: Seq<Seq<char>>, id: u32)
    requires
        (id as int) < vocab.len(),
    ensures
        crate::tokenizer::decoding(vocab, seq![id]) == crate::tokenizer::token_bytes(
            vocab[id as int],
        ),
{
    reveal_with_fuel(crate::tokenizer::decoding, 2);
    assert(seq![id].drop_last() =~= Seq::empty());
    assert(crate::tokenizer::decoding(vocab, seq![id]) =~= crate::tokenizer::token_bytes(
        vocab[id as int],
    ));
}

proof fn lemma_chars(vocab: Seq<Seq<char>>, s: Seq<char>)
    requires
        vocab.len() <= max_vocab(),
    ensures
        ({
            let ids = crate::bpe::numbering(vocab);
            let back = crate::tokenizer::decoding(vocab, crate::tokenizer::char_ids(ids, s));
            let bytes = crate::tokenizer::token_bytes(s);
            let all = forall|i: int|
                0 <= i < s.len() ==> crate::bpe::lookup(ids, seq![#[trigger] s[i]]) is Some;
            &&& back.len() <= bytes.len()
            &&& all ==> back == bytes
            &&& !all ==> back.len() < bytes.len()
        }),
    decreases s.len(),
{
    let ids = crate::bpe::numbering(vocab);
    if s.len() > 0 {
        let rest = s.drop_last();
        let c = s.last();
        lemma_chars(vocab, rest);
        lemma_one_char_bytes(c);
        found_token_is_the_string(vocab, seq![c]);
        assert(forall|i: int| 0 <= i < rest.len() ==> rest[i] == s[i]);
        match crate::bpe::lookup(ids, seq![c]) {
            Some(id) => {
                let head = crate::tokenizer::char_ids(ids, rest);
                assert(crate::tokenizer::char_ids(ids, s) =~= head + seq![id]);
                decoding_concat(vocab, head, seq![id]);
                lemma_one_id(vocab, id);
                let all_rest = forall|i: int|
                    0 <= i < rest.len() ==> crate::bpe::lookup(
                        ids,
                        seq![#[trigger] rest[i]],
                    ) is Some;
                if all_rest {
                    assert forall|i: int| 0 <= i < s.len() implies crate::bpe::lookup(
                        ids,
                        seq![#[trigger] s[i]],
                    ) is Some by {
                        if i < rest.len() {
                            assert(rest[i] == s[i]);
                        }
                    }
                } else {
                    let i = choose|i: int|
                        0 <= i < rest.len() && !(crate::bpe::lookup(
                            ids,
                            seq![#[trigger] rest[i]],
                        ) is Some);
                    assert(rest[i] == s[i]);
                }
            },
            None => {
                assert(s[s.len() - 1] == c);
            },
        }
    }
}

proof fn lemma_symbol(vocab: Seq<Seq<char>>, s: Seq<char>)
    requires
        vocab.len() <= max_vocab(),
    ensures
        ({
            let ids = crate::bpe::numbering(vocab);
            let back = crate::tokenizer::decoding(vocab, crate::tokenizer::symbol_ids(ids, s));
            let bytes = crate::tokenizer::token_bytes(s);
            &&& back.len() <= bytes.len()
            &&& can_spell(ids, s) ==> back == bytes
            &&& !can_spell(ids, s) ==> back.len() < bytes.len()
        }),
{
    found_token_is_the_string(vocab, s);
    match crate::bpe::lookup(crate::bpe::numbering(vocab), s) {
        Some(id) => lemma_one_id(vocab, id),
        None => lemma_chars(vocab, s),
    }
}

proof fn lemma_symbols(vocab: Seq<Seq<char>>, sym: Seq<Seq<char>>)
    requires
        vocab.len() <= max_vocab(),
    ensures
        ({
            let ids = crate::bpe::numbering(vocab);
            let back = crate::tokenizer::decoding(vocab, crate::tokenizer::symbols_ids(ids, sym));
            let bytes = crate::tokenizer::token_bytes(sym.flatten());
            &&& back.len() <= bytes.len()
            &&& can_spell_all(ids, sym) ==> back == bytes
            &&& !can_spell_all(ids, sym) ==> back.len() < bytes.len()
        }),
    decreases sym.len(),
{
    let ids = crate::bpe::numbering(vocab);
    if sym.len() > 0 {
        let rest = sym.drop_last();
        let s = sym.last();
        lemma_symbols(vocab, rest);
        lemma_symbol(vocab, s);
        decoding_concat(
            vocab,
            crate::tokenizer::symbols_ids(ids, rest),
            crate::tokenizer::symbol_ids(ids, s),
        );
        assert(rest.push(s) =~= sym);
        rest.lemma_flatten_push(s);
        lemma_token_bytes_concat(rest.flatten(), s);
        if can_spell_all(ids, sym) {
            assert(can_spell(ids, sym[sym.len() - 1]));
            assert forall|k: int| 0 <= k < rest.len() implies can_spell(ids, #[trigger] rest[k]) by {
                assert(rest[k] == sym[k]);
            }
        } else if can_spell_all(ids, rest) {
            let k = choose|k: int| 0 <= k < sym.len() && !can_spell(ids, #[trigger] sym[k]);
            if k < rest.len() {
                assert(rest[k] == sym[k]);
            }
        }
    }
}

proof fn lemma_byte_symbols(piece: Seq<u8>)
    ensures
        crate::tokenizer::token_bytes(crate::tokenizer::byte_symbols(piece).flatten()) == piece,
    decreases piece.len(),
{
    let sym = crate::tokenizer::byte_symbols(piece);
    if piece.len() > 0 {
        let rest = piece.drop_last();
        let c = crate::byte_map::byte_char(piece.last());
        lemma_byte_symbols(rest);
        assert(sym =~= crate::tokenizer::byte_symbols(rest).push(seq![c]));
        crate::tokenizer::byte_symbols(rest).lemma_flatten_push(seq![c]);
        lemma_token_bytes_concat(crate::tokenizer::byte_symbols(rest).flatten(), seq![c]);
        lemma_one_char_bytes(c);
        crate::byte_map::char_byte_inverts(piece.last());
        assert(rest + seq![piece.last()] =~= piece);
    } else {
        assert(sym.flatten() =~= Seq::empty());
        assert(piece =~= Seq::empty());
    }
}

proof fn lemma_pieces(vocab: Seq<Seq<char>>, ranks: Map<Seq<char>, u32>, pieces: Seq<Seq<u8>>)
    requires
        vocab.len() <= max_vocab(),
    ensures
        ({
            let ids = crate::bpe::numbering(vocab);
            let back = crate::tokenizer::decoding(
                vocab,
                crate::tokenizer::pieces_ids(ids, ranks, pieces),
            );
            let all = forall|p: int|
                0 <= p < pieces.len() ==> can_spell_all(
                    ids,
                    crate::tokenizer::piece_symbols(ranks, #[trigger] pieces[p]),
                );
            &&& back.len() <= pieces.flatten().len()
            &&& all ==> back == pieces.flatten()
            &&& !all ==> back.len() < pieces.flatten().len()
        }),
    decreases pieces.len(),
{
    let ids = crate::bpe::numbering(vocab);
    if pieces.len() > 0 {
        let rest = pieces.drop_last();
        let p = pieces.last();
        let sym = crate::tokenizer::piece_symbols(ranks, p);
        lemma_pieces(vocab, ranks, rest);
        lemma_symbols(vocab, sym);
        crate::bpe::merged_spells_the_same(ranks, crate::tokenizer::byte_symbols(p));
        lemma_byte_symbols(p);
        decoding_concat(
            vocab,
            crate::tokenizer::pieces_ids(ids, ranks, rest),
            crate::tokenizer::symbols_ids(ids, sym),
        );
        assert(rest.push(p) =~= pieces);
        rest.lemma_flatten_push(p);
        assert(pieces[pieces.len() - 1] == p);
        assert(forall|k: int| 0 <= k < rest.len() ==> rest[k] == pieces[k]);
        let all_rest = forall|k: int|
            0 <= k < rest.len() ==> can_spell_all(
                ids,
                crate::tokenizer::piece_symbols(ranks, #[trigger] rest[k]),
            );
        if all_rest {
            assert forall|k: int| 0 <= k < pieces.len() && can_spell_all(ids, sym) implies
                can_spell_all(ids, crate::tokenizer::piece_symbols(ranks, #[trigger] pieces[k])) by {
                if k < rest.len() {
                    assert(rest[k] == pieces[k]);
                }
            }
        } else {
            let k = choose|k: int|
                0 <= k < rest.len() && !can_spell_all(
                    ids,
                    crate::tokenizer::piece_symbols(ranks, #[trigger] rest[k]),
                );
            assert(rest[k] == pieces[k]);
        }
    }
}

/// Decoding gives back what was encoded, byte for byte, exactly for the texts
/// that the vocabulary can spell.
pub proof fn decode_inverts_encode(
    vocab: Seq<Seq<char>>,
    ranks: Map<Seq<char>, u32>,
    text: Seq<u8>,
)
    requires
        vocab.len() <= max_vocab(),
    ensures
        crate::tokenizer::decoding(
            vocab,
            crate::tokenizer::encoding(crate::bpe::numbering(vocab), ranks, text),
        ) == text <==> can_spell_text(crate::bpe::numbering(vocab), ranks, text),
{
    lemma_pieces(vocab, ranks, crate::pretokenize::split_pieces(text));
    crate::pretokenize::pieces_rejoin(text);
}

spec fn has_byte_chars(s: Seq<char>) -> bool {
    forall|i: int| 0 <= i < s.len() ==> crate::byte_map::char_byte(#[trigger] s[i]) is Some
}

proof fn lemma_merged_byte_chars(ranks: Map<Seq<char>, u32>, sym: Seq<Seq<char>>)
    requires
        forall|k: int| 0 <= k < sym.len() ==> has_byte_chars(#[trigger] sym[k]),
    ensures
        forall|k: int|
            0 <= k < crate::bpe::merged(ranks, sym).len() ==> has_byte_chars(
                #[trigger] crate::bpe::merged(ranks, sym)[k],
            ),
    decreases sym.len(),
{
    if exists|i: int| crate::bpe::is_next_merge(ranks, sym, i) {
        let i = choose|i: int| crate::bpe::is_next_merge(ranks, sym, i);
        let next = crate::bpe::merge_at(sym, i);
        assert forall|k: int| 0 <= k < next.len() implies has_byte_chars(#[trigger] next[k]) by {
            assert(has_byte_chars(sym[i]) && has_byte_chars(sym[i + 1]));
            if k < i {
                assert(next[k] == sym[k]);
            } else if k > i {
                assert(next[k] == sym[k + 1]);
            } else {
                assert(next[k] == sym[i] + sym[i + 1]);
            }
        }
        lemma_merged_byte_chars(ranks, next);
        assert(crate::bpe::merged(ranks, sym) == crate::bpe::merged(ranks, next));
    } else {
        assert(crate::bpe::merged(ranks, sym) == sym);
    }
}

/// With a token for each of the 256 byte characters, every text comes back.
pub proof fn byte_level_vocab_loses_nothing(
    vocab: Seq<Seq<char>>,
    ranks: Map<Seq<char>, u32>,
    text: Seq<u8>,
)
    requires
        vocab.len() <= max_vocab(),
        forall|b: u8| vocab.contains(seq![#[trigger] crate::byte_map::byte_char(b)]),
    ensures
        crate::tokenizer::decoding(
            vocab,
            crate::tokenizer::encoding(crate::bpe::numbering(vocab), ranks, text),
        ) == text,
{
    let ids = crate::bpe::numbering(vocab);
    let pieces = crate::pretokenize::split_pieces(text);
    assert forall|p: int| 0 <= p < pieces.len() implies can_spell_all(
        ids,
        crate::tokenizer::piece_symbols(ranks, #[trigger] pieces[p]),
    ) by {
        let start = crate::tokenizer::byte_symbols(pieces[p]);
        let sym = crate::tokenizer::piece_symbols(ranks, pieces[p]);
        assert forall|k: int| 0 <= k < start.len() implies has_byte_chars(#[trigger] start[k]) by {
            crate::byte_map::char_byte_inverts(pieces[p][k]);
        }
        lemma_merged_byte_chars(ranks, start);
        assert forall|k: int| 0 <= k < sym.len() implies can_spell(ids, #[trigger] sym[k]) by {
            let s = sym[k];
            assert forall|i: int| 0 <= i < s.len() implies crate::bpe::lookup(
                ids,
                seq![#[trigger] s[i]],
            ) is Some by {
                let b = crate::byte_map::char_byte(s[i])->0;
                assert(crate::byte_map::byte_char(b) == s[i]);
                found_token_is_the_string(vocab, seq![s[i]]);
            }
        }
    }
    decode_inverts_encode(vocab, ranks, text);
}

spec fn in_vocab(vocab: Seq<Seq<char>>, ids: Seq<u32>) -> bool {
    forall|i: int| 0 <= i < ids.len() ==> (#[trigger] ids[i] as int) < vocab.len()
}

proof fn lemma_symbol_in_vocab(vocab: Seq<Seq<char>>, s: Seq<char>)
    requires
        vocab.len() <= max_vocab(),
    ensures
        in_vocab(vocab, crate::tokenizer::symbol_ids(crate::bpe::numbering(vocab), s)),
        in_vocab(vocab, crate::tokenizer::char_ids(crate::bpe::numbering(vocab), s)),
    decreases s.len(),
{
    found_token_is_the_string(vocab, s);
    if s.len() > 0 {
        lemma_symbol_in_vocab(vocab, s.drop_last());
        found_token_is_the_string(vocab, seq![s.last()]);
    }
}

proof fn lemma_symbols_in_vocab(vocab: Seq<Seq<char>>, sym: Seq<Seq<char>>)
    requires
        vocab.len() <= max_vocab(),
    ensures
        in_vocab(vocab, crate::tokenizer::symbols_ids(crate::bpe::numbering(vocab), sym)),
    decreases sym.len(),
{
    if sym.len() > 0 {
        lemma_symbols_in_vocab(vocab, sym.drop_last());
        lemma_symbol_in_vocab(vocab, sym.last());
    }
}

proof fn lemma_pieces_in_vocab(
    vocab: Seq<Seq<char>>,
    ranks: Map<Seq<char>, u32>,
    pieces: Seq<Seq<u8>>,
)
    requires
        vocab.len() <= max_vocab(),
    ensures
        in_vocab(
            vocab,
            crate::tokenizer::pieces_ids(crate::bpe::numbering(vocab), ranks, pieces),
        ),
    decreases pieces.len(),
{
    if pieces.len() > 0 {
        lemma_pieces_in_vocab(vocab, ranks, pieces.drop_last());
        lemma_symbols_in_vocab(
            vocab,
            crate::tokenizer::piece_symbols(ranks, pieces.last()),
        );
    }
}

/// Encoding only ever gives ids of the vocabulary.
pub proof fn encoding_stays_in_vocab(
    vocab: Seq<Seq<char>>,
    ranks: Map<Seq<char>, u32>,
    text: Seq<u8>,
)
    requires
        vocab.len() <= max_vocab(),
    ensures
        ({
            let ids = crate::tokenizer::encoding(crate::bpe::numbering(vocab), ranks, text);
            forall|i: int| 0 <= i < ids.len() ==> (#[trigger] ids[i] as int) < vocab.len()
        }),
{
    lemma_pieces_in_vocab(vocab, ranks, crate::pretokenize::split_pieces(text));
}

/// The ids of two lists of symbols, one behind the other, are those of the
/// first and then those of the second. A symbol of the vocabulary has one id,
/// its own; any other has those of its characters.
pub proof fn symbols_go_one_by_one(
    ids: Map<Seq<char>, u32>,
    a: Seq<Seq<char>>,
    b: Seq<Seq<char>>,
    s: Seq<char>,
)
    ensures
        crate::tokenizer::symbols_ids(ids, a + b) == crate::tokenizer::symbols_ids(ids, a)
            + crate::tokenizer::symbols_ids(ids, b),
        crate::tokenizer::symbols_ids(ids, Seq::empty()) == Seq::<u32>::empty(),
        crate::tokenizer::symbols_ids(ids, seq![s]) == if ids.contains_key(s) {
            seq![ids[s]]
        } else {
            crate::tokenizer::char_ids(ids, s)
        },
    decreases b.len(),
{
    if b.len() == 0 {
        assert(a + b =~= a);
    } else {
        symbols_go_one_by_one(ids, a, b.drop_last(), s);
        assert((a + b).drop_last() =~= a + b.drop_last());
        assert((a + b).last() == b.last());
    }
    reveal_with_fuel(crate::tokenizer::symbols_ids, 2);
    assert(seq![s].drop_last() =~= Seq::<Seq<char>>::empty());
    assert(crate::tokenizer::symbols_ids(ids, seq![s]) =~= crate::tokenizer::symbol_ids(ids, s));
}

/// The ids of two strings, one behind the other, taken character by
/// character, are those of the first and then those of the second. A
/// character has the id of the string of it alone, and none where the
/// vocabulary lacks that.
pub proof fn characters_go_one_by_one(
    ids: Map<Seq<char>, u32>,
    a: Seq<char>,
    b: Seq<char>,
    c: char,
)
    ensures
        crate::tokenizer::char_ids(ids, a + b) == crate::tokenizer::char_ids(ids, a)
            + crate::tokenizer::char_ids(ids, b),
        crate::tokenizer::char_ids(ids, Seq::empty()) == Seq::<u32>::empty(),
        crate::tokenizer::char_ids(ids, seq![c]) == if ids.contains_key(seq![c]) {
            seq![ids[seq![c]]]
        } else {
            Seq::empty()
        },
    decreases b.len(),
{
    if b.len() == 0 {
        assert(a + b =~= a);
    } else {
        characters_go_one_by_one(ids, a, b.drop_last(), c);
        assert((a + b).drop_last() =~= a + b.drop_last());
        assert((a + b).last() == b.last());
        assert(crate::tokenizer::char_ids(ids, a + b) =~= crate::tokenizer::char_ids(ids, a)
            + crate::tokenizer::char_ids(ids, b));
    }
    reveal_with_fuel(crate::tokenizer::char_ids, 2);
    assert(seq![c].drop_last() =~= Seq::<char>::empty());
    assert(seq![c].last() == c);
    assert(crate::tokenizer::char_ids(ids, seq![c]) =~= if ids.contains_key(seq![c]) {
        seq![ids[seq![c]]]
    } else {
        Seq::empty()
    });
}

/// The ids of two lists of pieces, one behind the other, are those of the
/// first and then those of the second: nothing merges across pieces. A piece
/// becomes the characters of its bytes, merged, as ids.
pub proof fn pieces_go_one_by_one(
    ids: Map<Seq<char>, u32>,
    ranks: Map<Seq<char>, u32>,
    a: Seq<Seq<u8>>,
    b: Seq<Seq<u8>>,
    p: Seq<u8>,
)
    ensures
        crate::tokenizer::pieces_ids(ids, ranks, a + b) == crate::tokenizer::pieces_ids(
            ids,
            ranks,
            a,
        ) + crate::tokenizer::pieces_ids(ids, ranks, b),
        crate::tokenizer::pieces_ids(ids, ranks, Seq::empty()) == Seq::<u32>::empty(),
        crate::tokenizer::pieces_ids(ids, ranks, seq![p]) == crate::tokenizer::symbols_ids(
            ids,
            crate::bpe::merged(
                ranks,
                Seq::new(p.len(), |k: int| seq![crate::byte_map::byte_char(p[k])]),
            ),
        ),
    decreases b.len(),
{
    if b.len() == 0 {
        assert(a + b =~= a);
    } else {
        pieces_go_one_by_one(ids, ranks, a, b.drop_last(), p);
        assert((a + b).drop_last() =~= a + b.drop_last());
        assert((a + b).last() == b.last());
    }
    reveal_with_fuel(crate::tokenizer::pieces_ids, 2);
    assert(seq![p].drop_last() =~= Seq::<Seq<u8>>::empty());
    assert(seq![p].last() == p);
    assert(crate::tokenizer::byte_symbols(p) =~= Seq::new(
        p.len(),
        |k: int| seq![crate::byte_map::byte_char(p[k])],
    ));
    assert(crate::tokenizer::pieces_ids(ids, ranks, seq![p]) =~= crate::tokenizer::symbols_ids(
        ids,
        crate::tokenizer::piece_symbols(ranks, p),
    ));
}

/// A text is encoded as the pieces that it splits into.
pub proof fn a_text_is_its_pieces(
    ids: Map<Seq<char>, u32>,
    ranks: Map<Seq<char>, u32>,
    text: Seq<u8>,
)
    ensures
        crate::tokenizer::encoding(ids, ranks, text) == crate::tokenizer::pieces_ids(
            ids,
            ranks,
            crate::pretokenize::split_pieces(text),
        ),
        text.len() == 0 ==> crate::tokenizer::encoding(ids, ranks, text) == Seq::<u32>::empty(),
{
}

/// An id stands for the bytes of its vocabulary string, an id behind the
/// vocabulary for none.
pub proof fn ids_stand_for_their_strings(vocab: Seq<Seq<char>>, id: u32)
    ensures
        crate::tokenizer::decoding(vocab, Seq::empty()) == Seq::<u8>::empty(),
        crate::tokenizer::decoding(vocab, seq![id]) == if (id as int) < vocab.len() {
            crate::tokenizer::token_bytes(vocab[id as int])
        } else {
            Seq::empty()
        },
{
    reveal_with_fuel(crate::tokenizer::decoding, 2);
    assert(seq![id].drop_last() =~= Seq::<u32>::empty());
    assert(crate::tokenizer::decoding(vocab, seq![id]) =~= if (id as int) < vocab.len() {
        crate::tokenizer::token_bytes(vocab[id as int])
    } else {
        Seq::empty()
    });
}

/// The bytes of two strings, one behind the other, are those of the first and
/// then those of the second. The character of a byte gives that byte; any
/// other gives itself in UTF-8.
pub proof fn characters_stand_for_bytes(a: Seq<char>, b: Seq<char>, c: char, x: u8)
    ensures
        crate::tokenizer::token_bytes(a + b) == crate::tokenizer::token_bytes(a)
            + crate::tokenizer::token_bytes(b),
        crate::tokenizer::token_bytes(Seq::empty()) == Seq::<u8>::empty(),
        crate::tokenizer::token_bytes(seq![crate::byte_map::byte_char(x)]) == seq![x],
        (forall|y: u8| crate::byte_map::byte_char(y) != c) ==> crate::tokenizer::token_bytes(
            seq![c],
        ) == encode_utf8(seq![c]),
{
    lemma_token_bytes_concat(a, b);
    lemma_one_char_bytes(c);
    lemma_one_char_bytes(crate::byte_map::byte_char(x));
    crate::byte_map::char_byte_inverts(x);
    reveal_with_fuel(encode_utf8, 2);
    assert(seq![c].drop_first() =~= Seq::<char>::empty());
    assert(encode_utf8(seq![c]) =~= encode_scalar(c as u32));
}

} // verus!
