//! GPT-2 style byte-level BPE tokenizer, built entirely from GGUF metadata
//! (`tokenizer.ggml.tokens` / `.merges` / special-token ids).

use std::collections::HashMap;

use vstd::hash_map::StringHashMap;
use vstd::prelude::*;
use vstd::utf8::*;

use crate::bpe::merge_symbols;
use crate::byte_map::gpt2_byte_to_char;
use crate::gguf::{Gguf, Value};
use crate::pretokenize::pretokenize;

verus! {

broadcast use vstd::std_specs::hash::group_hash_axioms;

/// Why a model's metadata gives no tokenizer.
#[derive(Debug)]
pub enum Error {
    MissingKey(&'static str),
    BadKey(&'static str),
}

impl Error {
    pub open spec fn text(self) -> Seq<char> {
        match self {
            Error::MissingKey(k) => "gguf metadata is missing "@ + k@,
            Error::BadKey(k) => "gguf metadata key "@ + k@ + " has the wrong shape"@,
        }
    }

    /// The error as a message for people.
    pub fn message(&self) -> (m: String)
        ensures
            m@ == self.text(),
    {
        let mut m: String = String::new();
        match self {
            Error::MissingKey(k) => {
                m.append("gguf metadata is missing ");
                m.append(k);
            },
            Error::BadKey(k) => {
                m.append("gguf metadata key ");
                m.append(k);
                m.append(" has the wrong shape");
            },
        }
        assert(m@ =~= self.text());
        m
    }
}

/// The symbols that merging starts from: one character for each byte.
pub open spec fn byte_symbols(piece: Seq<u8>) -> Seq<Seq<char>> {
    piece.map_values(|b: u8| seq![crate::byte_map::byte_char(b)])
}

/// The ids of the single characters of `s`, without those that have none.
pub open spec fn char_ids(ids: Map<Seq<char>, u32>, s: Seq<char>) -> Seq<u32>
    decreases s.len(),
{
    if s.len() == 0 {
        Seq::empty()
    } else {
        let rest = char_ids(ids, s.drop_last());
        match crate::bpe::lookup(ids, seq![s.last()]) {
            Some(id) => rest.push(id),
            None => rest,
        }
    }
}

/// The ids that a symbol becomes: its own, or those of its characters.
pub open spec fn symbol_ids(ids: Map<Seq<char>, u32>, s: Seq<char>) -> Seq<u32> {
    match crate::bpe::lookup(ids, s) {
        Some(id) => seq![id],
        None => char_ids(ids, s),
    }
}

pub open spec fn symbols_ids(ids: Map<Seq<char>, u32>, sym: Seq<Seq<char>>) -> Seq<u32>
    decreases sym.len(),
{
    if sym.len() == 0 {
        Seq::empty()
    } else {
        symbols_ids(ids, sym.drop_last()) + symbol_ids(ids, sym.last())
    }
}

/// The symbols of one piece of text.
pub open spec fn piece_symbols(ranks: Map<Seq<char>, u32>, piece: Seq<u8>) -> Seq<Seq<char>> {
    crate::bpe::merged(ranks, byte_symbols(piece))
}

pub open spec fn pieces_ids(
    ids: Map<Seq<char>, u32>,
    ranks: Map<Seq<char>, u32>,
    pieces: Seq<Seq<u8>>,
) -> Seq<u32>
    decreases pieces.len(),
{
    if pieces.len() == 0 {
        Seq::empty()
    } else {
        pieces_ids(ids, ranks, pieces.drop_last()) + symbols_ids(
            ids,
            piece_symbols(ranks, pieces.last()),
        )
    }
}

/// The ids of a text.
pub open spec fn encoding(
    ids: Map<Seq<char>, u32>,
    ranks: Map<Seq<char>, u32>,
    text: Seq<u8>,
) -> Seq<u32> {
    pieces_ids(ids, ranks, crate::pretokenize::split_pieces(text))
}

/// The bytes of a character: the one that it stands for, or its UTF-8 form
/// where it stands for none.
pub open spec fn char_bytes(c: char) -> Seq<u8> {
    match crate::byte_map::char_byte(c) {
        Some(b) => seq![b],
        None => encode_scalar(c as u32),
    }
}

/// The bytes of a vocabulary string.
pub open spec fn token_bytes(t: Seq<char>) -> Seq<u8>
    decreases t.len(),
{
    if t.len() == 0 {
        Seq::empty()
    } else {
        token_bytes(t.drop_last()) + char_bytes(t.last())
    }
}

/// The bytes of a sequence of ids; ids outside the vocabulary have none.
pub open spec fn decoding(vocab: Seq<Seq<char>>, ids: Seq<u32>) -> Seq<u8>
    decreases ids.len(),
{
    if ids.len() == 0 {
        Seq::empty()
    } else {
        decoding(vocab, ids.drop_last()) + if (ids.last() as int) < vocab.len() {
            token_bytes(vocab[ids.last() as int])
        } else {
            Seq::empty()
        }
    }
}

/// The lookup tables of a tokenizer.
pub struct Tables {
    tokens: Vec<String>,
    token_to_id: StringHashMap<u32>,
    /// Keyed as "left right", value = merge priority (lower merges first).
    merge_rank: StringHashMap<u32>,
    byte_to_char: Vec<char>,
    char_to_byte: HashMap<u32, u8>,
}

impl Tables {
    pub closed spec fn vocab(self) -> Seq<Seq<char>> {
        crate::bpe::string_views(self.tokens@)
    }

    pub closed spec fn ranks(self) -> Map<Seq<char>, u32> {
        self.merge_rank@
    }

    /// The tables agree with the vocabulary and the byte map.
    #[verifier::type_invariant]
    spec fn wf(self) -> bool {
        &&& self.token_to_id@ == crate::bpe::numbering(self.vocab())
        &&& self.byte_to_char@.len() == 256
        &&& forall|b: u8|
            #[trigger] self.byte_to_char@[b as int] == crate::byte_map::byte_char(b)
        &&& forall|b: u8|
            self.char_to_byte@.contains_pair(
                (#[trigger] crate::byte_map::byte_char(b)) as u32,
                b,
            )
        &&& forall|u: u32|
            #[trigger] self.char_to_byte@.contains_key(u) ==> exists|b: u8|
                (#[trigger] crate::byte_map::byte_char(b)) as u32 == u
    }
}

pub struct Tokenizer {
    pub tables: Tables,
    pub bos_id: Option<u32>,
    pub eos_id: Option<u32>,
    pub eot_id: Option<u32>,
}

impl Tokenizer {
    /// The vocabulary, by id.
    pub open spec fn vocab(&self) -> Seq<Seq<char>> {
        self.tables.vocab()
    }

    /// The rank of each merge.
    pub open spec fn ranks(&self) -> Map<Seq<char>, u32> {
        self.tables.ranks()
    }

    /// The id of each vocabulary string.
    pub open spec fn ids(&self) -> Map<Seq<char>, u32> {
        crate::bpe::numbering(self.vocab())
    }

    /// The number of tokens.
    pub fn n_vocab(&self) -> (n: usize)
        ensures
            n == self.vocab().len(),
    {
        self.tables.tokens.len()
    }

    /// The raw vocab string for an id (byte-encoded space for normal
    /// tokens, literal for control tokens).
    pub fn token_str(&self, id: u32) -> (r: Option<&str>)
        ensures
            match r {
                Some(s) => (id as int) < self.vocab().len() && s@ == self.vocab()[id as int],
                None => id as int >= self.vocab().len(),
            },
    {
        if (id as usize) < self.tables.tokens.len() {
            Some(self.tables.tokens[id as usize].as_str())
        } else {
            None
        }
    }

    /// Exact vocab lookup, e.g. for chat marker tokens.
    pub fn find_token(&self, s: &str) -> (r: Option<u32>)
        ensures
            r == crate::bpe::lookup(self.ids(), s@),
    {
        proof {
            use_type_invariant(&self.tables);
        }
        match self.tables.token_to_id.get(s) {
            Some(id) => Some(*id),
            None => None,
        }
    }

    /// Byte-level BPE on one pre-tokenized piece.
    pub fn bpe_piece(&self, piece: &[u8], out: &mut Vec<u32>)
        ensures
            final(out)@ == old(out)@ + symbols_ids(
                self.ids(),
                piece_symbols(self.ranks(), piece@),
            ),
    {
        proof {
            use_type_invariant(&self.tables);
        }
        let mut start: Vec<String> = Vec::new();
        let mut i: usize = 0;
        while i < piece.len()
            invariant
                self.tables.wf(),
                i <= piece@.len(),
                crate::bpe::string_views(start@) == byte_symbols(piece@.take(i as int)),
            decreases piece@.len() - i,
        {
            let ghost before = start@;
            let mut s: String = String::new();
            let b: u8 = piece[i];
            assert(self.tables.byte_to_char@[b as int] == crate::byte_map::byte_char(b));
            s.push(self.tables.byte_to_char[b as usize]);
            start.push(s);
            assert(s@ =~= seq![crate::byte_map::byte_char(b)]);
            assert(crate::bpe::string_views(start@) =~= crate::bpe::string_views(before).push(s@));
            assert(byte_symbols(piece@.take(i + 1)) =~= byte_symbols(piece@.take(i as int)).push(
                s@,
            ));
            i += 1;
        }
        assert(piece@.take(piece@.len() as int) =~= piece@);
        let sym: Vec<String> = merge_symbols(&self.tables.merge_rank, start);
        let ghost view = crate::bpe::string_views(sym@);
        let mut k: usize = 0;
        assert(view.take(0) =~= Seq::empty());
        while k < sym.len()
            invariant
                k <= sym@.len(),
                view == crate::bpe::string_views(sym@),
                out@ =~= old(out)@ + symbols_ids(self.ids(), view.take(k as int)),
            decreases sym@.len() - k,
        {
            assert(view.take(k + 1).drop_last() =~= view.take(k as int));
            self.push_symbol(sym[k].as_str(), out);
            k += 1;
        }
        assert(view.take(view.len() as int) =~= view);
    }

    /// Appends the ids of one symbol; a symbol outside the vocabulary falls
    /// back to its single byte-chars.
    fn push_symbol(&self, s: &str, out: &mut Vec<u32>)
        ensures
            final(out)@ == old(out)@ + symbol_ids(self.ids(), s@),
    {
        proof {
            use_type_invariant(&self.tables);
        }
        match self.tables.token_to_id.get(s) {
            Some(id) => {
                out.push(*id);
            },
            None => {
                for c in it: s.chars()
                    invariant
                        self.tables.wf(),
                        it.seq() == s@,
                        out@ =~= old(out)@ + char_ids(self.ids(), s@.take(it.index())),
                {
                    let mut one: String = String::new();
                    one.push(c);
                    assert(one@ =~= seq![c]);
                    assert(s@.take(it.index() + 1).drop_last() =~= s@.take(it.index()));
                    match self.tables.token_to_id.get(one.as_str()) {
                        Some(id) => {
                            out.push(*id);
                        },
                        None => {},
                    }
                }
                assert(s@.take(s@.len() as int) =~= s@);
            },
        }
    }

    /// Encodes plain text (no special-token recognition; chat markers are
    /// pushed by id).
    pub fn encode(&self, text: &str) -> (out: Vec<u32>)
        ensures
            out@ == encoding(self.ids(), self.ranks(), encode_utf8(text@)),
    {
        let mut out: Vec<u32> = Vec::new();
        let pieces: Vec<&[u8]> = pretokenize(text.as_bytes());
        let ghost view = crate::pretokenize::slice_views(pieces@);
        let mut i: usize = 0;
        assert(view.take(0) =~= Seq::empty());
        while i < pieces.len()
            invariant
                i <= pieces@.len(),
                view == crate::pretokenize::slice_views(pieces@),
                out@ =~= pieces_ids(self.ids(), self.ranks(), view.take(i as int)),
            decreases pieces@.len() - i,
        {
            assert(view.take(i + 1).drop_last() =~= view.take(i as int));
            self.bpe_piece(pieces[i], &mut out);
            i += 1;
        }
        assert(view.take(view.len() as int) =~= view);
        out
    }

    /// Decodes ids to bytes. Chars outside the byte map (control-token text)
    /// pass through as their UTF-8 bytes; unknown ids are skipped.
    pub fn decode(&self, ids: &[u32]) -> (out: Vec<u8>)
        ensures
            out@ == decoding(self.vocab(), ids@),
    {
        let mut out: Vec<u8> = Vec::new();
        let mut i: usize = 0;
        assert(ids@.take(0) =~= Seq::empty());
        while i < ids.len()
            invariant
                i <= ids@.len(),
                out@ =~= decoding(self.vocab(), ids@.take(i as int)),
            decreases ids@.len() - i,
        {
            assert(ids@.take(i + 1).drop_last() =~= ids@.take(i as int));
            if (ids[i] as usize) < self.tables.tokens.len() {
                self.push_token(self.tables.tokens[ids[i] as usize].as_str(), &mut out);
            }
            i += 1;
        }
        assert(ids@.take(ids@.len() as int) =~= ids@);
        out
    }

    /// Appends the bytes of one vocabulary string.
    fn push_token(&self, t: &str, out: &mut Vec<u8>)
        ensures
            final(out)@ == old(out)@ + token_bytes(t@),
    {
        proof {
            use_type_invariant(&self.tables);
        }
        for c in it: t.chars()
            invariant
                self.tables.wf(),
                it.seq() == t@,
                out@ =~= old(out)@ + token_bytes(t@.take(it.index())),
        {
            assert(t@.take(it.index() + 1).drop_last() =~= t@.take(it.index()));
            match self.tables.char_to_byte.get(&(c as u32)) {
                Some(b) => {
                    proof {
                        let x = choose|x: u8|
                            (#[trigger] crate::byte_map::byte_char(x)) as u32 == c as u32;
                        crate::byte_map::char_byte_inverts(x);
                        char_u32_cast(c, c as u32);
                        char_u32_cast(crate::byte_map::byte_char(x), c as u32);
                        assert(crate::byte_map::byte_char(x) == c);
                    }
                    out.push(*b);
                },
                None => {
                    proof {
                        if crate::byte_map::char_byte(c) is Some {
                            let x = crate::byte_map::char_byte(c)->0;
                            assert(crate::byte_map::byte_char(x) == c);
                        }
                        reveal_with_fuel(encode_utf8, 2);
                    }
                    let mut one: String = String::new();
                    one.push(c);
                    assert(one@ =~= seq![c]);
                    assert(encode_utf8(one@) =~= encode_scalar(c as u32));
                    let ghost before = out@;
                    out.extend_from_slice(one.as_str().as_bytes());
                    assert(out@ =~= before + encode_scalar(c as u32));
                },
            }
        }
        assert(t@.take(t@.len() as int) =~= t@);
    }
}

/// The array under `key`.
pub open spec fn array_at(g: Gguf, key: Seq<char>) -> Option<Seq<Value>> {
    match crate::gguf::find_entry(g.metadata@, key) {
        Some(e) => match e.value {
            Value::Array(a) => Some(a@),
            _ => None,
        },
        None => None,
    }
}

/// What keeps the entry under `key` from being read as a list of strings.
pub open spec fn array_error(g: Gguf, key: &'static str) -> Option<Error> {
    match array_at(g, key@) {
        None => Some(Error::MissingKey(key)),
        Some(a) => if forall|i: int| 0 <= i < a.len() ==> (#[trigger] a[i]) is String {
            None
        } else {
            Some(Error::BadKey(key))
        },
    }
}

/// The strings of the array under `key`.
pub open spec fn strings_at(g: Gguf, key: Seq<char>) -> Seq<Seq<char>> {
    array_at(g, key)->0.map_values(|v: Value| v->String_0@)
}

/// The special-token id under `key`; ids have 32 bits.
pub open spec fn id_at(g: Gguf, key: Seq<char>) -> Option<u32> {
    match crate::gguf::find_entry(g.metadata@, key) {
        Some(e) => match e.number {
            Some(n) => Some(n as u32),
            None => None,
        },
        None => None,
    }
}

/// What keeps the header of a model from describing a tokenizer: the tokens
/// are looked at first, then the merges.
pub open spec fn description_error(g: Gguf) -> Option<Error> {
    match array_error(g, "tokenizer.ggml.tokens") {
        Some(e) => Some(e),
        None => array_error(g, "tokenizer.ggml.merges"),
    }
}

/// Whether a tokenizer is the one that the header of a model describes.
pub open spec fn is_described(t: Tokenizer, g: Gguf) -> bool {
    &&& t.vocab() == strings_at(g, "tokenizer.ggml.tokens"@)
    &&& t.ranks() == crate::bpe::numbering(strings_at(g, "tokenizer.ggml.merges"@))
    &&& t.bos_id == id_at(g, "tokenizer.ggml.bos_token_id"@)
    &&& t.eos_id == id_at(g, "tokenizer.ggml.eos_token_id"@)
    &&& t.eot_id == id_at(g, "tokenizer.ggml.eot_token_id"@)
}

/// Reads the list of strings under `key`.
pub fn string_array(g: &Gguf, key: &'static str) -> (r: Result<Vec<String>, Error>)
    ensures
        match r {
            Ok(v) => array_error(*g, key) is None && crate::bpe::string_views(v@) == strings_at(
                *g,
                key@,
            ),
            Err(e) => array_error(*g, key) == Some(e),
        },
{
    let entry = match g.get(key) {
        Some(e) => e,
        None => {
            return Err(Error::MissingKey(key));
        },
    };
    let items: &Vec<Value> = match &entry.value {
        Value::Array(a) => a,
        _ => {
            return Err(Error::MissingKey(key));
        },
    };
    let mut out: Vec<String> = Vec::new();
    let mut i: usize = 0;
    while i < items.len()
        invariant
            i <= items@.len(),
            out@.len() == i,
            forall|k: int|
                0 <= k < i ==> (#[trigger] items@[k]) is String && out@[k]@
                    == items@[k]->String_0@,
            array_at(*g, key@) == Some(items@),
        decreases items@.len() - i,
    {
        match &items[i] {
            Value::String(s) => {
                out.push(s.clone());
            },
            _ => {
                assert(!(items@[i as int] is String));
                return Err(Error::BadKey(key));
            },
        }
        i += 1;
    }
    assert(crate::bpe::string_views(out@) =~= strings_at(*g, key@));
    Ok(out)
}

fn special_id(g: &Gguf, key: &str) -> (r: Option<u32>)
    ensures
        r == id_at(*g, key@),
{
    match g.get(key) {
        Some(e) => match e.number {
            Some(n) => Some(
                #[verifier::truncate]
                (n as u32),
            ),
            None => None,
        },
        None => None,
    }
}

/// Numbers a list of strings.
fn number_strings(list: &Vec<String>) -> (m: StringHashMap<u32>)
    ensures
        m@ == crate::bpe::numbering(crate::bpe::string_views(list@)),
{
    let mut m: StringHashMap<u32> = StringHashMap::new();
    let ghost view = crate::bpe::string_views(list@);
    let mut i: usize = 0;
    assert(view.take(0) =~= Seq::empty());
    while i < list.len()
        invariant
            i <= list@.len(),
            view == crate::bpe::string_views(list@),
            m@ == crate::bpe::numbering(view.take(i as int)),
        decreases list@.len() - i,
    {
        assert(view.take(i + 1).drop_last() =~= view.take(i as int));
        m.insert(
            list[i].clone(),
            #[verifier::truncate]
            (i as u32),
        );
        i += 1;
    }
    assert(view.take(view.len() as int) =~= view);
    m
}

impl Tokenizer {
    /// Builds the tokenizer of a model from the header of its file.
    pub fn from_gguf(g: &Gguf) -> (r: Result<Tokenizer, Error>)
        ensures
            match r {
                Ok(t) => {
                    &&& array_error(*g, "tokenizer.ggml.tokens") is None
                    &&& array_error(*g, "tokenizer.ggml.merges") is None
                    &&& t.vocab() == strings_at(*g, "tokenizer.ggml.tokens"@)
                    &&& t.ranks() == crate::bpe::numbering(
                        strings_at(*g, "tokenizer.ggml.merges"@),
                    )
                    &&& t.bos_id == id_at(*g, "tokenizer.ggml.bos_token_id"@)
                    &&& t.eos_id == id_at(*g, "tokenizer.ggml.eos_token_id"@)
                    &&& t.eot_id == id_at(*g, "tokenizer.ggml.eot_token_id"@)
                    &&& is_described(t, *g)
                },
                Err(e) => Some(e) == match array_error(*g, "tokenizer.ggml.tokens") {
                    Some(e) => Some(e),
                    None => array_error(*g, "tokenizer.ggml.merges"),
                },
            },
            match r {
                Ok(_) => description_error(*g) is None,
                Err(e) => description_error(*g) == Some(e),
            },
    {
        let tokens: Vec<String> = match string_array(g, "tokenizer.ggml.tokens") {
            Ok(v) => v,
            Err(e) => {
                return Err(e);
            },
        };
        let merges: Vec<String> = match string_array(g, "tokenizer.ggml.merges") {
            Ok(v) => v,
            Err(e) => {
                return Err(e);
            },
        };
        let token_to_id: StringHashMap<u32> = number_strings(&tokens);
        let merge_rank: StringHashMap<u32> = number_strings(&merges);
        let mut byte_to_char: Vec<char> = Vec::new();
        let mut char_to_byte: HashMap<u32, u8> = HashMap::new();
        let mut n: usize = 0;
        while n < 256
            invariant
                n <= 256,
                byte_to_char@.len() == n,
                forall|b: u8|
                    b < n ==> #[trigger] byte_to_char@[b as int] == crate::byte_map::byte_char(b),
                forall|b: u8|
                    b < n ==> char_to_byte@.contains_pair(
                        (#[trigger] crate::byte_map::byte_char(b)) as u32,
                        b,
                    ),
                forall|u: u32|
                    #[trigger] char_to_byte@.contains_key(u) ==> exists|b: u8|
                        (#[trigger] crate::byte_map::byte_char(b)) as u32 == u,
            decreases 256 - n,
        {
            let b: u8 = n as u8;
            let c: char = gpt2_byte_to_char(b);
            proof {
                assert forall|x: u8| x < n implies (#[trigger] crate::byte_map::byte_char(x)) as u32
                    != c as u32 by {
                    if crate::byte_map::byte_char(x) as u32 == c as u32 {
                        char_u32_cast(c, c as u32);
                        char_u32_cast(crate::byte_map::byte_char(x), c as u32);
                        crate::byte_map::byte_char_injective(x, b);
                    }
                }
            }
            byte_to_char.push(c);
            char_to_byte.insert(c as u32, b);
            n += 1;
        }
        let bos_id: Option<u32> = special_id(g, "tokenizer.ggml.bos_token_id");
        let eos_id: Option<u32> = special_id(g, "tokenizer.ggml.eos_token_id");
        let eot_id: Option<u32> = special_id(g, "tokenizer.ggml.eot_token_id");
        let tables: Tables = Tables {
            tokens,
            token_to_id,
            merge_rank,
            byte_to_char,
            char_to_byte,
        };
        Ok(Tokenizer { tables, bos_id, eos_id, eot_id })
    }
}

/// An array of strings is read as its strings, in order; one with anything
/// else in it has the wrong shape; a key with no array is missing.
pub proof fn string_lists_are_read(g: Gguf, key: &'static str, i: int)
    requires
        0 <= i < g.metadata@.len(),
        g.metadata@[i].key@ == key@,
        forall|j: int| 0 <= j < i ==> (#[trigger] g.metadata@[j]).key@ != key@,
    ensures
        match g.metadata@[i].value {
            Value::Array(items) => {
                &&& (forall|k: int| 0 <= k < items@.len() ==> (#[trigger] items@[k]) is String) ==> {
                    &&& array_error(g, key) is None
                    &&& strings_at(g, key@).len() == items@.len()
                    &&& forall|k: int|
                        0 <= k < items@.len() ==> #[trigger] strings_at(g, key@)[k]
                            == items@[k]->String_0@
                }
                &&& (exists|k: int| 0 <= k < items@.len() && !((#[trigger] items@[k]) is String))
                    ==> array_error(g, key) == Some(Error::BadKey(key))
            },
            _ => array_error(g, key) == Some(Error::MissingKey(key)),
        },
{
    crate::gguf::the_first_entry_is_found(g.metadata@, key@, i);
}

/// A key that is not there is missing, as a list and as a number.
pub proof fn absent_keys_are_missing(g: Gguf, key: &'static str)
    requires
        forall|j: int| 0 <= j < g.metadata@.len() ==> (#[trigger] g.metadata@[j]).key@ != key@,
    ensures
        array_error(g, key) == Some(Error::MissingKey(key)),
        id_at(g, key@) is None,
{
    crate::gguf::the_first_entry_is_found(g.metadata@, key@, g.metadata@.len() as int);
}

/// A special-token id is the number under its key, its low 32 bits, and none
/// where there is no number.
pub proof fn special_ids_are_numbers(g: Gguf, key: Seq<char>, i: int)
    requires
        0 <= i < g.metadata@.len(),
        g.metadata@[i].key@ == key,
        forall|j: int| 0 <= j < i ==> (#[trigger] g.metadata@[j]).key@ != key,
    ensures
        match g.metadata@[i].number {
            Some(n) => id_at(g, key) is Some && id_at(g, key)->0 == n % 0x1_0000_0000,
            None => id_at(g, key) is None,
        },
{
    crate::gguf::the_first_entry_is_found(g.metadata@, key, i);
    if let Some(n) = g.metadata@[i].number {
        assert(n as u32 == n % 0x1_0000_0000) by (bit_vector);
    }
}

/// A tokenizer has its vocabulary, its merges and its three special ids from
/// the keys that bear their names.
pub proof fn described_by_these_keys(t: Tokenizer, g: Gguf)
    requires
        is_described(t, g),
    ensures
        t.vocab() == strings_at(g, "tokenizer.ggml.tokens"@),
        t.ranks() == crate::bpe::numbering(strings_at(g, "tokenizer.ggml.merges"@)),
        forall|i: int|
            0 <= i < strings_at(g, "tokenizer.ggml.merges"@).len() && strings_at(
                g,
                "tokenizer.ggml.merges"@,
            ).len() <= 0x1_0000_0000 ==> t.ranks().contains_key(
                #[trigger] strings_at(g, "tokenizer.ggml.merges"@)[i],
            ),
        t.bos_id == id_at(g, "tokenizer.ggml.bos_token_id"@),
        t.eos_id == id_at(g, "tokenizer.ggml.eos_token_id"@),
        t.eot_id == id_at(g, "tokenizer.ggml.eot_token_id"@),
        t.ids() == crate::bpe::numbering(t.vocab()),
{
    let merges = strings_at(g, "tokenizer.ggml.merges"@);
    if merges.len() <= 0x1_0000_0000 {
        assert forall|i: int| 0 <= i < merges.len() implies t.ranks().contains_key(
            #[trigger] merges[i],
        ) by {
            crate::bpe::numbering_names_the_last_place(merges, merges[i]);
        }
    }
}

/// An error names its key, and says whether the key is missing or misshapen.
pub proof fn errors_name_their_key(k: &'static str)
    ensures
        Error::MissingKey(k).text() == "gguf metadata is missing "@ + k@,
        Error::BadKey(k).text() == "gguf metadata key "@ + k@ + " has the wrong shape"@,
{
}

/// A model without its tokens, or else without its merges, as lists of
/// strings, describes no tokenizer, and the error is of that list.
pub proof fn tokens_and_merges_are_needed(g: Gguf)
    ensures
        description_error(g) is None <==> array_error(g, "tokenizer.ggml.tokens") is None
            && array_error(g, "tokenizer.ggml.merges") is None,
        array_error(g, "tokenizer.ggml.tokens") is Some ==> description_error(g) == array_error(
            g,
            "tokenizer.ggml.tokens",
        ),
        array_error(g, "tokenizer.ggml.tokens") is None ==> description_error(g) == array_error(
            g,
            "tokenizer.ggml.merges",
        ),
{
}

/// The vocabulary is the tokens as they were read, by id.
proof fn lemma_vocab_is_the_tokens(t: Tables, i: int)
    requires
        0 <= i < t.tokens@.len(),
    ensures
        t.vocab().len() == t.tokens@.len(),
        t.vocab()[i] == t.tokens@[i]@,
        t.ranks() == t.merge_rank@,
{
}

} // verus!
