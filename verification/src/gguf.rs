//! The parts of a GGUF file that the engine decides on: its metadata values
//! and how they are written.

use vstd::prelude::*;

use crate::text::str_eq;

verus! {

/// A metadata value. Floats are held as their IEEE 754 bits.
pub enum Value {
    U8(u8),
    I8(i8),
    U16(u16),
    I16(i16),
    U32(u32),
    I32(i32),
    F32(u32),
    Bool(bool),
    String(String),
    Array(Vec<Value>),
    U64(u64),
    I64(i64),
    F64(u64),
}

/// One metadata entry.
pub struct MetaEntry {
    pub key: String,
    pub value: Value,
    /// The value as an unsigned integer, where the file's reader takes it
    /// for one.
    pub number: Option<u64>,
}

/// The header of a GGUF file, as far as its metadata goes.
pub struct Gguf {
    pub metadata: Vec<MetaEntry>,
}

/// The first entry under `key`.
pub open spec fn find_entry(meta: Seq<MetaEntry>, key: Seq<char>) -> Option<MetaEntry>
    decreases meta.len(),
{
    if meta.len() == 0 {
        None
    } else if meta[0].key@ == key {
        Some(meta[0])
    } else {
        find_entry(meta.drop_first(), key)
    }
}

impl Gguf {
    /// Looks a key up in the metadata.
    pub fn get(&self, key: &str) -> (r: Option<&MetaEntry>)
        ensures
            match r {
                Some(e) => find_entry(self.metadata@, key@) == Some(*e),
                None => find_entry(self.metadata@, key@) is None,
            },
    {
        let mut i: usize = 0;
        assert(self.metadata@.skip(0) =~= self.metadata@);
        while i < self.metadata.len()
            invariant
                i <= self.metadata@.len(),
                find_entry(self.metadata@.skip(i as int), key@) == find_entry(
                    self.metadata@,
                    key@,
                ),
            decreases self.metadata@.len() - i,
        {
            assert(self.metadata@.skip(i as int).drop_first() =~= self.metadata@.skip(i + 1));
            if str_eq(self.metadata[i].key.as_str(), key) {
                return Some(&self.metadata[i]);
            }
            i += 1;
        }
        None
    }
}

/// A key is found at the first entry that bears it, and not found where none
/// does.
pub proof fn the_first_entry_is_found(meta: Seq<MetaEntry>, key: Seq<char>, i: int)
    requires
        0 <= i <= meta.len(),
        forall|j: int| 0 <= j < i ==> (#[trigger] meta[j]).key@ != key,
        i < meta.len() ==> meta[i].key@ == key,
    ensures
        find_entry(meta, key) == if i < meta.len() {
            Some(meta[i])
        } else {
            None
        },
    decreases meta.len(),
{
    if i > 0 {
        let rest = meta.drop_first();
        assert(meta[0].key@ != key);
        assert forall|j: int| 0 <= j < i - 1 implies (#[trigger] rest[j]).key@ != key by {
            assert(rest[j] == meta[j + 1]);
        }
        the_first_entry_is_found(rest, key, i - 1);
    }
}

} // verus!
