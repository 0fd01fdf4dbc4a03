//! The header of a quantized file: magic, version, counts, metadata, tensor
//! infos.

use vstd::prelude::*;
use vstd::relations::*;
use vstd::utf8::*;

use crate::gguf::MetaEntry;
use crate::gguf_write::{push_le, value_type_id, write_string, write_value_payload};
use crate::layout::{OutTensor, PerType};
use crate::order::{bytes_le, sort_positions, PositionOrder};
use crate::text::{starts_with, str_eq};

verus! {

/// The version of the format that is written.
pub const GGUF_VERSION: u32 = 3;

/// Whether a metadata key says how a model is split over files.
pub open spec fn is_split_key(key: Seq<char>) -> bool {
    "split."@.is_prefix_of(key)
}

/// The key of entry `i`, as bytes.
pub open spec fn key_at(meta: Seq<MetaEntry>, i: int) -> Seq<u8> {
    encode_utf8(meta[i].key@)
}

/// The order by key, equal keys in the order of their positions.
pub open spec fn by_name(meta: Seq<MetaEntry>) -> spec_fn(int, int) -> bool {
    |i: int, j: int|
        if key_at(meta, i) == key_at(meta, j) {
            i <= j
        } else {
            crate::order::lex_le(key_at(meta, i), key_at(meta, j))
        }
}

/// The positions of the entries that are written: all but those on the split,
/// in order.
pub open spec fn kept(meta: Seq<MetaEntry>) -> Seq<int> {
    crate::order::range(meta.len() as int).filter(|i: int| !is_split_key(meta[i].key@))
}

/// The positions of the entries that are written, in the order of their keys.
pub open spec fn meta_order(meta: Seq<MetaEntry>) -> Seq<int> {
    kept(meta).sort_by(by_name(meta))
}

/// One metadata entry: key, type, value.
pub open spec fn entry_bytes(e: MetaEntry) -> Seq<u8> {
    crate::gguf_write::string_bytes(e.key@) + crate::gguf_write::le_bytes(
        crate::gguf_write::type_id(e.value) as int,
        4,
    ) + crate::gguf_write::payload(e.value)
}

/// The entries at some positions.
pub open spec fn entries_bytes(meta: Seq<MetaEntry>, at: Seq<int>) -> Seq<u8>
    decreases at.len(),
{
    if at.len() == 0 {
        Seq::empty()
    } else {
        entry_bytes(meta[at[0]]) + entries_bytes(meta, at.drop_first())
    }
}

pub open spec fn dims_bytes(dims: Seq<u64>) -> Seq<u8>
    decreases dims.len(),
{
    if dims.len() == 0 {
        Seq::empty()
    } else {
        crate::gguf_write::le_bytes(dims[0] as int, 8) + dims_bytes(dims.drop_first())
    }
}

/// One tensor info: name, dimensions, type, offset.
pub open spec fn info_bytes(t: OutTensor, ids: PerType<u32>) -> Seq<u8> {
    crate::gguf_write::string_bytes(t.name@) + crate::gguf_write::le_bytes(
        t.dims@.len() as int,
        4,
    ) + dims_bytes(t.dims@) + crate::gguf_write::le_bytes(ids.at(t.ty) as int, 4)
        + crate::gguf_write::le_bytes(t.out_off as int, 8)
}

pub open spec fn infos_bytes(ts: Seq<OutTensor>, ids: PerType<u32>) -> Seq<u8>
    decreases ts.len(),
{
    if ts.len() == 0 {
        Seq::empty()
    } else {
        info_bytes(ts[0], ids) + infos_bytes(ts.drop_first(), ids)
    }
}

/// A whole header.
pub open spec fn header_bytes(
    magic: u32,
    meta: Seq<MetaEntry>,
    ts: Seq<OutTensor>,
    ids: PerType<u32>,
) -> Seq<u8> {
    crate::gguf_write::le_bytes(magic as int, 4) + crate::gguf_write::le_bytes(
        GGUF_VERSION as int,
        4,
    ) + crate::gguf_write::le_bytes(ts.len() as int, 8) + crate::gguf_write::le_bytes(
        kept(meta).len() as int,
        8,
    ) + entries_bytes(meta, meta_order(meta)) + infos_bytes(ts, ids)
}

/// Whether every entry that is written can be.
pub open spec fn can_write(meta: Seq<MetaEntry>) -> bool {
    forall|i: int|
        0 <= i < meta.len() && !is_split_key((#[trigger] meta[i]).key@)
            ==> crate::gguf_write::writable(meta[i].value)
}

struct NameOrder<'a> {
    meta: &'a Vec<MetaEntry>,
}

proof fn lemma_by_name_total(meta: Seq<MetaEntry>)
    ensures
        total_ordering(by_name(meta)),
{
    let leq = by_name(meta);
    assert forall|i: int, j: int| #[trigger] leq(i, j) && #[trigger] leq(j, i) implies i == j by {
        crate::order::lex_is_total(key_at(meta, i), key_at(meta, j), key_at(meta, i));
    }
    assert forall|i: int, j: int, k: int| #[trigger] leq(i, j) && #[trigger] leq(j, k) implies leq(
        i,
        k,
    ) by {
        crate::order::lex_is_total(key_at(meta, i), key_at(meta, j), key_at(meta, k));
        crate::order::lex_is_total(key_at(meta, j), key_at(meta, i), key_at(meta, k));
    }
    assert forall|i: int, j: int| #[trigger] leq(i, j) || #[trigger] leq(j, i) by {
        crate::order::lex_is_total(key_at(meta, i), key_at(meta, j), key_at(meta, i));
    }
}

impl<'a> PositionOrder for NameOrder<'a> {
    closed spec fn size(&self) -> int {
        self.meta@.len() as int
    }

    closed spec fn leq(&self) -> spec_fn(int, int) -> bool {
        by_name(self.meta@)
    }

    proof fn lemma_total(&self) {
        lemma_by_name_total(self.meta@);
    }

    fn le(&self, i: usize, j: usize) -> (r: bool) {
        let a: &str = self.meta[i].key.as_str();
        let b: &str = self.meta[j].key.as_str();
        proof {
            encode_utf8_decode_utf8(a@);
            encode_utf8_decode_utf8(b@);
        }
        if str_eq(a, b) {
            i <= j
        } else {
            bytes_le(a.as_bytes(), b.as_bytes())
        }
    }
}

/// The positions of the entries that are written, in the order of their keys.
fn sorted_meta(meta: &Vec<MetaEntry>) -> (order: Vec<usize>)
    ensures
        crate::order::positions(order@) == meta_order(meta@),
        order@.len() == kept(meta@).len(),
        forall|k: int| 0 <= k < order@.len() ==> (#[trigger] order@[k]) < meta@.len(),
{
    let ghost keep = |i: int| !is_split_key(meta@[i].key@);
    let mut at: Vec<usize> = Vec::new();
    let mut i: usize = 0;
    proof {
        reveal(Seq::filter);
        assert(crate::order::positions(at@) =~= crate::order::range(0).filter(keep));
    }
    while i < meta.len()
        invariant
            i <= meta@.len(),
            keep == (|i: int| !is_split_key(meta@[i].key@)),
            crate::order::positions(at@) == crate::order::range(i as int).filter(keep),
            forall|k: int| 0 <= k < at@.len() ==> (#[trigger] at@[k]) < i,
        decreases meta@.len() - i,
    {
        let ghost before = at@;
        if !starts_with(meta[i].key.as_str(), "split.") {
            at.push(i);
            assert(crate::order::positions(at@) =~= crate::order::positions(before).push(i as int));
        }
        proof {
            assert(crate::order::range(i + 1) =~= crate::order::range(i as int).push(i as int));
            crate::order::range(i as int).lemma_filter_push(i as int, keep);
        }
        i += 1;
    }
    assert(crate::order::positions(at@).len() == at@.len());
    sort_positions(&NameOrder { meta }, at)
}

fn write_info(head: &mut Vec<u8>, t: &OutTensor, ids: &PerType<u32>)
    ensures
        final(head)@ == old(head)@ + info_bytes(*t, *ids),
{
    write_string(head, t.name.as_str());
    push_le(head, t.dims.len() as u64, 4);
    let ghost start = head@;
    let mut i: usize = 0;
    assert(t.dims@.skip(0) =~= t.dims@);
    while i < t.dims.len()
        invariant
            i <= t.dims@.len(),
            head@ + dims_bytes(t.dims@.skip(i as int)) == start + dims_bytes(t.dims@),
        decreases t.dims@.len() - i,
    {
        let ghost before = head@;
        assert(t.dims@.skip(i as int).drop_first() =~= t.dims@.skip(i + 1));
        push_le(head, t.dims[i], 8);
        assert(head@ + dims_bytes(t.dims@.skip(i + 1)) =~= before + dims_bytes(
            t.dims@.skip(i as int),
        ));
        i += 1;
    }
    assert(head@ + dims_bytes(t.dims@.skip(i as int)) =~= head@);
    push_le(head, *ids.get(t.ty) as u64, 4);
    push_le(head, t.out_off, 8);
    assert(head@ =~= old(head)@ + info_bytes(*t, *ids));
}

fn write_entry(head: &mut Vec<u8>, e: &MetaEntry) -> (r: Result<(), String>)
    ensures
        final(head)@ == old(head)@ + entry_bytes(*e),
        r is Ok <==> crate::gguf_write::writable(e.value),
        r matches Err(e) ==> e@ == "heterogeneous metadata array"@,
{
    write_string(head, e.key.as_str());
    push_le(head, value_type_id(&e.value) as u64, 4);
    let r: Result<(), String> = write_value_payload(head, &e.value);
    assert(head@ =~= old(head)@ + entry_bytes(*e));
    r
}

/// The order holds as many entries as are kept, and no more than there are.
pub proof fn lemma_order_len(meta: Seq<MetaEntry>)
    ensures
        meta_order(meta).len() == kept(meta).len() <= meta.len(),
{
    broadcast use vstd::seq_lib::group_to_multiset_ensures;

    let keep = |i: int| !is_split_key(meta[i].key@);
    lemma_by_name_total(meta);
    kept(meta).lemma_sort_by_ensures(by_name(meta));
    assert(meta_order(meta).len() == meta_order(meta).to_multiset().len());
    assert(kept(meta).len() == kept(meta).to_multiset().len());
    crate::order::range(meta.len() as int).lemma_filter_len(keep);
}

/// The entries that are written are those whose key is not on the split.
pub proof fn lemma_kept(meta: Seq<MetaEntry>, i: int)
    ensures
        meta_order(meta).contains(i) <==> 0 <= i < meta.len() && !is_split_key(meta[i].key@),
{
    broadcast use vstd::seq_lib::group_to_multiset_ensures;

    let keep = |i: int| !is_split_key(meta[i].key@);
    let all = crate::order::range(meta.len() as int);
    lemma_by_name_total(meta);
    kept(meta).lemma_sort_by_ensures(by_name(meta));
    assert(meta_order(meta).contains(i) <==> meta_order(meta).to_multiset().count(i) > 0);
    assert(kept(meta).contains(i) <==> kept(meta).to_multiset().count(i) > 0);
    if kept(meta).contains(i) {
        all.lemma_filter_contains_rev(keep, i);
    }
    if 0 <= i < meta.len() && !is_split_key(meta[i].key@) {
        assert(all[i] == i);
        all.lemma_filter_contains(keep, i);
    }
}

/// The header of a file, without the padding behind it.
pub fn write_header(
    magic: u32,
    meta: &Vec<MetaEntry>,
    tensors: &Vec<OutTensor>,
    ids: &PerType<u32>,
) -> (r: Result<Vec<u8>, String>)
    ensures
        match r {
            Ok(head) => can_write(meta@) && head@ == header_bytes(magic, meta@, tensors@, *ids),
            Err(e) => !can_write(meta@) && e@ == "heterogeneous metadata array"@,
        },
{
    let order: Vec<usize> = sorted_meta(meta);
    let ghost at = crate::order::positions(order@);
    let mut head: Vec<u8> = Vec::new();
    push_le(&mut head, magic as u64, 4);
    push_le(&mut head, GGUF_VERSION as u64, 4);
    push_le(&mut head, tensors.len() as u64, 8);
    push_le(&mut head, order.len() as u64, 8);
    let ghost counts = head@;
    let mut i: usize = 0;
    assert(at.skip(0) =~= at);
    while i < order.len()
        invariant
            i <= order@.len(),
            at == crate::order::positions(order@),
            at == meta_order(meta@),
            forall|k: int| 0 <= k < order@.len() ==> (#[trigger] order@[k]) < meta@.len(),
            head@ + entries_bytes(meta@, at.skip(i as int)) == counts + entries_bytes(meta@, at),
            forall|k: int|
                0 <= k < i ==> crate::gguf_write::writable(meta@[(#[trigger] at[k])].value),
        decreases order@.len() - i,
    {
        let ghost before = head@;
        assert(at.skip(i as int).drop_first() =~= at.skip(i + 1));
        assert(at[i as int] == order@[i as int]);
        match write_entry(&mut head, &meta[order[i]]) {
            Ok(_) => {
                assert(head@ + entries_bytes(meta@, at.skip(i + 1)) =~= before + entries_bytes(
                    meta@,
                    at.skip(i as int),
                ));
            },
            Err(e) => {
                proof {
                    assert(at.contains(at[i as int]));
                    lemma_kept(meta@, at[i as int]);
                }
                return Err(e);
            },
        }
        i += 1;
    }
    assert(head@ + entries_bytes(meta@, at.skip(i as int)) =~= head@);
    assert(can_write(meta@)) by {
        assert forall|k: int|
            0 <= k < meta@.len() && !is_split_key(
                (#[trigger] meta@[k]).key@,
            ) implies crate::gguf_write::writable(meta@[k].value) by {
            lemma_kept(meta@, k);
            let j = choose|j: int| 0 <= j < at.len() && at[j] == k;
            assert(crate::gguf_write::writable(meta@[at[j]].value));
        }
    }
    let ghost metas = head@;
    i = 0;
    assert(tensors@.skip(0) =~= tensors@);
    while i < tensors.len()
        invariant
            i <= tensors@.len(),
            head@ + infos_bytes(tensors@.skip(i as int), *ids) == metas + infos_bytes(
                tensors@,
                *ids,
            ),
        decreases tensors@.len() - i,
    {
        let ghost before = head@;
        assert(tensors@.skip(i as int).drop_first() =~= tensors@.skip(i + 1));
        write_info(&mut head, &tensors[i], ids);
        assert(head@ + infos_bytes(tensors@.skip(i + 1), *ids) =~= before + infos_bytes(
            tensors@.skip(i as int),
            *ids,
        ));
        i += 1;
    }
    assert(head@ + infos_bytes(tensors@.skip(i as int), *ids) =~= head@);
    assert(head@ =~= header_bytes(magic, meta@, tensors@, *ids));
    Ok(head)
}

/// Whether no key occurs twice.
pub open spec fn keys_differ(meta: Seq<MetaEntry>) -> bool {
    forall|i: int, j: int|
        0 <= i < j < meta.len() ==> (#[trigger] meta[i]).key@ != (#[trigger] meta[j]).key@
}

proof fn lemma_filter_distinct(n: int, keep: spec_fn(int) -> bool)
    requires
        n >= 0,
    ensures
        crate::order::range(n).filter(keep).no_duplicates(),
{
    crate::order::lemma_filter_distinct(n, keep);
}

/// The keys in the order in which they are written.
spec fn key_order(meta: Seq<MetaEntry>) -> Seq<Seq<u8>> {
    meta_order(meta).map_values(|i: int| key_at(meta, i))
}

spec fn rising(keys: Seq<Seq<u8>>) -> bool {
    forall|p: int, q: int|
        0 <= p < q < keys.len() ==> #[trigger] keys[p] != #[trigger] keys[q]
            && crate::order::lex_le(keys[p], keys[q])
}

proof fn lemma_keys_rise(meta: Seq<MetaEntry>)
    requires
        keys_differ(meta),
    ensures
        rising(key_order(meta)),
        meta_order(meta).len() == kept(meta).len(),
{
    broadcast use vstd::seq_lib::group_to_multiset_ensures;

    let order = meta_order(meta);
    let keep = |i: int| !is_split_key(meta[i].key@);
    lemma_by_name_total(meta);
    kept(meta).lemma_sort_by_ensures(by_name(meta));
    lemma_filter_distinct(meta.len() as int, keep);
    kept(meta).lemma_multiset_has_no_duplicates();
    order.lemma_multiset_has_no_duplicates_conv();
    lemma_order_len(meta);
    let keys = key_order(meta);
    assert forall|p: int, q: int| 0 <= p < q < keys.len() implies #[trigger] keys[p]
        != #[trigger] keys[q] && crate::order::lex_le(keys[p], keys[q]) by {
        let i = order[p];
        let j = order[q];
        assert(order.contains(i) && order.contains(j));
        lemma_kept(meta, i);
        lemma_kept(meta, j);
        assert(by_name(meta)(i, j));
        encode_utf8_decode_utf8(meta[i].key@);
        encode_utf8_decode_utf8(meta[j].key@);
        assert(meta[i].key@ != meta[j].key@);
    }
}

proof fn lemma_rising_unique(a: Seq<Seq<u8>>, b: Seq<Seq<u8>>)
    requires
        rising(a),
        rising(b),
        forall|x: Seq<u8>| #[trigger] a.contains(x) <==> b.contains(x),
    ensures
        a == b,
    decreases a.len(),
{
    if a.len() == 0 {
        if b.len() > 0 {
            assert(b.contains(b[0]));
            assert(a.contains(b[0]));
        }
        assert(a =~= b);
    } else {
        assert(a.contains(a.last()));
        let p = choose|p: int| 0 <= p < b.len() && b[p] == a.last();
        assert(b.contains(b.last()));
        assert(a.contains(b.last()));
        let q = choose|q: int| 0 <= q < a.len() && a[q] == b.last();
        if p < b.len() - 1 {
            crate::order::lex_is_total(a.last(), b.last(), a.last());
        }
        assert(a.last() == b.last());
        let c = a.drop_last();
        let d = b.drop_last();
        assert forall|x: Seq<u8>| #[trigger] c.contains(x) <==> d.contains(x) by {
            if c.contains(x) {
                let k = choose|k: int| 0 <= k < c.len() && c[k] == x;
                assert(a[k] == x && a[k] != a.last());
                assert(a.contains(x));
                let m = choose|m: int| 0 <= m < b.len() && b[m] == x;
                assert(d[m] == x);
            }
            if d.contains(x) {
                let k = choose|k: int| 0 <= k < d.len() && d[k] == x;
                assert(b[k] == x && b[k] != b.last());
                assert(b.contains(x) && a.contains(x));
                let m = choose|m: int| 0 <= m < a.len() && a[m] == x;
                assert(c[m] == x);
            }
        }
        lemma_rising_unique(c, d);
        assert(a =~= c.push(a.last()));
        assert(b =~= d.push(b.last()));
    }
}

proof fn lemma_key_kept(a: Seq<MetaEntry>, b: Seq<MetaEntry>, x: Seq<u8>)
    requires
        forall|e: MetaEntry| #[trigger] a.contains(e) ==> b.contains(e),
        key_order(a).contains(x),
    ensures
        key_order(b).contains(x),
{
    let oa = meta_order(a);
    let ob = meta_order(b);
    let k = choose|k: int| 0 <= k < key_order(a).len() && key_order(a)[k] == x;
    let i = oa[k];
    assert(oa.contains(i));
    lemma_kept(a, i);
    assert(a.contains(a[i]));
    let j = choose|j: int| 0 <= j < b.len() && b[j] == a[i];
    lemma_kept(b, j);
    let m = choose|m: int| 0 <= m < ob.len() && ob[m] == j;
    assert(key_order(b)[m] == x);
}

proof fn lemma_same_entries(
    a: Seq<MetaEntry>,
    b: Seq<MetaEntry>,
    at: Seq<int>,
    bt: Seq<int>,
)
    requires
        at.len() == bt.len(),
        forall|k: int| 0 <= k < at.len() ==> a[#[trigger] at[k]] == b[bt[k]],
    ensures
        entries_bytes(a, at) == entries_bytes(b, bt),
    decreases at.len(),
{
    if at.len() > 0 {
        let rest = at.drop_first();
        assert forall|k: int| 0 <= k < rest.len() implies a[#[trigger] rest[k]] == b[bt.drop_first()[k]] by {
            assert(a[at[k + 1]] == b[bt[k + 1]]);
        }
        lemma_same_entries(a, b, rest, bt.drop_first());
        assert(a[at[0]] == b[bt[0]]);
    }
}

/// The order in which the metadata come does not show in the header.
pub proof fn metadata_order_does_not_matter(
    magic: u32,
    a: Seq<MetaEntry>,
    b: Seq<MetaEntry>,
    ts: Seq<OutTensor>,
    ids: PerType<u32>,
)
    requires
        keys_differ(a),
        keys_differ(b),
        forall|e: MetaEntry| #[trigger] a.contains(e) <==> b.contains(e),
    ensures
        header_bytes(magic, a, ts, ids) == header_bytes(magic, b, ts, ids),
        can_write(a) == can_write(b),
{
    lemma_keys_rise(a);
    lemma_keys_rise(b);
    assert forall|x: Seq<u8>| #[trigger] key_order(a).contains(x) <==> key_order(b).contains(x) by {
        if key_order(a).contains(x) {
            lemma_key_kept(a, b, x);
        }
        if key_order(b).contains(x) {
            lemma_key_kept(b, a, x);
        }
    }
    lemma_rising_unique(key_order(a), key_order(b));
    let oa = meta_order(a);
    let ob = meta_order(b);
    assert(oa.len() == key_order(a).len() && ob.len() == key_order(b).len());
    assert forall|k: int| 0 <= k < oa.len() implies a[#[trigger] oa[k]] == b[ob[k]] by {
        let i = oa[k];
        let j = ob[k];
        assert(oa.contains(i) && ob.contains(j));
        lemma_kept(a, i);
        lemma_kept(b, j);
        assert(key_order(a)[k] == key_at(a, i) && key_order(b)[k] == key_at(b, j));
        encode_utf8_decode_utf8(a[i].key@);
        encode_utf8_decode_utf8(b[j].key@);
        assert(a[i].key@ == b[j].key@);
        assert(a.contains(a[i]));
        let m = choose|m: int| 0 <= m < b.len() && b[m] == a[i];
        assert(m == j);
    }
    lemma_same_entries(a, b, oa, ob);
    assert(can_write(a) == can_write(b)) by {
        assert forall|i: int|
            can_write(b) && 0 <= i < a.len() && !is_split_key(
                (#[trigger] a[i]).key@,
            ) implies crate::gguf_write::writable(a[i].value) by {
            assert(a.contains(a[i]));
            let m = choose|m: int| 0 <= m < b.len() && b[m] == a[i];
        }
        assert forall|i: int|
            can_write(a) && 0 <= i < b.len() && !is_split_key(
                (#[trigger] b[i]).key@,
            ) implies crate::gguf_write::writable(b[i].value) by {
            assert(b.contains(b[i]));
            assert(a.contains(b[i]));
            let m = choose|m: int| 0 <= m < a.len() && a[m] == b[i];
        }
    }
}

/// What is written of the metadata has no key twice, rises by key, and holds
/// every entry but those on the split.
pub proof fn metadata_rise_by_key(meta: Seq<MetaEntry>, i: int, p: int, q: int)
    requires
        keys_differ(meta),
    ensures
        meta_order(meta).contains(i) <==> 0 <= i < meta.len() && !is_split_key(meta[i].key@),
        0 <= p < q < meta_order(meta).len() ==> {
            let a = key_at(meta, meta_order(meta)[p]);
            let b = key_at(meta, meta_order(meta)[q]);
            a != b && crate::order::lex_le(a, b)
        },
{
    lemma_kept(meta, i);
    lemma_keys_rise(meta);
    if 0 <= p < q < meta_order(meta).len() {
        assert(key_order(meta)[p] == key_at(meta, meta_order(meta)[p]));
        assert(key_order(meta)[q] == key_at(meta, meta_order(meta)[q]));
    }
}

/// A key is on the split exactly if it begins with the six characters
/// `split.`.
pub proof fn split_keys_begin_with_split(key: Seq<char>)
    ensures
        is_split_key(key) <==> key.len() >= 6 && key[0] == 's' && key[1] == 'p' && key[2] == 'l'
            && key[3] == 'i' && key[4] == 't' && key[5] == '.',
{
    reveal_strlit("split.");
    if is_split_key(key) {
        assert("split."@ == key.subrange(0, 6));
        assert("split."@[0] == 's' && "split."@[1] == 'p' && "split."@[2] == 'l');
        assert("split."@[3] == 'i' && "split."@[4] == 't' && "split."@[5] == '.');
    }
    if key.len() >= 6 && key[0] == 's' && key[1] == 'p' && key[2] == 'l' && key[3] == 'i' && key[4]
        == 't' && key[5] == '.' {
        assert(key.subrange(0, 6) =~= "split."@);
    }
}

/// A header is the magic number, version 3, the number of tensors, the number
/// of entries that are written, those entries by key, and the tensor infos.
pub proof fn a_header_has_these_parts(
    magic: u32,
    meta: Seq<MetaEntry>,
    ts: Seq<OutTensor>,
    ids: PerType<u32>,
)
    ensures
        header_bytes(magic, meta, ts, ids) == crate::gguf_write::le_bytes(magic as int, 4)
            + crate::gguf_write::le_bytes(3, 4) + crate::gguf_write::le_bytes(ts.len() as int, 8)
            + crate::gguf_write::le_bytes(meta_order(meta).len() as int, 8) + entries_bytes(
            meta,
            meta_order(meta),
        ) + infos_bytes(ts, ids),
{
    lemma_order_len(meta);
}

/// Entries come one behind the other, each as its key, the number of its type
/// in four bytes, and its value.
pub proof fn entries_come_one_by_one(meta: Seq<MetaEntry>, a: Seq<int>, b: Seq<int>, i: int)
    ensures
        entries_bytes(meta, a + b) == entries_bytes(meta, a) + entries_bytes(meta, b),
        entries_bytes(meta, Seq::empty()).len() == 0,
        entries_bytes(meta, seq![i]) == crate::gguf_write::string_bytes(meta[i].key@)
            + crate::gguf_write::le_bytes(crate::gguf_write::type_id(meta[i].value) as int, 4)
            + crate::gguf_write::payload(meta[i].value),
    decreases a.len(),
{
    if a.len() == 0 {
        assert(a + b =~= b);
        assert(entries_bytes(meta, a) + entries_bytes(meta, b) =~= entries_bytes(meta, b));
    } else {
        entries_come_one_by_one(meta, a.drop_first(), b, i);
        assert((a + b).drop_first() =~= a.drop_first() + b);
        assert(entries_bytes(meta, a + b) =~= entries_bytes(meta, a) + entries_bytes(meta, b));
    }
    reveal_with_fuel(entries_bytes, 2);
    assert(seq![i].drop_first() =~= Seq::<int>::empty());
    assert(entries_bytes(meta, seq![i]) =~= entry_bytes(meta[i]));
}

/// Tensor infos come one behind the other, each as the tensor's name, the
/// number of its dimensions in four bytes, each dimension in eight, the number
/// of its type in four, and its offset in eight.
pub proof fn infos_come_one_by_one(
    a: Seq<OutTensor>,
    b: Seq<OutTensor>,
    t: OutTensor,
    ids: PerType<u32>,
)
    ensures
        infos_bytes(a + b, ids) == infos_bytes(a, ids) + infos_bytes(b, ids),
        infos_bytes(Seq::empty(), ids).len() == 0,
        infos_bytes(seq![t], ids) == crate::gguf_write::string_bytes(t.name@)
            + crate::gguf_write::le_bytes(t.dims@.len() as int, 4) + dims_bytes(t.dims@)
            + crate::gguf_write::le_bytes(ids.at(t.ty) as int, 4) + crate::gguf_write::le_bytes(
            t.out_off as int,
            8,
        ),
    decreases a.len(),
{
    if a.len() == 0 {
        assert(a + b =~= b);
        assert(infos_bytes(a, ids) + infos_bytes(b, ids) =~= infos_bytes(b, ids));
    } else {
        infos_come_one_by_one(a.drop_first(), b, t, ids);
        assert((a + b).drop_first() =~= a.drop_first() + b);
        assert(infos_bytes(a + b, ids) =~= infos_bytes(a, ids) + infos_bytes(b, ids));
    }
    reveal_with_fuel(infos_bytes, 2);
    assert(seq![t].drop_first() =~= Seq::<OutTensor>::empty());
    assert(infos_bytes(seq![t], ids) =~= info_bytes(t, ids));
}

/// Dimensions come one behind the other, in eight bytes each.
pub proof fn dimensions_come_one_by_one(a: Seq<u64>, b: Seq<u64>, d: u64)
    ensures
        dims_bytes(a + b) == dims_bytes(a) + dims_bytes(b),
        dims_bytes(Seq::empty()).len() == 0,
        dims_bytes(seq![d]) == crate::gguf_write::le_bytes(d as int, 8),
    decreases a.len(),
{
    if a.len() == 0 {
        assert(a + b =~= b);
        assert(dims_bytes(a) + dims_bytes(b) =~= dims_bytes(b));
    } else {
        dimensions_come_one_by_one(a.drop_first(), b, d);
        assert((a + b).drop_first() =~= a.drop_first() + b);
        assert(dims_bytes(a + b) =~= dims_bytes(a) + dims_bytes(b));
    }
    reveal_with_fuel(dims_bytes, 2);
    assert(seq![d].drop_first() =~= Seq::<u64>::empty());
    assert(dims_bytes(seq![d]) =~= crate::gguf_write::le_bytes(d as int, 8));
}

/// Entries are written by the bytes of their keys, by their places where keys
/// are equal, and none twice.
pub proof fn entries_are_written_by_key(meta: Seq<MetaEntry>, p: int, q: int)
    requires
        0 <= p < q < meta_order(meta).len(),
    ensures
        ({
            let i = meta_order(meta)[p];
            let j = meta_order(meta)[q];
            if meta[i].key@ == meta[j].key@ {
                i < j
            } else {
                crate::order::lex_le(encode_utf8(meta[i].key@), encode_utf8(meta[j].key@))
            }
        }),
{
    let order = meta_order(meta);
    let keep = |i: int| !is_split_key(meta[i].key@);
    lemma_by_name_total(meta);
    kept(meta).lemma_sort_by_ensures(by_name(meta));
    lemma_filter_distinct(meta.len() as int, keep);
    kept(meta).lemma_multiset_has_no_duplicates();
    order.lemma_multiset_has_no_duplicates_conv();
    assert(by_name(meta)(order[p], order[q]));
    encode_utf8_decode_utf8(meta[order[p]].key@);
    encode_utf8_decode_utf8(meta[order[q]].key@);
}

/// A header can be written exactly if each entry that is not on the split can
/// be.
pub proof fn every_entry_off_the_split_has_to_be_writable(meta: Seq<MetaEntry>)
    ensures
        can_write(meta) <==> forall|i: int|
            0 <= i < meta.len() && !is_split_key((#[trigger] meta[i]).key@)
                ==> crate::gguf_write::writable(meta[i].value),
{
}

} // verus!
