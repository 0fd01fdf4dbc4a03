//! A header says one thing only: what was written can be read back from its
//! bytes.

use vstd::prelude::*;
use vstd::utf8::*;

use crate::gguf::MetaEntry;
use crate::layout::{OutTensor, PerType};

verus! {

/// Whether the lengths in an entry fit in the bits that they are written in.
pub open spec fn entry_fits(e: MetaEntry) -> bool {
    encode_utf8(e.key@).len() <= u64::MAX && crate::gguf_write::lengths_fit(e.value)
}

/// Whether two entries say the same.
pub open spec fn same_entry(e: MetaEntry, f: MetaEntry) -> bool {
    e.key@ == f.key@ && crate::gguf_write::same_value(e.value, f.value)
}

/// Whether the lengths in a tensor info fit in the bits that they are written
/// in.
pub open spec fn info_fits(t: OutTensor) -> bool {
    encode_utf8(t.name@).len() <= u64::MAX && t.dims@.len() <= u32::MAX
}

/// Whether two tensors are described alike.
pub open spec fn same_info(t: OutTensor, u: OutTensor, ids: PerType<u32>) -> bool {
    &&& t.name@ == u.name@
    &&& t.dims@ == u.dims@
    &&& ids.at(t.ty) == ids.at(u.ty)
    &&& t.out_off == u.out_off
}

proof fn lemma_regroup(a: Seq<u8>, b: Seq<u8>, c: Seq<u8>)
    ensures
        (a + b) + c == a + (b + c),
{
    assert((a + b) + c =~= a + (b + c));
}

/// Five parts and what follows them, from the front.
proof fn lemma_regroup_five(
    a: Seq<u8>,
    b: Seq<u8>,
    c: Seq<u8>,
    d: Seq<u8>,
    e: Seq<u8>,
    r: Seq<u8>,
)
    ensures
        a + b + c + d + e + r == a + (b + (c + (d + (e + r)))),
{
    lemma_regroup(a + b + c + d, e, r);
    lemma_regroup(a + b + c, d, e + r);
    lemma_regroup(a + b, c, d + (e + r));
    lemma_regroup(a, b, c + (d + (e + r)));
}

/// A metadata entry is read back from its bytes, whatever follows it.
pub proof fn entry_reads_back(e: MetaEntry, f: MetaEntry, r: Seq<u8>, s: Seq<u8>)
    requires
        crate::gguf_write::writable(e.value),
        crate::gguf_write::writable(f.value),
        entry_fits(e),
        entry_fits(f),
        crate::header::entry_bytes(e) + r == crate::header::entry_bytes(f) + s,
    ensures
        same_entry(e, f),
        r == s,
{
    reveal_with_fuel(crate::gguf_write::pow256, 9);
    let te = crate::gguf_write::le_bytes(crate::gguf_write::type_id(e.value) as int, 4);
    let tf = crate::gguf_write::le_bytes(crate::gguf_write::type_id(f.value) as int, 4);
    let pe = crate::gguf_write::payload(e.value) + r;
    let pf = crate::gguf_write::payload(f.value) + s;
    assert(crate::header::entry_bytes(e) + r =~= crate::gguf_write::string_bytes(e.key@) + (te
        + pe));
    assert(crate::header::entry_bytes(f) + s =~= crate::gguf_write::string_bytes(f.key@) + (tf
        + pf));
    crate::gguf_write::string_reads_back(e.key@, f.key@, te + pe, tf + pf);
    crate::gguf_write::number_reads_back(
        crate::gguf_write::type_id(e.value) as int,
        crate::gguf_write::type_id(f.value) as int,
        4,
        pe,
        pf,
    );
    crate::gguf_write::value_reads_back(e.value, f.value, r, s);
}

proof fn lemma_entries_read_back(
    a: Seq<MetaEntry>,
    b: Seq<MetaEntry>,
    at: Seq<int>,
    bt: Seq<int>,
    r: Seq<u8>,
    s: Seq<u8>,
)
    requires
        at.len() == bt.len(),
        forall|k: int|
            0 <= k < at.len() ==> crate::gguf_write::writable(a[#[trigger] at[k]].value)
                && entry_fits(a[at[k]]),
        forall|k: int|
            0 <= k < bt.len() ==> crate::gguf_write::writable(b[#[trigger] bt[k]].value)
                && entry_fits(b[bt[k]]),
        crate::header::entries_bytes(a, at) + r == crate::header::entries_bytes(b, bt) + s,
    ensures
        forall|k: int| 0 <= k < at.len() ==> same_entry(a[#[trigger] at[k]], b[bt[k]]),
        r == s,
    decreases at.len(),
{
    if at.len() == 0 {
        assert(crate::header::entries_bytes(a, at) + r =~= r);
        assert(crate::header::entries_bytes(b, bt) + s =~= s);
    } else {
        let ra = at.drop_first();
        let rb = bt.drop_first();
        let ea = crate::header::entries_bytes(a, ra) + r;
        let eb = crate::header::entries_bytes(b, rb) + s;
        assert(crate::header::entries_bytes(a, at) + r =~= crate::header::entry_bytes(a[at[0]])
            + ea);
        assert(crate::header::entries_bytes(b, bt) + s =~= crate::header::entry_bytes(b[bt[0]])
            + eb);
        entry_reads_back(a[at[0]], b[bt[0]], ea, eb);
        assert forall|k: int| 0 <= k < ra.len() implies crate::gguf_write::writable(
            a[#[trigger] ra[k]].value,
        ) && entry_fits(a[ra[k]]) by {
            assert(ra[k] == at[k + 1]);
        }
        assert forall|k: int| 0 <= k < rb.len() implies crate::gguf_write::writable(
            b[#[trigger] rb[k]].value,
        ) && entry_fits(b[rb[k]]) by {
            assert(rb[k] == bt[k + 1]);
        }
        lemma_entries_read_back(a, b, ra, rb, r, s);
        assert forall|k: int| 0 <= k < at.len() implies same_entry(
            a[#[trigger] at[k]],
            b[bt[k]],
        ) by {
            if k > 0 {
                assert(at[k] == ra[k - 1] && bt[k] == rb[k - 1]);
            }
        }
    }
}

proof fn lemma_dims_read_back(a: Seq<u64>, b: Seq<u64>, r: Seq<u8>, s: Seq<u8>)
    requires
        a.len() == b.len(),
        crate::header::dims_bytes(a) + r == crate::header::dims_bytes(b) + s,
    ensures
        a == b,
        r == s,
    decreases a.len(),
{
    if a.len() == 0 {
        assert(crate::header::dims_bytes(a) + r =~= r);
        assert(crate::header::dims_bytes(b) + s =~= s);
        assert(a =~= b);
    } else {
        reveal_with_fuel(crate::gguf_write::pow256, 9);
        let ra = crate::header::dims_bytes(a.drop_first()) + r;
        let rb = crate::header::dims_bytes(b.drop_first()) + s;
        assert(crate::header::dims_bytes(a) + r =~= crate::gguf_write::le_bytes(a[0] as int, 8)
            + ra);
        assert(crate::header::dims_bytes(b) + s =~= crate::gguf_write::le_bytes(b[0] as int, 8)
            + rb);
        crate::gguf_write::number_reads_back(a[0] as int, b[0] as int, 8, ra, rb);
        lemma_dims_read_back(a.drop_first(), b.drop_first(), r, s);
        assert(a =~= seq![a[0]] + a.drop_first());
        assert(b =~= seq![b[0]] + b.drop_first());
    }
}

/// A tensor info is read back from its bytes, whatever follows it.
pub proof fn info_reads_back(
    t: OutTensor,
    u: OutTensor,
    ids: PerType<u32>,
    r: Seq<u8>,
    s: Seq<u8>,
)
    requires
        info_fits(t),
        info_fits(u),
        crate::header::info_bytes(t, ids) + r == crate::header::info_bytes(u, ids) + s,
    ensures
        same_info(t, u, ids),
        r == s,
{
    reveal_with_fuel(crate::gguf_write::pow256, 9);
    let nt = t.dims@.len() as int;
    let nu = u.dims@.len() as int;
    let it = ids.at(t.ty) as int;
    let iu = ids.at(u.ty) as int;
    let r0 = crate::gguf_write::le_bytes(t.out_off as int, 8) + r;
    let s0 = crate::gguf_write::le_bytes(u.out_off as int, 8) + s;
    let r1 = crate::gguf_write::le_bytes(it, 4) + r0;
    let s1 = crate::gguf_write::le_bytes(iu, 4) + s0;
    let r2 = crate::header::dims_bytes(t.dims@) + r1;
    let s2 = crate::header::dims_bytes(u.dims@) + s1;
    let r3 = crate::gguf_write::le_bytes(nt, 4) + r2;
    let s3 = crate::gguf_write::le_bytes(nu, 4) + s2;
    lemma_regroup_five(
        crate::gguf_write::string_bytes(t.name@),
        crate::gguf_write::le_bytes(nt, 4),
        crate::header::dims_bytes(t.dims@),
        crate::gguf_write::le_bytes(it, 4),
        crate::gguf_write::le_bytes(t.out_off as int, 8),
        r,
    );
    lemma_regroup_five(
        crate::gguf_write::string_bytes(u.name@),
        crate::gguf_write::le_bytes(nu, 4),
        crate::header::dims_bytes(u.dims@),
        crate::gguf_write::le_bytes(iu, 4),
        crate::gguf_write::le_bytes(u.out_off as int, 8),
        s,
    );
    crate::gguf_write::string_reads_back(t.name@, u.name@, r3, s3);
    crate::gguf_write::number_reads_back(nt, nu, 4, r2, s2);
    lemma_dims_read_back(t.dims@, u.dims@, r1, s1);
    crate::gguf_write::number_reads_back(it, iu, 4, r0, s0);
    crate::gguf_write::number_reads_back(t.out_off as int, u.out_off as int, 8, r, s);
}

proof fn lemma_infos_read_back(
    a: Seq<OutTensor>,
    b: Seq<OutTensor>,
    ids: PerType<u32>,
    r: Seq<u8>,
    s: Seq<u8>,
)
    requires
        a.len() == b.len(),
        forall|k: int| 0 <= k < a.len() ==> info_fits(#[trigger] a[k]),
        forall|k: int| 0 <= k < b.len() ==> info_fits(#[trigger] b[k]),
        crate::header::infos_bytes(a, ids) + r == crate::header::infos_bytes(b, ids) + s,
    ensures
        forall|k: int| 0 <= k < a.len() ==> same_info(#[trigger] a[k], b[k], ids),
        r == s,
    decreases a.len(),
{
    if a.len() == 0 {
        assert(crate::header::infos_bytes(a, ids) + r =~= r);
        assert(crate::header::infos_bytes(b, ids) + s =~= s);
    } else {
        let ra = crate::header::infos_bytes(a.drop_first(), ids) + r;
        let rb = crate::header::infos_bytes(b.drop_first(), ids) + s;
        assert(crate::header::infos_bytes(a, ids) + r =~= crate::header::info_bytes(a[0], ids)
            + ra);
        assert(crate::header::infos_bytes(b, ids) + s =~= crate::header::info_bytes(b[0], ids)
            + rb);
        info_reads_back(a[0], b[0], ids, ra, rb);
        lemma_infos_read_back(a.drop_first(), b.drop_first(), ids, r, s);
        assert forall|k: int| 0 <= k < a.len() implies same_info(#[trigger] a[k], b[k], ids) by {
            if k > 0 {
                assert(a[k] == a.drop_first()[k - 1] && b[k] == b.drop_first()[k - 1]);
            }
        }
    }
}

/// A header is read back from its bytes, whatever data follow it: two headers
/// that are written alike have the same magic, the same metadata but for the
/// keys on the split, and the same tensors.
pub proof fn header_reads_back(
    magic_a: u32,
    magic_b: u32,
    meta_a: Seq<MetaEntry>,
    meta_b: Seq<MetaEntry>,
    ts_a: Seq<OutTensor>,
    ts_b: Seq<OutTensor>,
    ids: PerType<u32>,
    r: Seq<u8>,
    s: Seq<u8>,
)
    requires
        crate::header::can_write(meta_a),
        crate::header::can_write(meta_b),
        meta_a.len() <= u64::MAX,
        meta_b.len() <= u64::MAX,
        ts_a.len() <= u64::MAX,
        ts_b.len() <= u64::MAX,
        forall|i: int| 0 <= i < meta_a.len() ==> entry_fits(#[trigger] meta_a[i]),
        forall|i: int| 0 <= i < meta_b.len() ==> entry_fits(#[trigger] meta_b[i]),
        forall|i: int| 0 <= i < ts_a.len() ==> info_fits(#[trigger] ts_a[i]),
        forall|i: int| 0 <= i < ts_b.len() ==> info_fits(#[trigger] ts_b[i]),
        crate::header::header_bytes(magic_a, meta_a, ts_a, ids) + r
            == crate::header::header_bytes(magic_b, meta_b, ts_b, ids) + s,
    ensures
        magic_a == magic_b,
        crate::header::meta_order(meta_a).len() == crate::header::meta_order(meta_b).len(),
        forall|k: int|
            0 <= k < crate::header::meta_order(meta_a).len() ==> same_entry(
                meta_a[#[trigger] crate::header::meta_order(meta_a)[k]],
                meta_b[crate::header::meta_order(meta_b)[k]],
            ),
        ts_a.len() == ts_b.len(),
        forall|k: int| 0 <= k < ts_a.len() ==> same_info(#[trigger] ts_a[k], ts_b[k], ids),
        r == s,
{
    reveal_with_fuel(crate::gguf_write::pow256, 9);
    let oa = crate::header::meta_order(meta_a);
    let ob = crate::header::meta_order(meta_b);
    crate::header::lemma_order_len(meta_a);
    crate::header::lemma_order_len(meta_b);
    let v = crate::gguf_write::le_bytes(crate::header::GGUF_VERSION as int, 4);
    let na = crate::header::kept(meta_a).len() as int;
    let nb = crate::header::kept(meta_b).len() as int;
    let r0 = crate::header::infos_bytes(ts_a, ids) + r;
    let s0 = crate::header::infos_bytes(ts_b, ids) + s;
    let r1 = crate::header::entries_bytes(meta_a, oa) + r0;
    let s1 = crate::header::entries_bytes(meta_b, ob) + s0;
    let r2 = crate::gguf_write::le_bytes(na, 8) + r1;
    let s2 = crate::gguf_write::le_bytes(nb, 8) + s1;
    let r3 = crate::gguf_write::le_bytes(ts_a.len() as int, 8) + r2;
    let s3 = crate::gguf_write::le_bytes(ts_b.len() as int, 8) + s2;
    lemma_regroup(
        crate::gguf_write::le_bytes(magic_a as int, 4) + v + crate::gguf_write::le_bytes(
            ts_a.len() as int,
            8,
        ) + crate::gguf_write::le_bytes(na, 8) + crate::header::entries_bytes(meta_a, oa),
        crate::header::infos_bytes(ts_a, ids),
        r,
    );
    lemma_regroup_five(
        crate::gguf_write::le_bytes(magic_a as int, 4),
        v,
        crate::gguf_write::le_bytes(ts_a.len() as int, 8),
        crate::gguf_write::le_bytes(na, 8),
        crate::header::entries_bytes(meta_a, oa),
        r0,
    );
    lemma_regroup(
        crate::gguf_write::le_bytes(magic_b as int, 4) + v + crate::gguf_write::le_bytes(
            ts_b.len() as int,
            8,
        ) + crate::gguf_write::le_bytes(nb, 8) + crate::header::entries_bytes(meta_b, ob),
        crate::header::infos_bytes(ts_b, ids),
        s,
    );
    lemma_regroup_five(
        crate::gguf_write::le_bytes(magic_b as int, 4),
        v,
        crate::gguf_write::le_bytes(ts_b.len() as int, 8),
        crate::gguf_write::le_bytes(nb, 8),
        crate::header::entries_bytes(meta_b, ob),
        s0,
    );
    crate::gguf_write::number_reads_back(magic_a as int, magic_b as int, 4, v + r3, v + s3);
    crate::gguf_write::lemma_split_equal(v, r3, v, s3);
    crate::gguf_write::number_reads_back(ts_a.len() as int, ts_b.len() as int, 8, r2, s2);
    crate::gguf_write::number_reads_back(na, nb, 8, r1, s1);
    assert forall|k: int| 0 <= k < oa.len() implies crate::gguf_write::writable(
        meta_a[#[trigger] oa[k]].value,
    ) && entry_fits(meta_a[oa[k]]) by {
        assert(oa.contains(oa[k]));
        crate::header::lemma_kept(meta_a, oa[k]);
    }
    assert forall|k: int| 0 <= k < ob.len() implies crate::gguf_write::writable(
        meta_b[#[trigger] ob[k]].value,
    ) && entry_fits(meta_b[ob[k]]) by {
        assert(ob.contains(ob[k]));
        crate::header::lemma_kept(meta_b, ob[k]);
    }
    lemma_entries_read_back(meta_a, meta_b, oa, ob, r0, s0);
    lemma_infos_read_back(ts_a, ts_b, ids, r, s);
}

} // verus!
