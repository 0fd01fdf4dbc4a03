//! Bandwidth-adaptive hybrid miss handling.
//!
//! Pure policy: no CUDA, no engine state. Decode classifies host-cached
//! expert misses into a GPU cache-fill set and a CPU-execute set.
//!
//! The fill share of `m` misses is about `m * B_pcie / B_host`, rounded,
//! always at least one fill when `m > 0` so the GPU cache keeps warming.
//! Fill-set membership is recency-ranked: the most recently routed misses
//! are the ones worth a cache slot.
//!
//! Bandwidths are given as the bits of an IEEE 754 double: positive doubles
//! compare like their bits.

use vstd::prelude::*;
use vstd::relations::*;

use crate::order::{sort_positions, LargestFirst, SmallestFirst};
use crate::text::str_eq;

verus! {

/// Default PCIe H2D from the reference box (Gen5 x8, measured): 28.7 GB/s.
pub const DEFAULT_PCIE_GBS: u64 = 0x403c_b333_3333_3333;

/// Default host expert-dot bandwidth from the reference box (9900X AVX2):
/// 42 GB/s.
pub const DEFAULT_HOST_GBS: u64 = 0x4045_0000_0000_0000;

/// The bits of positive infinity.
pub const INFINITY_BITS: u64 = 0x7ff0_0000_0000_0000;

/// Split of one layer's host-cached misses.
#[derive(Clone, Debug, PartialEq, Eq)]
pub struct MissSplit {
    /// Misses to H2D into the GPU expert cache (and leave resident).
    pub fill: Vec<i32>,
    /// Misses to compute on the CPU lane (residency unchanged).
    pub cpu: Vec<i32>,
}

/// A positive number, infinity included.
pub open spec fn is_positive(bits: u64) -> bool {
    0 < bits <= INFINITY_BITS
}

/// A positive number that is not infinite.
pub open spec fn is_positive_finite(bits: u64) -> bool {
    0 < bits < INFINITY_BITS
}

/// How many of `n_miss` misses fill the cache, `share` being their rounded
/// share of the link: all of them where the host is not faster than a working
/// link.
pub open spec fn fill_count(n_miss: int, pcie_gbs: u64, host_gbs: u64, share: int) -> int {
    if n_miss == 0 {
        0
    } else if !is_positive_finite(pcie_gbs) || !is_positive_finite(host_gbs) || host_gbs
        <= pcie_gbs {
        n_miss
    } else if share < 1 {
        1
    } else if share > n_miss {
        n_miss
    } else {
        share
    }
}

/// How many of `n_miss` host-cached misses should fill the GPU cache.
///
/// When host bandwidth cannot exceed the link, residual CPU bandwidth is
/// zero and every miss fills. Otherwise it is `share`, the rounded
/// `n_miss * pcie / host`, clamped to `[1, n_miss]`.
pub fn q_star(n_miss: usize, pcie_gbs: u64, host_gbs: u64, share: usize) -> (q: usize)
    ensures
        q == fill_count(n_miss as int, pcie_gbs, host_gbs, share as int),
{
    if n_miss == 0 {
        return 0;
    }
    if !(0 < pcie_gbs && pcie_gbs < INFINITY_BITS) {
        return n_miss;
    }
    if !(host_gbs < INFINITY_BITS && host_gbs > pcie_gbs) {
        return n_miss;
    }
    if share < 1 {
        1
    } else if share > n_miss {
        n_miss
    } else {
        share
    }
}

pub open spec fn recencies(misses: Seq<(i32, u64)>) -> Seq<u64> {
    misses.map_values(|m: (i32, u64)| m.1)
}

/// The positions of the misses, most recent first, equal recency in input
/// order.
pub open spec fn recency_order(misses: Seq<(i32, u64)>) -> Seq<int> {
    crate::order::range(misses.len() as int).sort_by(crate::order::by_key_desc(recencies(misses)))
}

/// The expert ids at some positions.
pub open spec fn ids_at(misses: Seq<(i32, u64)>, at: Seq<int>) -> Seq<i32> {
    at.map_values(|i: int| misses[i].0)
}

/// The number of fills: `q`, at least one, at most all.
pub open spec fn fill_len(n: int, q: int) -> int {
    if n == 0 {
        0
    } else if q < 1 {
        1
    } else if q > n {
        n
    } else {
        q
    }
}

/// The misses that fill, in order.
pub open spec fn fill_of(misses: Seq<(i32, u64)>, q: int) -> Seq<i32> {
    ids_at(misses, recency_order(misses).take(fill_len(misses.len() as int, q)))
}

/// The misses left to the CPU, in order.
pub open spec fn cpu_of(misses: Seq<(i32, u64)>, q: int) -> Seq<i32> {
    ids_at(misses, recency_order(misses).skip(fill_len(misses.len() as int, q)))
}

proof fn lemma_by_key_total(keys: Seq<u64>)
    ensures
        total_ordering(crate::order::by_key(keys)),
        total_ordering(crate::order::by_key_desc(keys)),
{
}

proof fn lemma_sorted(at: Seq<int>, leq: spec_fn(int, int) -> bool)
    requires
        total_ordering(leq),
    ensures
        at.sort_by(leq).len() == at.len(),
        sorted_by(at.sort_by(leq), leq),
        at.sort_by(leq).to_multiset() == at.to_multiset(),
        forall|x: int| #[trigger] at.sort_by(leq).contains(x) <==> at.contains(x),
{
    broadcast use vstd::seq_lib::group_to_multiset_ensures;

    at.lemma_sort_by_ensures(leq);
    assert(at.sort_by(leq).to_multiset().len() == at.to_multiset().len());
    assert forall|x: int| #[trigger] at.sort_by(leq).contains(x) <==> at.contains(x) by {
        assert(at.contains(x) <==> at.to_multiset().count(x) > 0);
    }
}

/// Ranks `misses` (expert id, recency clock) and takes the `q` most recent
/// as the fill set. Recency `0` means never seen: those sort last so a
/// cold miss does not evict a warm slot. Equal recency keeps input order.
pub fn split_by_recency(misses: &[(i32, u64)], q: usize) -> (r: MissSplit)
    ensures
        r.fill@ == fill_of(misses@, q as int),
        r.cpu@ == cpu_of(misses@, q as int),
{
    let n: usize = misses.len();
    let mut keys: Vec<u64> = Vec::new();
    let mut all: Vec<usize> = Vec::new();
    let mut i: usize = 0;
    while i < n
        invariant
            i <= n,
            n == misses@.len(),
            keys@ == recencies(misses@.take(i as int)),
            crate::order::positions(all@) == crate::order::range(i as int),
            all@.len() == i,
            forall|k: int| 0 <= k < i ==> all@[k] == k,
        decreases n - i,
    {
        let ghost before = all@;
        keys.push(misses[i].1);
        all.push(i);
        assert(keys@ =~= recencies(misses@.take(i + 1)));
        assert(crate::order::positions(all@) =~= crate::order::range(i + 1));
        i += 1;
    }
    assert(misses@.take(n as int) =~= misses@);
    let order: Vec<usize> = sort_positions(&LargestFirst { keys }, all);
    let take: usize = if n == 0 {
        0
    } else if q < 1 {
        1
    } else if q > n {
        n
    } else {
        q
    };
    let fill: Vec<i32> = pick_ids(misses, &order, 0, take);
    let cpu: Vec<i32> = pick_ids(misses, &order, take, n);
    proof {
        let at = crate::order::positions(order@);
        assert(at == recency_order(misses@));
        assert(fill@ =~= fill_of(misses@, q as int));
        assert(cpu@ =~= cpu_of(misses@, q as int));
    }
    MissSplit { fill, cpu }
}

/// The ids at the positions `order[from..to]`.
fn pick_ids(misses: &[(i32, u64)], order: &Vec<usize>, from: usize, to: usize) -> (ids: Vec<i32>)
    requires
        from <= to <= order@.len(),
        forall|k: int| 0 <= k < order@.len() ==> (#[trigger] order@[k]) < misses@.len(),
    ensures
        ids@ == ids_at(
            misses@,
            crate::order::positions(order@).subrange(from as int, to as int),
        ),
{
    let mut ids: Vec<i32> = Vec::new();
    let mut i: usize = from;
    while i < to
        invariant
            from <= i <= to <= order@.len(),
            forall|k: int| 0 <= k < order@.len() ==> (#[trigger] order@[k]) < misses@.len(),
            ids@ == ids_at(
                misses@,
                crate::order::positions(order@).subrange(from as int, i as int),
            ),
        decreases to - i,
    {
        ids.push(misses[order[i]].0);
        i += 1;
        assert(ids@ =~= ids_at(
            misses@,
            crate::order::positions(order@).subrange(from as int, i as int),
        ));
    }
    ids
}

/// The two lanes of a plan: what fills, and what goes to the CPU.
pub open spec fn planned_split(
    misses: Seq<(i32, u64)>,
    no_hybrid: bool,
    pcie_gbs: u64,
    host_gbs: u64,
    share: int,
) -> (Seq<i32>, Seq<i32>) {
    if no_hybrid {
        (Seq::empty(), ids_at(misses, crate::order::range(misses.len() as int)))
    } else {
        let q = fill_count(misses.len() as int, pcie_gbs, host_gbs, share);
        (fill_of(misses, q), cpu_of(misses, q))
    }
}

/// Plans fill vs CPU for host-cached misses with the given bandwidths.
/// `no_hybrid` is the plain split: every host-cached miss goes to the CPU
/// lane, in input order.
pub fn plan_host_misses_with(
    misses: &[(i32, u64)],
    no_hybrid: bool,
    pcie_gbs: u64,
    host_gbs: u64,
    share: usize,
) -> (r: MissSplit)
    ensures
        no_hybrid ==> r.fill@ == Seq::<i32>::empty() && r.cpu@ == ids_at(
            misses@,
            crate::order::range(misses@.len() as int),
        ),
        !no_hybrid ==> {
            let q = fill_count(misses@.len() as int, pcie_gbs, host_gbs, share as int);
            r.fill@ == fill_of(misses@, q) && r.cpu@ == cpu_of(misses@, q)
        },
        (r.fill@, r.cpu@) == planned_split(
            misses@,
            no_hybrid,
            pcie_gbs,
            host_gbs,
            share as int,
        ),
{
    if no_hybrid {
        let mut cpu: Vec<i32> = Vec::new();
        let mut i: usize = 0;
        while i < misses.len()
            invariant
                i <= misses@.len(),
                cpu@ == ids_at(misses@, crate::order::range(i as int)),
            decreases misses@.len() - i,
        {
            cpu.push(misses[i].0);
            i += 1;
            assert(cpu@ =~= ids_at(misses@, crate::order::range(i as int)));
        }
        return MissSplit { fill: Vec::new(), cpu };
    }
    let q: usize = q_star(misses.len(), pcie_gbs, host_gbs, share);
    split_by_recency(misses, q)
}

/// The bandwidth that a setting gives.
pub open spec fn setting_or(read: Option<u64>, default: u64) -> u64 {
    match read {
        Some(bits) => if is_positive(bits) {
            bits
        } else {
            default
        },
        None => default,
    }
}

/// Whether a setting leaves the CPU lane on.
pub open spec fn steals(setting: Option<Seq<char>>) -> bool {
    !(setting matches Some(s) && (s == "0"@ || s == "off"@ || s == "false"@))
}

/// A bandwidth from a setting: the number that was read, where it is
/// positive, else the default.
pub fn bandwidth_or(read: Option<u64>, default: u64) -> (r: u64)
    ensures
        r == (match read {
            Some(bits) => if is_positive(bits) {
                bits
            } else {
                default
            },
            None => default,
        }),
        r == setting_or(read, default),
{
    match read {
        Some(bits) => if 0 < bits && bits <= INFINITY_BITS {
            bits
        } else {
            default
        },
        None => default,
    }
}

/// Whether host-cached experts, including VRAM hits, go to the CPU lane, by
/// the operator's setting. Default is on: on links slower than host DRAM the
/// overlap beats keeping hits on the GPU. `0`, `off` and `false` keep hits on
/// the GPU and enable the miss split.
pub fn cpu_steal(setting: Option<&str>) -> (r: bool)
    ensures
        r == !(setting matches Some(s) && (s@ == "0"@ || s@ == "off"@ || s@ == "false"@)),
        r == steals(
            match setting {
                Some(s) => Some(s@),
                None => None,
            },
        ),
{
    match setting {
        Some(s) => !(str_eq(s, "0") || str_eq(s, "off") || str_eq(s, "false")),
        None => true,
    }
}

pub open spec fn ticks(slots: Seq<(u64, u64)>) -> Seq<u64> {
    slots.map_values(|s: (u64, u64)| s.1)
}

/// The positions of the slots that are not in use.
pub open spec fn free_slots(slots: Seq<(u64, u64)>, in_use: Seq<u64>) -> Seq<int> {
    crate::order::range(slots.len() as int).filter(|i: int| !in_use.contains(slots[i].0))
}

/// The positions of the slots that are not in use, oldest first, equal ticks
/// by position.
pub open spec fn lru_order(slots: Seq<(u64, u64)>, in_use: Seq<u64>) -> Seq<int> {
    free_slots(slots, in_use).sort_by(crate::order::by_key(ticks(slots)))
}

fn contains_offset(in_use: &[u64], off: u64) -> (r: bool)
    ensures
        r == in_use@.contains(off),
{
    let mut i: usize = 0;
    while i < in_use.len()
        invariant
            i <= in_use@.len(),
            forall|k: int| 0 <= k < i ==> in_use@[k] != off,
        decreases in_use@.len() - i,
    {
        if in_use[i] == off {
            return true;
        }
        i += 1;
    }
    false
}

/// The slots to free: the first `need` by age, or all where they are fewer.
pub open spec fn victims_of(slots: Seq<(u64, u64)>, in_use: Seq<u64>, need: int) -> Seq<int> {
    let order = lru_order(slots, in_use);
    if need < order.len() {
        order.take(need)
    } else {
        order
    }
}

/// Least-recently-used slot indices among `slots` (offset, last tick),
/// skipping offsets in `in_use`. Returns up to `need` victims, oldest
/// first. One pass: the caller frees whole groups from these slots.
pub fn lru_victims(slots: &[(u64, u64)], in_use: &[u64], need: usize) -> (v: Vec<usize>)
    ensures
        crate::order::positions(v@) == lru_order(slots@, in_use@).take(
            if need < lru_order(slots@, in_use@).len() {
                need as int
            } else {
                lru_order(slots@, in_use@).len() as int
            },
        ),
        crate::order::positions(v@) == victims_of(slots@, in_use@, need as int),
{
    let ghost free = |i: int| !in_use@.contains(slots@[i].0);
    let mut keys: Vec<u64> = Vec::new();
    let mut cands: Vec<usize> = Vec::new();
    let mut i: usize = 0;
    proof {
        reveal(Seq::filter);
        assert(crate::order::positions(cands@) =~= crate::order::range(0).filter(free));
    }
    while i < slots.len()
        invariant
            i <= slots@.len(),
            free == (|i: int| !in_use@.contains(slots@[i].0)),
            keys@ == ticks(slots@.take(i as int)),
            crate::order::positions(cands@) == crate::order::range(i as int).filter(free),
            forall|k: int| 0 <= k < cands@.len() ==> (#[trigger] cands@[k]) < i,
        decreases slots@.len() - i,
    {
        let ghost before = cands@;
        keys.push(slots[i].1);
        assert(keys@ =~= ticks(slots@.take(i + 1)));
        if !contains_offset(in_use, slots[i].0) {
            cands.push(i);
            assert(crate::order::positions(cands@) =~= crate::order::positions(before).push(
                i as int,
            ));
        }
        proof {
            assert(crate::order::range(i + 1) =~= crate::order::range(i as int).push(i as int));
            crate::order::range(i as int).lemma_filter_push(i as int, free);
        }
        i += 1;
    }
    assert(slots@.take(slots@.len() as int) =~= slots@);
    let mut v: Vec<usize> = sort_positions(&SmallestFirst { keys }, cands);
    let ghost sorted = v@;
    v.truncate(need);
    proof {
        assert(crate::order::positions(sorted) == lru_order(slots@, in_use@));
        assert(crate::order::positions(v@) =~= lru_order(slots@, in_use@).take(v@.len() as int));
    }
    v
}

/// Where there are misses, at least one fills the GPU cache, whatever the
/// bandwidths, and never more than there are.
pub proof fn some_miss_always_fills(
    misses: Seq<(i32, u64)>,
    pcie_gbs: u64,
    host_gbs: u64,
    share: int,
)
    requires
        misses.len() > 0,
    ensures
        ({
            let q = fill_count(misses.len() as int, pcie_gbs, host_gbs, share);
            1 <= q <= misses.len() && fill_of(misses, q).len() == q
        }),
{
    split_keeps_every_miss(
        misses,
        fill_count(misses.len() as int, pcie_gbs, host_gbs, share),
    );
}

/// More misses, or a faster link, never fill fewer, their share growing with
/// them.
pub proof fn fills_never_fall(
    n1: int,
    n2: int,
    p1: u64,
    p2: u64,
    host_gbs: u64,
    s1: int,
    s2: int,
)
    requires
        0 <= n1 <= n2,
        0 < p1 <= p2 <= INFINITY_BITS,
        s1 <= s2,
    ensures
        fill_count(n1, p1, host_gbs, s1) <= fill_count(n2, p1, host_gbs, s2),
        fill_count(n1, p1, host_gbs, s1) <= fill_count(n1, p2, host_gbs, s2),
{
}

/// Every miss goes to exactly one lane.
pub proof fn split_keeps_every_miss(misses: Seq<(i32, u64)>, q: int)
    ensures
        (fill_of(misses, q) + cpu_of(misses, q)).to_multiset() == ids_at(
            misses,
            crate::order::range(misses.len() as int),
        ).to_multiset(),
        fill_of(misses, q).len() == fill_len(misses.len() as int, q),
        fill_of(misses, q).len() + cpu_of(misses, q).len() == misses.len(),
{
    let n = misses.len() as int;
    let all = crate::order::range(n);
    let leq = crate::order::by_key_desc(recencies(misses));
    lemma_by_key_total(recencies(misses));
    lemma_sorted(all, leq);
    let order = recency_order(misses);
    lemma_map_multiset(misses, order, all);
    assert(fill_of(misses, q) + cpu_of(misses, q) =~= ids_at(misses, order));
}

/// The ids at some positions do not depend on the order of the positions.
proof fn lemma_map_multiset(misses: Seq<(i32, u64)>, a: Seq<int>, b: Seq<int>)
    requires
        a.to_multiset() == b.to_multiset(),
    ensures
        ids_at(misses, a).to_multiset() == ids_at(misses, b).to_multiset(),
    decreases a.len(),
{
    broadcast use vstd::seq_lib::group_to_multiset_ensures;

    assert(a.len() == a.to_multiset().len());
    assert(b.len() == b.to_multiset().len());
    if a.len() == 0 {
        assert(a =~= b);
    } else {
        let x = a.last();
        assert(a.contains(x));
        assert(b.to_multiset().contains(x));
        let j = choose|j: int| 0 <= j < b.len() && b[j] == x;
        assert(a.remove(a.len() - 1) =~= a.drop_last());
        assert(a.drop_last().to_multiset() =~= b.remove(j).to_multiset());
        lemma_map_multiset(misses, a.drop_last(), b.remove(j));
        assert(ids_at(misses, a) =~= ids_at(misses, a.drop_last()).push(misses[x].0));
        assert(ids_at(misses, b) =~= ids_at(misses, b.remove(j)).insert(j, misses[x].0));
    }
}

/// No miss of the CPU lane is more recent than one that fills, and among
/// equally recent ones the earlier fills first. A miss that was never seen
/// therefore fills only once every seen one does.
pub proof fn fills_are_most_recent(misses: Seq<(i32, u64)>, q: int, a: int, b: int)
    requires
        0 <= a < fill_len(misses.len() as int, q) <= b < misses.len(),
    ensures
        recency_order(misses).len() == misses.len(),
        ({
            let f = recency_order(misses)[a];
            let c = recency_order(misses)[b];
            &&& 0 <= f < misses.len() && 0 <= c < misses.len()
            &&& fill_of(misses, q)[a] == misses[f].0
            &&& cpu_of(misses, q)[b - fill_len(misses.len() as int, q)] == misses[c].0
            &&& misses[f].1 > misses[c].1 || misses[f].1 == misses[c].1 && f < c
        }),
{
    let n = misses.len() as int;
    let all = crate::order::range(n);
    let leq = crate::order::by_key_desc(recencies(misses));
    lemma_by_key_total(recencies(misses));
    lemma_sorted(all, leq);
    let order = recency_order(misses);
    let f = order[a];
    let c = order[b];
    assert(order.contains(f) && order.contains(c));
    assert(all.contains(f) && all.contains(c));
    assert(leq(order[a], order[b]));
    if f == c {
        lemma_order_distinct(misses, a, b);
    }
}

proof fn lemma_order_distinct(misses: Seq<(i32, u64)>, a: int, b: int)
    requires
        0 <= a < b < misses.len(),
    ensures
        recency_order(misses)[a] != recency_order(misses)[b],
{
    broadcast use vstd::seq_lib::group_to_multiset_ensures;

    let all = crate::order::range(misses.len() as int);
    let leq = crate::order::by_key_desc(recencies(misses));
    lemma_by_key_total(recencies(misses));
    lemma_sorted(all, leq);
    let order = recency_order(misses);
    assert(all.no_duplicates());
    all.lemma_multiset_has_no_duplicates();
    order.lemma_multiset_has_no_duplicates_conv();
}

/// A victim is never in use.
pub proof fn victims_are_free(slots: Seq<(u64, u64)>, in_use: Seq<u64>, a: int)
    requires
        0 <= a < lru_order(slots, in_use).len(),
    ensures
        0 <= lru_order(slots, in_use)[a] < slots.len(),
        !in_use.contains(slots[lru_order(slots, in_use)[a]].0),
{
    let free = |i: int| !in_use.contains(slots[i].0);
    lemma_by_key_total(ticks(slots));
    lemma_sorted(free_slots(slots, in_use), crate::order::by_key(ticks(slots)));
    let v = lru_order(slots, in_use)[a];
    assert(lru_order(slots, in_use).contains(v));
    crate::order::range(slots.len() as int).lemma_filter_contains_rev(free, v);
}

/// No free slot that is spared is older than a victim.
pub proof fn victims_are_oldest(
    slots: Seq<(u64, u64)>,
    in_use: Seq<u64>,
    need: int,
    a: int,
    i: int,
)
    requires
        0 <= a < need,
        a < lru_order(slots, in_use).len(),
        0 <= i < slots.len(),
        !in_use.contains(slots[i].0),
        forall|k: int|
            0 <= k < need && k < lru_order(slots, in_use).len() ==> #[trigger] lru_order(
                slots,
                in_use,
            )[k] != i,
    ensures
        ({
            let v = lru_order(slots, in_use)[a];
            slots[v].1 < slots[i].1 || slots[v].1 == slots[i].1 && v < i
        }),
{
    let free = |i: int| !in_use.contains(slots[i].0);
    let all = crate::order::range(slots.len() as int);
    let cands = free_slots(slots, in_use);
    let leq = crate::order::by_key(ticks(slots));
    lemma_by_key_total(ticks(slots));
    lemma_sorted(cands, leq);
    let order = lru_order(slots, in_use);
    assert(all[i] == i);
    all.lemma_filter_contains(free, i);
    assert(order.contains(i));
    let b = choose|b: int| 0 <= b < order.len() && order[b] == i;
    assert(b >= need);
    assert(leq(order[a], order[b]));
    assert(order[a] != i);
    victims_are_free(slots, in_use, a);
}

/// The fill count, case by case. Bandwidths count as positive and finite with
/// bits between those of zero and those of infinity; no miss fills none; a
/// link that does not work, or a host that is not faster, fills all; and else
/// the share does, at least one and at most all.
pub proof fn fills_are_the_clamped_share(n: int, pcie: u64, host: u64, share: int)
    requires
        n >= 0,
    ensures
        fill_count(0, pcie, host, share) == 0,
        pcie == 0 || pcie >= 0x7ff0_0000_0000_0000 || host >= 0x7ff0_0000_0000_0000 || host <= pcie
            ==> fill_count(n, pcie, host, share) == n,
        0 < pcie < host < 0x7ff0_0000_0000_0000 && 1 <= share <= n ==> fill_count(
            n,
            pcie,
            host,
            share,
        ) == share,
        0 < pcie < host < 0x7ff0_0000_0000_0000 && share < 1 && n > 0 ==> fill_count(
            n,
            pcie,
            host,
            share,
        ) == 1,
        0 < pcie < host < 0x7ff0_0000_0000_0000 && share > n ==> fill_count(n, pcie, host, share)
            == n,
{
}

/// A setting counts where it is a positive number, infinity too; no setting,
/// and any other, leaves the default.
pub proof fn settings_have_to_be_positive(bits: u64, default: u64)
    ensures
        setting_or(None, default) == default,
        0 < bits <= 0x7ff0_0000_0000_0000 ==> setting_or(Some(bits), default) == bits,
        bits == 0 || bits > 0x7ff0_0000_0000_0000 ==> setting_or(Some(bits), default) == default,
{
}

/// Three settings turn the CPU lane off, and no other does.
pub proof fn three_settings_turn_it_off(s: Seq<char>)
    ensures
        steals(None),
        !steals(Some("0"@)),
        !steals(Some("off"@)),
        !steals(Some("false"@)),
        s != "0"@ && s != "off"@ && s != "false"@ ==> steals(Some(s)),
{
}

/// A split is the misses in one order, cut in two: an order of all their
/// positions, each once, by recency from the latest on and by position where
/// that is equal. The first part fills, as many as the quota says, but at
/// least one and at most all.
pub proof fn a_split_cuts_the_recency_order(misses: Seq<(i32, u64)>, q: int) -> (order: Seq<int>)
    ensures
        order.len() == misses.len(),
        forall|i: int| #[trigger] order.contains(i) <==> 0 <= i < misses.len(),
        forall|a: int, b: int|
            0 <= a < b < order.len() ==> {
                let i = #[trigger] order[a];
                let j = #[trigger] order[b];
                misses[i].1 > misses[j].1 || misses[i].1 == misses[j].1 && i < j
            },
        fill_of(misses, q).len() + cpu_of(misses, q).len() == misses.len(),
        fill_of(misses, q).len() == if q > misses.len() {
            misses.len() as int
        } else if q >= 1 {
            q
        } else if misses.len() > 0 {
            1
        } else {
            0
        },
        forall|k: int|
            0 <= k < misses.len() ==> (fill_of(misses, q) + cpu_of(misses, q))[k] == misses[
            #[trigger] order[k]].0,
{
    let n = misses.len() as int;
    let all = crate::order::range(n);
    let leq = crate::order::by_key_desc(recencies(misses));
    lemma_by_key_total(recencies(misses));
    lemma_sorted(all, leq);
    let order = recency_order(misses);
    assert forall|i: int| #[trigger] order.contains(i) <==> 0 <= i < n by {
        if 0 <= i < n {
            assert(all[i] == i);
        }
        assert(order.contains(i) <==> all.contains(i));
    }
    assert forall|a: int, b: int| 0 <= a < b < order.len() implies ({
        let i = #[trigger] order[a];
        let j = #[trigger] order[b];
        misses[i].1 > misses[j].1 || misses[i].1 == misses[j].1 && i < j
    }) by {
        let i = order[a];
        let j = order[b];
        assert(order.contains(i) && order.contains(j));
        assert(leq(i, j));
        lemma_order_distinct(misses, a, b);
    }
    split_keeps_every_miss(misses, q);
    assert(fill_of(misses, q) + cpu_of(misses, q) =~= ids_at(misses, order));
    order
}

/// The ids at some positions are the ids that stand there.
pub proof fn ids_stand_at_their_positions(misses: Seq<(i32, u64)>, i: int)
    requires
        0 <= i < misses.len(),
    ensures
        ids_at(misses, crate::order::range(misses.len() as int)).len() == misses.len(),
        ids_at(misses, crate::order::range(misses.len() as int))[i] == misses[i].0,
{
}

/// Victims come from an order of exactly the slots that are not in use, each
/// once, by their tick from the oldest on and by position where that is equal.
pub proof fn victims_come_oldest_first(
    slots: Seq<(u64, u64)>,
    in_use: Seq<u64>,
    i: int,
    a: int,
    b: int,
)
    ensures
        lru_order(slots, in_use).contains(i) <==> 0 <= i < slots.len() && !in_use.contains(
            slots[i].0,
        ),
        0 <= a < b < lru_order(slots, in_use).len() ==> {
            let x = lru_order(slots, in_use)[a];
            let y = lru_order(slots, in_use)[b];
            slots[x].1 < slots[y].1 || slots[x].1 == slots[y].1 && x < y
        },
{
    let free = |i: int| !in_use.contains(slots[i].0);
    let all = crate::order::range(slots.len() as int);
    let cands = free_slots(slots, in_use);
    let leq = crate::order::by_key(ticks(slots));
    lemma_by_key_total(ticks(slots));
    lemma_sorted(cands, leq);
    let order = lru_order(slots, in_use);
    assert(order.contains(i) <==> cands.contains(i));
    if cands.contains(i) {
        all.lemma_filter_contains_rev(free, i);
    }
    if 0 <= i < slots.len() && !in_use.contains(slots[i].0) {
        assert(all[i] == i);
        all.lemma_filter_contains(free, i);
    }
    if 0 <= a < b < order.len() {
        victims_are_free(slots, in_use, a);
        victims_are_free(slots, in_use, b);
        assert(leq(order[a], order[b]));
        crate::order::lemma_filter_distinct(slots.len() as int, free);
        cands.lemma_multiset_has_no_duplicates();
        order.lemma_multiset_has_no_duplicates_conv();
    }
}

/// A plain plan fills none and sends every miss to the CPU in input order; a
/// hybrid one splits by recency at the fill count.
pub proof fn plans_are_plain_or_split(
    misses: Seq<(i32, u64)>,
    pcie_gbs: u64,
    host_gbs: u64,
    share: int,
    i: int,
)
    ensures
        planned_split(misses, true, pcie_gbs, host_gbs, share).0.len() == 0,
        planned_split(misses, true, pcie_gbs, host_gbs, share).1.len() == misses.len(),
        0 <= i < misses.len() ==> planned_split(misses, true, pcie_gbs, host_gbs, share).1[i]
            == misses[i].0,
        ({
            let q = fill_count(misses.len() as int, pcie_gbs, host_gbs, share);
            planned_split(misses, false, pcie_gbs, host_gbs, share) == (
                fill_of(misses, q),
                cpu_of(misses, q),
            )
        }),
{
}

/// As many slots are freed as are needed, or all that are free, and they are
/// the first of the order by age.
pub proof fn as_many_victims_as_needed(
    slots: Seq<(u64, u64)>,
    in_use: Seq<u64>,
    need: int,
    k: int,
)
    requires
        need >= 0,
    ensures
        victims_of(slots, in_use, need).len() == if need < lru_order(slots, in_use).len() {
            need
        } else {
            lru_order(slots, in_use).len() as int
        },
        0 <= k < victims_of(slots, in_use, need).len() ==> victims_of(slots, in_use, need)[k]
            == lru_order(slots, in_use)[k],
{
}

} // verus!
