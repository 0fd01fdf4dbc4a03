//! Sorting positions by what stands at them.

use vstd::prelude::*;
use vstd::relations::*;

verus! {

/// Positions as numbers.
pub open spec fn positions(v: Seq<usize>) -> Seq<int> {
    v.map_values(|i: usize| i as int)
}

/// The positions `0..n`.
pub open spec fn range(n: int) -> Seq<int> {
    Seq::new(n as nat, |i: int| i)
}

/// A total order on the positions of something.
pub trait PositionOrder {
    /// How many positions there are.
    spec fn size(&self) -> int;

    spec fn leq(&self) -> spec_fn(int, int) -> bool;

    proof fn lemma_total(&self)
        ensures
            total_ordering(self.leq()),
    ;

    fn le(&self, i: usize, j: usize) -> (r: bool)
        requires
            i < self.size(),
            j < self.size(),
        ensures
            r == (self.leq())(i as int, j as int),
    ;
}

/// The order by a key, equal keys in the order of their positions.
pub open spec fn by_key(keys: Seq<u64>) -> spec_fn(int, int) -> bool {
    |i: int, j: int| keys[i] < keys[j] || keys[i] == keys[j] && i <= j
}

/// The order by a key, largest first, equal keys in the order of their
/// positions.
pub open spec fn by_key_desc(keys: Seq<u64>) -> spec_fn(int, int) -> bool {
    |i: int, j: int| keys[i] > keys[j] || keys[i] == keys[j] && i <= j
}

/// Positions of keys, smallest key first.
pub struct SmallestFirst {
    pub keys: Vec<u64>,
}

impl PositionOrder for SmallestFirst {
    open spec fn size(&self) -> int {
        self.keys@.len() as int
    }

    open spec fn leq(&self) -> spec_fn(int, int) -> bool {
        by_key(self.keys@)
    }

    proof fn lemma_total(&self) {
    }

    fn le(&self, i: usize, j: usize) -> (r: bool) {
        self.keys[i] < self.keys[j] || (self.keys[i] == self.keys[j] && i <= j)
    }
}

/// Positions of keys, largest key first.
pub struct LargestFirst {
    pub keys: Vec<u64>,
}

impl PositionOrder for LargestFirst {
    open spec fn size(&self) -> int {
        self.keys@.len() as int
    }

    open spec fn leq(&self) -> spec_fn(int, int) -> bool {
        by_key_desc(self.keys@)
    }

    proof fn lemma_total(&self) {
    }

    fn le(&self, i: usize, j: usize) -> (r: bool) {
        self.keys[i] > self.keys[j] || (self.keys[i] == self.keys[j] && i <= j)
    }
}

/// The lexicographic order of byte strings.
pub open spec fn lex_le(a: Seq<u8>, b: Seq<u8>) -> bool
    decreases a.len(),
{
    if a.len() == 0 {
        true
    } else if b.len() == 0 {
        false
    } else if a[0] != b[0] {
        a[0] < b[0]
    } else {
        lex_le(a.drop_first(), b.drop_first())
    }
}

proof fn lemma_lex_reflexive(a: Seq<u8>)
    ensures
        lex_le(a, a),
    decreases a.len(),
{
    if a.len() > 0 {
        lemma_lex_reflexive(a.drop_first());
    }
}

proof fn lemma_lex_antisymmetric(a: Seq<u8>, b: Seq<u8>)
    requires
        lex_le(a, b),
        lex_le(b, a),
    ensures
        a == b,
    decreases a.len(),
{
    if a.len() > 0 && b.len() > 0 {
        lemma_lex_antisymmetric(a.drop_first(), b.drop_first());
        assert(a =~= seq![a[0]] + a.drop_first());
        assert(b =~= seq![b[0]] + b.drop_first());
    } else {
        assert(a =~= b);
    }
}

proof fn lemma_lex_transitive(a: Seq<u8>, b: Seq<u8>, c: Seq<u8>)
    requires
        lex_le(a, b),
        lex_le(b, c),
    ensures
        lex_le(a, c),
    decreases a.len(),
{
    if a.len() > 0 && b.len() > 0 && c.len() > 0 && a[0] == b[0] && b[0] == c[0] {
        lemma_lex_transitive(a.drop_first(), b.drop_first(), c.drop_first());
    }
}

proof fn lemma_lex_connected(a: Seq<u8>, b: Seq<u8>)
    ensures
        lex_le(a, b) || lex_le(b, a),
    decreases a.len(),
{
    if a.len() > 0 && b.len() > 0 && a[0] == b[0] {
        lemma_lex_connected(a.drop_first(), b.drop_first());
    }
}

/// The lexicographic order is a total order.
pub proof fn lex_is_total(a: Seq<u8>, b: Seq<u8>, c: Seq<u8>)
    ensures
        lex_le(a, a),
        lex_le(a, b) || lex_le(b, a),
        lex_le(a, b) && lex_le(b, a) ==> a == b,
        lex_le(a, b) && lex_le(b, c) ==> lex_le(a, c),
{
    lemma_lex_reflexive(a);
    lemma_lex_connected(a, b);
    if lex_le(a, b) && lex_le(b, a) {
        lemma_lex_antisymmetric(a, b);
    }
    if lex_le(a, b) && lex_le(b, c) {
        lemma_lex_transitive(a, b, c);
    }
}

/// Whether one byte string is not behind another.
pub fn bytes_le(a: &[u8], b: &[u8]) -> (r: bool)
    ensures
        r == lex_le(a@, b@),
{
    let mut i: usize = 0;
    assert(a@.skip(0) =~= a@ && b@.skip(0) =~= b@);
    while i < a.len()
        invariant
            i <= a@.len(),
            i <= b@.len(),
            lex_le(a@, b@) == lex_le(a@.skip(i as int), b@.skip(i as int)),
        decreases a@.len() - i,
    {
        if i >= b.len() {
            return false;
        }
        assert(a@.skip(i as int)[0] == a@[i as int] && b@.skip(i as int)[0] == b@[i as int]);
        if a[i] != b[i] {
            return a[i] < b[i];
        }
        assert(a@.skip(i as int).drop_first() =~= a@.skip(i + 1));
        assert(b@.skip(i as int).drop_first() =~= b@.skip(i + 1));
        i += 1;
    }
    true
}

/// Merges two sorted runs.
fn merge<O: PositionOrder>(o: &O, a: &Vec<usize>, b: &Vec<usize>) -> (r: Vec<usize>)
    requires
        forall|k: int| 0 <= k < a@.len() ==> (#[trigger] a@[k]) < o.size(),
        forall|k: int| 0 <= k < b@.len() ==> (#[trigger] b@[k]) < o.size(),
        sorted_by(positions(a@), o.leq()),
        sorted_by(positions(b@), o.leq()),
    ensures
        forall|k: int| 0 <= k < r@.len() ==> (#[trigger] r@[k]) < o.size(),
        sorted_by(positions(r@), o.leq()),
        positions(r@).to_multiset() == (positions(a@) + positions(b@)).to_multiset(),
{
    broadcast use vstd::seq_lib::group_to_multiset_ensures;

    let ghost leq = o.leq();
    proof {
        o.lemma_total();
    }
    let mut r: Vec<usize> = Vec::new();
    let mut i: usize = 0;
    let mut j: usize = 0;
    assert(positions(a@.take(0)) + positions(b@.take(0)) =~= positions(r@));
    while i < a.len() || j < b.len()
        invariant
            i <= a@.len(),
            j <= b@.len(),
            leq == o.leq(),
            total_ordering(leq),
            forall|k: int| 0 <= k < a@.len() ==> (#[trigger] a@[k]) < o.size(),
            forall|k: int| 0 <= k < b@.len() ==> (#[trigger] b@[k]) < o.size(),
            sorted_by(positions(a@), leq),
            sorted_by(positions(b@), leq),
            forall|k: int| 0 <= k < r@.len() ==> (#[trigger] r@[k]) < o.size(),
            sorted_by(positions(r@), leq),
            forall|k: int, m: int|
                0 <= k < r@.len() && i <= m < a@.len() ==> leq(
                    #[trigger] positions(r@)[k],
                    #[trigger] positions(a@)[m],
                ),
            forall|k: int, m: int|
                0 <= k < r@.len() && j <= m < b@.len() ==> leq(
                    #[trigger] positions(r@)[k],
                    #[trigger] positions(b@)[m],
                ),
            positions(r@).to_multiset() == (positions(a@.take(i as int)) + positions(
                b@.take(j as int),
            )).to_multiset(),
        decreases a@.len() - i + b@.len() - j,
    {
        let from_a: bool = if i >= a.len() {
            false
        } else if j >= b.len() {
            true
        } else {
            o.le(a[i], b[j])
        };
        let ghost before = r@;
        let ghost pa = positions(a@);
        let ghost pb = positions(b@);
        if from_a {
            r.push(a[i]);
            proof {
                let x = pa[i as int];
                assert(positions(r@) =~= positions(before).push(x));
                if j < b@.len() {
                    assert(leq(x, pb[j as int]));
                }
                assert forall|m: int| j <= m < b@.len() implies leq(x, #[trigger] pb[m]) by {
                    if m > j {
                        assert(leq(pb[j as int], pb[m]));
                    }
                }
                assert forall|m: int| i < m < a@.len() implies leq(x, #[trigger] pa[m]) by {}
                assert(positions(a@.take(i + 1)) + positions(b@.take(j as int)) =~= (positions(
                    a@.take(i as int),
                ) + positions(b@.take(j as int))).insert(i as int, x));
                vstd::seq_lib::to_multiset_build(positions(before), x);
                vstd::seq_lib::to_multiset_insert(
                    positions(a@.take(i as int)) + positions(b@.take(j as int)),
                    i as int,
                    x,
                );
            }
            i += 1;
        } else {
            r.push(b[j]);
            proof {
                let x = pb[j as int];
                assert(positions(r@) =~= positions(before).push(x));
                if i < a@.len() {
                    assert(leq(x, pa[i as int]));
                }
                assert forall|m: int| i <= m < a@.len() implies leq(x, #[trigger] pa[m]) by {
                    if m > i {
                        assert(leq(pa[i as int], pa[m]));
                    }
                }
                assert forall|m: int| j < m < b@.len() implies leq(x, #[trigger] pb[m]) by {}
                assert(positions(a@.take(i as int)) + positions(b@.take(j + 1)) =~= (positions(
                    a@.take(i as int),
                ) + positions(b@.take(j as int))).push(x));
                vstd::seq_lib::to_multiset_build(positions(before), x);
                vstd::seq_lib::to_multiset_build(
                    positions(a@.take(i as int)) + positions(b@.take(j as int)),
                    x,
                );
            }
            j += 1;
        }
    }
    assert(a@.take(a@.len() as int) =~= a@);
    assert(b@.take(b@.len() as int) =~= b@);
    r
}

/// Sorts distinct positions.
fn merge_sort<O: PositionOrder>(o: &O, v: Vec<usize>) -> (r: Vec<usize>)
    requires
        forall|k: int| 0 <= k < v@.len() ==> (#[trigger] v@[k]) < o.size(),
    ensures
        forall|k: int| 0 <= k < r@.len() ==> (#[trigger] r@[k]) < o.size(),
        sorted_by(positions(r@), o.leq()),
        positions(r@).to_multiset() == positions(v@).to_multiset(),
    decreases v@.len(),
{
    if v.len() < 2 {
        return v;
    }
    let mut left: Vec<usize> = v;
    let mid: usize = left.len() / 2;
    let ghost whole = left@;
    let right: Vec<usize> = left.split_off(mid);
    proof {
        assert(positions(whole) =~= positions(left@) + positions(right@));
        assert forall|k: int| 0 <= k < left@.len() implies (#[trigger] left@[k]) < o.size() by {
            assert(left@[k] == whole[k]);
        }
        assert forall|k: int| 0 <= k < right@.len() implies (#[trigger] right@[k]) < o.size() by {
            assert(right@[k] == whole[k + mid]);
        }
    }
    let a: Vec<usize> = merge_sort(o, left);
    let b: Vec<usize> = merge_sort(o, right);
    proof {
        vstd::seq_lib::lemma_multiset_commutative(positions(a@), positions(b@));
        vstd::seq_lib::lemma_multiset_commutative(positions(left@), positions(right@));
    }
    merge(o, &a, &b)
}

/// Sorts positions.
pub fn sort_positions<O: PositionOrder>(o: &O, v: Vec<usize>) -> (r: Vec<usize>)
    requires
        forall|k: int| 0 <= k < v@.len() ==> (#[trigger] v@[k]) < o.size(),
    ensures
        positions(r@) == positions(v@).sort_by(o.leq()),
        forall|k: int| 0 <= k < r@.len() ==> (#[trigger] r@[k]) < o.size(),
        r@.len() == v@.len(),
{
    let ghost start = positions(v@);
    let r: Vec<usize> = merge_sort(o, v);
    proof {
        broadcast use vstd::seq_lib::group_to_multiset_ensures;

        o.lemma_total();
        start.lemma_sort_by_ensures(o.leq());
        vstd::seq_lib::lemma_sorted_unique(positions(r@), start.sort_by(o.leq()), o.leq());
        assert(positions(r@).len() == positions(r@).to_multiset().len());
        assert(start.len() == start.to_multiset().len());
    }
    r
}

/// One byte string comes before another exactly if it starts it, or has the
/// smaller byte at the first place where they differ.
pub proof fn the_first_difference_decides(a: Seq<u8>, b: Seq<u8>, k: int)
    requires
        0 <= k <= a.len(),
        k <= b.len(),
        forall|i: int| 0 <= i < k ==> a[i] == b[i],
        k < a.len() && k < b.len() ==> a[k] != b[k],
    ensures
        lex_le(a, b) <==> k == a.len() || k < b.len() && a[k] < b[k],
    decreases k,
{
    if k > 0 {
        let x = a.drop_first();
        let y = b.drop_first();
        assert forall|i: int| 0 <= i < k - 1 implies x[i] == y[i] by {
            assert(a[i + 1] == b[i + 1]);
        }
        assert(a[0] == b[0]);
        if k < a.len() && k < b.len() {
            assert(x[k - 1] == a[k] && y[k - 1] == b[k]);
        }
        the_first_difference_decides(x, y, k - 1);
    }
}

/// Positions are compared by their keys, and by themselves where the keys are
/// equal.
pub proof fn keys_decide_then_places(keys: Seq<u64>, i: int, j: int)
    ensures
        keys[i] < keys[j] ==> by_key(keys)(i, j) && !by_key(keys)(j, i) && by_key_desc(keys)(j, i)
            && !by_key_desc(keys)(i, j),
        keys[i] == keys[j] && i <= j ==> by_key(keys)(i, j) && by_key_desc(keys)(i, j),
        keys[i] == keys[j] && i < j ==> !by_key(keys)(j, i) && !by_key_desc(keys)(j, i),
{
}

/// The positions of a list are its numbers, and a range counts up from 0.
pub proof fn positions_are_numbers(v: Seq<usize>, n: int, i: int)
    requires
        n >= 0,
    ensures
        positions(v).len() == v.len(),
        0 <= i < v.len() ==> positions(v)[i] == v[i],
        range(n).len() == n,
        0 <= i < n ==> range(n)[i] == i,
{
}

/// What is kept of a range is kept once.
pub proof fn lemma_filter_distinct(n: int, keep: spec_fn(int) -> bool)
    requires
        n >= 0,
    ensures
        range(n).filter(keep).no_duplicates(),
    decreases n,
{
    reveal(Seq::filter);
    if n > 0 {
        let below = range(n - 1);
        lemma_filter_distinct(n - 1, keep);
        assert(range(n) =~= below.push(n - 1));
        below.lemma_filter_push(n - 1, keep);
        assert forall|k: int| 0 <= k < below.filter(keep).len() implies #[trigger] below.filter(
            keep,
        )[k] < n - 1 by {
            assert(below.filter(keep).contains(below.filter(keep)[k]));
            below.lemma_filter_contains_rev(keep, below.filter(keep)[k]);
        }
    }
}

} // verus!
