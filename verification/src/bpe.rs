//! Byte-pair merging: which neighbouring symbols join, and in what order.

use vstd::hash_map::StringHashMap;
use vstd::prelude::*;

verus! {

pub open spec fn lookup(m: Map<Seq<char>, u32>, k: Seq<char>) -> Option<u32> {
    if m.contains_key(k) {
        Some(m[k])
    } else {
        None
    }
}

/// Strings as the character sequences that they hold.
pub open spec fn string_views(v: Seq<String>) -> Seq<Seq<char>> {
    v.map_values(|s: String| s@)
}

/// The numbering of a list of strings: each under its position, the last
/// position where it occurs more than once.
pub open spec fn numbering(list: Seq<Seq<char>>) -> Map<Seq<char>, u32>
    decreases list.len(),
{
    if list.len() == 0 {
        Map::empty()
    } else {
        numbering(list.drop_last()).insert(list.last(), (list.len() - 1) as u32)
    }
}

/// The rank of the merge of two symbols; a merge is named by the two with a
/// space between.
pub open spec fn pair_rank(ranks: Map<Seq<char>, u32>, a: Seq<char>, b: Seq<char>) -> Option<u32> {
    lookup(ranks, a.push(' ') + b)
}

pub open spec fn rank_at(
    ranks: Map<Seq<char>, u32>,
    sym: Seq<Seq<char>>,
    i: int,
) -> Option<u32> {
    pair_rank(ranks, sym[i], sym[i + 1])
}

/// Whether the symbols at `i` and `i + 1` are the next to merge: no pair has
/// a lower rank, and none to the left has the same.
pub open spec fn is_next_merge(ranks: Map<Seq<char>, u32>, sym: Seq<Seq<char>>, i: int) -> bool {
    &&& 0 <= i < sym.len() - 1
    &&& rank_at(ranks, sym, i) is Some
    &&& forall|j: int|
        0 <= j < sym.len() - 1 && (#[trigger] rank_at(ranks, sym, j)) is Some ==> {
            ||| rank_at(ranks, sym, i)->0 < rank_at(ranks, sym, j)->0
            ||| rank_at(ranks, sym, i)->0 == rank_at(ranks, sym, j)->0 && i <= j
        }
}

/// The symbols with those at `i` and `i + 1` joined.
pub open spec fn merge_at(sym: Seq<Seq<char>>, i: int) -> Seq<Seq<char>> {
    sym.update(i, sym[i] + sym[i + 1]).remove(i + 1)
}

/// The symbols that remain once no pair of neighbours has a rank.
pub open spec fn merged(ranks: Map<Seq<char>, u32>, sym: Seq<Seq<char>>) -> Seq<Seq<char>>
    decreases sym.len(),
{
    if exists|i: int| is_next_merge(ranks, sym, i) {
        merged(ranks, merge_at(sym, choose|i: int| is_next_merge(ranks, sym, i)))
    } else {
        sym
    }
}

proof fn lemma_next_merge_unique(ranks: Map<Seq<char>, u32>, sym: Seq<Seq<char>>, i: int, j: int)
    requires
        is_next_merge(ranks, sym, i),
        is_next_merge(ranks, sym, j),
    ensures
        i == j,
{
    assert(rank_at(ranks, sym, i) is Some && rank_at(ranks, sym, j) is Some);
}

proof fn lemma_merge_at_flatten(sym: Seq<Seq<char>>, i: int)
    requires
        0 <= i < sym.len() - 1,
    ensures
        merge_at(sym, i).flatten() == sym.flatten(),
    decreases i,
{
    let m = merge_at(sym, i);
    if i == 0 {
        assert(m.first() == sym[0] + sym[1]);
        assert(m.drop_first() =~= sym.drop_first().drop_first());
        assert(sym.drop_first().first() == sym[1]);
        reveal_with_fuel(Seq::<_>::flatten, 3);
        assert(m.flatten() =~= sym.flatten());
    } else {
        lemma_merge_at_flatten(sym.drop_first(), i - 1);
        assert(m.first() == sym.first());
        assert(m.drop_first() =~= merge_at(sym.drop_first(), i - 1));
    }
}

/// Merging only joins: the symbols spell the same text before and after.
pub proof fn merged_spells_the_same(ranks: Map<Seq<char>, u32>, sym: Seq<Seq<char>>)
    ensures
        merged(ranks, sym).flatten() == sym.flatten(),
    decreases sym.len(),
{
    if exists|i: int| is_next_merge(ranks, sym, i) {
        let i = choose|i: int| is_next_merge(ranks, sym, i);
        lemma_merge_at_flatten(sym, i);
        merged_spells_the_same(ranks, merge_at(sym, i));
    }
}

/// Among finitely many pairs of which one has a rank, one is next to merge.
proof fn lemma_next_merge_exists(
    ranks: Map<Seq<char>, u32>,
    sym: Seq<Seq<char>>,
    n: int,
) -> (best: Option<int>)
    requires
        n <= sym.len() - 1,
    ensures
        match best {
            Some(i) => {
                &&& 0 <= i < n
                &&& rank_at(ranks, sym, i) is Some
                &&& forall|j: int|
                    0 <= j < n && (#[trigger] rank_at(ranks, sym, j)) is Some ==> {
                        ||| rank_at(ranks, sym, i)->0 < rank_at(ranks, sym, j)->0
                        ||| rank_at(ranks, sym, i)->0 == rank_at(ranks, sym, j)->0 && i <= j
                    }
            },
            None => forall|j: int| 0 <= j < n ==> (#[trigger] rank_at(ranks, sym, j)) is None,
        },
    decreases n,
{
    if n <= 0 {
        None
    } else {
        let prev = lemma_next_merge_exists(ranks, sym, n - 1);
        match (prev, rank_at(ranks, sym, n - 1)) {
            (None, Some(_)) => Some(n - 1),
            (Some(i), Some(r)) => if r < rank_at(ranks, sym, i)->0 {
                Some(n - 1)
            } else {
                Some(i)
            },
            (_, None) => prev,
        }
    }
}

/// Merging stops only where nothing is left to merge.
pub proof fn merged_is_final(ranks: Map<Seq<char>, u32>, sym: Seq<Seq<char>>)
    ensures
        forall|j: int|
            0 <= j < merged(ranks, sym).len() - 1 ==> (#[trigger] rank_at(
                ranks,
                merged(ranks, sym),
                j,
            )) is None,
    decreases sym.len(),
{
    if exists|i: int| is_next_merge(ranks, sym, i) {
        let i = choose|i: int| is_next_merge(ranks, sym, i);
        merged_is_final(ranks, merge_at(sym, i));
    } else {
        let best = lemma_next_merge_exists(ranks, sym, sym.len() - 1);
        if best is Some {
            assert(is_next_merge(ranks, sym, best->0));
        }
    }
}

/// The position of the next merge.
fn next_merge(ranks: &StringHashMap<u32>, sym: &Vec<String>) -> (best: Option<usize>)
    ensures
        match best {
            Some(i) => is_next_merge(ranks@, string_views(sym@), i as int),
            None => forall|i: int| !is_next_merge(ranks@, string_views(sym@), i),
        },
{
    let ghost view = string_views(sym@);
    let mut best: Option<(usize, u32)> = None;
    let mut i: usize = 0;
    while sym.len() - i > 1
        invariant
            view == string_views(sym@),
            i <= sym@.len(),
            sym@.len() > 0 ==> i < sym@.len(),
            match best {
                Some((k, r)) => {
                    &&& k < i
                    &&& rank_at(ranks@, view, k as int) == Some(r)
                    &&& forall|j: int|
                        0 <= j < i && (#[trigger] rank_at(ranks@, view, j)) is Some ==> {
                            ||| r < rank_at(ranks@, view, j)->0
                            ||| r == rank_at(ranks@, view, j)->0 && k <= j
                        }
                },
                None => forall|j: int|
                    0 <= j < i ==> (#[trigger] rank_at(ranks@, view, j)) is None,
            },
        decreases sym@.len() - i,
    {
        let mut key: String = String::new();
        key.append(sym[i].as_str());
        key.push(' ');
        key.append(sym[i + 1].as_str());
        assert(key@ =~= view[i as int].push(' ') + view[i + 1]);
        match ranks.get(key.as_str()) {
            Some(rank) => {
                assert(rank_at(ranks@, view, i as int) == Some(*rank));
                match best {
                    Some((_, r)) => {
                        if *rank < r {
                            best = Some((i, *rank));
                        }
                    },
                    None => {
                        best = Some((i, *rank));
                    },
                }
            },
            None => {
                assert(rank_at(ranks@, view, i as int) is None);
            },
        }
        i += 1;
    }
    match best {
        Some((k, _)) => Some(k),
        None => None,
    }
}

/// Merges symbols until no pair of neighbours has a rank.
pub fn merge_symbols(ranks: &StringHashMap<u32>, start: Vec<String>) -> (sym: Vec<String>)
    ensures
        string_views(sym@) == merged(ranks@, string_views(start@)),
{
    let mut sym: Vec<String> = start;
    loop
        invariant
            merged(ranks@, string_views(sym@)) == merged(ranks@, string_views(start@)),
        ensures
            string_views(sym@) == merged(ranks@, string_views(start@)),
        decreases sym@.len(),
    {
        let ghost view = string_views(sym@);
        match next_merge(ranks, &sym) {
            None => {
                break;
            },
            Some(i) => {
                assert(i + 1 < view.len() && view.len() == sym.len());
                let right: String = sym.remove(i + 1);
                let mut left: String = sym.remove(i);
                left.append(right.as_str());
                sym.insert(i, left);
                proof {
                    assert(string_views(sym@) =~= merge_at(view, i as int));
                    lemma_next_merge_unique(
                        ranks@,
                        view,
                        i as int,
                        choose|k: int| is_next_merge(ranks@, view, k),
                    );
                }
            },
        }
    }
    sym
}

/// Once merged, no two neighbours have their pair in the merge table.
pub proof fn no_pair_is_left(ranks: Map<Seq<char>, u32>, sym: Seq<Seq<char>>, j: int)
    requires
        0 <= j < merged(ranks, sym).len() - 1,
    ensures
        !ranks.contains_key(merged(ranks, sym)[j].push(' ') + merged(ranks, sym)[j + 1]),
{
    merged_is_final(ranks, sym);
    assert(rank_at(ranks, merged(ranks, sym), j) is None);
}

/// Where no two neighbours have their pair in the merge table, nothing
/// changes.
pub proof fn nothing_to_merge(ranks: Map<Seq<char>, u32>, sym: Seq<Seq<char>>)
    requires
        forall|j: int|
            0 <= j < sym.len() - 1 ==> !ranks.contains_key(#[trigger] sym[j].push(' ') + sym[j + 1]),
    ensures
        merged(ranks, sym) == sym,
{
    if exists|i: int| is_next_merge(ranks, sym, i) {
        let i = choose|i: int| is_next_merge(ranks, sym, i);
        assert(!ranks.contains_key(sym[i].push(' ') + sym[i + 1]));
    }
}

/// The pair of neighbours with the lowest rank in the merge table joins first,
/// the leftmost of them, and merging goes on with the two as one.
pub proof fn lowest_rank_joins_first(ranks: Map<Seq<char>, u32>, sym: Seq<Seq<char>>, i: int)
    requires
        0 <= i < sym.len() - 1,
        ranks.contains_key(sym[i].push(' ') + sym[i + 1]),
        forall|j: int|
            0 <= j < sym.len() - 1 && ranks.contains_key(#[trigger] sym[j].push(' ') + sym[j + 1])
                ==> {
                let here = ranks[sym[i].push(' ') + sym[i + 1]];
                let there = ranks[sym[j].push(' ') + sym[j + 1]];
                here < there || here == there && i <= j
            },
    ensures
        merged(ranks, sym) == merged(
            ranks,
            sym.take(i) + seq![sym[i] + sym[i + 1]] + sym.skip(i + 2),
        ),
{
    assert(is_next_merge(ranks, sym, i)) by {
        assert forall|j: int|
            0 <= j < sym.len() - 1 && (#[trigger] rank_at(ranks, sym, j)) is Some implies {
            ||| rank_at(ranks, sym, i)->0 < rank_at(ranks, sym, j)->0
            ||| rank_at(ranks, sym, i)->0 == rank_at(ranks, sym, j)->0 && i <= j
        } by {
            assert(ranks.contains_key(sym[j].push(' ') + sym[j + 1]));
        }
    }
    lemma_next_merge_unique(ranks, sym, i, choose|k: int| is_next_merge(ranks, sym, k));
    assert(merge_at(sym, i) =~= sym.take(i) + seq![sym[i] + sym[i + 1]] + sym.skip(i + 2));
}

/// A list of at most 2^32 strings numbers exactly its own strings, each by a
/// place where it stands, and by no earlier one than any other.
pub proof fn numbering_names_the_last_place(list: Seq<Seq<char>>, s: Seq<char>)
    requires
        list.len() <= 0x1_0000_0000,
    ensures
        numbering(list).contains_key(s) <==> list.contains(s),
        list.contains(s) ==> (numbering(list)[s] as int) < list.len()
            && list[numbering(list)[s] as int] == s,
        forall|i: int| 0 <= i < list.len() && #[trigger] list[i] == s ==> i <= numbering(list)[s],
    decreases list.len(),
{
    if list.len() > 0 {
        let rest = list.drop_last();
        numbering_names_the_last_place(rest, s);
        if list.last() == s {
            assert(list[list.len() - 1] == s);
        } else {
            if list.contains(s) {
                let i = choose|i: int| 0 <= i < list.len() && list[i] == s;
                assert(rest[i] == s);
            }
            if rest.contains(s) {
                let i = choose|i: int| 0 <= i < rest.len() && rest[i] == s;
                assert(list[i] == s);
            }
            assert forall|i: int| 0 <= i < list.len() && #[trigger] list[i] == s implies i
                <= numbering(list)[s] by {
                assert(rest[i] == s);
            }
        }
    }
}

/// Strings are their characters, one by one.
pub proof fn strings_are_their_characters(v: Seq<String>, i: int)
    ensures
        string_views(v).len() == v.len(),
        0 <= i < v.len() ==> string_views(v)[i] == v[i]@,
{
}

/// A key is looked up as it stands in the map.
pub proof fn a_key_is_looked_up(m: Map<Seq<char>, u32>, k: Seq<char>)
    ensures
        m.contains_key(k) ==> lookup(m, k) == Some(m[k]),
        !m.contains_key(k) ==> lookup(m, k) is None,
{
}

} // verus!
