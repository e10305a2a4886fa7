//! Grouping of items by key with a counting sort.
//!
//! Item `i` of a population of `n` items has the key `keys[i]`, a number
//! below `n`. The items are laid out in one array so that those with the
//! same key are contiguous, and a table of offsets says where each key's run
//! begins. Both are built in three linear passes: count, prefix sum, scatter.

use vstd::prelude::*;

verus! {

/// The indices below `upto` at which `s` holds `v`, in ascending order.
pub open spec fn positions<T>(s: Seq<T>, v: T, upto: int) -> Seq<usize>
    decreases upto,
{
    if upto <= 0 {
        Seq::empty()
    } else if s[upto - 1] == v {
        positions(s, v, upto - 1).push((upto - 1) as usize)
    } else {
        positions(s, v, upto - 1)
    }
}

/// The number of indices below `upto` whose key is less than `b`.
pub open spec fn count_below(keys: Seq<usize>, b: int, upto: int) -> nat
    decreases upto,
{
    if upto <= 0 {
        0
    } else if keys[upto - 1] < b {
        count_below(keys, b, upto - 1) + 1
    } else {
        count_below(keys, b, upto - 1)
    }
}

/// The slot of item `j` in the grouped layout: behind every item with a
/// smaller key, and behind the earlier items with the same key.
pub open spec fn slot_of(keys: Seq<usize>, j: int) -> int {
    (count_below(keys, keys[j] as int, keys.len() as int) + positions(keys, keys[j], j).len()) as int
}

/// `offsets` and `order` are the grouped layout of `keys`: the run of key
/// `b` starts at `offsets[b]`, ends before `offsets[b + 1]`, and lists the
/// items with that key in ascending order.
pub open spec fn grouped(keys: Seq<usize>, offsets: Seq<usize>, order: Seq<usize>) -> bool {
    &&& offsets.len() == keys.len() + 1
    &&& order.len() == keys.len()
    &&& forall|b: int|
        0 <= b <= keys.len() ==> #[trigger] offsets[b] == count_below(keys, b, keys.len() as int)
    &&& forall|b: usize|
        b < keys.len() ==> order.subrange(offsets[b as int] as int, offsets[b + 1] as int)
            == #[trigger] positions(keys, b, keys.len() as int)
}

/// A vector of `len` zeros.
fn zeros(len: usize) -> (v: Vec<usize>)
    ensures
        v@.len() == len,
        forall|i: int| 0 <= i < len ==> v@[i] == 0,
{
    let mut v: Vec<usize> = Vec::new();
    let mut i: usize = 0;
    while i < len
        invariant
            i <= len,
            v@.len() == i,
            forall|k: int| 0 <= k < i ==> v@[k] == 0,
        decreases len - i,
    {
        v.push(0);
        i += 1;
    }
    v
}

/// Counts the items of each key: entry `b` of the result is the number of
/// items whose key is `b`. The table has one entry more than there are
/// items; no item has the last key, so that entry is zero.
fn count_keys(keys: &Vec<usize>) -> (counts: Vec<usize>)
    requires
        forall|i: int| 0 <= i < keys@.len() ==> keys@[i] < keys@.len(),
    ensures
        counts@.len() == keys@.len() + 1,
        forall|b: usize|
            b <= keys@.len() ==> counts@[b as int] == (#[trigger] positions(
                keys@,
                b,
                keys@.len() as int,
            )).len(),
{
    let n = keys.len();
    let mut counts = zeros(n);
    counts.push(0);
    let mut i: usize = 0;
    while i < n
        invariant
            n == keys@.len(),
            i <= n,
            counts@.len() == n + 1,
            forall|k: int| 0 <= k < n ==> keys@[k] < n,
            forall|b: usize|
                b <= n ==> counts@[b as int] == (#[trigger] positions(keys@, b, i as int)).len(),
        decreases n - i,
    {
        let b = keys[i];
        proof {
            lemma_positions_len(keys@, b, i as int);
        }
        let c = counts[b];
        counts.set(b, c + 1);
        proof {
            assert forall|k: usize| k <= n implies counts@[k as int] == (#[trigger] positions(
                keys@,
                k,
                i + 1,
            )).len() by {
                assert(positions(keys@, k, i as int).len() >= 0);
            }
        }
        i += 1;
    }
    counts
}

/// Groups the items `0..keys.len()` by key.
///
/// Returns the offsets table and the item order. The table has one entry
/// for every key and one more at the end; the items with key `b` stand in
/// `order[offsets[b]..offsets[b + 1]]`, in ascending order. Every item
/// stands in the order exactly once, at `slot_of(keys, item)`.
pub fn group_by_key(keys: &Vec<usize>) -> (r: (Vec<usize>, Vec<usize>))
    requires
        forall|i: int| 0 <= i < keys@.len() ==> keys@[i] < keys@.len(),
    ensures
        grouped(keys@, r.0@, r.1@),
        forall|j: int| 0 <= j < keys@.len() ==> r.1@[#[trigger] slot_of(keys@, j)] == j,
{
    let n = keys.len();
    let ghost ks = keys@;
    let mut table = count_keys(keys);

    // Running sums turn each count into the end of its key's run.
    proof {
        lemma_count_below_bounds(ks, 0, n as int);
        lemma_count_below_step(ks, 0, n as int);
    }
    let mut b: usize = 1;
    while b < table.len()
        invariant
            n == ks.len(),
            1 <= b <= n + 1,
            table@.len() == n + 1,
            forall|k: usize| k < b ==> table@[k as int] == count_below(ks, k + 1, n as int),
            forall|k: usize|
                b <= k <= n ==> table@[k as int] == (#[trigger] positions(ks, k, n as int)).len(),
        decreases n + 1 - b,
    {
        proof {
            lemma_count_below_step(ks, b, n as int);
            lemma_count_below_bounds(ks, b + 1, n as int);
        }
        let sum = table[b] + table[b - 1];
        table.set(b, sum);
        b += 1;
    }

    // Each item takes the last free slot of its run, the last item first,
    // which leaves every run in ascending order and every table entry at
    // the start of its run.
    let mut order = zeros(n);
    let mut i: usize = n;
    proof {
        assert forall|k: usize| k <= n implies table@[k as int] == count_below(
            ks,
            k as int,
            n as int,
        ) + (#[trigger] positions(ks, k, n as int)).len() by {
            lemma_count_below_step(ks, k, n as int);
        }
    }
    while i > 0
        invariant
            n == ks.len(),
            ks == keys@,
            i <= n,
            table@.len() == n + 1,
            order@.len() == n,
            forall|k: int| 0 <= k < n ==> ks[k] < n,
            forall|k: usize|
                k <= n ==> table@[k as int] == count_below(ks, k as int, n as int) + (
                #[trigger] positions(ks, k, i as int)).len(),
            forall|j: int| i <= j < n ==> order@[#[trigger] slot_of(ks, j)] == j,
        decreases i,
    {
        let p = i - 1;
        let key = keys[p];
        let ghost before = table@;
        let ghost placed = order@;
        proof {
            assert(positions(ks, key, i as int) == positions(ks, key, p as int).push(p));
            assert(slot_of(ks, p as int) == before[key as int] - 1);
            lemma_slot_in_run(ks, p as int);
        }
        let slot = table[key] - 1;
        table.set(key, slot);
        order.set(slot, p);
        proof {
            assert forall|j: int| p <= j < n implies order@[#[trigger] slot_of(ks, j)] == j by {
                lemma_slot_in_run(ks, j);
                if j > p {
                    lemma_slots_distinct(ks, p as int, j);
                    assert(placed[slot_of(ks, j)] == j);
                }
            }
            assert forall|k: usize| k <= n implies table@[k as int] == count_below(
                ks,
                k as int,
                n as int,
            ) + (#[trigger] positions(ks, k, p as int)).len() by {
                assert(before[k as int] == count_below(ks, k as int, n as int) + positions(
                    ks,
                    k,
                    i as int,
                ).len());
            }
        }
        i -= 1;
    }

    proof {
        assert forall|k: int| 0 <= k <= n implies #[trigger] table@[k] == count_below(
            ks,
            k,
            n as int,
        ) by {
            assert(positions(ks, k as usize, 0).len() == 0);
        }
        assert forall|k: usize| k < n implies order@.subrange(
            table@[k as int] as int,
            table@[k + 1] as int,
        ) == #[trigger] positions(ks, k, n as int) by {
            let run = order@.subrange(table@[k as int] as int, table@[k + 1] as int);
            let want = positions(ks, k, n as int);
            lemma_count_below_monotone(ks, k as int, k + 1, n as int);
            lemma_count_below_step(ks, k, n as int);
            lemma_count_below_bounds(ks, k + 1, n as int);
            assert(run.len() == want.len());
            assert forall|t: int| 0 <= t < want.len() implies run[t] == want[t] by {
                lemma_positions_entry(ks, k, n as int, t);
                assert(slot_of(ks, want[t] as int) == table@[k as int] + t);
            }
            assert(run =~= want);
        }
    }
    (table, order)
}

/// A grouped layout is a permutation of the items: every item stands at
/// its slot, and every slot holds the item whose slot it is. So no item is
/// lost and none stands twice.
pub proof fn lemma_grouped_is_permutation(keys: Seq<usize>, offsets: Seq<usize>, order: Seq<usize>)
    requires
        keys.len() <= usize::MAX,
        forall|i: int| 0 <= i < keys.len() ==> keys[i] < keys.len(),
        grouped(keys, offsets, order),
    ensures
        forall|j: int| 0 <= j < keys.len() ==> order[#[trigger] slot_of(keys, j)] == j,
        forall|t: int|
            0 <= t < keys.len() ==> 0 <= #[trigger] order[t] < keys.len() && slot_of(
                keys,
                order[t] as int,
            ) == t,
        order.no_duplicates(),
{
    let n = keys.len() as int;
    assert forall|j: int| 0 <= j < n implies order[#[trigger] slot_of(keys, j)] == j by {
        lemma_item_at_slot(keys, offsets, order, j);
    }
    assert forall|t: int| 0 <= t < n implies 0 <= #[trigger] order[t] < n && slot_of(
        keys,
        order[t] as int,
    ) == t by {
        lemma_count_below_bounds(keys, 0, n);
        lemma_count_below_all(keys, n, n);
        let b = lemma_run_of_slot(keys, offsets, t, 0);
        lemma_count_below_bounds(keys, b + 1, n);
        lemma_count_below_step(keys, b, n);
        let run = order.subrange(offsets[b as int] as int, offsets[b + 1] as int);
        assert(run == positions(keys, b, n));
        assert(run[t - offsets[b as int]] == order[t]);
        lemma_positions_entry(keys, b, n, t - offsets[b as int]);
    }
}

/// There are no more positions below `upto` than indices.
pub proof fn lemma_positions_len<T>(s: Seq<T>, v: T, upto: int)
    requires
        0 <= upto,
    ensures
        positions(s, v, upto).len() <= upto,
    decreases upto,
{
    if upto > 0 {
        lemma_positions_len(s, v, upto - 1);
    }
}

/// Entry `r` of the positions of `v` is an index that holds `v` and has
/// exactly `r` positions of `v` before it.
pub proof fn lemma_positions_entry<T>(s: Seq<T>, v: T, upto: int, r: int)
    requires
        0 <= upto <= s.len(),
        upto <= usize::MAX,
        0 <= r < positions(s, v, upto).len(),
    ensures
        0 <= positions(s, v, upto)[r] < upto,
        s[positions(s, v, upto)[r] as int] == v,
        positions(s, v, positions(s, v, upto)[r] as int).len() == r,
    decreases upto,
{
    if upto > 0 {
        if s[upto - 1] == v && r == positions(s, v, upto - 1).len() {
        } else {
            lemma_positions_entry(s, v, upto - 1, r);
        }
    }
}

/// An index `j` that holds `v` is entry number `positions(s, v, j).len()`
/// of the positions of `v` below any bound above `j`.
pub proof fn lemma_positions_rank<T>(s: Seq<T>, v: T, upto: int, j: int)
    requires
        0 <= j < upto <= s.len(),
        upto <= usize::MAX,
        s[j] == v,
    ensures
        positions(s, v, j).len() < positions(s, v, upto).len(),
        positions(s, v, upto)[positions(s, v, j).len() as int] == j,
    decreases upto,
{
    if j < upto - 1 {
        lemma_positions_rank(s, v, upto - 1, j);
    }
}

/// An index occurs among the positions of `v` exactly if it holds `v`.
pub proof fn lemma_positions_contains<T>(s: Seq<T>, v: T, upto: int, j: usize)
    requires
        0 <= upto <= s.len(),
        upto <= usize::MAX,
    ensures
        positions(s, v, upto).contains(j) <==> (j < upto && s[j as int] == v),
{
    let p = positions(s, v, upto);
    if j < upto && s[j as int] == v {
        lemma_positions_rank(s, v, upto, j as int);
        assert(p[positions(s, v, j as int).len() as int] == j);
    }
    if p.contains(j) {
        let r = choose|r: int| 0 <= r < p.len() && p[r] == j;
        lemma_positions_entry(s, v, upto, r);
    }
}

/// The positions of `v` are strictly ascending, so none occurs twice.
pub proof fn lemma_positions_ascending<T>(s: Seq<T>, v: T, upto: int, q: int, r: int)
    requires
        0 <= upto <= s.len(),
        upto <= usize::MAX,
        0 <= q < r < positions(s, v, upto).len(),
    ensures
        positions(s, v, upto)[q] < positions(s, v, upto)[r],
    decreases upto,
{
    if upto > 0 {
        if s[upto - 1] == v && r == positions(s, v, upto - 1).len() {
            lemma_positions_entry(s, v, upto - 1, q);
        } else {
            lemma_positions_ascending(s, v, upto - 1, q, r);
        }
    }
}

/// No more keys are counted than there are indices, and none is below zero.
pub proof fn lemma_count_below_bounds(keys: Seq<usize>, b: int, upto: int)
    requires
        0 <= upto,
    ensures
        count_below(keys, b, upto) <= upto,
        b <= 0 ==> count_below(keys, b, upto) == 0,
    decreases upto,
{
    if upto > 0 {
        lemma_count_below_bounds(keys, b, upto - 1);
    }
}

/// Where every key is below `b`, every index is counted.
pub proof fn lemma_count_below_all(keys: Seq<usize>, b: int, upto: int)
    requires
        0 <= upto <= keys.len(),
        forall|i: int| 0 <= i < upto ==> keys[i] < b,
    ensures
        count_below(keys, b, upto) == upto,
    decreases upto,
{
    if upto > 0 {
        lemma_count_below_all(keys, b, upto - 1);
    }
}

/// The keys below `b + 1` are the keys below `b` and the keys equal to `b`.
pub proof fn lemma_count_below_step(keys: Seq<usize>, b: usize, upto: int)
    requires
        0 <= upto <= keys.len(),
    ensures
        count_below(keys, b + 1, upto) == count_below(keys, b as int, upto) + positions(
            keys,
            b,
            upto,
        ).len(),
    decreases upto,
{
    if upto > 0 {
        lemma_count_below_step(keys, b, upto - 1);
    }
}

/// A larger bound counts at least as many keys.
pub proof fn lemma_count_below_monotone(keys: Seq<usize>, a: int, b: int, upto: int)
    requires
        a <= b,
        0 <= upto,
    ensures
        count_below(keys, a, upto) <= count_below(keys, b, upto),
    decreases upto,
{
    if upto > 0 {
        lemma_count_below_monotone(keys, a, b, upto - 1);
    }
}

/// The slot of an item lies inside the run of its key.
pub proof fn lemma_slot_in_run(keys: Seq<usize>, j: int)
    requires
        0 <= j < keys.len() <= usize::MAX,
    ensures
        count_below(keys, keys[j] as int, keys.len() as int) <= slot_of(keys, j) < count_below(
            keys,
            keys[j] + 1,
            keys.len() as int,
        ),
        slot_of(keys, j) < keys.len(),
{
    let n = keys.len() as int;
    lemma_positions_rank(keys, keys[j], n, j);
    lemma_count_below_step(keys, keys[j], n);
    lemma_count_below_bounds(keys, keys[j] + 1, n);
}

/// Two different items have different slots.
pub proof fn lemma_slots_distinct(keys: Seq<usize>, i: int, j: int)
    requires
        0 <= i < j < keys.len() <= usize::MAX,
    ensures
        slot_of(keys, i) != slot_of(keys, j),
{
    let n = keys.len() as int;
    lemma_slot_in_run(keys, i);
    lemma_slot_in_run(keys, j);
    if keys[i] == keys[j] {
        lemma_positions_rank(keys, keys[i], j, i);
    } else if keys[i] < keys[j] {
        lemma_count_below_monotone(keys, keys[i] + 1, keys[j] as int, n);
    } else {
        lemma_count_below_monotone(keys, keys[j] + 1, keys[i] as int, n);
    }
}

/// Item `j` of a grouped layout stands at its slot.
proof fn lemma_item_at_slot(keys: Seq<usize>, offsets: Seq<usize>, order: Seq<usize>, j: int)
    requires
        0 <= j < keys.len() <= usize::MAX,
        keys[j] < keys.len(),
        grouped(keys, offsets, order),
    ensures
        0 <= slot_of(keys, j) < keys.len(),
        order[slot_of(keys, j)] == j,
{
    let n = keys.len() as int;
    let b = keys[j];
    lemma_count_below_bounds(keys, b + 1, n);
    lemma_count_below_step(keys, b, n);
    let run = order.subrange(offsets[b as int] as int, offsets[b + 1] as int);
    assert(run == positions(keys, b, n));
    lemma_slot_in_run(keys, j);
    lemma_positions_rank(keys, b, n, j);
    assert(run[positions(keys, b, j).len() as int] == j);
}

/// Finds the key in whose run slot `t` lies, searching from key `from`.
proof fn lemma_run_of_slot(keys: Seq<usize>, offsets: Seq<usize>, t: int, from: usize) -> (b: usize)
    requires
        keys.len() <= usize::MAX,
        offsets.len() == keys.len() + 1,
        forall|k: int|
            0 <= k <= keys.len() ==> #[trigger] offsets[k] == count_below(keys, k, keys.len() as int),
        count_below(keys, keys.len() as int, keys.len() as int) == keys.len(),
        from < keys.len(),
        offsets[from as int] <= t < keys.len(),
    ensures
        b < keys.len(),
        offsets[b as int] <= t < offsets[b + 1],
    decreases keys.len() - from,
{
    if t < offsets[from + 1] {
        from
    } else {
        lemma_run_of_slot(keys, offsets, t, (from + 1) as usize)
    }
}

} // verus!
