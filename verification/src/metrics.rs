//! Rank statistics over `f32` score vectors.
//!
//! Scores are handed over as their `f32::to_bits` patterns and ordered by the
//! IEEE-754 total order (`f32::total_cmp`), ties kept in index order (a stable
//! sort). `ranks` gives each index its 0-based position in the ascending
//! order; `topk_overlap` counts the indices shared by the first `k` of two
//! descending orders.
use vstd::prelude::*;

verus! {

/// The position of an `f32` bit pattern in the IEEE-754 total order
/// (`f32::total_cmp`): non-negative patterns keep their value, a pattern with
/// the sign bit set and magnitude bits `m` maps to `-1 - m`.
pub open spec fn total_key(bits: u32) -> int {
    if bits < 0x8000_0000 {
        bits as int
    } else {
        -1 - (bits - 0x8000_0000)
    }
}

/// The `f32::total_cmp` order key of an `f32` bit pattern.
pub fn total_order_key(bits: u32) -> (r: i64)
    ensures
        r as int == total_key(bits),
        r as int == ((bits as i32) ^ ((((bits as i32) >> 31u32) as u32 >> 1u32) as i32)) as int,
{
    proof {
        lemma_total_key_is_flipped_i32(bits);
    }
    if bits < 0x8000_0000 {
        bits as i64
    } else {
        -1 - ((bits - 0x8000_0000) as i64)
    }
}

/// The order key is the sign-magnitude order of IEEE-754 patterns: among
/// patterns with the sign bit clear (non-negative values) a larger pattern is
/// a larger value, among patterns with the sign bit set (negative values) a
/// larger pattern is a larger magnitude, hence a smaller value; every negative
/// pattern comes before every non-negative one, and distinct patterns get
/// distinct keys.
pub proof fn lemma_total_key_is_sign_magnitude_order(a: u32, b: u32)
    ensures
        a < 0x8000_0000 && b < 0x8000_0000 ==> (total_key(a) < total_key(b) <==> a < b),
        a >= 0x8000_0000 && b >= 0x8000_0000 ==> (total_key(a) < total_key(b) <==> a > b),
        a >= 0x8000_0000 && b < 0x8000_0000 ==> total_key(a) < total_key(b),
        total_key(a) == total_key(b) <==> a == b,
{
}

/// The order key is the integer the IEEE-754 total order compares: the pattern read
/// as an `i32`, with its 31 low bits flipped when the sign bit is set.
pub proof fn lemma_total_key_is_flipped_i32(bits: u32)
    ensures
        total_key(bits) == ((bits as i32) ^ ((((bits as i32) >> 31u32) as u32 >> 1u32) as i32)) as int,
{
    let x: i32 = (bits as i32) ^ ((((bits as i32) >> 31u32) as u32 >> 1u32) as i32);
    assert(bits < 0x8000_0000u32 ==> ((bits as i32) ^ ((((bits as i32) >> 31u32) as u32
        >> 1u32) as i32)) as i64 == bits as i64) by (bit_vector);
    assert(bits >= 0x8000_0000u32 ==> ((bits as i32) ^ ((((bits as i32) >> 31u32) as u32
        >> 1u32) as i32)) as i64 == -1i64 - ((bits - 0x8000_0000u32) as i64)) by (bit_vector);
}

/// Index `i` comes before index `j` in the stable sort of `keys`: by the total
/// order of the values (ascending, or descending), ties by index.
pub open spec fn precedes(keys: Seq<u32>, descending: bool, i: int, j: int) -> bool {
    let ki = total_key(keys[i]);
    let kj = total_key(keys[j]);
    if ki == kj {
        i < j
    } else if descending {
        ki > kj
    } else {
        ki < kj
    }
}

/// `order` lists every index of `keys` once, in stable sorted order.
pub open spec fn is_sorted_order(keys: Seq<u32>, descending: bool, order: Seq<usize>) -> bool {
    &&& order.len() == keys.len()
    &&& forall|p: int| 0 <= p < order.len() ==> order[p] < keys.len()
    &&& order.no_duplicates()
    &&& forall|j: usize| j < keys.len() ==> #[trigger] order.contains(j)
    &&& forall|p: int, q: int|
        0 <= p < q < order.len() ==> precedes(keys, descending, order[p] as int, order[q] as int)
}

/// The indices that come before index `i` in the stable sort.
pub open spec fn preceding_set(keys: Seq<u32>, descending: bool, i: int) -> Set<int> {
    Set::new(|j: int| 0 <= j < keys.len() && precedes(keys, descending, j, i))
}

/// The 0-based position of index `i` in the stable sort of `keys`.
pub open spec fn rank_of(keys: Seq<u32>, descending: bool, i: int) -> nat {
    preceding_set(keys, descending, i).len()
}

/// The indices among the first `k` of the stable descending order.
pub open spec fn top_k_set(keys: Seq<u32>, k: int) -> Set<int> {
    Set::new(|i: int| 0 <= i < keys.len() && rank_of(keys, true, i) < k)
}

/// The number of indices in both top-`k` sets.
pub open spec fn topk_overlap_spec(truth: Seq<u32>, approx: Seq<u32>, k: int) -> nat {
    top_k_set(truth, k).intersect(top_k_set(approx, k)).len()
}

fn precedes_exec(k: &Vec<i64>, descending: bool, i: usize, j: usize) -> (r: bool)
    requires
        i < k@.len(),
        j < k@.len(),
    ensures
        r == ({
            let ki = k@[i as int];
            let kj = k@[j as int];
            if ki == kj {
                i < j
            } else if descending {
                ki > kj
            } else {
                ki < kj
            }
        }),
{
    if k[i] == k[j] {
        i < j
    } else if descending {
        k[i] > k[j]
    } else {
        k[i] < k[j]
    }
}

/// `run` lists each index of `[lo, hi)` once, in stable sorted order.
pub open spec fn is_sorted_run(
    keys: Seq<u32>,
    descending: bool,
    run: Seq<usize>,
    lo: int,
    hi: int,
) -> bool {
    &&& run.len() == hi - lo
    &&& forall|p: int| 0 <= p < run.len() ==> lo <= #[trigger] run[p] < hi
    &&& run.no_duplicates()
    &&& forall|j: usize| lo <= j < hi ==> #[trigger] run.contains(j)
    &&& forall|p: int, q: int|
        0 <= p < q < run.len() ==> precedes(keys, descending, run[p] as int, run[q] as int)
}

/// Merge two stable sorted runs of adjacent index ranges into one.
fn merge_runs(
    v: &Vec<u32>,
    k: &Vec<i64>,
    descending: bool,
    left: Vec<usize>,
    right: Vec<usize>,
    lo: usize,
    mid: usize,
    hi: usize,
) -> (out: Vec<usize>)
    requires
        k@.len() == v@.len(),
        forall|j: int| 0 <= j < v@.len() ==> k@[j] as int == total_key(v@[j]),
        lo <= mid <= hi <= v@.len(),
        is_sorted_run(v@, descending, left@, lo as int, mid as int),
        is_sorted_run(v@, descending, right@, mid as int, hi as int),
    ensures
        is_sorted_run(v@, descending, out@, lo as int, hi as int),
{
    let nl = left.len();
    let nr = right.len();
    let mut out: Vec<usize> = Vec::with_capacity(nl + nr);
    let mut a: usize = 0;
    let mut b: usize = 0;
    while a < nl || b < nr
        invariant
            k@.len() == v@.len(),
            forall|j: int| 0 <= j < v@.len() ==> k@[j] as int == total_key(v@[j]),
            lo <= mid <= hi <= v@.len(),
            is_sorted_run(v@, descending, left@, lo as int, mid as int),
            is_sorted_run(v@, descending, right@, mid as int, hi as int),
            nl == left@.len(),
            nr == right@.len(),
            a <= nl,
            b <= nr,
            out@.len() == a + b,
            forall|p: int| 0 <= p < out@.len() ==> lo <= #[trigger] out@[p] < hi,
            out@.no_duplicates(),
            forall|x: usize|
                #[trigger] out@.contains(x) <==> (left@.subrange(0, a as int).contains(x)
                    || right@.subrange(0, b as int).contains(x)),
            forall|p: int, q: int|
                0 <= p < q < out@.len() ==> precedes(
                    v@,
                    descending,
                    out@[p] as int,
                    out@[q] as int,
                ),
            forall|p: int, r: int|
                0 <= p < out@.len() && a <= r < nl ==> precedes(
                    v@,
                    descending,
                    out@[p] as int,
                    left@[r] as int,
                ),
            forall|p: int, r: int|
                0 <= p < out@.len() && b <= r < nr ==> precedes(
                    v@,
                    descending,
                    out@[p] as int,
                    right@[r] as int,
                ),
        decreases nl + nr - a - b,
    {
        let ghost before = out@;
        let take_left = if a < nl && b < nr {
            !precedes_exec(k, descending, right[b], left[a])
        } else {
            a < nl
        };
        if take_left {
            let x = left[a];
            proof {
                assert forall|r: int| b <= r < nr implies precedes(
                    v@,
                    descending,
                    x as int,
                    right@[r] as int,
                ) by {
                    assert(x < mid && mid <= right@[b as int]);
                    if r > b {
                        assert(precedes(v@, descending, right@[b as int] as int, right@[r] as int));
                    }
                }
                assert(!before.contains(x)) by {
                    if before.contains(x) {
                        if left@.subrange(0, a as int).contains(x) {
                            let q = choose|q: int| 0 <= q < a && left@.subrange(0, a as int)[q] == x;
                            assert(left@[q] == left@[a as int]);
                        } else {
                            let q = choose|q: int| 0 <= q < b && right@.subrange(0, b as int)[q] == x;
                            assert(right@[q] >= mid);
                        }
                    }
                }
            }
            out.push(x);
            a = a + 1;
            proof {
                assert(left@.subrange(0, a as int) =~= left@.subrange(0, a - 1).push(x));
                assert forall|y: usize| #[trigger] out@.contains(y) <==> (left@.subrange(
                    0,
                    a as int,
                ).contains(y) || right@.subrange(0, b as int).contains(y)) by {
                    if out@.contains(y) {
                        let q = choose|q: int| 0 <= q < out@.len() && out@[q] == y;
                        if q < before.len() {
                            assert(before[q] == y);
                            assert(before.contains(y));
                            let pre = left@.subrange(0, a - 1);
                            if pre.contains(y) {
                                let t = choose|t: int| 0 <= t < pre.len() && pre[t] == y;
                                assert(left@.subrange(0, a as int)[t] == y);
                            }
                        } else {
                            assert(left@.subrange(0, a as int)[a - 1] == y);
                        }
                    }
                    if left@.subrange(0, a as int).contains(y) || right@.subrange(0, b as int).contains(y) {
                        if y == x {
                            assert(out@[out@.len() - 1] == y);
                        } else {
                            if left@.subrange(0, a as int).contains(y) {
                                let q = choose|q: int| 0 <= q < a && left@.subrange(0, a as int)[q] == y;
                                assert(left@.subrange(0, a - 1)[q] == y);
                            }
                            assert(before.contains(y));
                            let q = choose|q: int| 0 <= q < before.len() && before[q] == y;
                            assert(out@[q] == y);
                        }
                    }
                }
            }
        } else {
            let x = right[b];
            proof {
                assert forall|r: int| a <= r < nl implies precedes(
                    v@,
                    descending,
                    x as int,
                    left@[r] as int,
                ) by {
                    assert(precedes(v@, descending, x as int, left@[a as int] as int));
                    if r > a {
                        assert(precedes(v@, descending, left@[a as int] as int, left@[r] as int));
                    }
                }
                assert(!before.contains(x)) by {
                    if before.contains(x) {
                        if left@.subrange(0, a as int).contains(x) {
                            let q = choose|q: int| 0 <= q < a && left@.subrange(0, a as int)[q] == x;
                            assert(left@[q] < mid);
                        } else {
                            let q = choose|q: int| 0 <= q < b && right@.subrange(0, b as int)[q] == x;
                            assert(right@[q] == right@[b as int]);
                        }
                    }
                }
            }
            out.push(x);
            b = b + 1;
            proof {
                assert(right@.subrange(0, b as int) =~= right@.subrange(0, b - 1).push(x));
                assert forall|y: usize| #[trigger] out@.contains(y) <==> (left@.subrange(
                    0,
                    a as int,
                ).contains(y) || right@.subrange(0, b as int).contains(y)) by {
                    if out@.contains(y) {
                        let q = choose|q: int| 0 <= q < out@.len() && out@[q] == y;
                        if q < before.len() {
                            assert(before[q] == y);
                            assert(before.contains(y));
                            let pre = right@.subrange(0, b - 1);
                            if pre.contains(y) {
                                let t = choose|t: int| 0 <= t < pre.len() && pre[t] == y;
                                assert(right@.subrange(0, b as int)[t] == y);
                            }
                        } else {
                            assert(right@.subrange(0, b as int)[b - 1] == y);
                        }
                    }
                    if left@.subrange(0, a as int).contains(y) || right@.subrange(0, b as int).contains(y) {
                        if y == x {
                            assert(out@[out@.len() - 1] == y);
                        } else {
                            if right@.subrange(0, b as int).contains(y) {
                                let q = choose|q: int| 0 <= q < b && right@.subrange(0, b as int)[q] == y;
                                assert(right@.subrange(0, b - 1)[q] == y);
                            }
                            assert(before.contains(y));
                            let q = choose|q: int| 0 <= q < before.len() && before[q] == y;
                            assert(out@[q] == y);
                        }
                    }
                }
            }
        }
    }
    proof {
        assert(left@.subrange(0, nl as int) =~= left@);
        assert(right@.subrange(0, nr as int) =~= right@);
        assert forall|j: usize| lo <= j < hi implies #[trigger] out@.contains(j) by {
            if j < mid {
                assert(left@.contains(j));
            } else {
                assert(right@.contains(j));
            }
        }
    }
    out
}

/// Stable merge sort of the index range `[lo, hi)`.
fn sort_run(v: &Vec<u32>, k: &Vec<i64>, descending: bool, lo: usize, hi: usize) -> (run: Vec<usize>)
    requires
        k@.len() == v@.len(),
        forall|j: int| 0 <= j < v@.len() ==> k@[j] as int == total_key(v@[j]),
        lo <= hi <= v@.len(),
    ensures
        is_sorted_run(v@, descending, run@, lo as int, hi as int),
    decreases hi - lo,
{
    if hi - lo <= 1 {
        let mut run: Vec<usize> = Vec::new();
        if hi > lo {
            run.push(lo);
            proof {
                assert forall|j: usize| lo <= j < hi implies #[trigger] run@.contains(j) by {
                    assert(run@[0] == j);
                }
            }
        }
        run
    } else {
        let mid = lo + (hi - lo) / 2;
        let left = sort_run(v, k, descending, lo, mid);
        let right = sort_run(v, k, descending, mid, hi);
        merge_runs(v, k, descending, left, right, lo, mid, hi)
    }
}

/// The stable sort permutation of `v` (index list), ascending or descending
/// by the `f32` total order of the bit patterns in `v`.
pub fn argsort(v: &Vec<u32>, descending: bool) -> (order: Vec<usize>)
    ensures
        is_sorted_order(v@, descending, order@),
        forall|p: int, q: int|
            #![trigger order@[p], order@[q]]
            0 <= p < q < order@.len() ==> {
                let kp = total_key(v@[order@[p] as int]);
                let kq = total_key(v@[order@[q] as int]);
                &&& !descending ==> kp <= kq
                &&& descending ==> kp >= kq
                &&& kp == kq ==> order@[p] < order@[q]
            },
{
    let n = v.len();
    let mut k: Vec<i64> = Vec::with_capacity(n);
    let mut i: usize = 0;
    while i < n
        invariant
            n == v@.len(),
            i <= n,
            k@.len() == i,
            forall|j: int| 0 <= j < i ==> k@[j] as int == total_key(v@[j]),
        decreases n - i,
    {
        k.push(total_order_key(v[i]));
        i = i + 1;
    }
    let order = sort_run(v, &k, descending, 0, n);
    proof {
        assert forall|p: int, q: int|
            #![trigger order@[p], order@[q]]
            0 <= p < q < order@.len() implies {
                let kp = total_key(v@[order@[p] as int]);
                let kq = total_key(v@[order@[q] as int]);
                &&& !descending ==> kp <= kq
                &&& descending ==> kp >= kq
                &&& kp == kq ==> order@[p] < order@[q]
            } by {
            assert(precedes(v@, descending, order@[p] as int, order@[q] as int));
        }
    }
    order
}

/// In a stable sorted order, the index at position `p` has rank `p`.
pub proof fn lemma_rank_is_position(keys: Seq<u32>, descending: bool, order: Seq<usize>, p: int)
    requires
        is_sorted_order(keys, descending, order),
        keys.len() <= usize::MAX,
        0 <= p < order.len(),
    ensures
        rank_of(keys, descending, order[p] as int) == p,
{
    let x = order[p] as int;
    let s = preceding_set(keys, descending, x);
    let pre = order.subrange(0, p);
    let t = pre.map_values(|u: usize| u as int);
    assert(t.no_duplicates()) by {
        assert forall|a: int, b: int| 0 <= a < b < t.len() implies t[a] != t[b] by {
            assert(order[a] != order[b]);
        }
    }
    assert forall|j: int| s.contains(j) <==> t.to_set().contains(j) by {
        if s.contains(j) {
            assert(order.contains(j as usize));
            let q = choose|q: int| 0 <= q < order.len() && order[q] == j as usize;
            if q >= p {
                if q > p {
                    assert(precedes(keys, descending, x, order[q] as int));
                }
                assert(false);
            }
            assert(t[q] == j);
        }
        if t.to_set().contains(j) {
            assert(t.contains(j));
            let q = choose|q: int| 0 <= q < t.len() && t[q] == j;
            assert(order[q] as int == j);
            assert(precedes(keys, descending, order[q] as int, x));
        }
    }
    assert(s =~= t.to_set());
    t.unique_seq_to_set();
}

/// Ranks of `n` indices in a stable sorted order are distinct and below `n`.
pub proof fn lemma_ranks_are_positions(keys: Seq<u32>, descending: bool, order: Seq<usize>)
    requires
        is_sorted_order(keys, descending, order),
        keys.len() <= usize::MAX,
    ensures
        forall|i: int| 0 <= i < keys.len() ==> #[trigger] rank_of(keys, descending, i) < keys.len(),
        forall|i: int, j: int|
            0 <= i < keys.len() && 0 <= j < keys.len() && i != j ==> rank_of(keys, descending, i)
                != rank_of(keys, descending, j),
{
    assert forall|i: int| 0 <= i < keys.len() implies #[trigger] rank_of(keys, descending, i)
        < keys.len() by {
        assert(order.contains(i as usize));
        let q = choose|q: int| 0 <= q < order.len() && order[q] == i as usize;
        lemma_rank_is_position(keys, descending, order, q);
    }
    assert forall|i: int, j: int|
        0 <= i < keys.len() && 0 <= j < keys.len() && i != j implies rank_of(keys, descending, i)
        != rank_of(keys, descending, j) by {
        assert(order.contains(i as usize));
        assert(order.contains(j as usize));
        let p = choose|q: int| 0 <= q < order.len() && order[q] == i as usize;
        let q = choose|q: int| 0 <= q < order.len() && order[q] == j as usize;
        lemma_rank_is_position(keys, descending, order, p);
        lemma_rank_is_position(keys, descending, order, q);
    }
}

/// The top-`k` set of `n` indices has `min(k, n)` elements.
pub proof fn lemma_top_k_set_len(keys: Seq<u32>, order: Seq<usize>, k: int)
    requires
        is_sorted_order(keys, true, order),
        keys.len() <= usize::MAX,
        0 <= k,
    ensures
        top_k_set(keys, k).finite(),
        top_k_set(keys, k).len() == if k < keys.len() {
            k
        } else {
            keys.len() as int
        },
{
    let n = keys.len() as int;
    let m = if k < n {
        k
    } else {
        n
    };
    let t = order.subrange(0, m).map_values(|u: usize| u as int);
    assert(t.no_duplicates()) by {
        assert forall|a: int, b: int| 0 <= a < b < t.len() implies t[a] != t[b] by {
            assert(order[a] != order[b]);
        }
    }
    assert forall|i: int| top_k_set(keys, k).contains(i) <==> t.to_set().contains(i) by {
        if top_k_set(keys, k).contains(i) {
            assert(order.contains(i as usize));
            let q = choose|q: int| 0 <= q < order.len() && order[q] == i as usize;
            lemma_rank_is_position(keys, true, order, q);
            assert(t[q] == i);
        }
        if t.to_set().contains(i) {
            assert(t.contains(i));
            let q = choose|q: int| 0 <= q < t.len() && t[q] == i;
            lemma_rank_is_position(keys, true, order, q);
        }
    }
    assert(top_k_set(keys, k) =~= t.to_set());
    t.unique_seq_to_set();
}

/// A value above a top-`k` value is itself in the top `k`.
pub proof fn lemma_top_k_upward(keys: Seq<u32>, order: Seq<usize>, k: int)
    requires
        is_sorted_order(keys, true, order),
        keys.len() <= usize::MAX,
    ensures
        forall|i: int, j: int|
            #![trigger top_k_set(keys, k).contains(i), keys[j]]
            0 <= i < keys.len() && 0 <= j < keys.len() && top_k_set(keys, k).contains(i)
                && total_key(keys[j]) > total_key(keys[i]) ==> top_k_set(keys, k).contains(j),
{
    assert forall|i: int, j: int|
        #![trigger top_k_set(keys, k).contains(i), keys[j]]
        0 <= i < keys.len() && 0 <= j < keys.len() && top_k_set(keys, k).contains(i)
            && total_key(keys[j]) > total_key(keys[i]) implies top_k_set(keys, k).contains(j) by {
        assert(order.contains(i as usize));
        assert(order.contains(j as usize));
        let p = choose|q: int| 0 <= q < order.len() && order[q] == i as usize;
        let q = choose|q: int| 0 <= q < order.len() && order[q] == j as usize;
        lemma_rank_is_position(keys, true, order, p);
        lemma_rank_is_position(keys, true, order, q);
        if p < q {
            assert(precedes(keys, true, i, j));
        }
    }
}

fn rank_positions(v: &Vec<u32>, descending: bool) -> (r: Vec<usize>)
    ensures
        r@.len() == v@.len(),
        forall|i: int| 0 <= i < v@.len() ==> r@[i] as int == rank_of(v@, descending, i),
        exists|o: Seq<usize>| is_sorted_order(v@, descending, o),
        v@.len() <= usize::MAX,
{
    let n = v.len();
    let order = argsort(v, descending);
    let mut r: Vec<usize> = vec![0usize; n];
    let mut p: usize = 0;
    while p < n
        invariant
            n == v@.len(),
            is_sorted_order(v@, descending, order@),
            r@.len() == n,
            p <= n,
            forall|q: int| 0 <= q < p ==> r@[order@[q] as int] == q,
        decreases n - p,
    {
        let ghost before = r@;
        let slot = order[p];
        r[slot] = p;
        proof {
            assert forall|q: int| 0 <= q < p + 1 implies r@[order@[q] as int] == q by {
                if q < p {
                    assert(order@[q] != order@[p as int]);
                    assert(r@[order@[q] as int] == before[order@[q] as int]);
                }
            }
        }
        p = p + 1;
    }
    proof {
        assert forall|i: int| 0 <= i < n implies r@[i] as int == rank_of(v@, descending, i) by {
            assert(order@.contains(i as usize));
            let q = choose|q: int| 0 <= q < order@.len() && order@[q] == i as usize;
            lemma_rank_is_position(v@, descending, order@, q);
        }
    }
    r
}

/// 0-based ranks: `ranks(v)[i]` is the position of index `i` when `v` is
/// sorted ascending by the `f32` total order, ties kept in index order.
pub fn ranks(v: &Vec<u32>) -> (r: Vec<usize>)
    ensures
        r@.len() == v@.len(),
        forall|i: int| 0 <= i < v@.len() ==> r@[i] as int == rank_of(v@, false, i),
        forall|i: int| 0 <= i < v@.len() ==> r@[i] < v@.len(),
        forall|i: int, j: int| 0 <= i < j < v@.len() ==> r@[i] != r@[j],
        forall|i: int, j: int|
            0 <= i < v@.len() && 0 <= j < v@.len() ==> (r@[i] < r@[j] <==> precedes(
                v@,
                false,
                i,
                j,
            )),
        forall|i: int, j: int|
            0 <= i < v@.len() && 0 <= j < v@.len() && total_key(v@[i]) < total_key(v@[j])
                ==> r@[i] < r@[j],
        forall|i: int, j: int|
            0 <= i < j < v@.len() && total_key(v@[i]) == total_key(v@[j]) ==> r@[i] < r@[j],
{
    let r = rank_positions(v, false);
    proof {
        let o = choose|o: Seq<usize>| is_sorted_order(v@, false, o);
        lemma_ranks_are_positions(v@, false, o);
        assert forall|i: int, j: int|
            0 <= i < v@.len() && 0 <= j < v@.len() implies (r@[i] < r@[j] <==> precedes(
            v@,
            false,
            i,
            j,
        )) by {
            assert(o.contains(i as usize));
            assert(o.contains(j as usize));
            let p = choose|q: int| 0 <= q < o.len() && o[q] == i as usize;
            let q = choose|q: int| 0 <= q < o.len() && o[q] == j as usize;
            lemma_rank_is_position(v@, false, o, p);
            lemma_rank_is_position(v@, false, o, q);
            if p > q {
                assert(precedes(v@, false, j, i));
            }
        }
        assert forall|i: int, j: int|
            0 <= i < v@.len() && 0 <= j < v@.len() && total_key(v@[i]) < total_key(v@[j])
                implies r@[i] < r@[j] by {
            assert(precedes(v@, false, i, j));
        }
        assert forall|i: int, j: int|
            0 <= i < j < v@.len() && total_key(v@[i]) == total_key(v@[j]) implies r@[i] < r@[j] by {
            assert(precedes(v@, false, i, j));
        }
    }
    r
}

/// The number of indices shared by the top-`k` of `truth` and the top-`k` of
/// `approx` (the first `k` of each stable descending order). The overlap
/// fraction is this count divided by `k`.
pub fn topk_overlap(truth: &Vec<u32>, approx: &Vec<u32>, k: usize) -> (r: usize)
    ensures
        r as int == topk_overlap_spec(truth@, approx@, k as int),
        r <= k,
        r <= truth@.len(),
        r <= approx@.len(),
        truth@ == approx@ ==> r == if k < truth@.len() {
            k as int
        } else {
            truth@.len() as int
        },
        forall|i: int, j: int|
            #![trigger top_k_set(truth@, k as int).contains(i), truth@[j]]
            0 <= i < truth@.len() && 0 <= j < truth@.len() && top_k_set(
                truth@,
                k as int,
            ).contains(i) && total_key(truth@[j]) > total_key(truth@[i]) ==> top_k_set(
                truth@,
                k as int,
            ).contains(j),
        forall|i: int, j: int|
            #![trigger top_k_set(approx@, k as int).contains(i), approx@[j]]
            0 <= i < approx@.len() && 0 <= j < approx@.len() && top_k_set(
                approx@,
                k as int,
            ).contains(i) && total_key(approx@[j]) > total_key(approx@[i]) ==> top_k_set(
                approx@,
                k as int,
            ).contains(j),
{
    let rt = rank_positions(truth, true);
    let ra = rank_positions(approx, true);
    let m = if truth.len() < approx.len() {
        truth.len()
    } else {
        approx.len()
    };
    let mut count: usize = 0;
    let ghost mut s: Set<int> = Set::empty();
    let mut i: usize = 0;
    while i < m
        invariant
            m <= truth@.len(),
            m <= approx@.len(),
            m == truth@.len() || m == approx@.len(),
            rt@.len() == truth@.len(),
            ra@.len() == approx@.len(),
            forall|j: int| 0 <= j < truth@.len() ==> rt@[j] as int == rank_of(truth@, true, j),
            forall|j: int| 0 <= j < approx@.len() ==> ra@[j] as int == rank_of(approx@, true, j),
            i <= m,
            s.finite(),
            s.len() == count,
            count <= i,
            forall|j: int|
                s.contains(j) <==> (0 <= j < i && top_k_set(truth@, k as int).contains(j)
                    && top_k_set(approx@, k as int).contains(j)),
        decreases m - i,
    {
        if rt[i] < k && ra[i] < k {
            proof {
                assert(!s.contains(i as int));
                s = s.insert(i as int);
            }
            count = count + 1;
        }
        i = i + 1;
    }
    proof {
        let tt = top_k_set(truth@, k as int);
        let ta = top_k_set(approx@, k as int);
        assert(s =~= tt.intersect(ta));
        let ot = choose|o: Seq<usize>| is_sorted_order(truth@, true, o);
        let oa = choose|o: Seq<usize>| is_sorted_order(approx@, true, o);
        lemma_top_k_set_len(truth@, ot, k as int);
        lemma_top_k_set_len(approx@, oa, k as int);
        vstd::set_lib::lemma_len_intersect::<int>(tt, ta);
        assert(tt.intersect(ta) =~= ta.intersect(tt));
        vstd::set_lib::lemma_len_intersect::<int>(ta, tt);
        if truth@ == approx@ {
            assert(tt.intersect(ta) =~= tt);
        }
        lemma_top_k_upward(truth@, ot, k as int);
        lemma_top_k_upward(approx@, oa, k as int);
    }
    count
}

} // verus!
