use vstd::prelude::*;
use std::collections::HashMap;
use rayon::iter::{IntoParallelIterator, ParallelIterator};

verus! {

broadcast use vstd::std_specs::hash::group_hash_axioms;

/// The Fibonacci numbers: 0, 1, 1, 2, 3, 5, ...
pub open spec fn fib_spec(n: nat) -> nat
    decreases n,
{
    if n < 2 {
        n
    } else {
        fib_spec((n - 1) as nat) + fib_spec((n - 2) as nat)
    }
}

/// A memo table for `__fib`: it knows the first two numbers, and every
/// entry it holds is the Fibonacci number of its key.
pub open spec fn fib_memo_ok(m: Map<u16, u128>) -> bool {
    &&& m.contains_key(1u16)
    &&& m.contains_key(2u16)
    &&& forall|k: u16| #[trigger] m.contains_key(k) ==> m[k] == fib_spec(k as nat)
}

/// The Fibonacci numbers never decrease.
pub proof fn lemma_fib_monotone(i: nat, j: nat)
    requires
        i <= j,
    ensures
        fib_spec(i) <= fib_spec(j),
    decreases j,
{
    if i < j {
        lemma_fib_monotone(i, (j - 1) as nat);
    }
}

/// Memoised Fibonacci: answers from `hm` where it can, and records every
/// number it computes.
#[allow(non_snake_case)]
pub fn __fib(n: u16, hm: &mut HashMap<u16, u128>) -> (r: u128)
    requires
        old(hm)@.contains_key(n) || (n >= 1 && fib_memo_ok(old(hm)@) && fib_spec(n as nat)
            <= u128::MAX),
    ensures
        old(hm)@.contains_key(n) ==> r == old(hm)@[n] && final(hm)@ == old(hm)@,
        n >= 1 && fib_memo_ok(old(hm)@) && fib_spec(n as nat) <= u128::MAX ==> {
            &&& r == fib_spec(n as nat)
            &&& fib_memo_ok(final(hm)@)
            &&& final(hm)@.contains_key(n)
            &&& forall|k: u16| #[trigger]
                old(hm)@.contains_key(k) ==> final(hm)@.contains_key(k) && final(hm)@[k] == old(
                    hm,
                )@[k]
            &&& forall|k: u16| #[trigger]
                final(hm)@.contains_key(k) && !old(hm)@.contains_key(k) ==> 3 <= k <= n
        },
    decreases n,
{
    if hm.contains_key(&n) {
        return *hm.get(&n).unwrap();
    }
    let a = __fib(n - 1, hm);
    let b = __fib(n - 2, hm);
    let result = a + b;
    hm.insert(n, result);
    *hm.get(&n).unwrap()
}

/// The `n`-th Fibonacci number, counting from `fib(1) == 1`; `n == 0` is refused.
pub fn fib(n: u16) -> (r: Result<u128, &'static str>)
    requires
        fib_spec(n as nat) <= u128::MAX,
    ensures
        n == 0 ==> r == Err::<u128, &'static str>("n must be at least 1"),
        n >= 1 ==> r == Ok::<u128, &'static str>(fib_spec(n as nat) as u128),
{
    if n == 0 {
        return Err("n must be at least 1");
    }
    assert(fib_spec(1) == 1 && fib_spec(2) == 1) by {
        reveal_with_fuel(fib_spec, 3);
    }
    if n <= 2 {
        return Ok(1);
    }
    let mut hm: HashMap<u16, u128> = HashMap::new();
    hm.insert(1, 1);
    hm.insert(2, 1);
    Ok(__fib(n, &mut hm))
}

/// The `i`-th Fibonacci number, computed from a fresh memo table filled
/// from 3 up to `i`.
pub fn fib_with_fresh_memo(i: u16) -> (r: u128)
    requires
        i >= 1,
        fib_spec(i as nat) <= u128::MAX,
    ensures
        r == fib_spec(i as nat),
{
    let mut hm: HashMap<u16, u128> = HashMap::new();
    hm.insert(1, 1);
    hm.insert(2, 1);
    assert(fib_spec(1) == 1 && fib_spec(2) == 1) by {
        reveal_with_fuel(fib_spec, 3);
    }
    let mut j: u32 = 3;
    while j <= i as u32
        invariant
            3 <= j,
            i >= 3 ==> j <= i + 1,
            fib_memo_ok(hm@),
            fib_spec(i as nat) <= u128::MAX,
            forall|k: u16| 1 <= k < j ==> #[trigger] hm@.contains_key(k),
        decreases i + 1 - j,
    {
        proof {
            lemma_fib_monotone(j as nat, i as nat);
        }
        let ghost before = hm@;
        __fib(j as u16, &mut hm);
        assert forall|k: u16| 1 <= k < j + 1 implies #[trigger] hm@.contains_key(k) by {
            if k < j {
                assert(before.contains_key(k));
            }
        }
        j = j + 1;
    }
    assert(hm@.contains_key(i));
    *hm.get(&i).unwrap()
}

/// The Fibonacci numbers 1..=n, in order, each computed on a worker thread
/// of rayon's pool from a fresh memo table.
///
/// Trusted: rayon's `into_par_iter` on a `RangeInclusive<u16>` (an indexed
/// parallel iterator), `map`, and `collect` into a `Vec`, which keeps the
/// items in the order of the range. The closure only calls
/// `fib_with_fresh_memo`, whose contract gives each item.
#[verifier::external_body]
fn fib_table(n: u16) -> (table: Vec<u128>)
    requires
        n >= 1,
        fib_spec(n as nat) <= u128::MAX,
    ensures
        table@.len() == n,
        forall|k: int| 0 <= k < n ==> #[trigger] table@[k] == fib_spec((k + 1) as nat),
{
    (1..=n).into_par_iter().map(|i| fib_with_fresh_memo(i)).collect::<Vec<u128>>()
}

/// The `n`-th Fibonacci number, the table of the first `n` computed in
/// parallel; `n <= 2` (and so also `n == 0`) gives 1.
pub fn fib_threaded(n: u16) -> (r: u128)
    requires
        fib_spec(n as nat) <= u128::MAX,
    ensures
        n <= 2 ==> r == 1,
        n > 2 ==> r == fib_spec(n as nat),
{
    if n <= 2 {
        return 1;
    }
    let mut table = fib_table(n);
    assert(table@[n - 1] == fib_spec(n as nat));
    table.pop().unwrap()
}

/// The number of ways to travel from the top-left to the bottom-right cell
/// of an `m` by `n` grid, moving only down or right.
pub open spec fn grid_paths(m: nat, n: nat) -> nat
    decreases m + n,
{
    if m == 1 && n == 1 {
        1
    } else if m == 0 || n == 0 {
        0
    } else {
        grid_paths((m - 1) as nat, n) + grid_paths(m, (n - 1) as nat)
    }
}

/// Travelling an `m` by `n` grid has as many ways as an `n` by `m` grid.
pub proof fn lemma_grid_paths_symmetric(m: nat, n: nat)
    ensures
        grid_paths(m, n) == grid_paths(n, m),
    decreases m + n,
{
    if m == 1 && n == 1 {
    } else if m == 0 || n == 0 {
    } else {
        lemma_grid_paths_symmetric((m - 1) as nat, n);
        lemma_grid_paths_symmetric(m, (n - 1) as nat);
    }
}

/// The memo-table key of the grid size `m` by `n`.
pub open spec fn grid_key(m: u16, n: u16) -> u32 {
    (m * 65536 + n) as u32
}

/// The number of rows of the grid size that a memo key packs.
pub open spec fn key_rows(k: u32) -> nat {
    (k / 65536) as nat
}

/// The number of columns of the grid size that a memo key packs.
pub open spec fn key_columns(k: u32) -> nat {
    (k % 65536) as nat
}

proof fn lemma_grid_key_parts(m: u16, n: u16)
    ensures
        key_rows(grid_key(m, n)) == m,
        key_columns(grid_key(m, n)) == n,
{
    let k = grid_key(m, n);
    assert(k == m * 65536 + n);
    assert((m * 65536 + n) / 65536 == m && (m * 65536 + n) % 65536 == n) by (nonlinear_arith)
        requires
            0 <= n < 65536,
            0 <= m,
    ;
}

fn grid_key_of(m: u16, n: u16) -> (k: u32)
    ensures
        k == grid_key(m, n),
{
    (m as u32) * 65536 + (n as u32)
}

/// A memo table for `__grid_traveler`: every key packs a grid size of at
/// least one row and one column, and its entry is the number of ways
/// through that grid.
pub open spec fn grid_memo_ok(memo: Map<u32, u128>) -> bool {
    forall|k: u32| #[trigger]
        memo.contains_key(k) ==> key_rows(k) >= 1 && key_columns(k) >= 1 && memo[k] == grid_paths(
            key_rows(k),
            key_columns(k),
        )
}

/// Memoised grid-path count: looks up `m` by `n` and `n` by `m` in `hm`
/// before computing, and records what it computes.
#[allow(non_snake_case)]
pub fn __grid_traveler(m: u16, n: u16, hm: &mut HashMap<u32, u128>) -> (r: u128)
    requires
        old(hm)@.contains_key(grid_key(m, n)) || old(hm)@.contains_key(grid_key(n, m)) || (
        grid_memo_ok(old(hm)@) && grid_paths(m as nat, n as nat) <= u128::MAX),
    ensures
        old(hm)@.contains_key(grid_key(m, n)) ==> r == old(hm)@[grid_key(m, n)] && final(hm)@
            == old(hm)@,
        !old(hm)@.contains_key(grid_key(m, n)) && old(hm)@.contains_key(grid_key(n, m)) ==> r
            == old(hm)@[grid_key(n, m)] && final(hm)@ == old(hm)@,
        grid_memo_ok(old(hm)@) && grid_paths(m as nat, n as nat) <= u128::MAX ==> {
            &&& r == grid_paths(m as nat, n as nat)
            &&& grid_memo_ok(final(hm)@)
            &&& forall|k: u32| #[trigger]
                old(hm)@.contains_key(k) ==> final(hm)@.contains_key(k) && final(hm)@[k] == old(
                    hm,
                )@[k]
        },
    decreases m + n,
{
    proof {
        lemma_grid_key_parts(m, n);
        lemma_grid_key_parts(n, m);
    }
    let key = grid_key_of(m, n);
    if hm.contains_key(&key) {
        return *hm.get(&key).unwrap();
    }
    let swapped = grid_key_of(n, m);
    if hm.contains_key(&swapped) {
        proof {
            lemma_grid_paths_symmetric(m as nat, n as nat);
        }
        return *hm.get(&swapped).unwrap();
    }
    if m == 1 && n == 1 {
        return 1;
    }
    if m == 0 || n == 0 {
        return 0;
    }
    let ghost start = hm@;
    let a = __grid_traveler(m - 1, n, hm);
    let b = __grid_traveler(m, n - 1, hm);
    let result = a + b;
    let ghost before = hm@;
    hm.insert(key, result);
    assert forall|k: u32| #[trigger] hm@.contains_key(k) implies key_rows(k) >= 1 && key_columns(k)
        >= 1 && hm@[k] == grid_paths(key_rows(k), key_columns(k)) by {
        if k != key {
            assert(before.contains_key(k));
        }
    }
    assert forall|k: u32| #[trigger] start.contains_key(k) implies hm@.contains_key(k) && hm@[k]
        == start[k] by {
        assert(before.contains_key(k));
    }
    *hm.get(&key).unwrap()
}

/// The number of ways through an `m` by `n` grid, moving only down or right.
pub fn grid_traveler(m: u16, n: u16) -> (r: u128)
    requires
        grid_paths(m as nat, n as nat) <= u128::MAX,
    ensures
        r == grid_paths(m as nat, n as nat),
{
    if m == 1 && n == 1 {
        return 1;
    }
    if m == 0 || n == 0 {
        return 0;
    }
    let mut hm: HashMap<u32, u128> = HashMap::new();
    __grid_traveler(m, n, &mut hm)
}

} // verus!
