//! Generalized Banker's-algorithm safety check.
//!
//! Given per-slot availability (`work`), per-task allocation rows and
//! per-task outstanding-request rows (`need`), the check simulates whether
//! every task can finish: repeatedly, the first unfinished task whose need
//! row fits under the remaining availability is retired and its allocation
//! returned to the pool. The request under test is safe exactly when the
//! simulation retires every task.
use vstd::prelude::*;

use crate::MAX_TASKS;

verus! {

/// Upper bound on the magnitude of each initial availability entry fed to
/// the check; keeps the in-simulation additions inside `i128`.
pub const WORK_LIMIT: i128 = 0x1000_0000_0000_0000_0000;

/// True when `row` fits under `w` pointwise.
pub open spec fn row_fits(row: Seq<int>, w: Seq<int>) -> bool {
    forall|j: int| 0 <= j < w.len() ==> #[trigger] row[j] <= w[j]
}

/// `w` plus `row`, pointwise.
pub open spec fn vec_add(w: Seq<int>, row: Seq<int>) -> Seq<int> {
    Seq::new(w.len(), |j: int| w[j] + row[j])
}

/// Index of the first unfinished task at or after `k` whose need row fits
/// under `w`, if any.
pub open spec fn first_eligible(w: Seq<int>, need: Seq<Seq<int>>, fin: Seq<bool>, k: int) -> Option<
    int,
>
    decreases need.len() - k,
{
    if k < 0 || k >= need.len() {
        None::<int>
    } else if !fin[k] && row_fits(need[k], w) {
        Some(k)
    } else {
        first_eligible(w, need, fin, k + 1)
    }
}

/// Number of tasks not yet retired.
pub open spec fn count_unfinished(fin: Seq<bool>) -> nat
    decreases fin.len(),
{
    if fin.len() == 0 {
        0nat
    } else {
        (if fin.last() {
            0nat
        } else {
            1nat
        }) + count_unfinished(fin.drop_last())
    }
}

/// True when every task is retired.
pub open spec fn all_finished(fin: Seq<bool>) -> bool {
    forall|i: int| 0 <= i < fin.len() ==> fin[i]
}

proof fn lemma_count_unfinished_le_len(fin: Seq<bool>)
    ensures
        count_unfinished(fin) <= fin.len(),
    decreases fin.len(),
{
    if fin.len() > 0 {
        lemma_count_unfinished_le_len(fin.drop_last());
    }
}

proof fn lemma_count_unfinished_update(fin: Seq<bool>, i: int)
    requires
        0 <= i < fin.len(),
        !fin[i],
    ensures
        count_unfinished(fin.update(i, true)) < count_unfinished(fin),
    decreases fin.len(),
{
    let upd = fin.update(i, true);
    if i == fin.len() - 1 {
        assert(upd.drop_last() =~= fin.drop_last());
        assert(upd.last());
        assert(!fin.last());
    } else {
        assert(upd.drop_last() =~= fin.drop_last().update(i, true));
        lemma_count_unfinished_update(fin.drop_last(), i);
        assert(upd.last() == fin.last());
    }
}

proof fn lemma_first_eligible_some(w: Seq<int>, need: Seq<Seq<int>>, fin: Seq<bool>, k: int)
    ensures
        match first_eligible(w, need, fin, k) {
            Some(i) => 0 <= i < need.len() && k <= i && !fin[i] && row_fits(need[i], w),
            None => true,
        },
    decreases need.len() - k,
{
    if k < 0 || k >= need.len() {
    } else if !fin[k] && row_fits(need[k], w) {
    } else {
        lemma_first_eligible_some(w, need, fin, k + 1);
    }
}

/// True when, starting from availability `w` and retired-set `fin`, the
/// greedy simulation retires every task.
pub open spec fn bankers_from(
    w: Seq<int>,
    alloc: Seq<Seq<int>>,
    need: Seq<Seq<int>>,
    fin: Seq<bool>,
) -> bool
    decreases count_unfinished(fin),
    when fin.len() == need.len()
    via bankers_from_decreases
{
    match first_eligible(w, need, fin, 0) {
        None => all_finished(fin),
        Some(i) => bankers_from(vec_add(w, alloc[i]), alloc, need, fin.update(i, true)),
    }
}

#[via_fn]
proof fn bankers_from_decreases(
    w: Seq<int>,
    alloc: Seq<Seq<int>>,
    need: Seq<Seq<int>>,
    fin: Seq<bool>,
) {
    match first_eligible(w, need, fin, 0) {
        None => {},
        Some(i) => {
            lemma_first_eligible_some(w, need, fin, 0);
            lemma_count_unfinished_update(fin, i);
        },
    }
}

/// True when the state described by availability `w`, allocation matrix
/// `alloc` and request matrix `need` is safe: the simulation can retire
/// every task.
pub open spec fn bankers_safe(w: Seq<int>, alloc: Seq<Seq<int>>, need: Seq<Seq<int>>) -> bool {
    bankers_from(w, alloc, need, Seq::new(need.len(), |i: int| false))
}

/// The entries of an availability vector, as mathematical integers.
pub open spec fn work_view(w: Seq<i128>) -> Seq<int> {
    Seq::new(w.len(), |j: int| w[j] as int)
}

/// The entries of one allocation or need row, as mathematical integers.
pub open spec fn row_view(r: Seq<usize>) -> Seq<int> {
    Seq::new(r.len(), |j: int| r[j] as int)
}

/// The rows of an allocation or need matrix, as mathematical integers.
pub open spec fn mat_view(m: Seq<Vec<usize>>) -> Seq<Seq<int>> {
    Seq::new(m.len(), |i: int| row_view(m[i]@))
}

fn row_le(row: &Vec<usize>, w: &Vec<i128>) -> (r: bool)
    requires
        row@.len() == w@.len(),
    ensures
        r == row_fits(row_view(row@), work_view(w@)),
{
    let mut j: usize = 0;
    while j < w.len()
        invariant
            j <= w@.len(),
            row@.len() == w@.len(),
            forall|jj: int| 0 <= jj < j ==> #[trigger] row_view(row@)[jj] <= work_view(w@)[jj],
        decreases w@.len() - j,
    {
        if (row[j] as i128) > w[j] {
            proof {
                assert(row_view(row@)[j as int] > work_view(w@)[j as int]);
            }
            return false;
        }
        j += 1;
    }
    true
}

/// Runs the Banker's safety simulation on an explicit snapshot: `work` is
/// the remaining availability per slot, `alloc` and `need` hold one row per
/// task. Returns whether every task can finish.
#[verifier::loop_isolation(false)]
pub fn bankers_check(work: &Vec<i128>, alloc: &Vec<Vec<usize>>, need: &Vec<Vec<usize>>) -> (r:
    bool)
    requires
        alloc@.len() == need@.len(),
        need@.len() <= MAX_TASKS,
        forall|i: int| 0 <= i < need@.len() ==> (#[trigger] alloc@[i])@.len() == work@.len(),
        forall|i: int| 0 <= i < need@.len() ==> (#[trigger] need@[i])@.len() == work@.len(),
        forall|j: int|
            0 <= j < work@.len() ==> -WORK_LIMIT <= #[trigger] work@[j] <= WORK_LIMIT,
    ensures
        r == bankers_safe(work_view(work@), mat_view(alloc@), mat_view(need@)),
{
    let ghost w0: Seq<int> = work_view(work@);
    let ghost am: Seq<Seq<int>> = mat_view(alloc@);
    let ghost nm: Seq<Seq<int>> = mat_view(need@);
    let n: usize = need.len();
    let m: usize = work.len();
    let mut w: Vec<i128> = Vec::new();
    let mut j: usize = 0;
    while j < m
        invariant
            j <= m,
            w@ == work@.subrange(0, j as int),
        decreases m - j,
    {
        w.push(work[j]);
        proof {
            assert(w@ =~= work@.subrange(0, j + 1));
        }
        j += 1;
    }
    proof {
        assert(w@ =~= work@);
    }
    let mut fin: Vec<bool> = Vec::new();
    let mut t: usize = 0;
    while t < n
        invariant
            t <= n,
            fin@.len() == t,
            forall|i: int| 0 <= i < t ==> !(#[trigger] fin@[i]),
        decreases n - t,
    {
        fin.push(false);
        t += 1;
    }
    proof {
        assert(fin@ =~= Seq::new(n as nat, |i: int| false));
        lemma_count_unfinished_le_len(fin@);
    }
    let mut done: bool = false;
    while !done
        invariant
            w@.len() == m,
            fin@.len() == n,
            count_unfinished(fin@) <= n,
            forall|j: int| 0 <= j < m ==> w0[j] <= #[trigger] (w@[j] as int),
            forall|j: int|
                0 <= j < m ==> #[trigger] (w@[j] as int) <= w0[j] + (n - count_unfinished(fin@))
                    * 0xFFFF_FFFF_FFFF_FFFFint,
            bankers_from(work_view(w@), am, nm, fin@) == bankers_safe(w0, am, nm),
            done ==> first_eligible(work_view(w@), nm, fin@, 0) is None,
        decreases count_unfinished(fin@) + (if done {
            0int
        } else {
            1int
        }),
    {
        let ghost cw: Seq<int> = work_view(w@);
        let ghost cf: Seq<bool> = fin@;
        let mut pick: usize = n;
        let mut i: usize = 0;
        while i < n && pick == n
            invariant
                i <= n,
                pick == n || (pick < n && first_eligible(cw, nm, cf, 0) == Some(pick as int)),
                pick == n ==> first_eligible(cw, nm, cf, 0) == first_eligible(
                    cw,
                    nm,
                    cf,
                    i as int,
                ),
                w@.len() == m,
                fin@ == cf,
                work_view(w@) == cw,
            decreases n - i + (if pick == n {
                1int
            } else {
                0int
            }),
        {
            proof {
                assert((need@[i as int])@.len() == work@.len());
            }
            if !fin[i] && row_le(&need[i], &w) {
                proof {
                    assert(nm[i as int] == row_view(need@[i as int]@));
                    assert(first_eligible(cw, nm, cf, i as int) == Some(i as int));
                }
                pick = i;
            } else {
                proof {
                    assert(first_eligible(cw, nm, cf, i as int) == first_eligible(
                        cw,
                        nm,
                        cf,
                        i + 1,
                    ));
                }
                i += 1;
            }
        }
        if pick == n {
            proof {
                assert(first_eligible(cw, nm, cf, 0) == first_eligible(cw, nm, cf, n as int));
                assert(first_eligible(cw, nm, cf, n as int) is None);
            }
            done = true;
        } else {
            let ghost cu: nat = count_unfinished(cf);
            proof {
                lemma_first_eligible_some(cw, nm, cf, 0);
                lemma_count_unfinished_update(cf, pick as int);
            }
            let mut j: usize = 0;
            while j < m
                invariant
                    j <= m,
                    pick < n,
                    w@.len() == m,
                    fin@ == cf,
                    alloc@[pick as int]@.len() == m,
                    forall|jj: int|
                        j <= jj < m ==> #[trigger] (w@[jj] as int) == cw[jj],
                    forall|jj: int|
                        0 <= jj < j ==> #[trigger] (w@[jj] as int) == cw[jj] + am[pick as int][jj],
                    forall|jj: int| 0 <= jj < m ==> w0[jj] <= #[trigger] (w@[jj] as int),
                    forall|jj: int|
                        0 <= jj < m ==> #[trigger] (w@[jj] as int) <= w0[jj] + (n - cu + 1)
                            * 0xFFFF_FFFF_FFFF_FFFFint,
                decreases m - j,
            {
                let a: usize = alloc[pick][j];
                proof {
                    assert(am[pick as int][j as int] == a as int);
                    assert(cw[j as int] <= w0[j as int] + (n - cu) * 0xFFFF_FFFF_FFFF_FFFFint);
                    assert((n - cu) * 0xFFFF_FFFF_FFFF_FFFFint + 0xFFFF_FFFF_FFFF_FFFFint == (n
                        - cu + 1) * 0xFFFF_FFFF_FFFF_FFFFint);
                    assert((n - cu + 1) * 0xFFFF_FFFF_FFFF_FFFFint <= MAX_TASKS
                        * 0xFFFF_FFFF_FFFF_FFFFint);
                }
                w[j] = w[j] + (a as i128);
                j += 1;
            }
            fin[pick] = true;
            proof {
                assert(work_view(w@) =~= vec_add(cw, am[pick as int]));
                assert(bankers_from(cw, am, nm, cf) == bankers_from(
                    vec_add(cw, am[pick as int]),
                    am,
                    nm,
                    cf.update(pick as int, true),
                ));
                assert(fin@ == cf.update(pick as int, true));
                assert(count_unfinished(fin@) < cu);
            }
        }
    }
    let mut all: bool = true;
    let mut i: usize = 0;
    while i < n
        invariant
            i <= n,
            fin@.len() == n,
            all == (forall|k: int| 0 <= k < i ==> #[trigger] fin@[k]),
        decreases n - i,
    {
        if !fin[i] {
            all = false;
        }
        i += 1;
    }
    proof {
        assert(all == all_finished(fin@));
    }
    all
}

} // verus!
