//! The assignment of samples to workers, and why the order in which their results
//! arrive does not matter.
//!
//! Samples are numbered row by row. With `workers` workers, worker `j` takes the
//! samples `j`, `j + workers`, `j + 2 * workers`, and so on: a stride through the
//! whole sample space, so that each worker gets its part of every region.

use crate::grid::merged;
use crate::grid::written;
use crate::iterate::Outcome;
use vstd::arithmetic::div_mod::lemma_fundamental_div_mod;
use vstd::arithmetic::div_mod::lemma_fundamental_div_mod_converse;
use vstd::prelude::*;

verus! {

/// The number of samples below `total` among `worker`, `worker + workers`,
/// `worker + 2 * workers`, ...
pub open spec fn share(worker: nat, workers: nat, total: nat) -> nat
    decreases
            (if worker < total {
                total - worker
            } else {
                0
            }),
{
    if workers == 0 || worker >= total {
        0
    } else {
        1 + share(worker + workers, workers, total)
    }
}

/// The samples of one worker, in the order in which it takes them.
pub open spec fn stride(worker: nat, workers: nat, total: nat) -> Seq<usize> {
    Seq::new(share(worker, workers, total), |k: int| (worker + k * workers) as usize)
}

/// A worker's share is exactly as long as its stride stays below `total`.
pub proof fn lemma_share_bounds(worker: nat, workers: nat, total: nat, k: int)
    requires
        workers > 0,
        0 <= k,
    ensures
        k < share(worker, workers, total) <==> worker + k * workers < total,
    decreases k,
{
    assert(0 * workers == 0) by (nonlinear_arith);
    assert(k * workers >= 0) by (nonlinear_arith)
        requires
            k >= 0,
            workers >= 0,
    ;
    if worker < total && k > 0 {
        lemma_share_bounds(worker + workers, workers, total, k - 1);
        assert((k - 1) * workers + workers == k * workers) by (nonlinear_arith);
    }
}

/// The samples that worker `worker` takes out of `total` when the work is shared
/// among `workers` workers: those whose index is `worker` plus a multiple of
/// `workers`, in rising order.
pub fn worker_slice(worker: usize, workers: usize, total: usize) -> (slice: Vec<usize>)
    requires
        workers > 0,
    ensures
        slice@ == stride(worker as nat, workers as nat, total as nat),
{
    let mut slice: Vec<usize> = Vec::new();
    let mut i: usize = worker;
    proof {
        assert(0 * workers == 0) by (nonlinear_arith);
    }
    while i < total
        invariant
            workers > 0,
            share(worker as nat, workers as nat, total as nat) == slice@.len() + share(
                i as nat,
                workers as nat,
                total as nat,
            ),
            i < total ==> i == worker + slice@.len() * workers,
            forall|k: int| 0 <= k < slice@.len() ==> slice@[k] == worker + k * workers,
        decreases total - i,
    {
        slice.push(i);
        proof {
            assert((slice@.len() - 1) * workers + workers == slice@.len() * workers)
                by (nonlinear_arith);
            assert(share(i as nat, workers as nat, total as nat) == 1 + share(
                (i + workers) as nat,
                workers as nat,
                total as nat,
            ));
            if total - i <= workers {
                assert(share((i + workers) as nat, workers as nat, total as nat) == 0);
                assert(share(total as nat, workers as nat, total as nat) == 0);
            }
        }
        if total - i <= workers {
            i = total;
        } else {
            i = i + workers;
        }
    }
    assert(slice@ =~= stride(worker as nat, workers as nat, total as nat));
    slice
}

/// Partition completeness: with `workers` workers, every sample below `total` is
/// taken by exactly one worker, exactly once. Sample `i` is the sample number
/// `i div workers` of worker `i mod workers`, and of no other worker and at no
/// other place.
pub proof fn lemma_partition_complete(workers: nat, total: nat, i: int)
    requires
        workers > 0,
        total <= usize::MAX,
        0 <= i < total,
    ensures
        0 <= i % (workers as int) < workers,
        0 <= i / (workers as int) < share((i % (workers as int)) as nat, workers, total),
        stride((i % (workers as int)) as nat, workers, total)[i / (workers as int)] == i,
        forall|j: nat, k: int|
            j < workers && 0 <= k < share(j, workers, total) && #[trigger] stride(
                j,
                workers,
                total,
            )[k] == i ==> j == i % (workers as int) && k == i / (workers as int),
{
    let w = workers as int;
    lemma_fundamental_div_mod(i, w);
    let q = i / w;
    let r = i % w;
    assert(w * q == q * w) by (nonlinear_arith);
    assert(q >= 0) by (nonlinear_arith)
        requires
            i == w * q + r,
            0 <= r < w,
            0 <= i,
    ;
    lemma_share_bounds(r as nat, workers, total, q);
    assert forall|j: nat, k: int|
        j < workers && 0 <= k < share(j, workers, total) && #[trigger] stride(
            j,
            workers,
            total,
        )[k] == i implies j == r && k == q by {
        lemma_share_bounds(j, workers, total, k);
        lemma_fundamental_div_mod_converse(i, w, k, j as int);
    }
}

/// The escape-time results `results` aim at cells of a grid of `len` cells, and no
/// two of them at the same cell.
pub open spec fn aims_once(results: Seq<(usize, Outcome)>, len: nat) -> bool {
    &&& forall|i: int| 0 <= i < results.len() ==> (#[trigger] results[i]).0 < len
    &&& forall|i: int, j: int|
        0 <= i < j < results.len() ==> (#[trigger] results[i]).0 != (#[trigger] results[j]).0
}

/// Where no two results aim at the same cell, the cell `c` is decided by the one
/// result that aims at it, and keeps its value where none does.
proof fn lemma_merged_cell(cells: Seq<u32>, results: Seq<(usize, Outcome)>, c: int)
    requires
        aims_once(results, cells.len()),
        0 <= c < cells.len(),
    ensures
        merged(cells, results).len() == cells.len(),
        forall|i: int|
            0 <= i < results.len() && (#[trigger] results[i]).0 == c ==> merged(cells, results)[c]
                == written(cells, c, results[i].1)[c],
        (forall|i: int| 0 <= i < results.len() ==> (#[trigger] results[i]).0 != c) ==> merged(
            cells,
            results,
        )[c] == cells[c],
    decreases results.len(),
{
    if results.len() > 0 {
        let front = results.drop_last();
        let last = results.last();
        assert(last == results[results.len() - 1]);
        assert forall|i: int| 0 <= i < front.len() implies (#[trigger] front[i]).0
            < cells.len() by {
            assert(front[i] == results[i]);
        }
        assert forall|i: int, j: int| 0 <= i < j < front.len() implies (#[trigger] front[i]).0 != (
        #[trigger] front[j]).0 by {
            assert(front[i] == results[i] && front[j] == results[j]);
        }
        lemma_merged_cell(cells, front, c);
        if last.0 == c {
            assert forall|i: int| 0 <= i < front.len() implies (#[trigger] front[i]).0 != c by {
                assert(front[i] == results[i]);
                assert(results[i].0 != results[results.len() - 1].0);
            }
            assert forall|i: int|
                0 <= i < results.len() && (#[trigger] results[i]).0 == c implies merged(
                cells,
                results,
            )[c] == written(cells, c, results[i].1)[c] by {
                if i < front.len() {
                    assert(front[i] == results[i]);
                }
            }
        } else {
            assert forall|i: int|
                0 <= i < results.len() && (#[trigger] results[i]).0 == c implies merged(
                cells,
                results,
            )[c] == written(cells, c, results[i].1)[c] by {
                assert(front[i] == results[i]);
            }
            if forall|i: int| 0 <= i < results.len() ==> (#[trigger] results[i]).0 != c {
                assert forall|i: int| 0 <= i < front.len() implies (#[trigger] front[i]).0
                    != c by {
                    assert(front[i] == results[i]);
                }
            }
        }
    }
}

/// Where no two results aim at the same cell, each result decides its cell alone,
/// and a cell that none aims at keeps its value.
pub proof fn lemma_merged_pointwise(cells: Seq<u32>, results: Seq<(usize, Outcome)>)
    requires
        aims_once(results, cells.len()),
    ensures
        forall|i: int|
            0 <= i < results.len() ==> merged(cells, results)[(#[trigger] results[i]).0 as int]
                == written(cells, results[i].0 as int, results[i].1)[results[i].0 as int],
        forall|c: int|
            #![trigger merged(cells, results)[c]]
            0 <= c < cells.len() && (forall|i: int|
                0 <= i < results.len() ==> (#[trigger] results[i]).0 != c) ==> merged(
                cells,
                results,
            )[c] == cells[c],
{
    assert forall|i: int| 0 <= i < results.len() implies merged(
        cells,
        results,
    )[(#[trigger] results[i]).0 as int] == written(
        cells,
        results[i].0 as int,
        results[i].1,
    )[results[i].0 as int] by {
        lemma_merged_cell(cells, results, results[i].0 as int);
    }
    assert forall|c: int|
        #![trigger merged(cells, results)[c]]
        0 <= c < cells.len() && (forall|i: int|
            0 <= i < results.len() ==> (#[trigger] results[i]).0 != c) implies merged(
        cells,
        results,
    )[c] == cells[c] by {
        lemma_merged_cell(cells, results, c);
    }
}

/// Order independence: two streams of escape-time results that hold the same
/// results, each aimed at a cell of its own, leave the same grid, in whatever order
/// either of them arrives.
pub proof fn lemma_merge_order_independent(
    cells: Seq<u32>,
    first: Seq<(usize, Outcome)>,
    second: Seq<(usize, Outcome)>,
)
    requires
        aims_once(first, cells.len()),
        aims_once(second, cells.len()),
        forall|i: int| 0 <= i < first.len() ==> second.contains(#[trigger] first[i]),
        forall|i: int| 0 <= i < second.len() ==> first.contains(#[trigger] second[i]),
    ensures
        merged(cells, first) == merged(cells, second),
{
    let a = merged(cells, first);
    let b = merged(cells, second);
    if cells.len() == 0 {
        assert(first.len() == 0) by {
            if first.len() > 0 {
                assert(first[0].0 < cells.len());
            }
        }
        assert(second.len() == 0) by {
            if second.len() > 0 {
                assert(second[0].0 < cells.len());
            }
        }
    } else {
        lemma_merged_cell(cells, first, 0);
        lemma_merged_cell(cells, second, 0);
    }
    assert forall|c: int| 0 <= c < cells.len() implies a[c] == b[c] by {
        lemma_merged_cell(cells, first, c);
        lemma_merged_cell(cells, second, c);
        if exists|i: int| 0 <= i < first.len() && (#[trigger] first[i]).0 == c {
            let i = choose|i: int| 0 <= i < first.len() && (#[trigger] first[i]).0 == c;
            assert(second.contains(first[i]));
            let j = choose|j: int| 0 <= j < second.len() && second[j] == first[i];
            assert(second[j].0 == c);
        } else {
            assert forall|j: int| 0 <= j < second.len() implies (#[trigger] second[j]).0 != c by {
                assert(first.contains(second[j]));
                let i = choose|i: int| 0 <= i < first.len() && first[i] == second[j];
                assert(first[i].0 != c);
            }
        }
    }
    assert(a =~= b);
}

} // verus!
