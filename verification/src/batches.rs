//! Batches: the files to replay, cut into consecutive groups of a fixed
//! size. The files of one batch are replayed at the same time, and a batch
//! is begun only when the batch before it is done.

use vstd::arithmetic::div_mod::lemma_fundamental_div_mod;
use vstd::prelude::*;

verus! {

/// The number of batches that `total` files make when a batch holds up to
/// `parallel` of them: `total / parallel`, rounded up.
pub open spec fn batch_count(total: nat, parallel: nat) -> nat
    recommends
        parallel >= 1,
{
    if total % parallel == 0 {
        total / parallel
    } else {
        total / parallel + 1
    }
}

/// Where the batch numbered `index` begins.
pub open spec fn batch_start(index: nat, parallel: nat) -> nat {
    index * parallel
}

/// Where the batch numbered `index` ends: `parallel` files behind its start,
/// or with the last file.
pub open spec fn batch_end(total: nat, index: nat, parallel: nat) -> nat {
    if index * parallel + parallel <= total {
        index * parallel + parallel
    } else {
        total
    }
}

/// The batch numbered `index`.
pub open spec fn batch(files: Seq<Seq<char>>, index: nat, parallel: nat) -> Seq<Seq<char>> {
    files.subrange(
        batch_start(index, parallel) as int,
        batch_end(files.len(), index, parallel) as int,
    )
}

/// The batches that the files are replayed in, in order.
pub open spec fn batches_of(files: Seq<Seq<char>>, parallel: nat) -> Seq<Seq<Seq<char>>> {
    Seq::new(batch_count(files.len(), parallel), |index: int| batch(files, index as nat, parallel))
}

/// The number of batches is the one number of groups of `parallel` files
/// that both reaches the last file and has no empty group.
pub proof fn lemma_batch_count(total: nat, parallel: nat, count: nat)
    requires
        parallel >= 1,
        count * parallel >= total,
        count == 0 || (count - 1) * parallel < total,
    ensures
        count == batch_count(total, parallel),
{
    let quotient = total / parallel;
    let remainder = total % parallel;
    lemma_fundamental_div_mod(total as int, parallel as int);
    assert(count == batch_count(total, parallel)) by (nonlinear_arith)
        requires
            parallel >= 1,
            count * parallel >= total,
            count == 0 || (count - 1) * parallel < total,
            total == parallel * quotient + remainder,
            0 <= remainder < parallel,
            batch_count(total, parallel) == if remainder == 0 {
                quotient
            } else {
                quotient + 1
            },
    {
        if remainder == 0 {
            if count < quotient {
                assert(count * parallel <= (quotient - 1) * parallel);
            }
            if count > quotient {
                assert((count - 1) * parallel >= quotient * parallel);
            }
        } else {
            if count <= quotient {
                assert(count * parallel <= quotient * parallel);
            }
            if count > quotient + 1 {
                assert((count - 1) * parallel >= (quotient + 1) * parallel);
            }
        }
    }
}

/// Every batch holds at least one file and at most `parallel`, and every
/// batch but the last holds exactly `parallel`.
pub proof fn lemma_batch_sizes(files: Seq<Seq<char>>, parallel: nat, index: nat)
    requires
        parallel >= 1,
        index < batch_count(files.len(), parallel),
    ensures
        1 <= batch(files, index, parallel).len() <= parallel,
        index + 1 < batch_count(files.len(), parallel) ==> batch(files, index, parallel).len()
            == parallel,
        batch_start(index, parallel) < batch_end(files.len(), index, parallel) <= files.len(),
{
    let total = files.len();
    let quotient = total / parallel;
    let remainder = total % parallel;
    lemma_fundamental_div_mod(total as int, parallel as int);
    assert(index * parallel < total && (index + 1 < batch_count(total, parallel) ==> index
        * parallel + parallel <= total)) by (nonlinear_arith)
        requires
            parallel >= 1,
            total == parallel * quotient + remainder,
            0 <= remainder < parallel,
            index < batch_count(total, parallel),
            batch_count(total, parallel) == if remainder == 0 {
                quotient
            } else {
                quotient + 1
            },
    {
        if remainder == 0 {
            assert((index + 1) * parallel <= quotient * parallel);
        } else {
            assert(index * parallel <= quotient * parallel);
            if index + 1 < quotient + 1 {
                assert((index + 1) * parallel <= quotient * parallel);
            }
        }
    }
}

/// The file numbered `job` is in the batch numbered `job / parallel`, at
/// place `job % parallel`.
pub proof fn lemma_batch_of_file(files: Seq<Seq<char>>, parallel: nat, job: nat)
    requires
        parallel >= 1,
        job < files.len(),
    ensures
        job / parallel < batch_count(files.len(), parallel),
        job % parallel < batch(files, job / parallel, parallel).len(),
        batch(files, job / parallel, parallel)[(job % parallel) as int] == files[job as int],
{
    let total = files.len();
    let index = job / parallel;
    lemma_fundamental_div_mod(job as int, parallel as int);
    lemma_fundamental_div_mod(total as int, parallel as int);
    assert(index < batch_count(total, parallel) && index * parallel + job % parallel == job)
        by (nonlinear_arith)
        requires
            parallel >= 1,
            job < total,
            job == parallel * index + job % parallel,
            0 <= job % parallel < parallel,
            total == parallel * (total / parallel) + total % parallel,
            0 <= total % parallel < parallel,
            batch_count(total, parallel) == if total % parallel == 0 {
                total / parallel
            } else {
                total / parallel + 1
            },
    {
        if index > total / parallel {
            assert(parallel * index >= parallel * (total / parallel + 1));
        }
        if index == total / parallel && total % parallel == 0 {
            assert(parallel * index == parallel * (total / parallel));
        }
    }
    lemma_batch_sizes(files, parallel, index);
}

/// The first batches, one after the other, are the first files.
pub proof fn lemma_batches_in_order(files: Seq<Seq<char>>, parallel: nat, count: nat)
    requires
        parallel >= 1,
        count <= batch_count(files.len(), parallel),
    ensures
        batches_of(files, parallel).take(count as int).flatten() == files.take(
            if count == 0 {
                0
            } else {
                batch_end(files.len(), (count - 1) as nat, parallel) as int
            },
        ),
    decreases count,
{
    let all = batches_of(files, parallel);
    if count == 0 {
        assert(all.take(0) =~= Seq::<Seq<Seq<char>>>::empty());
        assert(all.take(0).flatten() =~= files.take(0));
    } else {
        let before = (count - 1) as nat;
        lemma_batches_in_order(files, parallel, before);
        lemma_batch_sizes(files, parallel, before);
        if before > 0 {
            lemma_batch_sizes(files, parallel, (before - 1) as nat);
            assert(batch_end(files.len(), (before - 1) as nat, parallel) == batch_start(
                before,
                parallel,
            )) by (nonlinear_arith)
                requires
                    before > 0,
                    batch_end(files.len(), (before - 1) as nat, parallel) == (before - 1)
                        * parallel + parallel,
                    batch_start(before, parallel) == before * parallel,
            ;
        }
        assert(all.take(count as int) =~= all.take(before as int).push(all[before as int]));
        all.take(before as int).lemma_flatten_push(all[before as int]);
        assert(all.take(count as int).flatten() =~= files.take(
            batch_end(files.len(), before, parallel) as int,
        ));
    }
}

/// The batches, one after the other, are the files in their order: every
/// file is in exactly one batch.
pub proof fn lemma_batches_cover(files: Seq<Seq<char>>, parallel: nat)
    requires
        parallel >= 1,
    ensures
        batches_of(files, parallel).flatten() == files,
{
    let all = batches_of(files, parallel);
    let count = batch_count(files.len(), parallel);
    lemma_batches_in_order(files, parallel, count);
    assert(all.take(count as int) =~= all);
    if count == 0 {
        lemma_fundamental_div_mod(files.len() as int, parallel as int);
        assert(files.len() == 0) by (nonlinear_arith)
            requires
                parallel >= 1,
                files.len() == parallel * (files.len() / parallel) + (files.len() % parallel),
                batch_count(files.len(), parallel) == 0,
                batch_count(files.len(), parallel) == if files.len() % parallel == 0 {
                    files.len() / parallel
                } else {
                    files.len() / parallel + 1
                },
        ;
        assert(files.take(0) =~= files);
    } else {
        let last = (count - 1) as nat;
        lemma_batch_sizes(files, parallel, last);
        lemma_fundamental_div_mod(files.len() as int, parallel as int);
        assert(batch_end(files.len(), last, parallel) == files.len()) by (nonlinear_arith)
            requires
                parallel >= 1,
                count >= 1,
                last == count - 1,
                files.len() == parallel * (files.len() / parallel) + (files.len() % parallel),
                0 <= files.len() % parallel < parallel,
                count == if files.len() % parallel == 0 {
                    files.len() / parallel
                } else {
                    files.len() / parallel + 1
                },
                batch_end(files.len(), last, parallel) == if last * parallel + parallel
                    <= files.len() {
                    last * parallel + parallel
                } else {
                    files.len()
                },
        ;
        assert(files.take(files.len() as int) =~= files);
    }
}

/// Cuts the files into the batches that they are replayed in.
pub fn split_into_batches(files: &Vec<String>, parallel: usize) -> (batches: Vec<Vec<String>>)
    requires
        parallel >= 1,
    ensures
        batches.deep_view() == batches_of(files.deep_view(), parallel as nat),
{
    let ghost names = files.deep_view();
    let mut batches: Vec<Vec<String>> = Vec::new();
    let mut start: usize = 0;
    while start < files.len()
        invariant
            parallel >= 1,
            names == files.deep_view(),
            start <= files.len(),
            start <= batches.len() * parallel,
            start < files.len() ==> start == batches.len() * parallel,
            batches.len() > 0 ==> (batches.len() - 1) * parallel < start,
            forall|index: int|
                0 <= index < batches.len() ==> (#[trigger] batches[index]).deep_view() == batch(
                    names,
                    index as nat,
                    parallel as nat,
                ),
        decreases files.len() - start,
    {
        let ghost index = batches.len() as nat;
        let end = if files.len() - start > parallel {
            start + parallel
        } else {
            files.len()
        };
        assert(start == batch_start(index, parallel as nat));
        assert(end == batch_end(names.len(), index, parallel as nat));
        let mut group: Vec<String> = Vec::new();
        let mut at = start;
        while at < end
            invariant
                start <= at <= end <= files.len(),
                names == files.deep_view(),
                group.deep_view() == names.subrange(start as int, at as int),
            decreases end - at,
        {
            let ghost copied = group.deep_view();
            group.push(files[at].clone());
            assert(group.deep_view() =~= copied.push(names[at as int]));
            assert(names.subrange(start as int, at + 1) =~= names.subrange(
                start as int,
                at as int,
            ).push(names[at as int]));
            at = at + 1;
        }
        batches.push(group);
        assert((index + 1) * parallel == index * parallel + parallel) by (nonlinear_arith);
        start = end;
    }
    proof {
        let count = batches.len() as nat;
        if count == 0 {
            assert(0 * (parallel as nat) == 0) by (nonlinear_arith);
        }
        lemma_batch_count(files.len() as nat, parallel as nat, count);
        assert(batches.deep_view() =~= batches_of(names, parallel as nat));
    }
    batches
}

} // verus!
