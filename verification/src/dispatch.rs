//! The dispatcher: ignore-set filtering and round-robin assignment.
//!
//! [`dispatch`] turns the enumerated file paths into one input queue per
//! worker: paths found in the ignore set are skipped, the i-th accepted
//! path goes to worker `i mod W`, and every queue ends with exactly one
//! termination sentinel. [`lemma_round_robin_fairness`] states the load
//! guarantee this gives: no two workers' shares differ by more than one.

use vstd::prelude::*;
use vstd::string::StringExecFns;
use vstd::arithmetic::div_mod::lemma_fundamental_div_mod;
use vstd::arithmetic::div_mod::lemma_mod_division_less_than_divisor;

verus! {

/// The views of a sequence of strings.
pub open spec fn view_seq(s: Seq<String>) -> Seq<Seq<char>> {
    s.map_values(|x: String| x@)
}

/// The views of a sequence of queues of strings.
pub open spec fn queue_views(qs: Seq<Vec<String>>) -> Seq<Seq<Seq<char>>> {
    qs.map_values(|q: Vec<String>| view_seq(q@))
}

/// The reserved message that tells a worker to stop. It is not a file
/// path: the pipeline's contracts ask the caller to keep real paths and
/// raw lines apart from it.
pub open spec fn sentinel() -> Seq<char> {
    "QUIT_TASK"@
}

/// The sentinel as a value, ready to enqueue.
pub fn sentinel_message() -> (s: String)
    ensures
        s@ == sentinel(),
{
    String::from_str("QUIT_TASK")
}

/// Whether a dequeued message is work (a file path) rather than the
/// termination sentinel.
pub fn is_work_message(m: &String) -> (r: bool)
    ensures
        r == (m@ != sentinel()),
{
    let s = sentinel_message();
    !(*m == s)
}

/// The file paths that survive the ignore set, in enumeration order.
pub open spec fn accepted_files(files: Seq<Seq<char>>, ignore: Seq<Seq<char>>) -> Seq<Seq<char>> {
    files.filter(|f: Seq<char>| !ignore.contains(f))
}

/// How many of `k` round-robin-assigned items worker `w` receives.
pub open spec fn rr_count(k: int, workers: int, w: int) -> int {
    if w < k % workers {
        k / workers + 1
    } else {
        k / workers
    }
}

/// The work (sentinel not included) that worker `w` receives: every
/// accepted path whose position is `w` modulo the worker count, in order.
pub open spec fn rr_queue(acc: Seq<Seq<char>>, workers: int, w: int) -> Seq<Seq<char>> {
    Seq::new(rr_count(acc.len() as int, workers, w) as nat, |j: int| acc[j * workers + w])
}

/// Position `j * workers + w` is a valid round-robin slot of worker `w`
/// exactly when `j` lies below the worker's share.
pub proof fn lemma_rr_index(k: int, workers: int, w: int, j: int)
    requires
        workers >= 1,
        0 <= w < workers,
        0 <= j,
        0 <= k,
    ensures
        (j * workers + w < k) <==> (j < rr_count(k, workers, w)),
{
    lemma_fundamental_div_mod(k, workers);
    lemma_mod_division_less_than_divisor(k, workers);
    let d = k / workers;
    let m = k % workers;
    assert((j * workers + w < k) <==> (j < rr_count(k, workers, w))) by (nonlinear_arith)
        requires
            k == workers * d + m,
            0 <= m < workers,
            0 <= w < workers,
            0 <= j,
            workers >= 1,
            rr_count(k, workers, w) == if w < m {
                d + 1
            } else {
                d
            },
    {}
}

/// Each worker's share is the floor or the ceiling of `k / workers`:
/// round-robin assignment is fair to within one item.
pub proof fn lemma_round_robin_fairness(k: int, workers: int, w1: int, w2: int)
    requires
        workers >= 1,
        0 <= k,
        0 <= w1 < workers,
        0 <= w2 < workers,
    ensures
        rr_count(k, workers, w1) == k / workers || rr_count(k, workers, w1) == k / workers + 1,
        k % workers == 0 ==> rr_count(k, workers, w1) == k / workers,
        rr_count(k, workers, w1) - rr_count(k, workers, w2) <= 1,
{
    lemma_mod_division_less_than_divisor(k, workers);
}

/// Whether `set` holds a string whose view is `x`'s.
fn contains_path(set: &Vec<String>, x: &String) -> (r: bool)
    ensures
        r == view_seq(set@).contains(x@),
{
    let n = set.len();
    let mut i: usize = 0;
    while i < n
        invariant
            0 <= i <= n,
            n == set@.len(),
            forall|j: int| 0 <= j < i ==> set@[j]@ != x@,
        decreases n - i,
    {
        if set[i] == *x {
            assert(view_seq(set@)[i as int] == x@);
            return true;
        }
        i = i + 1;
    }
    assert forall|j: int| 0 <= j < view_seq(set@).len() implies view_seq(set@)[j] != x@ by {}
    false
}

/// Appending one element to a sequence extends its filtered form by the
/// element exactly when the element passes the predicate.
proof fn lemma_filter_push<A>(s: Seq<A>, pred: spec_fn(A) -> bool, x: A)
    ensures
        s.push(x).filter(pred) == if pred(x) {
            s.filter(pred).push(x)
        } else {
            s.filter(pred)
        },
{
    reveal(Seq::filter);
    assert(s.push(x).drop_last() =~= s);
    assert(s.push(x).last() == x);
}

/// Filters the enumerated paths against the ignore set and deals the
/// survivors round-robin onto one queue per worker, closing every queue
/// with one termination sentinel.
///
/// The contract carries the two dispatch guarantees: the i-th accepted
/// path stands in queue `i mod num_workers` at position `i / num_workers`,
/// and no entry of any queue, the sentinel aside, is in the ignore set.
pub fn dispatch(file_paths: &Vec<String>, ignore_set: &Vec<String>, num_workers: usize) -> (queues:
    Vec<Vec<String>>)
    requires
        1 <= num_workers,
        file_paths@.len() + num_workers <= usize::MAX,
    ensures
        queues@.len() == num_workers,
        forall|w: int|
            0 <= w < num_workers ==> queue_views(queues@)[w] == rr_queue(
                accepted_files(view_seq(file_paths@), view_seq(ignore_set@)),
                num_workers as int,
                w,
            ).push(sentinel()),
        forall|i: int|
            0 <= i < accepted_files(view_seq(file_paths@), view_seq(ignore_set@)).len()
                ==> #[trigger] accepted_files(view_seq(file_paths@), view_seq(ignore_set@))[i]
                == queue_views(queues@)[i % (num_workers as int)][i / (num_workers as int)],
        forall|w: int, j: int|
            0 <= w < num_workers && 0 <= j < queue_views(queues@)[w].len() - 1
                ==> !view_seq(ignore_set@).contains(#[trigger] queue_views(queues@)[w][j]),
{
    let ghost files_v = view_seq(file_paths@);
    let ghost ignore_v = view_seq(ignore_set@);
    let ghost pred = |f: Seq<char>| !ignore_v.contains(f);

    // Filter the enumeration against the ignore set.
    let mut accepted: Vec<String> = Vec::new();
    let n = file_paths.len();
    let mut i: usize = 0;
    while i < n
        invariant
            0 <= i <= n,
            n == file_paths@.len(),
            files_v == view_seq(file_paths@),
            ignore_v == view_seq(ignore_set@),
            pred == (|f: Seq<char>| !ignore_v.contains(f)),
            view_seq(accepted@) == files_v.take(i as int).filter(pred),
            accepted@.len() <= i,
        decreases n - i,
    {
        let f = &file_paths[i];
        proof {
            assert(files_v.take(i as int + 1).drop_last() =~= files_v.take(i as int));
            assert(files_v.take(i as int + 1) =~= files_v.take(i as int).push(files_v[i as int]));
            lemma_filter_push(files_v.take(i as int), pred, files_v[i as int]);
        }
        if !contains_path(ignore_set, f) {
            accepted.push(f.clone());
            assert(view_seq(accepted@) =~= files_v.take(i as int + 1).filter(pred));
        } else {
            assert(view_seq(accepted@) =~= files_v.take(i as int + 1).filter(pred));
        }
        i = i + 1;
    }
    proof {
        assert(files_v.take(n as int) =~= files_v);
    }
    let ghost acc = accepted_files(files_v, ignore_v);
    let k = accepted.len();

    // Deal the accepted paths onto the worker queues.
    let mut queues: Vec<Vec<String>> = Vec::new();
    let mut w: usize = 0;
    while w < num_workers
        invariant
            0 <= w <= num_workers,
            k == acc.len(),
            acc == view_seq(accepted@),
            k + num_workers <= usize::MAX,
            queues@.len() == w,
            forall|w2: int|
                0 <= w2 < w ==> queue_views(queues@)[w2] == rr_queue(
                    acc,
                    num_workers as int,
                    w2,
                ).push(sentinel()),
        decreases num_workers - w,
    {
        let mut q: Vec<String> = Vec::new();
        let mut idx: usize = w;
        proof {
            assert(0 * (num_workers as int) == 0) by (nonlinear_arith);
        }
        while idx < k
            invariant
                0 <= w < num_workers,
                k == acc.len(),
                acc == view_seq(accepted@),
                accepted@.len() == k,
                k + num_workers <= usize::MAX,
                idx == w + q@.len() * num_workers,
                idx < k + num_workers,
                forall|j: int| 0 <= j < q@.len() ==> q@[j]@ == acc[j * (num_workers as int) + w],
            decreases (k + num_workers) - idx,
        {
            q.push(accepted[idx].clone());
            proof {
                let jl = q@.len() as int;
                let wi = num_workers as int;
                assert(jl * wi == (jl - 1) * wi + wi) by (nonlinear_arith);
            }
            idx = idx + num_workers;
        }
        proof {
            // idx has passed k, so the queue holds exactly the worker's share
            let jn = q@.len() as int;
            let wi = num_workers as int;
            if jn > 0 {
                assert((jn - 1) * wi == jn * wi - wi) by (nonlinear_arith);
                lemma_rr_index(k as int, wi, w as int, jn - 1);
            }
            lemma_rr_index(k as int, wi, w as int, jn);
            assert(jn == rr_count(k as int, wi, w as int));
            assert(view_seq(q@) =~= rr_queue(acc, wi, w as int));
        }
        q.push(sentinel_message());
        assert(view_seq(q@) =~= rr_queue(acc, num_workers as int, w as int).push(sentinel()));
        let ghost prev_qs = queues@;
        queues.push(q);
        proof {
            assert(view_seq(q@) == rr_queue(acc, num_workers as int, w as int).push(sentinel()));
            assert forall|w2: int|
                0 <= w2 < w + 1 implies queue_views(queues@)[w2] == rr_queue(
                acc,
                num_workers as int,
                w2,
            ).push(sentinel()) by {
                assert(queue_views(queues@)[w2] == view_seq(queues@[w2]@));
                if w2 == w {
                    assert(queues@[w2] == q);
                } else {
                    assert(queues@[w2] == prev_qs[w2]);
                    assert(queue_views(prev_qs)[w2] == view_seq(prev_qs[w2]@));
                }
            }
        }
        w = w + 1;
    }
    proof {
        let wi = num_workers as int;
        assert forall|i2: int| 0 <= i2 < acc.len() implies #[trigger] acc[i2] == queue_views(
            queues@,
        )[i2 % wi][i2 / wi] by {
            lemma_fundamental_div_mod(i2, wi);
            lemma_mod_division_less_than_divisor(i2, wi);
            lemma_rr_index(acc.len() as int, wi, i2 % wi, i2 / wi);
            assert((i2 / wi) * wi == wi * (i2 / wi)) by (nonlinear_arith);
            assert((i2 / wi) * wi + (i2 % wi) == i2);
            assert(rr_queue(acc, wi, i2 % wi)[i2 / wi] == acc[(i2 / wi) * wi + (i2 % wi)]);
        }
        assert forall|w2: int, j: int|
            0 <= w2 < num_workers && 0 <= j < queue_views(queues@)[w2].len() - 1
                implies !ignore_v.contains(#[trigger] queue_views(queues@)[w2][j]) by {
            let wi2 = num_workers as int;
            assert(queue_views(queues@)[w2] == rr_queue(acc, wi2, w2).push(sentinel()));
            assert(queue_views(queues@)[w2][j] == acc[j * wi2 + w2]);
            lemma_rr_index(acc.len() as int, wi2, w2, j);
            broadcast use vstd::seq_lib::group_filter_ensures;

            assert(acc[j * wi2 + w2] == files_v.filter(pred)[j * wi2 + w2]);
        }
    }
    queues
}

} // verus!
