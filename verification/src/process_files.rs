//! The worker pool and the composed pipeline.
//!
//! A worker drains one input queue: for every file path before the
//! termination sentinel it obtains the file's raw attribution lines and
//! forwards each line, paired with the path, onto the shared output
//! stream, preserving the per-file order. [`process_files`] composes
//! dispatcher, worker pool and reducer over the supplied per-file query
//! outputs and returns the oldest record of the whole tree.
//!
//! The unverified shell owns the actual concurrency: it runs one thread
//! per worker and one for the reducer, and each thread calls the verified
//! pieces ([`crate::dispatch::dispatch`], [`forward_lines`],
//! [`crate::reduce::RunningMinimum`]) on the values it moves between
//! queues. Because the reduction is commutative over the multiset of
//! records ([`crate::reduce::lemma_interleaving_independent`]), the
//! sequential composition proved here computes the same final timestamp
//! as any interleaved run.

use vstd::prelude::*;
use crate::dispatch::accepted_files;
use crate::dispatch::dispatch;
use crate::dispatch::queue_views;
use crate::dispatch::lemma_rr_index;
use crate::dispatch::rr_count;
use crate::dispatch::rr_queue;
use crate::dispatch::sentinel;
use crate::dispatch::sentinel_message;
use crate::dispatch::is_work_message;
use crate::dispatch::view_seq;
use crate::grammar::RecordModel;
use crate::grammar::parse_spec;
use crate::line_details::LineDetails;
use crate::reduce::finalize;
use crate::reduce::find_oldest_line;
use crate::reduce::lemma_live_prefix_cut;
use crate::reduce::lemma_reduction_minimum;
use crate::reduce::live_prefix;
use crate::reduce::msg_views;
use crate::reduce::published;
use crate::reduce::record_views;
use crate::reduce::records_of;

verus! {

/// Every raw line of one file, paired with the file's path, in order.
pub open spec fn pair_all(lines: Seq<Seq<char>>, file: Seq<char>) -> Seq<(Seq<char>, Seq<char>)> {
    Seq::new(lines.len(), |k: int| (lines[k], file))
}

/// The position of the first entry of `files` equal to `p`.
pub open spec fn first_index(files: Seq<Seq<char>>, p: Seq<char>) -> int
    decreases files.len(),
{
    if files.len() == 0 {
        0
    } else if files[0] == p {
        0
    } else {
        1 + first_index(files.subrange(1, files.len() as int), p)
    }
}

/// When nothing before position `i` equals `files[i]`, the first match is
/// at `i`.
proof fn lemma_first_index_at(files: Seq<Seq<char>>, p: Seq<char>, i: int)
    requires
        0 <= i < files.len(),
        files[i] == p,
        forall|j: int| 0 <= j < i ==> files[j] != p,
    ensures
        first_index(files, p) == i,
    decreases i,
{
    if i > 0 {
        let rest = files.subrange(1, files.len() as int);
        assert forall|j: int| 0 <= j < i - 1 implies rest[j] != p by {
            assert(rest[j] == files[j + 1]);
        }
        assert(rest[i - 1] == files[i]);
        lemma_first_index_at(rest, p, i - 1);
    }
}

/// What one worker forwards for its whole queue: the paired lines of each
/// file before the termination sentinel, in queue order.
pub open spec fn worker_stream(
    queue: Seq<Seq<char>>,
    files: Seq<Seq<char>>,
    outs: Seq<Seq<Seq<char>>>,
) -> Seq<(Seq<char>, Seq<char>)>
    decreases queue.len(),
{
    if queue.len() == 0 {
        Seq::empty()
    } else if queue[0] == sentinel() {
        Seq::empty()
    } else {
        pair_all(outs[first_index(files, queue[0])], queue[0]) + worker_stream(
            queue.subrange(1, queue.len() as int),
            files,
            outs,
        )
    }
}

/// The forwarded lines of a sentinel-free run of queue entries, without
/// the stop condition: the shape the worker's loop builds up.
pub open spec fn flat_prefix(
    run: Seq<Seq<char>>,
    files: Seq<Seq<char>>,
    outs: Seq<Seq<Seq<char>>>,
) -> Seq<(Seq<char>, Seq<char>)>
    decreases run.len(),
{
    if run.len() == 0 {
        Seq::empty()
    } else {
        flat_prefix(run.drop_last(), files, outs) + pair_all(
            outs[first_index(files, run.last())],
            run.last(),
        )
    }
}

/// Peeling the first entry off a sentinel-free run.
proof fn lemma_flat_prefix_cons(run: Seq<Seq<char>>, files: Seq<Seq<char>>, outs: Seq<Seq<Seq<char>>>)
    requires
        run.len() > 0,
    ensures
        flat_prefix(run, files, outs) == pair_all(outs[first_index(files, run[0])], run[0])
            + flat_prefix(run.subrange(1, run.len() as int), files, outs),
    decreases run.len(),
{
    let rest = run.subrange(1, run.len() as int);
    if run.len() == 1 {
        reveal_with_fuel(flat_prefix, 3);
        assert(run[0] == run.last());
        assert(run.drop_last() =~= Seq::<Seq<char>>::empty());
        assert(rest =~= Seq::<Seq<char>>::empty());
        assert(flat_prefix(run, files, outs) =~= pair_all(
            outs[first_index(files, run[0])],
            run[0],
        ));
        assert(pair_all(outs[first_index(files, run[0])], run[0]) + flat_prefix(rest, files, outs)
            =~= pair_all(outs[first_index(files, run[0])], run[0]));
    } else {
        lemma_flat_prefix_cons(run.drop_last(), files, outs);
        assert(run.drop_last()[0] == run[0]);
        assert(run.drop_last().subrange(1, run.len() - 1) =~= rest.drop_last());
        assert(rest.last() == run.last());
        assert(pair_all(outs[first_index(files, run[0])], run[0]) + (flat_prefix(
            rest.drop_last(),
            files,
            outs,
        ) + pair_all(outs[first_index(files, rest.last())], rest.last())) =~= (pair_all(
            outs[first_index(files, run[0])],
            run[0],
        ) + flat_prefix(rest.drop_last(), files, outs)) + pair_all(
            outs[first_index(files, rest.last())],
            rest.last(),
        ));
    }
}

/// The worker's output splits at any sentinel-free position: what the
/// loop has built so far, plus the stream of the remaining queue.
proof fn lemma_worker_stream_split(
    queue: Seq<Seq<char>>,
    files: Seq<Seq<char>>,
    outs: Seq<Seq<Seq<char>>>,
    i: int,
)
    requires
        0 <= i <= queue.len(),
        forall|j: int| 0 <= j < i ==> queue[j] != sentinel(),
    ensures
        worker_stream(queue, files, outs) == flat_prefix(queue.take(i), files, outs)
            + worker_stream(queue.skip(i), files, outs),
    decreases i,
{
    if i == 0 {
        assert(queue.take(0) =~= Seq::<Seq<char>>::empty());
        assert(queue.skip(0) =~= queue);
        assert(flat_prefix(queue.take(0), files, outs) + worker_stream(queue, files, outs)
            =~= worker_stream(queue, files, outs));
    } else {
        let rest = queue.subrange(1, queue.len() as int);
        assert forall|j: int| 0 <= j < i - 1 implies rest[j] != sentinel() by {
            assert(rest[j] == queue[j + 1]);
        }
        lemma_worker_stream_split(rest, files, outs, i - 1);
        assert(rest.take(i - 1) =~= queue.take(i).subrange(1, i));
        assert(rest.skip(i - 1) =~= queue.skip(i));
        assert(queue.take(i)[0] == queue[0]);
        lemma_flat_prefix_cons(queue.take(i), files, outs);
        let head = pair_all(outs[first_index(files, queue[0])], queue[0]);
        assert(head + (flat_prefix(rest.take(i - 1), files, outs) + worker_stream(
            rest.skip(i - 1),
            files,
            outs,
        )) =~= (head + flat_prefix(rest.take(i - 1), files, outs)) + worker_stream(
            queue.skip(i),
            files,
            outs,
        ));
    }
}

/// The position of the first entry of `files` whose view is `path`'s.
fn find_file(files: &Vec<String>, path: &String) -> (r: usize)
    requires
        view_seq(files@).contains(path@),
    ensures
        r < files@.len(),
        r as int == first_index(view_seq(files@), path@),
        files@[r as int]@ == path@,
{
    let n = files.len();
    let mut i: usize = 0;
    while i < n
        invariant
            0 <= i <= n,
            n == files@.len(),
            view_seq(files@).contains(path@),
            forall|j: int| 0 <= j < i ==> view_seq(files@)[j] != path@,
        decreases n - i,
    {
        if files[i] == *path {
            proof {
                lemma_first_index_at(view_seq(files@), path@, i as int);
            }
            return i;
        }
        i = i + 1;
    }
    proof {
        let w = choose|j: int|
            0 <= j < view_seq(files@).len() && view_seq(files@)[j] == path@;
        assert(false);
    }
    0
}

/// Forwards every raw line of one file, paired with the file's path, onto
/// the shared output stream, preserving the query's line order.
pub fn forward_lines(file_path: &String, lines: &Vec<String>, out: &mut Vec<(String, String)>)
    ensures
        msg_views(final(out)@) == msg_views(old(out)@) + pair_all(view_seq(lines@), file_path@),
{
    let n = lines.len();
    let mut k: usize = 0;
    while k < n
        invariant
            0 <= k <= n,
            n == lines@.len(),
            msg_views(out@) == msg_views(old(out)@) + pair_all(
                view_seq(lines@).take(k as int),
                file_path@,
            ),
        decreases n - k,
    {
        let ghost prev = out@;
        out.push((lines[k].clone(), file_path.clone()));
        proof {
            assert(out@.last().0@ == lines@[k as int]@);
            assert(out@.last().1@ == file_path@);
            assert(msg_views(out@) =~= msg_views(prev).push((lines@[k as int]@, file_path@)));
            assert(pair_all(view_seq(lines@).take(k as int + 1), file_path@) =~= pair_all(
                view_seq(lines@).take(k as int),
                file_path@,
            ).push((lines@[k as int]@, file_path@)));
            assert(msg_views(out@) =~= msg_views(old(out)@) + pair_all(
                view_seq(lines@).take(k as int + 1),
                file_path@,
            ));
        }
        k = k + 1;
    }
    proof {
        assert(view_seq(lines@).take(n as int) =~= view_seq(lines@));
        assert(msg_views(out@) =~= msg_views(old(out)@) + pair_all(view_seq(lines@), file_path@));
    }
}

/// Runs one worker's queue to its termination sentinel: looks each file
/// path up in the query table and forwards its lines onto `out`.
pub fn run_worker(
    queue: &Vec<String>,
    files: &Vec<String>,
    outputs: &Vec<Vec<String>>,
    out: &mut Vec<(String, String)>,
)
    requires
        outputs@.len() == files@.len(),
        forall|j: int|
            0 <= j < queue@.len() && (#[trigger] queue@[j])@ != sentinel() ==> view_seq(
                files@,
            ).contains(queue@[j]@),
    ensures
        msg_views(final(out)@) == msg_views(old(out)@) + worker_stream(
            view_seq(queue@),
            view_seq(files@),
            queue_views(outputs@),
        ),
{
    let ghost qv = view_seq(queue@);
    let ghost fv = view_seq(files@);
    let ghost ov = queue_views(outputs@);
    let n = queue.len();
    let mut j: usize = 0;
    while j < n && is_work_message(&queue[j])
        invariant
            0 <= j <= n,
            n == queue@.len(),
            qv == view_seq(queue@),
            fv == view_seq(files@),
            ov == queue_views(outputs@),
            outputs@.len() == files@.len(),
            forall|j2: int|
                0 <= j2 < queue@.len() && (#[trigger] queue@[j2])@ != sentinel() ==> view_seq(
                    files@,
                ).contains(queue@[j2]@),
            forall|j2: int| 0 <= j2 < j ==> qv[j2] != sentinel(),
            msg_views(out@) == msg_views(old(out)@) + flat_prefix(qv.take(j as int), fv, ov),
        decreases n - j,
    {
        let path = &queue[j];
        let fi = find_file(files, path);
        proof {
            assert(ov[fi as int] == view_seq(outputs@[fi as int]@));
            assert(qv.take(j as int + 1).drop_last() =~= qv.take(j as int));
            assert(qv.take(j as int + 1).last() == qv[j as int]);
        }
        forward_lines(path, &outputs[fi], out);
        proof {
            assert(msg_views(out@) =~= msg_views(old(out)@) + flat_prefix(
                qv.take(j as int + 1),
                fv,
                ov,
            ));
        }
        j = j + 1;
    }
    proof {
        if j < n {
            assert(qv[j as int] == sentinel());
        }
        lemma_worker_stream_split(qv, fv, ov, j as int);
        if j == n {
            assert(qv.skip(n as int) =~= Seq::<Seq<char>>::empty());
        } else {
            assert(qv.skip(j as int)[0] == qv[j as int]);
        }
        assert(msg_views(out@) =~= msg_views(old(out)@) + worker_stream(qv, fv, ov));
    }
}

/// The concatenation of every worker's stream, in worker order: the one
/// canonical interleaving the sequential composition uses.
pub open spec fn workers_stream(
    qs: Seq<Seq<Seq<char>>>,
    files: Seq<Seq<char>>,
    outs: Seq<Seq<Seq<char>>>,
) -> Seq<(Seq<char>, Seq<char>)>
    decreases qs.len(),
{
    if qs.len() == 0 {
        Seq::empty()
    } else {
        workers_stream(qs.drop_last(), files, outs) + worker_stream(qs.last(), files, outs)
    }
}

/// The queues the dispatcher hands the workers.
pub open spec fn dispatch_queues(files: Seq<Seq<char>>, ignore: Seq<Seq<char>>, wn: int) -> Seq<
    Seq<Seq<char>>,
> {
    Seq::new(wn as nat, |w: int| rr_queue(accepted_files(files, ignore), wn, w).push(sentinel()))
}

/// Every record the whole pipeline parses, in the canonical order.
pub open spec fn pipeline_records(
    files: Seq<Seq<char>>,
    outs: Seq<Seq<Seq<char>>>,
    ignore: Seq<Seq<char>>,
    wn: int,
) -> Seq<RecordModel> {
    records_of(workers_stream(dispatch_queues(files, ignore, wn), files, outs))
}

/// What the pipeline answers: the last published record, or the undefined
/// record when nothing parseable arrived.
pub open spec fn pipeline_result(
    files: Seq<Seq<char>>,
    outs: Seq<Seq<Seq<char>>>,
    ignore: Seq<Seq<char>>,
    wn: int,
) -> RecordModel {
    if pipeline_records(files, outs, ignore, wn).len() == 0 {
        RecordModel::undefined()
    } else {
        published(pipeline_records(files, outs, ignore, wn)).last()
    }
}

/// A filtered sequence only holds entries of the sequence it came from.
proof fn lemma_filter_subset<A>(s: Seq<A>, pred: spec_fn(A) -> bool, i: int)
    requires
        0 <= i < s.filter(pred).len(),
    ensures
        s.contains(s.filter(pred)[i]),
    decreases s.len(),
{
    reveal(Seq::filter);
    if s.len() > 0 {
        let d = s.drop_last();
        if i < d.filter(pred).len() {
            lemma_filter_subset(d, pred, i);
            let j = choose|j: int| 0 <= j < d.len() && d[j] == d.filter(pred)[i];
            assert(s[j] == s.filter(pred)[i]);
        } else {
            assert(s[s.len() - 1] == s.filter(pred)[i]);
        }
    }
}

/// A held entry has a first position, and it holds the entry.
proof fn lemma_first_index_bound(files: Seq<Seq<char>>, p: Seq<char>)
    requires
        files.contains(p),
    ensures
        0 <= first_index(files, p) < files.len(),
        files[first_index(files, p)] == p,
    decreases files.len(),
{
    if files[0] != p {
        let rest = files.subrange(1, files.len() as int);
        let j = choose|j: int| 0 <= j < files.len() && files[j] == p;
        assert(rest[j - 1] == p);
        lemma_first_index_bound(rest, p);
    }
}

/// No raw line a worker forwards is the termination sentinel, as long as
/// no query output line is.
proof fn lemma_worker_stream_lines(
    queue: Seq<Seq<char>>,
    files: Seq<Seq<char>>,
    outs: Seq<Seq<Seq<char>>>,
)
    requires
        outs.len() == files.len(),
        forall|j: int|
            0 <= j < queue.len() && queue[j] != sentinel() ==> files.contains(#[trigger] queue[j]),
        forall|i: int, k: int|
            0 <= i < outs.len() && 0 <= k < outs[i].len() ==> #[trigger] outs[i][k] != sentinel(),
    ensures
        forall|t: int|
            0 <= t < worker_stream(queue, files, outs).len() ==> (#[trigger] worker_stream(
                queue,
                files,
                outs,
            )[t]).0 != sentinel(),
    decreases queue.len(),
{
    if queue.len() > 0 && queue[0] != sentinel() {
        let rest = queue.subrange(1, queue.len() as int);
        assert forall|j: int|
            0 <= j < rest.len() && rest[j] != sentinel() implies files.contains(
            #[trigger] rest[j],
        ) by {
            assert(rest[j] == queue[j + 1]);
        }
        lemma_worker_stream_lines(rest, files, outs);
        lemma_first_index_bound(files, queue[0]);
        let fi = first_index(files, queue[0]);
        let head = pair_all(outs[fi], queue[0]);
        assert forall|t: int|
            0 <= t < worker_stream(queue, files, outs).len() implies (#[trigger] worker_stream(
            queue,
            files,
            outs,
        )[t]).0 != sentinel() by {
            if t < head.len() {
                assert(worker_stream(queue, files, outs)[t] == head[t]);
                assert(head[t].0 == outs[fi][t]);
            } else {
                assert(worker_stream(queue, files, outs)[t] == worker_stream(rest, files, outs)[
                    t - head.len()
                ]);
            }
        }
    }
}

/// [`lemma_worker_stream_lines`], over all workers.
proof fn lemma_workers_stream_lines(
    qs: Seq<Seq<Seq<char>>>,
    files: Seq<Seq<char>>,
    outs: Seq<Seq<Seq<char>>>,
)
    requires
        outs.len() == files.len(),
        forall|w: int, j: int|
            0 <= w < qs.len() && 0 <= j < qs[w].len() && qs[w][j] != sentinel() ==> files.contains(
                #[trigger] qs[w][j],
            ),
        forall|i: int, k: int|
            0 <= i < outs.len() && 0 <= k < outs[i].len() ==> #[trigger] outs[i][k] != sentinel(),
    ensures
        forall|t: int|
            0 <= t < workers_stream(qs, files, outs).len() ==> (#[trigger] workers_stream(
                qs,
                files,
                outs,
            )[t]).0 != sentinel(),
    decreases qs.len(),
{
    if qs.len() > 0 {
        let d = qs.drop_last();
        assert forall|w: int, j: int|
            0 <= w < d.len() && 0 <= j < d[w].len() && d[w][j] != sentinel() implies files.contains(
            #[trigger] d[w][j],
        ) by {
            assert(d[w] == qs[w]);
        }
        lemma_workers_stream_lines(d, files, outs);
        assert(qs[qs.len() - 1] == qs.last());
        lemma_worker_stream_lines(qs.last(), files, outs);
        let left = workers_stream(d, files, outs);
        let right = worker_stream(qs.last(), files, outs);
        assert forall|t: int|
            0 <= t < workers_stream(qs, files, outs).len() implies (#[trigger] workers_stream(
            qs,
            files,
            outs,
        )[t]).0 != sentinel() by {
            if t < left.len() {
                assert(workers_stream(qs, files, outs)[t] == left[t]);
            } else {
                assert(workers_stream(qs, files, outs)[t] == right[t - left.len()]);
            }
        }
    }
}

/// Each line of each file a worker processes stands in its stream.
proof fn lemma_worker_stream_contains(
    queue: Seq<Seq<char>>,
    files: Seq<Seq<char>>,
    outs: Seq<Seq<Seq<char>>>,
    j: int,
    k: int,
)
    requires
        0 <= j < queue.len(),
        forall|j2: int| 0 <= j2 <= j ==> queue[j2] != sentinel(),
        0 <= k < outs[first_index(files, queue[j])].len(),
    ensures
        worker_stream(queue, files, outs).contains(
            (outs[first_index(files, queue[j])][k], queue[j]),
        ),
{
    lemma_worker_stream_split(queue, files, outs, j);
    let tail = queue.skip(j);
    assert(tail[0] == queue[j]);
    let fi = first_index(files, queue[j]);
    let head = pair_all(outs[fi], queue[j]);
    assert(worker_stream(tail, files, outs) == head + worker_stream(
        tail.subrange(1, tail.len() as int),
        files,
        outs,
    ));
    let base = flat_prefix(queue.take(j), files, outs).len() as int;
    assert(worker_stream(queue, files, outs)[base + k] == worker_stream(tail, files, outs)[k]);
    assert(worker_stream(tail, files, outs)[k] == head[k]);
    assert(head[k] == (outs[fi][k], queue[j]));
}

/// A message of one worker's stream stands in the concatenation.
proof fn lemma_workers_stream_contains(
    qs: Seq<Seq<Seq<char>>>,
    files: Seq<Seq<char>>,
    outs: Seq<Seq<Seq<char>>>,
    w: int,
    msg: (Seq<char>, Seq<char>),
)
    requires
        0 <= w < qs.len(),
        worker_stream(qs[w], files, outs).contains(msg),
    ensures
        workers_stream(qs, files, outs).contains(msg),
    decreases qs.len(),
{
    let d = qs.drop_last();
    let left = workers_stream(d, files, outs);
    if w < qs.len() - 1 {
        assert(d[w] == qs[w]);
        lemma_workers_stream_contains(d, files, outs, w, msg);
        let t = choose|t: int| 0 <= t < left.len() && left[t] == msg;
        assert(workers_stream(qs, files, outs)[t] == msg);
    } else {
        assert(qs.last() == qs[w]);
        let right = worker_stream(qs.last(), files, outs);
        let t = choose|t: int| 0 <= t < right.len() && right[t] == msg;
        assert(workers_stream(qs, files, outs)[left.len() + t] == msg);
    }
}

/// A message that parses contributes its record to the parsed records.
proof fn lemma_records_contains(msgs: Seq<(Seq<char>, Seq<char>)>, t: int)
    requires
        0 <= t < msgs.len(),
        parse_spec(msgs[t].0, msgs[t].1) is Some,
    ensures
        records_of(msgs).contains(parse_spec(msgs[t].0, msgs[t].1).unwrap()),
    decreases msgs.len(),
{
    let d = msgs.drop_last();
    if t == msgs.len() - 1 {
        assert(msgs.last() == msgs[t]);
        let rs = records_of(msgs);
        assert(rs[rs.len() - 1] == parse_spec(msgs[t].0, msgs[t].1).unwrap());
    } else {
        assert(d[t] == msgs[t]);
        lemma_records_contains(d, t);
        let rec = parse_spec(msgs[t].0, msgs[t].1).unwrap();
        let i = choose|i: int| 0 <= i < records_of(d).len() && records_of(d)[i] == rec;
        assert(records_of(msgs)[i] == rec);
    }
}

/// When every worker's stream is empty, so is the concatenation.
proof fn lemma_workers_stream_all_empty(
    qs: Seq<Seq<Seq<char>>>,
    files: Seq<Seq<char>>,
    outs: Seq<Seq<Seq<char>>>,
)
    requires
        forall|w: int|
            0 <= w < qs.len() ==> worker_stream(#[trigger] qs[w], files, outs) == Seq::<
                (Seq<char>, Seq<char>),
            >::empty(),
    ensures
        workers_stream(qs, files, outs) == Seq::<(Seq<char>, Seq<char>)>::empty(),
    decreases qs.len(),
{
    if qs.len() > 0 {
        let d = qs.drop_last();
        assert forall|w: int|
            0 <= w < d.len() implies worker_stream(#[trigger] d[w], files, outs) == Seq::<
            (Seq<char>, Seq<char>),
        >::empty() by {
            assert(d[w] == qs[w]);
        }
        lemma_workers_stream_all_empty(d, files, outs);
        assert(qs[qs.len() - 1] == qs.last());
        assert(workers_stream(qs, files, outs) =~= Seq::<(Seq<char>, Seq<char>)>::empty());
    }
}

/// Runs the whole pipeline sequentially over the supplied data: dispatch
/// the file paths, run every worker's queue, close the stream, reduce,
/// and take the last published record.
///
/// `blame_outputs[i]` holds the raw attribution lines the external query
/// produced for `file_paths[i]`. The caller enumerates each tracked file
/// once (the paths are distinct), and neither a path nor a raw line may
/// collide with the reserved termination sentinel.
///
/// The contract pins the answer exactly ([`pipeline_result`]) and states
/// the headline guarantee on top: the result's timestamp lies at or
/// before the timestamp of every record parsed from any line of any
/// accepted file, and the undefined record comes back only when nothing
/// parseable arrived (in particular for an empty enumeration).
pub fn process_files(
    num_workers: usize,
    file_paths: &Vec<String>,
    blame_outputs: &Vec<Vec<String>>,
    ignore_set: &Vec<String>,
) -> (r: LineDetails)
    requires
        1 <= num_workers,
        file_paths@.len() + num_workers <= usize::MAX,
        blame_outputs@.len() == file_paths@.len(),
        forall|i: int, j: int|
            0 <= i < j < file_paths@.len() ==> (#[trigger] file_paths@[i])@ != (
            #[trigger] file_paths@[j])@,
        forall|i: int| 0 <= i < file_paths@.len() ==> (#[trigger] file_paths@[i])@ != sentinel(),
        forall|i: int, k: int|
            0 <= i < blame_outputs@.len() && 0 <= k < blame_outputs@[i]@.len() ==> (
            #[trigger] blame_outputs@[i]@[k])@ != sentinel(),
    ensures
        r@ == pipeline_result(
            view_seq(file_paths@),
            queue_views(blame_outputs@),
            view_seq(ignore_set@),
            num_workers as int,
        ),
        forall|i: int, k: int|
            {
                &&& 0 <= i < file_paths@.len()
                &&& !view_seq(ignore_set@).contains(file_paths@[i]@)
                &&& 0 <= k < blame_outputs@[i]@.len()
                &&& parse_spec((#[trigger] blame_outputs@[i]@[k])@, file_paths@[i]@) is Some
            } ==> r@.timestamp.instant() <= parse_spec(
                blame_outputs@[i]@[k]@,
                file_paths@[i]@,
            ).unwrap().timestamp.instant(),
        file_paths@.len() == 0 ==> r@ == RecordModel::undefined(),
{
    let ghost fv = view_seq(file_paths@);
    let ghost iv = view_seq(ignore_set@);
    let ghost ov = queue_views(blame_outputs@);
    let ghost wn = num_workers as int;
    let ghost acc = accepted_files(fv, iv);

    let queues = dispatch(file_paths, ignore_set, num_workers);
    proof {
        assert(queue_views(queues@) =~= dispatch_queues(fv, iv, wn));
        // every non-sentinel queue entry is an accepted, hence enumerated, path
        assert forall|w: int, j: int|
            0 <= w < wn && 0 <= j < queue_views(queues@)[w].len() && queue_views(queues@)[w][j]
                != sentinel() implies fv.contains(#[trigger] queue_views(queues@)[w][j]) by {
            let qw = queue_views(queues@)[w];
            assert(qw == rr_queue(acc, wn, w).push(sentinel()));
            if j < qw.len() - 1 {
                assert(qw[j] == acc[j * wn + w]);
                lemma_rr_index(acc.len() as int, wn, w, j);
                lemma_filter_subset(fv, |f: Seq<char>| !iv.contains(f), j * wn + w);
            }
        }
    }

    let mut stream: Vec<(String, String)> = Vec::new();
    let mut w: usize = 0;
    while w < num_workers
        invariant
            0 <= w <= num_workers,
            1 <= num_workers,
            wn == num_workers as int,
            queues@.len() == num_workers,
            fv == view_seq(file_paths@),
            iv == view_seq(ignore_set@),
            ov == queue_views(blame_outputs@),
            blame_outputs@.len() == file_paths@.len(),
            forall|w2: int, j: int|
                0 <= w2 < wn && 0 <= j < queue_views(queues@)[w2].len() && queue_views(
                    queues@,
                )[w2][j] != sentinel() ==> fv.contains(#[trigger] queue_views(queues@)[w2][j]),
            msg_views(stream@) == workers_stream(queue_views(queues@).take(w as int), fv, ov),
        decreases num_workers - w,
    {
        proof {
            assert(queue_views(queues@)[w as int] == view_seq(queues@[w as int]@));
            assert forall|j: int|
                0 <= j < queues@[w as int]@.len() && (#[trigger] queues@[w as int]@[j])@
                    != sentinel() implies view_seq(file_paths@).contains(
                queues@[w as int]@[j]@,
            ) by {
                assert(queue_views(queues@)[w as int][j] == queues@[w as int]@[j]@);
            }
        }
        run_worker(&queues[w], file_paths, blame_outputs, &mut stream);
        proof {
            assert(queue_views(queues@).take(w as int + 1).drop_last() =~= queue_views(
                queues@,
            ).take(w as int));
            assert(queue_views(queues@).take(w as int + 1).last() == queue_views(queues@)[
                w as int
            ]);
        }
        w = w + 1;
    }
    proof {
        assert(queue_views(queues@).take(wn) =~= queue_views(queues@));
    }
    let ghost total = workers_stream(queue_views(queues@), fv, ov);

    // all workers are done: close the shared stream for the reducer
    stream.push((sentinel_message(), sentinel_message()));
    proof {
        assert(msg_views(stream@).len() == total.len() + 1);
        assert(msg_views(stream@).last().0 == sentinel());
        assert forall|t: int| 0 <= t < total.len() implies (#[trigger] msg_views(stream@)[t]).0
            != sentinel() by {
            lemma_workers_stream_lines(queue_views(queues@), fv, ov);
            assert(msg_views(stream@)[t] == total[t]);
        }
        lemma_live_prefix_cut(msg_views(stream@), total.len() as int);
        assert(msg_views(stream@).take(total.len() as int) =~= total);
    }
    let ghost recs = records_of(total);

    let results = find_oldest_line(&stream);
    let r = finalize(results);
    proof {
        assert(record_views(results@) == published(recs));
        assert(record_views(results@).len() == results@.len());
        lemma_reduction_minimum(recs);
        if recs.len() == 0 {
            assert(results@.len() == 0);
            assert(r@ == RecordModel::undefined());
        } else {
            assert(results@.len() > 0);
            assert(r@ == results@.last()@);
            assert(record_views(results@).last() == results@.last()@);
            assert(r@ == published(recs).last());
        }
        assert(r@ == pipeline_result(fv, ov, iv, wn));

        // the headline minimum guarantee, file by file and line by line
        assert forall|i: int, k: int|
            {
                &&& 0 <= i < file_paths@.len()
                &&& !iv.contains(file_paths@[i]@)
                &&& 0 <= k < blame_outputs@[i]@.len()
                &&& parse_spec((#[trigger] blame_outputs@[i]@[k])@, file_paths@[i]@) is Some
            } implies r@.timestamp.instant() <= parse_spec(
            blame_outputs@[i]@[k]@,
            file_paths@[i]@,
        ).unwrap().timestamp.instant() by {
            broadcast use vstd::seq_lib::group_filter_ensures;

            let pred = |f: Seq<char>| !iv.contains(f);
            assert(fv[i] == file_paths@[i]@);
            assert(pred(fv[i]));
            assert(acc.contains(fv[i]));
            let a = choose|a: int| 0 <= a < acc.len() && acc[a] == fv[i];
            let w0 = a % wn;
            let j0 = a / wn;
            vstd::arithmetic::div_mod::lemma_fundamental_div_mod(a, wn);
            vstd::arithmetic::div_mod::lemma_mod_division_less_than_divisor(a, wn);
            assert(j0 * wn == wn * j0) by (nonlinear_arith);
            assert(j0 * wn + w0 == a);
            lemma_rr_index(acc.len() as int, wn, w0, j0);
            let qw = queue_views(queues@)[w0];
            assert(qw == rr_queue(acc, wn, w0).push(sentinel()));
            assert(qw[j0] == acc[a]);
            // everything up to position j0 in the queue is a real path
            assert forall|j2: int| 0 <= j2 <= j0 implies qw[j2] != sentinel() by {
                assert(j2 * wn <= j0 * wn) by (nonlinear_arith)
                    requires j2 <= j0, wn >= 1,
                ;
                lemma_rr_index(acc.len() as int, wn, w0, j2);
                assert(qw[j2] == acc[j2 * wn + w0]);
                lemma_filter_subset(fv, pred, j2 * wn + w0);
                let x = choose|x: int| 0 <= x < fv.len() && fv[x] == acc[j2 * wn + w0];
                assert(fv[x] != sentinel());
            }
            // the first enumerated path equal to this queue entry is entry i
            assert forall|j2: int| 0 <= j2 < i implies fv[j2] != fv[i] by {}
            lemma_first_index_at(fv, fv[i], i);
            assert(ov[i] == view_seq(blame_outputs@[i]@));
            assert(ov[i][k] == blame_outputs@[i]@[k]@);
            lemma_worker_stream_contains(qw, fv, ov, j0, k);
            let msg = (ov[i][k], fv[i]);
            lemma_workers_stream_contains(queue_views(queues@), fv, ov, w0, msg);
            let t = choose|t: int| 0 <= t < total.len() && total[t] == msg;
            lemma_records_contains(total, t);
            let rec = parse_spec(msg.0, msg.1).unwrap();
            let ri = choose|ri: int| 0 <= ri < recs.len() && recs[ri] == rec;
            assert(published(recs).last().timestamp.instant() <= recs[ri].timestamp.instant());
        }

        // an empty enumeration leaves every queue holding only the sentinel
        if file_paths@.len() == 0 {
            assert(fv.len() == 0);
            assert(fv =~= Seq::<Seq<char>>::empty());
            Seq::<Seq<char>>::empty().lemma_filter_len(|f: Seq<char>| !iv.contains(f));
            assert(acc.len() == 0);
            assert forall|w2: int|
                0 <= w2 < queue_views(queues@).len() implies worker_stream(
                #[trigger] queue_views(queues@)[w2],
                fv,
                ov,
            ) == Seq::<(Seq<char>, Seq<char>)>::empty() by {
                vstd::arithmetic::div_mod::lemma_basic_div(0, wn);
                vstd::arithmetic::div_mod::lemma_small_mod(0, wn as nat);
                assert(rr_count(0, wn, w2) == 0);
                assert(rr_queue(acc, wn, w2).len() == 0);
                assert(queue_views(queues@)[w2][0] == sentinel());
            }
            lemma_workers_stream_all_empty(queue_views(queues@), fv, ov);
            assert(recs.len() == 0);
        }
    }
    r
}

} // verus!
