//! The reducer: streaming parse and running minimum.
//!
//! The reducer drains the shared `(raw line, file path)` stream the workers
//! feed, parses each raw line, and keeps the record with the earliest
//! timestamp seen so far, publishing every strict improvement. The order
//! the workers' outputs interleave in does not change the final timestamp:
//! [`lemma_interleaving_independent`] proves the reduction commutative over
//! the multiset of parsed records, and [`lemma_reduction_minimum`] proves
//! the last published record is a true minimum.

use vstd::prelude::*;
use vstd::seq_lib::group_to_multiset_ensures;
use crate::dispatch::is_work_message;
use crate::dispatch::sentinel;
use crate::grammar::RecordModel;
use crate::grammar::parse_spec;
use crate::line_details::LineDetails;
use crate::line_details::parse_line;

verus! {

/// The views of a sequence of `(raw line, file path)` messages.
pub open spec fn msg_views(msgs: Seq<(String, String)>) -> Seq<(Seq<char>, Seq<char>)> {
    msgs.map_values(|m: (String, String)| (m.0@, m.1@))
}

/// The views of a sequence of parsed records.
pub open spec fn record_views(rs: Seq<LineDetails>) -> Seq<RecordModel> {
    rs.map_values(|d: LineDetails| d@)
}

/// Whether `r` strictly improves on the running minimum `cur`. The
/// undefined state loses to any record; among records, only a strictly
/// earlier instant wins, so the first-seen record keeps ties.
pub open spec fn improves(cur: Option<RecordModel>, r: RecordModel) -> bool {
    match cur {
        Option::None => true,
        Option::Some(b) => r.timestamp.instant() < b.timestamp.instant(),
    }
}

/// The running minimum after one more record.
pub open spec fn step_min(cur: Option<RecordModel>, r: RecordModel) -> Option<RecordModel> {
    if improves(cur, r) {
        Option::Some(r)
    } else {
        cur
    }
}

/// The running minimum over a whole record sequence.
pub open spec fn seq_min(rs: Seq<RecordModel>) -> Option<RecordModel>
    decreases rs.len(),
{
    if rs.len() == 0 {
        Option::None
    } else {
        step_min(seq_min(rs.drop_last()), rs.last())
    }
}

/// The records the reducer publishes: every strict improvement, in order.
pub open spec fn published(rs: Seq<RecordModel>) -> Seq<RecordModel>
    decreases rs.len(),
{
    if rs.len() == 0 {
        Seq::empty()
    } else if improves(seq_min(rs.drop_last()), rs.last()) {
        published(rs.drop_last()).push(rs.last())
    } else {
        published(rs.drop_last())
    }
}

/// The messages before the first termination sentinel.
pub open spec fn live_prefix(msgs: Seq<(Seq<char>, Seq<char>)>) -> Seq<(Seq<char>, Seq<char>)>
    decreases msgs.len(),
{
    if msgs.len() == 0 {
        Seq::empty()
    } else if msgs[0].0 == sentinel() {
        Seq::empty()
    } else {
        seq![msgs[0]] + live_prefix(msgs.subrange(1, msgs.len() as int))
    }
}

/// The records the raw messages parse to, unparseable lines skipped.
pub open spec fn records_of(msgs: Seq<(Seq<char>, Seq<char>)>) -> Seq<RecordModel>
    decreases msgs.len(),
{
    if msgs.len() == 0 {
        Seq::empty()
    } else if parse_spec(msgs.last().0, msgs.last().1) is Some {
        records_of(msgs.drop_last()).push(parse_spec(msgs.last().0, msgs.last().1).unwrap())
    } else {
        records_of(msgs.drop_last())
    }
}

/// The reducer's state: the best (earliest-timestamp) record seen so far,
/// undefined until the first record arrives so that any real record reads
/// as an improvement.
pub struct RunningMinimum {
    best: Option<LineDetails>,
}

impl View for RunningMinimum {
    type V = Option<RecordModel>;

    closed spec fn view(&self) -> Option<RecordModel> {
        match self.best {
            Option::None => Option::None,
            Option::Some(d) => Option::Some(d@),
        }
    }
}

impl RunningMinimum {
    /// The state's records always carry a well-formed timestamp, so they
    /// can be compared.
    pub open spec fn wf(self) -> bool {
        self@ is Some ==> self@.unwrap().timestamp.wf()
    }

    /// The undefined state.
    pub fn new() -> (r: Self)
        ensures
            r@ is None,
            r.wf(),
    {
        RunningMinimum { best: Option::None }
    }

    /// Offers one record; keeps it exactly when it strictly improves on
    /// the best so far, and reports whether it did.
    pub fn offer(&mut self, rec: LineDetails) -> (accepted: bool)
        requires
            old(self).wf(),
            rec@.timestamp.wf(),
        ensures
            accepted == improves(old(self)@, rec@),
            final(self)@ == step_min(old(self)@, rec@),
            final(self).wf(),
    {
        let better = match &self.best {
            Option::None => true,
            Option::Some(b) => rec.datetime.is_before(&b.datetime),
        };
        if better {
            self.best = Option::Some(rec);
        }
        better
    }

    /// Hands out the best record, or the undefined record if none arrived.
    pub fn into_result(self) -> (r: LineDetails)
        ensures
            self@ is None ==> r@ == RecordModel::undefined(),
            self@ is Some ==> r@ == self@.unwrap(),
    {
        match self.best {
            Option::None => LineDetails::default(),
            Option::Some(d) => d,
        }
    }
}

/// A sentinel-free prefix ending at the sentinel (or at the end) is
/// exactly what the reducer consumes.
pub proof fn lemma_live_prefix_cut(msgs: Seq<(Seq<char>, Seq<char>)>, i: int)
    requires
        0 <= i <= msgs.len(),
        forall|j: int| 0 <= j < i ==> (#[trigger] msgs[j]).0 != sentinel(),
        i < msgs.len() ==> msgs[i].0 == sentinel(),
    ensures
        live_prefix(msgs) == msgs.take(i),
    decreases i,
{
    if i == 0 {
        assert(msgs.take(0) =~= Seq::empty());
    } else {
        let rest = msgs.subrange(1, msgs.len() as int);
        assert forall|j: int| 0 <= j < i - 1 implies (#[trigger] rest[j]).0 != sentinel() by {
            assert(rest[j] == msgs[j + 1]);
        }
        lemma_live_prefix_cut(rest, i - 1);
        assert(seq![msgs[0]] + rest.take(i - 1) =~= msgs.take(i));
    }
}

/// Drains one message stream: parses every raw line before the first
/// termination sentinel, skips lines that do not parse, tracks the
/// running minimum, and returns the published improvements in order.
pub fn find_oldest_line(messages: &Vec<(String, String)>) -> (results: Vec<LineDetails>)
    ensures
        record_views(results@) == published(records_of(live_prefix(msg_views(messages@)))),
        forall|j: int|
            0 <= j < results@.len() ==> (#[trigger] results@[j]@).timestamp.wf(),
{
    let ghost mv = msg_views(messages@);
    let mut rm = RunningMinimum::new();
    let mut results: Vec<LineDetails> = Vec::new();
    let n = messages.len();
    let mut i: usize = 0;
    while i < n && is_work_message(&messages[i].0)
        invariant
            0 <= i <= n,
            n == messages@.len(),
            mv == msg_views(messages@),
            forall|j: int| 0 <= j < i ==> (#[trigger] mv[j]).0 != sentinel(),
            rm.wf(),
            rm@ == seq_min(records_of(mv.take(i as int))),
            record_views(results@) == published(records_of(mv.take(i as int))),
            forall|j: int| 0 <= j < results@.len() ==> (#[trigger] results@[j]@).timestamp.wf(),
        decreases n - i,
    {
        let pair = &messages[i];
        proof {
            assert(mv[i as int] == (pair.0@, pair.1@));
            assert(mv.take(i as int + 1).drop_last() =~= mv.take(i as int));
            assert(mv.take(i as int + 1).last() == mv[i as int]);
        }
        let ghost old_records = records_of(mv.take(i as int));
        match parse_line(pair.0.as_str(), pair.1.as_str()) {
            Option::None => {
                proof {
                    assert(records_of(mv.take(i as int + 1)) == old_records);
                }
            },
            Option::Some(d) => {
                proof {
                    assert(records_of(mv.take(i as int + 1)) == old_records.push(d@));
                    assert(old_records.push(d@).drop_last() =~= old_records);
                }
                let ghost old_rm = rm@;
                let accepted = rm.offer(d.clone());
                if accepted {
                    results.push(d);
                    proof {
                        assert(record_views(results@) =~= published(old_records).push(
                            old_records.push(d@).last(),
                        ));
                    }
                }
            },
        }
        i = i + 1;
    }
    proof {
        if i < n {
            assert(mv[i as int].0 == sentinel());
        }
        lemma_live_prefix_cut(mv, i as int);
        if i == n {
            assert(mv.take(i as int) =~= mv);
        }
    }
    results
}

/// Drains the published results to exhaustion and returns the last one:
/// by the publish-on-strict-improvement policy, the global minimum; or
/// the undefined record if nothing was published.
pub fn finalize(results: Vec<LineDetails>) -> (r: LineDetails)
    ensures
        results@.len() == 0 ==> r@ == RecordModel::undefined(),
        results@.len() > 0 ==> r@ == results@.last()@,
{
    let mut v = results;
    match v.pop() {
        Option::None => LineDetails::default(),
        Option::Some(d) => d,
    }
}

/// The published stream is empty only when no record arrived, and its
/// last entry is the running minimum.
proof fn lemma_published_last(rs: Seq<RecordModel>)
    ensures
        rs.len() == 0 ==> published(rs).len() == 0 && seq_min(rs) is None,
        rs.len() > 0 ==> published(rs).len() > 0 && seq_min(rs) == Option::Some(
            published(rs).last(),
        ),
    decreases rs.len(),
{
    if rs.len() > 0 {
        lemma_published_last(rs.drop_last());
    }
}

/// The running minimum is a member of the records and no record's
/// timestamp lies before its.
proof fn lemma_seq_min(rs: Seq<RecordModel>)
    requires
        rs.len() > 0,
    ensures
        seq_min(rs) is Some,
        rs.contains(seq_min(rs).unwrap()),
        forall|i: int|
            0 <= i < rs.len() ==> seq_min(rs).unwrap().timestamp.instant() <= (
            #[trigger] rs[i]).timestamp.instant(),
    decreases rs.len(),
{
    let d = rs.drop_last();
    if d.len() == 0 {
        assert(rs[0] == rs.last());
    } else {
        lemma_seq_min(d);
        let m = seq_min(rs).unwrap();
        if improves(seq_min(d), rs.last()) {
            assert(rs[rs.len() - 1] == rs.last());
            assert(rs.contains(m));
        } else {
            let md = seq_min(d).unwrap();
            let j = choose|j: int| 0 <= j < d.len() && d[j] == md;
            assert(rs[j] == md);
            assert(rs.contains(m));
        }
        assert forall|i: int|
            0 <= i < rs.len() implies m.timestamp.instant() <= (
        #[trigger] rs[i]).timestamp.instant() by {
            if i < rs.len() - 1 {
                assert(d[i] == rs[i]);
            }
        }
    }
}

/// Reduction correctness: as soon as any record arrives something is
/// published, the last published record is one of the records, and its
/// timestamp lies at or before every record's timestamp.
pub proof fn lemma_reduction_minimum(rs: Seq<RecordModel>)
    ensures
        (published(rs).len() > 0) <==> (rs.len() > 0),
        rs.len() > 0 ==> rs.contains(published(rs).last()),
        rs.len() > 0 ==> forall|i: int|
            0 <= i < rs.len() ==> published(rs).last().timestamp.instant() <= (
            #[trigger] rs[i]).timestamp.instant(),
{
    lemma_published_last(rs);
    if rs.len() > 0 {
        lemma_seq_min(rs);
    }
}

/// Commutativity under interleaving: two runs whose records form the same
/// multiset end on the same final timestamp, however the workers' outputs
/// were interleaved. (The final record itself may differ when timestamps
/// tie; only the timestamp is order-independent.)
pub proof fn lemma_interleaving_independent(r1: Seq<RecordModel>, r2: Seq<RecordModel>)
    requires
        r1.to_multiset() == r2.to_multiset(),
        r1.len() > 0,
    ensures
        published(r2).len() > 0,
        published(r1).last().timestamp.instant() == published(r2).last().timestamp.instant(),
{
    broadcast use group_to_multiset_ensures;

    assert(r2.len() == r2.to_multiset().len());
    assert(r1.len() == r1.to_multiset().len());
    lemma_reduction_minimum(r1);
    lemma_reduction_minimum(r2);
    let m1 = published(r1).last();
    let m2 = published(r2).last();
    assert(r1.to_multiset().count(m1) > 0);
    assert(r2.contains(m1));
    let j1 = choose|j: int| 0 <= j < r2.len() && r2[j] == m1;
    assert(m2.timestamp.instant() <= m1.timestamp.instant());
    assert(r2.to_multiset().count(m2) > 0);
    assert(r1.contains(m2));
    let j2 = choose|j: int| 0 <= j < r1.len() && r1[j] == m2;
    assert(m1.timestamp.instant() <= m2.timestamp.instant());
}

} // verus!
