//! Bringing the records of two trails into one order.
//!
//! Trails that were decoded apart from each other, by workers that share
//! nothing, may have to be read as one. The order of the merged records is
//! the order of their timestamps, which says when the events happened, and
//! never the order in which the workers happened to finish.

use crate::header::Header;
use crate::record::AuditRecord;
use crate::record::AuditRecordModel;
use vstd::prelude::*;
use vstd::seq_lib::lemma_multiset_commutative;

verus! {

/// Whether the event of header `a` happened strictly before that of `b`:
/// at an earlier second, or in the same second at an earlier millisecond.
pub open spec fn earlier(a: Header, b: Header) -> bool {
    a.timestamp_seconds < b.timestamp_seconds || (a.timestamp_seconds == b.timestamp_seconds
        && a.timestamp_millis < b.timestamp_millis)
}

/// Whether the event of header `a` happened strictly before that of `b`.
pub fn is_earlier(a: &Header, b: &Header) -> (before: bool)
    ensures
        before == earlier(*a, *b),
{
    a.timestamp_seconds < b.timestamp_seconds || (a.timestamp_seconds == b.timestamp_seconds
        && a.timestamp_millis < b.timestamp_millis)
}

/// Whether no record of the sequence is earlier than one that comes before
/// it.
pub open spec fn in_time_order(records: Seq<AuditRecordModel>) -> bool {
    forall|i: int, j: int|
        #![trigger records[i], records[j]]
        0 <= i < j < records.len() ==> !earlier(records[j].header, records[i].header)
}

/// The two sequences merged by timestamp. At each step the merge takes the
/// record at the front of `b` if it is strictly earlier than the one at the
/// front of `a`, and the one at the front of `a` otherwise, so that of two
/// records with the same timestamp the one from `a` comes first.
pub open spec fn merged(a: Seq<AuditRecordModel>, b: Seq<AuditRecordModel>) -> Seq<
    AuditRecordModel,
>
    decreases a.len() + b.len(),
{
    if a.len() == 0 {
        b
    } else if b.len() == 0 {
        a
    } else if earlier(b.first().header, a.first().header) {
        seq![b.first()] + merged(a, b.drop_first())
    } else {
        seq![a.first()] + merged(a.drop_first(), b)
    }
}

/// The models of a sequence of records.
pub open spec fn record_models(records: Seq<AuditRecord>) -> Seq<AuditRecordModel> {
    Seq::new(records.len(), |i: int| records[i]@)
}

/// Merging loses nothing and invents nothing: the merged sequence holds
/// exactly the records of the two sequences, each as often as they hold it.
pub proof fn lemma_merged_keeps_all(a: Seq<AuditRecordModel>, b: Seq<AuditRecordModel>)
    ensures
        merged(a, b).len() == a.len() + b.len(),
        merged(a, b).to_multiset() == a.to_multiset().add(b.to_multiset()),
    decreases a.len() + b.len(),
{
    if a.len() == 0 {
        assert(a.to_multiset().add(b.to_multiset()) =~= b.to_multiset()) by {
            assert(a =~= Seq::empty());
            lemma_multiset_commutative(a, b);
            assert(a + b =~= b);
        }
    } else if b.len() == 0 {
        assert(a.to_multiset().add(b.to_multiset()) =~= a.to_multiset()) by {
            assert(b =~= Seq::empty());
            lemma_multiset_commutative(a, b);
            assert(a + b =~= a);
        }
    } else if earlier(b.first().header, a.first().header) {
        let rest = merged(a, b.drop_first());
        lemma_merged_keeps_all(a, b.drop_first());
        lemma_multiset_commutative(seq![b.first()], rest);
        lemma_multiset_commutative(seq![b.first()], b.drop_first());
        assert(seq![b.first()] + b.drop_first() =~= b);
        assert(merged(a, b).to_multiset() =~= a.to_multiset().add(b.to_multiset()));
    } else {
        let rest = merged(a.drop_first(), b);
        lemma_merged_keeps_all(a.drop_first(), b);
        lemma_multiset_commutative(seq![a.first()], rest);
        lemma_multiset_commutative(seq![a.first()], a.drop_first());
        assert(seq![a.first()] + a.drop_first() =~= a);
        assert(merged(a, b).to_multiset() =~= a.to_multiset().add(b.to_multiset()));
    }
}

/// Every record of the merged sequence stands in one of the two sequences.
proof fn lemma_merged_from_either(a: Seq<AuditRecordModel>, b: Seq<AuditRecordModel>, k: int)
    requires
        0 <= k < merged(a, b).len(),
    ensures
        a.contains(merged(a, b)[k]) || b.contains(merged(a, b)[k]),
    decreases a.len() + b.len(),
{
    if a.len() == 0 {
        assert(b[k] == merged(a, b)[k]);
    } else if b.len() == 0 {
        assert(a[k] == merged(a, b)[k]);
    } else if earlier(b.first().header, a.first().header) {
        if k == 0 {
            assert(b[0] == merged(a, b)[k]);
        } else {
            lemma_merged_from_either(a, b.drop_first(), k - 1);
            let found = merged(a, b.drop_first())[k - 1];
            if b.drop_first().contains(found) {
                let i = choose|i: int| 0 <= i < b.drop_first().len() && b.drop_first()[i] == found;
                assert(b[i + 1] == found);
            }
        }
    } else {
        if k == 0 {
            assert(a[0] == merged(a, b)[k]);
        } else {
            lemma_merged_from_either(a.drop_first(), b, k - 1);
            let found = merged(a.drop_first(), b)[k - 1];
            if a.drop_first().contains(found) {
                let i = choose|i: int| 0 <= i < a.drop_first().len() && a.drop_first()[i] == found;
                assert(a[i + 1] == found);
            }
        }
    }
}

/// Two sequences that are each in the order of time merge into one that is
/// in the order of time.
pub proof fn lemma_merged_in_time_order(a: Seq<AuditRecordModel>, b: Seq<AuditRecordModel>)
    requires
        in_time_order(a),
        in_time_order(b),
    ensures
        in_time_order(merged(a, b)),
    decreases a.len() + b.len(),
{
    if a.len() == 0 || b.len() == 0 {
    } else {
        let from_b = earlier(b.first().header, a.first().header);
        let head = if from_b {
            b.first()
        } else {
            a.first()
        };
        let rest_a = if from_b {
            a
        } else {
            a.drop_first()
        };
        let rest_b = if from_b {
            b.drop_first()
        } else {
            b
        };
        let rest = merged(rest_a, rest_b);
        let all = merged(a, b);
        assert(all == seq![head] + rest);
        assert(in_time_order(rest_a)) by {
            assert forall|i: int, j: int|
                #![trigger rest_a[i], rest_a[j]]
                0 <= i < j < rest_a.len() implies !earlier(rest_a[j].header, rest_a[i].header) by {
                if !from_b {
                    assert(rest_a[i] == a[i + 1] && rest_a[j] == a[j + 1]);
                }
            }
        }
        assert(in_time_order(rest_b)) by {
            assert forall|i: int, j: int|
                #![trigger rest_b[i], rest_b[j]]
                0 <= i < j < rest_b.len() implies !earlier(rest_b[j].header, rest_b[i].header) by {
                if from_b {
                    assert(rest_b[i] == b[i + 1] && rest_b[j] == b[j + 1]);
                }
            }
        }
        lemma_merged_in_time_order(rest_a, rest_b);
        assert forall|i: int, j: int|
            #![trigger all[i], all[j]]
            0 <= i < j < all.len() implies !earlier(all[j].header, all[i].header) by {
            if i == 0 {
                let later = all[j];
                assert(later == rest[j - 1]);
                lemma_merged_from_either(rest_a, rest_b, j - 1);
                if rest_a.contains(later) {
                    let k = choose|k: int| 0 <= k < rest_a.len() && rest_a[k] == later;
                    if from_b {
                        assert(!earlier(a[k].header, a[0].header) || k == 0);
                    } else {
                        assert(rest_a[k] == a[k + 1]);
                        assert(!earlier(a[k + 1].header, a[0].header));
                    }
                } else {
                    let k = choose|k: int| 0 <= k < rest_b.len() && rest_b[k] == later;
                    if from_b {
                        assert(rest_b[k] == b[k + 1]);
                        assert(!earlier(b[k + 1].header, b[0].header));
                    } else {
                        assert(!earlier(b[k].header, b[0].header) || k == 0);
                    }
                }
            } else {
                assert(all[i] == rest[i - 1] && all[j] == rest[j - 1]);
            }
        }
    }
}

/// Turns a list of records into a stack with its first record on top.
fn reversed(records: Vec<AuditRecord>) -> (stack: Vec<AuditRecord>)
    ensures
        stack@.len() == records@.len(),
        forall|i: int| 0 <= i < stack@.len() ==> stack@[i] == records@[records@.len() - 1 - i],
{
    let ghost all = records@;
    let mut records = records;
    let mut stack: Vec<AuditRecord> = Vec::new();
    while records.len() > 0
        invariant
            records@.len() + stack@.len() == all.len(),
            forall|i: int| 0 <= i < records@.len() ==> records@[i] == all[i],
            forall|i: int| 0 <= i < stack@.len() ==> stack@[i] == all[all.len() - 1 - i],
        decreases records@.len(),
    {
        match records.pop() {
            Some(record) => {
                stack.push(record);
            },
            None => {},
        }
    }
    stack
}

/// Merges the records of two trails by timestamp.
///
/// Each list keeps its own order. Where both lists are in the order of time,
/// so is the result; of two records with the same timestamp, the one from
/// `a` comes first.
pub fn merge_by_timestamp(a: Vec<AuditRecord>, b: Vec<AuditRecord>) -> (out: Vec<AuditRecord>)
    ensures
        record_models(out@) == merged(record_models(a@), record_models(b@)),
{
    let ghost first = record_models(a@);
    let ghost second = record_models(b@);
    let ghost total_a = a@.len() as int;
    let ghost total_b = b@.len() as int;
    let mut stack_a = reversed(a);
    let mut stack_b = reversed(b);
    let mut out: Vec<AuditRecord> = Vec::new();
    assert(first.skip(0) =~= first);
    assert(second.skip(0) =~= second);
    assert(record_models(out@) =~= Seq::empty());
    assert(Seq::<AuditRecordModel>::empty() + merged(first, second) =~= merged(first, second));
    while stack_a.len() > 0 || stack_b.len() > 0
        invariant
            total_a == first.len(),
            total_b == second.len(),
            stack_a@.len() <= total_a,
            stack_b@.len() <= total_b,
            forall|i: int| 0 <= i < stack_a@.len() ==> (#[trigger] stack_a@[i])@ == first[total_a - 1 - i],
            forall|i: int| 0 <= i < stack_b@.len() ==> (#[trigger] stack_b@[i])@ == second[total_b - 1 - i],
            merged(first, second) == record_models(out@) + merged(
                first.skip(total_a - stack_a@.len()),
                second.skip(total_b - stack_b@.len()),
            ),
        decreases stack_a@.len() + stack_b@.len(),
    {
        let ghost done = record_models(out@);
        let ghost at_a = total_a - stack_a@.len();
        let ghost at_b = total_b - stack_b@.len();
        let ghost left_a = first.skip(at_a);
        let ghost left_b = second.skip(at_b);
        let from_b: bool = if stack_a.len() == 0 {
            true
        } else if stack_b.len() == 0 {
            false
        } else {
            is_earlier(&stack_b[stack_b.len() - 1].header, &stack_a[stack_a.len() - 1].header)
        };
        let taken = if from_b {
            stack_b.pop()
        } else {
            stack_a.pop()
        };
        match taken {
            Some(record) => {
                let ghost model = record@;
                out.push(record);
                proof {
                    let next = merged(
                        first.skip(total_a - stack_a@.len()),
                        second.skip(total_b - stack_b@.len()),
                    );
                    if from_b {
                        assert(left_b.first() == model);
                        assert(left_b.drop_first() =~= second.skip(at_b + 1));
                        assert(seq![model] + left_b.drop_first() =~= left_b);
                    } else {
                        assert(left_a.first() == model);
                        assert(left_a.drop_first() =~= first.skip(at_a + 1));
                        assert(seq![model] + left_a.drop_first() =~= left_a);
                    }
                    assert(merged(left_a, left_b) =~= seq![model] + next);
                    assert(record_models(out@) =~= done.push(model));
                    assert(done.push(model) + next =~= done + (seq![model] + next));
                }
            },
            None => {},
        }
    }
    assert(first.skip(total_a) =~= Seq::empty());
    assert(record_models(out@) + Seq::<AuditRecordModel>::empty() =~= record_models(out@));
    out
}

} // verus!
