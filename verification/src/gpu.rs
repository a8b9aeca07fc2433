//! One whole enumeration pass over recorded operating-system replies.

use vstd::prelude::*;
use crate::scan::{entry_of, AdapterReply, AdapterScan, ScanStep, UsageError, MAX_ADAPTERS};
use crate::usage::{
    identities, is_usage_report, lemma_one_mean_per_identity, AdapterEntry, MeanUsage,
};

verus! {

/// The reply for `index`: the recorded one, or the end of the enumeration
/// past the last recorded reply.
pub open spec fn reply_at(replies: Seq<AdapterReply>, index: int) -> AdapterReply {
    if 0 <= index < replies.len() {
        replies[index]
    } else {
        AdapterReply::Exhausted
    }
}

/// The index at which a scan that has reached `from` stops asking: the
/// first index whose reply is no described entry, or `MAX_ADAPTERS`.
pub open spec fn stop_index(replies: Seq<AdapterReply>, from: nat) -> nat
    decreases MAX_ADAPTERS - from,
{
    if from < MAX_ADAPTERS && reply_at(replies, from as int) is Described {
        stop_index(replies, from + 1)
    } else {
        from
    }
}

/// The entries recorded for the first `upto` replies.
pub open spec fn described(replies: Seq<AdapterReply>, upto: nat) -> Seq<AdapterEntry> {
    Seq::new(upto, |i: int| entry_of(reply_at(replies, i)->Described_0))
}

/// The entries that a scan over `replies` collects.
pub open spec fn scanned(replies: Seq<AdapterReply>) -> Seq<AdapterEntry> {
    described(replies, stop_index(replies, 0))
}

/// Whether a scan over `replies` meets an entry without a description
/// before it ends.
pub open spec fn meets_undescribed(replies: Seq<AdapterReply>) -> bool {
    let stop = stop_index(replies, 0);
    stop < MAX_ADAPTERS && reply_at(replies, stop as int) is Undescribed
}

/// Runs one enumeration pass. `handle_acquired` says whether the
/// enumeration handle could be had; `replies[i]` is what the operating
/// system answers for index `i`, and past the last one the enumeration is
/// over. The result is the ascending list of per-identity mean usages.
pub fn get_gpu_usage(handle_acquired: bool, replies: &Vec<AdapterReply>) -> (result: Result<
    Vec<MeanUsage>,
    UsageError,
>)
    ensures
        !handle_acquired ==> result == Err::<Vec<MeanUsage>, UsageError>(
            UsageError::EnumerationUnavailable,
        ),
        handle_acquired && meets_undescribed(replies@) ==> result == Err::<
            Vec<MeanUsage>,
            UsageError,
        >(UsageError::DescriptionUnavailable),
        handle_acquired && reply_at(replies@, 0) is Exhausted ==> (result matches Ok(report)
            && report.len() == 0),
        handle_acquired && !meets_undescribed(replies@) ==> (result matches Ok(report)
            && is_usage_report(report@, scanned(replies@)) && report.len() == identities(
            scanned(replies@),
        ).len()),
{
    let mut step = AdapterScan::open(handle_acquired);
    assert(described(replies@, 0) =~= Seq::empty());
    loop
        invariant
            !handle_acquired ==> step == ScanStep::Abort(UsageError::EnumerationUnavailable),
            handle_acquired ==> match step {
                ScanStep::Query(scan) => {
                    &&& scan@.len() < MAX_ADAPTERS
                    &&& scan@ == described(replies@, scan@.len())
                    &&& stop_index(replies@, 0) == stop_index(replies@, scan@.len())
                },
                ScanStep::Finish(report) => {
                    &&& !meets_undescribed(replies@)
                    &&& is_usage_report(report@, scanned(replies@))
                    &&& report.len() == identities(scanned(replies@)).len()
                },
                ScanStep::Abort(error) => {
                    &&& meets_undescribed(replies@)
                    &&& error == UsageError::DescriptionUnavailable
                },
            },
        decreases remaining(step),
    {
        match step {
            ScanStep::Query(scan) => {
                let index = scan.index() as usize;
                let reply = if index < replies.len() {
                    replies[index]
                } else {
                    AdapterReply::Exhausted
                };
                let ghost before = scan@;
                step = scan.advance(reply);
                proof {
                    let at = index as nat;
                    assert(reply == reply_at(replies@, at as int));
                    if let AdapterReply::Described(luid) = reply {
                        assert(before.push(entry_of(luid)) =~= described(replies@, at + 1));
                        assert(stop_index(replies@, at) == stop_index(replies@, at + 1));
                    }
                }
            },
            ScanStep::Finish(report) => {
                proof {
                    lemma_stop_index_bounded(replies@, 0);
                    lemma_one_mean_per_identity(report@, scanned(replies@));
                }
                return Ok(report);
            },
            ScanStep::Abort(error) => {
                return Err(error);
            },
        }
    }
}

/// How many more replies a scan may still ask for, plus one while it runs.
pub open spec fn remaining(step: ScanStep) -> nat {
    match step {
        ScanStep::Query(scan) => (MAX_ADAPTERS - scan@.len() + 1) as nat,
        _ => 0,
    }
}

/// A scan stops at or before `MAX_ADAPTERS`, and never before where it
/// stands.
pub proof fn lemma_stop_index_bounded(replies: Seq<AdapterReply>, from: nat)
    requires
        from <= MAX_ADAPTERS,
    ensures
        from <= stop_index(replies, from) <= MAX_ADAPTERS,
    decreases MAX_ADAPTERS - from,
{
    if from < MAX_ADAPTERS && reply_at(replies, from as int) is Described {
        lemma_stop_index_bounded(replies, from + 1);
    }
}

/// A scan collects at most `MAX_ADAPTERS` entries, however many replies
/// there are.
pub proof fn lemma_scan_is_capped(replies: Seq<AdapterReply>)
    ensures
        scanned(replies).len() <= MAX_ADAPTERS,
{
    lemma_stop_index_bounded(replies, 0);
}

/// Replies at index `MAX_ADAPTERS` and beyond are never looked at: two
/// recordings that agree below that index give the same scan.
pub proof fn lemma_scan_ignores_replies_past_cap(a: Seq<AdapterReply>, b: Seq<AdapterReply>)
    requires
        forall|i: int| 0 <= i < MAX_ADAPTERS ==> reply_at(a, i) == reply_at(b, i),
    ensures
        scanned(a) == scanned(b),
        meets_undescribed(a) == meets_undescribed(b),
{
    lemma_same_stop(a, b, 0);
    lemma_stop_index_bounded(a, 0);
    assert(scanned(a) =~= scanned(b));
}

/// Two recordings that agree below `MAX_ADAPTERS` stop at the same index.
pub proof fn lemma_same_stop(a: Seq<AdapterReply>, b: Seq<AdapterReply>, from: nat)
    requires
        forall|i: int| 0 <= i < MAX_ADAPTERS ==> reply_at(a, i) == reply_at(b, i),
    ensures
        stop_index(a, from) == stop_index(b, from),
    decreases MAX_ADAPTERS - from,
{
    if from < MAX_ADAPTERS {
        assert(reply_at(a, from as int) == reply_at(b, from as int));
        if reply_at(a, from as int) is Described {
            lemma_same_stop(a, b, from + 1);
        }
    }
}

} // verus!
