//! Usage samples, their grouping by adapter identity, and the ascending
//! list of per-group means.

use vstd::prelude::*;
use vstd::seq_lib::*;
use crate::luid::Luid;

verus! {

/// The sample recorded for every entry while no real telemetry source is
/// attached: zero utilisation.
pub const PLACEHOLDER_SAMPLE: u32 = 0;

/// A sample of full utilisation: one hundred percent, in hundredths of a
/// percent.
pub const FULL_SCALE: u32 = 10_000;

/// One enumerated adapter entry: its identity and one usage sample, in
/// hundredths of a percent.
#[derive(Clone, Copy, Debug, PartialEq, Eq, Structural)]
pub struct AdapterEntry {
    pub luid: Luid,
    pub sample: u32,
}

/// The arithmetic mean of one group's samples, kept exact as the samples'
/// sum (hundredths of a percent) and their number.
#[derive(Clone, Copy, Debug, PartialEq, Eq, Structural)]
pub struct MeanUsage {
    pub total: u64,
    pub count: u32,
}

/// The identities in the order in which the entries first show them.
pub open spec fn first_seen(entries: Seq<AdapterEntry>) -> Seq<Luid>
    decreases entries.len(),
{
    if entries.len() == 0 {
        Seq::empty()
    } else {
        let earlier = first_seen(entries.drop_last());
        if earlier.contains(entries.last().luid) {
            earlier
        } else {
            earlier.push(entries.last().luid)
        }
    }
}

/// The samples of the entries that carry `luid`, in enumeration order.
pub open spec fn samples_of(entries: Seq<AdapterEntry>, luid: Luid) -> Seq<u32>
    decreases entries.len(),
{
    if entries.len() == 0 {
        Seq::empty()
    } else {
        let earlier = samples_of(entries.drop_last(), luid);
        if entries.last().luid == luid {
            earlier.push(entries.last().sample)
        } else {
            earlier
        }
    }
}

/// The sum of a sequence of samples.
pub open spec fn sum(samples: Seq<u32>) -> nat
    decreases samples.len(),
{
    if samples.len() == 0 {
        0
    } else {
        sum(samples.drop_last()) + samples.last() as nat
    }
}

/// The set of distinct identities among the entries.
pub open spec fn identities(entries: Seq<AdapterEntry>) -> Set<Luid> {
    Set::new(|luid: Luid| exists|i: int| 0 <= i < entries.len() && entries[i].luid == luid)
}

/// The mean of a group of samples.
pub open spec fn mean_of(samples: Seq<u32>) -> MeanUsage {
    MeanUsage { total: sum(samples) as u64, count: samples.len() as u32 }
}

/// One mean per identity, in first-seen order of the identities.
pub open spec fn group_means(entries: Seq<AdapterEntry>) -> Seq<MeanUsage> {
    Seq::new(
        first_seen(entries).len(),
        |i: int| mean_of(samples_of(entries, first_seen(entries)[i])),
    )
}

/// `a` is at most `b`, as exact fractions (compared by cross-multiplication).
pub open spec fn mean_le(a: MeanUsage, b: MeanUsage) -> bool {
    a.total * b.count <= b.total * a.count
}

/// Every element is at most its successor.
pub open spec fn ascending(means: Seq<MeanUsage>) -> bool {
    forall|i: int| 0 <= i < means.len() - 1 ==> mean_le(#[trigger] means[i], means[i + 1])
}

/// `report` is an ascending arrangement of the group means of `entries`.
pub open spec fn is_usage_report(report: Seq<MeanUsage>, entries: Seq<AdapterEntry>) -> bool {
    &&& ascending(report)
    &&& report.to_multiset() == group_means(entries).to_multiset()
}

impl MeanUsage {
    /// Whether `self` is at most `other`.
    pub fn le(&self, other: &MeanUsage) -> (r: bool)
        ensures
            r == mean_le(*self, *other),
    {
        assert(self.total * other.count <= 0xffff_ffff_ffff_ffff * 0xffff_ffff) by (nonlinear_arith)
            requires
                self.total <= 0xffff_ffff_ffff_ffff,
                other.count <= 0xffff_ffff,
        ;
        assert(other.total * self.count <= 0xffff_ffff_ffff_ffff * 0xffff_ffff) by (nonlinear_arith)
            requires
                other.total <= 0xffff_ffff_ffff_ffff,
                self.count <= 0xffff_ffff,
        ;
        let left: u128 = self.total as u128 * other.count as u128;
        let right: u128 = other.total as u128 * self.count as u128;
        left <= right
    }
}

/// Finds the first place at which `luid` stands among `luids`.
pub fn position(luids: &Vec<Luid>, luid: Luid) -> (found: Option<usize>)
    ensures
        match found {
            Some(j) => {
                &&& j < luids.len()
                &&& luids[j as int] == luid
                &&& forall|i: int| 0 <= i < j ==> luids[i] != luid
            },
            None => !luids@.contains(luid),
        },
{
    let mut j: usize = 0;
    while j < luids.len()
        invariant
            j <= luids.len(),
            forall|i: int| 0 <= i < j ==> luids[i] != luid,
        decreases luids.len() - j,
    {
        if luids[j] == luid {
            return Some(j);
        }
        j += 1;
    }
    None
}

/// Groups the entries by identity and takes the mean of each group. The
/// means come in the order in which the identities were first seen.
pub fn aggregate(entries: &Vec<AdapterEntry>) -> (means: Vec<MeanUsage>)
    requires
        entries.len() <= u32::MAX,
    ensures
        means@ == group_means(entries@),
        means.len() == identities(entries@).len(),
{
    let mut luids: Vec<Luid> = Vec::new();
    let mut means: Vec<MeanUsage> = Vec::new();
    let mut k: usize = 0;
    assert(entries@.take(0) =~= Seq::empty());
    while k < entries.len()
        invariant
            k <= entries.len() <= u32::MAX,
            luids@ == first_seen(entries@.take(k as int)),
            means@ == group_means(entries@.take(k as int)),
        decreases entries.len() - k,
    {
        let entry = entries[k];
        let ghost seen = entries@.take(k as int);
        let ghost next = entries@.take(k + 1);
        proof {
            assert(next.drop_last() =~= seen);
            assert(next.last() == entry);
            lemma_first_seen(seen);
            assert forall|i: int| 0 <= i < luids.len() implies samples_of(next, luids[i]) == (
            if luids[i] == entry.luid {
                samples_of(seen, luids[i]).push(entry.sample)
            } else {
                samples_of(seen, luids[i])
            }) by {}
        }
        match position(&luids, entry.luid) {
            Some(j) => {
                let mean = means[j];
                proof {
                    lemma_samples_bounded(seen, entry.luid);
                    lemma_sum_push(samples_of(seen, entry.luid), entry.sample);
                    assert(samples_of(seen, entry.luid).len() * 0xffff_ffff <= (k as int)
                        * 0xffff_ffff) by (nonlinear_arith)
                        requires
                            samples_of(seen, entry.luid).len() <= k,
                    ;
                }
                means.set(
                    j,
                    MeanUsage { total: mean.total + entry.sample as u64, count: mean.count + 1 },
                );
                proof {
                    assert(first_seen(next) == first_seen(seen));
                    assert forall|i: int| 0 <= i < luids.len() && i != j implies luids[i]
                        != entry.luid by {}
                    assert(means@ =~= group_means(next));
                }
            },
            None => {
                luids.push(entry.luid);
                means.push(MeanUsage { total: entry.sample as u64, count: 1 });
                proof {
                    lemma_unseen_has_no_samples(seen, entry.luid);
                    lemma_sum_push(samples_of(seen, entry.luid), entry.sample);
                    assert(samples_of(seen, entry.luid) =~= Seq::empty());
                    assert(means@ =~= group_means(next));
                }
            },
        }
        k += 1;
    }
    proof {
        assert(entries@.take(k as int) =~= entries@);
        lemma_first_seen(entries@);
        first_seen(entries@).unique_seq_to_set();
    }
    means
}

/// Arranges the means in ascending order.
pub fn sort_ascending(means: &Vec<MeanUsage>) -> (sorted: Vec<MeanUsage>)
    ensures
        ascending(sorted@),
        sorted@.to_multiset() == means@.to_multiset(),
        sorted.len() == means.len(),
{
    let mut sorted: Vec<MeanUsage> = Vec::new();
    let mut k: usize = 0;
    assert(means@.take(0) =~= Seq::empty());
    while k < means.len()
        invariant
            k <= means.len(),
            sorted.len() == k,
            ascending(sorted@),
            sorted@.to_multiset() == means@.take(k as int).to_multiset(),
        decreases means.len() - k,
    {
        let mean = means[k];
        let mut at: usize = 0;
        while at < sorted.len() && sorted[at].le(&mean)
            invariant
                at <= sorted.len(),
                at > 0 ==> mean_le(sorted[at - 1], mean),
            decreases sorted.len() - at,
        {
            at += 1;
        }
        let ghost before = sorted@;
        sorted.insert(at, mean);
        proof {
            assert(means@.take(k + 1) =~= means@.take(k as int).push(mean));
            assert(sorted@ == before.insert(at as int, mean));
            to_multiset_insert(before, at as int, mean);
            to_multiset_build(means@.take(k as int), mean);
            assert forall|i: int| 0 <= i < sorted.len() - 1 implies mean_le(
                #[trigger] sorted[i],
                sorted[i + 1],
            ) by {
                if i + 1 < at {
                    assert(mean_le(before[i], before[i + 1]));
                } else if i > at {
                    assert(mean_le(before[i - 1], before[i]));
                }
            }
        }
        k += 1;
    }
    proof {
        assert(means@.take(k as int) =~= means@);
    }
    sorted
}

/// The usage report of one enumeration pass: one mean per distinct identity
/// among the entries, in ascending order.
pub fn usage_report(entries: &Vec<AdapterEntry>) -> (report: Vec<MeanUsage>)
    requires
        entries.len() <= u32::MAX,
    ensures
        is_usage_report(report@, entries@),
        report.len() == identities(entries@).len(),
{
    let means = aggregate(entries);
    sort_ascending(&means)
}

/// Appending a sample adds it to the sum.
pub proof fn lemma_sum_push(samples: Seq<u32>, sample: u32)
    ensures
        sum(samples.push(sample)) == sum(samples) + sample,
{
    assert(samples.push(sample).drop_last() =~= samples);
}

/// The first-seen identities are pairwise distinct and are exactly the
/// identities that occur among the entries.
pub proof fn lemma_first_seen(entries: Seq<AdapterEntry>)
    ensures
        first_seen(entries).no_duplicates(),
        first_seen(entries).to_set() =~= identities(entries),
        first_seen(entries).len() <= entries.len(),
    decreases entries.len(),
{
    if entries.len() > 0 {
        let front = entries.drop_last();
        let last = entries.last().luid;
        lemma_first_seen(front);
        assert forall|luid: Luid| first_seen(entries).to_set().contains(luid) implies identities(
            entries,
        ).contains(luid) by {
            if first_seen(front).contains(luid) {
                assert(first_seen(front).to_set().contains(luid));
                let i = choose|i: int| 0 <= i < front.len() && front[i].luid == luid;
                assert(entries[i].luid == luid);
            } else {
                assert(luid == last);
                assert(entries[entries.len() - 1].luid == luid);
            }
        }
        assert forall|luid: Luid| identities(entries).contains(luid) implies first_seen(
            entries,
        ).to_set().contains(luid) by {
            let i = choose|i: int| 0 <= i < entries.len() && entries[i].luid == luid;
            if i < front.len() {
                assert(front[i].luid == luid);
                assert(identities(front).contains(luid));
                assert(first_seen(front).to_set().contains(luid));
                assert(first_seen(front).contains(luid));
                let j = choose|j: int| 0 <= j < first_seen(front).len() && first_seen(front)[j] == luid;
                assert(first_seen(entries)[j] == luid);
            } else {
                if first_seen(front).contains(last) {
                } else {
                    assert(first_seen(entries)[first_seen(front).len() as int] == luid);
                }
            }
        }
    } else {
        assert(first_seen(entries).to_set() =~= identities(entries));
    }
}

/// An identity that was never seen has no samples.
pub proof fn lemma_unseen_has_no_samples(entries: Seq<AdapterEntry>, luid: Luid)
    requires
        !first_seen(entries).contains(luid),
    ensures
        samples_of(entries, luid).len() == 0,
    decreases entries.len(),
{
    if entries.len() > 0 {
        let front = entries.drop_last();
        if first_seen(front).contains(entries.last().luid) {
        } else {
            assert(first_seen(entries).last() == entries.last().luid);
            assert forall|j: int| 0 <= j < first_seen(front).len() implies first_seen(front)[j]
                != luid by {
                assert(first_seen(entries)[j] == first_seen(front)[j]);
            }
        }
        lemma_unseen_has_no_samples(front, luid);
    }
}

/// A group holds no more samples than there are entries, and their sum is
/// bounded by the largest sample value times their number.
pub proof fn lemma_samples_bounded(entries: Seq<AdapterEntry>, luid: Luid)
    ensures
        samples_of(entries, luid).len() <= entries.len(),
        sum(samples_of(entries, luid)) <= samples_of(entries, luid).len() * 0xffff_ffff,
    decreases entries.len(),
{
    if entries.len() > 0 {
        let front = entries.drop_last();
        lemma_samples_bounded(front, luid);
        if entries.last().luid == luid {
            let earlier = samples_of(front, luid);
            assert(samples_of(entries, luid).drop_last() =~= earlier);
        }
    }
}

/// A report holds exactly one mean for each distinct identity among the
/// entries, and so no more means than there are entries.
pub proof fn lemma_one_mean_per_identity(report: Seq<MeanUsage>, entries: Seq<AdapterEntry>)
    requires
        is_usage_report(report, entries),
    ensures
        identities(entries).finite(),
        report.len() == identities(entries).len(),
        report.len() <= entries.len(),
        entries.len() == 0 ==> report.len() == 0,
{
    lemma_first_seen(entries);
    first_seen(entries).unique_seq_to_set();
    to_multiset_len(report);
    to_multiset_len(group_means(entries));
}

/// The order of means is transitive through a mean of at least one sample.
pub proof fn lemma_mean_le_transitive(a: MeanUsage, b: MeanUsage, c: MeanUsage)
    requires
        b.count >= 1,
        mean_le(a, b),
        mean_le(b, c),
    ensures
        mean_le(a, c),
{
    let (at, ac) = (a.total as int, a.count as int);
    let (bt, bc) = (b.total as int, b.count as int);
    let (ct, cc) = (c.total as int, c.count as int);
    assert(at * cc <= ct * ac) by (nonlinear_arith)
        requires
            bc >= 1,
            at >= 0,
            ac >= 0,
            bt >= 0,
            ct >= 0,
            cc >= 0,
            at * bc <= bt * ac,
            bt * cc <= ct * bc,
    {
        assert((at * bc) * cc <= (bt * ac) * cc);
        assert((bt * cc) * ac <= (ct * bc) * ac);
        assert((at * cc) * bc <= (ct * ac) * bc);
    }
}

/// An identity that was seen has at least one sample.
pub proof fn lemma_seen_has_samples(entries: Seq<AdapterEntry>, luid: Luid)
    requires
        first_seen(entries).contains(luid),
    ensures
        samples_of(entries, luid).len() >= 1,
    decreases entries.len(),
{
    if entries.len() > 0 {
        let front = entries.drop_last();
        if entries.last().luid != luid {
            if !first_seen(front).contains(entries.last().luid) {
                let j = choose|j: int| 0 <= j < first_seen(entries).len() && first_seen(entries)[j]
                    == luid;
                assert(first_seen(front)[j] == luid);
            }
            lemma_seen_has_samples(front, luid);
        }
    }
}

/// Every group mean stands for at least one sample, so it is a proper
/// fraction: no mean is undefined.
pub proof fn lemma_group_means_counted(entries: Seq<AdapterEntry>)
    requires
        entries.len() <= u32::MAX,
    ensures
        forall|i: int|
            0 <= i < group_means(entries).len() ==> (#[trigger] group_means(entries)[i]).count >= 1,
{
    assert forall|i: int| 0 <= i < group_means(entries).len() implies (#[trigger] group_means(
        entries,
    )[i]).count >= 1 by {
        let luid = first_seen(entries)[i];
        assert(first_seen(entries).contains(luid));
        lemma_seen_has_samples(entries, luid);
        lemma_samples_bounded(entries, luid);
    }
}

/// In a report every earlier mean is at most every later one, not only its
/// successor.
pub proof fn lemma_report_ordered(report: Seq<MeanUsage>, entries: Seq<AdapterEntry>)
    requires
        entries.len() <= u32::MAX,
        is_usage_report(report, entries),
    ensures
        forall|i: int, j: int| 0 <= i <= j < report.len() ==> mean_le(report[i], report[j]),
{
    lemma_group_means_counted(entries);
    assert forall|i: int| 0 <= i < report.len() implies (#[trigger] report[i]).count >= 1 by {
        to_multiset_contains(report, report[i]);
        to_multiset_contains(group_means(entries), report[i]);
        assert(report.contains(report[i]));
        assert(group_means(entries).contains(report[i]));
    }
    assert forall|i: int, j: int| 0 <= i <= j < report.len() implies mean_le(
        report[i],
        report[j],
    ) by {
        lemma_ascending_reaches(report, i, j);
    }
}

/// In an ascending sequence of proper fractions, an element is at most any
/// later one.
pub proof fn lemma_ascending_reaches(means: Seq<MeanUsage>, i: int, j: int)
    requires
        ascending(means),
        forall|k: int| 0 <= k < means.len() ==> (#[trigger] means[k]).count >= 1,
        0 <= i <= j < means.len(),
    ensures
        mean_le(means[i], means[j]),
    decreases j - i,
{
    if i < j {
        lemma_ascending_reaches(means, i, j - 1);
        assert(mean_le(means[j - 1], means[j - 1 + 1]));
        lemma_mean_le_transitive(means[i], means[j - 1], means[j]);
    }
}

/// Where no sample exceeds `FULL_SCALE`, no group's mean does: the sum of a
/// group's samples is at most `FULL_SCALE` times their number.
pub proof fn lemma_mean_within_scale(entries: Seq<AdapterEntry>, luid: Luid)
    requires
        forall|i: int| 0 <= i < entries.len() ==> (#[trigger] entries[i]).sample <= FULL_SCALE,
    ensures
        sum(samples_of(entries, luid)) <= samples_of(entries, luid).len() * FULL_SCALE,
    decreases entries.len(),
{
    if entries.len() > 0 {
        let front = entries.drop_last();
        assert forall|i: int| 0 <= i < front.len() implies (#[trigger] front[i]).sample
            <= FULL_SCALE by {
            assert(front[i] == entries[i]);
        }
        lemma_mean_within_scale(front, luid);
        if entries.last().luid == luid {
            assert(entries[entries.len() - 1].sample <= FULL_SCALE);
            lemma_sum_push(samples_of(front, luid), entries.last().sample);
        }
    }
}

} // verus!
