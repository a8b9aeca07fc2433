//! The bounded adapter enumeration as a state machine: the caller talks to
//! the operating system, the scan decides what to ask next and when to stop.

use vstd::prelude::*;
use crate::luid::Luid;
use crate::usage::{
    identities, is_usage_report, usage_report, AdapterEntry, MeanUsage, PLACEHOLDER_SAMPLE,
};

verus! {

/// The largest number of adapter entries that one scan visits. It guards
/// against an enumeration that never ends.
pub const MAX_ADAPTERS: usize = 10;

/// Why a scan produced no report.
#[derive(Clone, Copy, Debug, PartialEq, Eq, Structural)]
pub enum UsageError {
    /// The enumeration handle could not be acquired.
    EnumerationUnavailable,
    /// An entry's description record could not be read.
    DescriptionUnavailable,
}

impl UsageError {
    /// The text that `message` returns.
    pub open spec fn message_spec(self) -> Seq<char> {
        match self {
            UsageError::EnumerationUnavailable => "adapter enumeration is unavailable"@,
            UsageError::DescriptionUnavailable => "adapter description is unavailable"@,
        }
    }

    /// A human-readable description of the error.
    pub fn message(&self) -> (text: String)
        ensures
            text@ == self.message_spec(),
    {
        match self {
            UsageError::EnumerationUnavailable => "adapter enumeration is unavailable".to_owned(),
            UsageError::DescriptionUnavailable => "adapter description is unavailable".to_owned(),
        }
    }
}

/// What the operating system answered for one requested index.
#[derive(Clone, Copy, Debug, PartialEq, Eq, Structural)]
pub enum AdapterReply {
    /// An entry exists and its description gave this identity.
    Described(Luid),
    /// An entry exists but its description could not be read.
    Undescribed,
    /// No entry exists at the index: the enumeration is over.
    Exhausted,
}

/// A scan in progress: the entries collected so far, fewer than
/// `MAX_ADAPTERS`.
pub struct AdapterScan {
    entries: Vec<AdapterEntry>,
}

/// What the caller does next.
pub enum ScanStep {
    /// Request the entry at the scan's `index` and hand the reply to `advance`.
    Query(AdapterScan),
    /// The scan is over; this is its report.
    Finish(Vec<MeanUsage>),
    /// The scan failed; nothing is reported.
    Abort(UsageError),
}

/// The entry recorded for a described adapter.
pub open spec fn entry_of(luid: Luid) -> AdapterEntry {
    AdapterEntry { luid, sample: PLACEHOLDER_SAMPLE }
}

impl View for AdapterScan {
    type V = Seq<AdapterEntry>;

    /// The entries collected so far, in enumeration order.
    closed spec fn view(&self) -> Seq<AdapterEntry> {
        self.entries@
    }
}

impl AdapterScan {
    #[verifier::type_invariant]
    spec fn bounded(self) -> bool {
        self.entries@.len() < MAX_ADAPTERS
    }

    /// Starts a scan, given whether the enumeration handle was acquired.
    pub fn open(handle_acquired: bool) -> (step: ScanStep)
        ensures
            handle_acquired ==> (step matches ScanStep::Query(scan) && scan@
                == Seq::<AdapterEntry>::empty()),
            !handle_acquired ==> step == ScanStep::Abort(UsageError::EnumerationUnavailable),
    {
        if handle_acquired {
            ScanStep::Query(AdapterScan { entries: Vec::new() })
        } else {
            ScanStep::Abort(UsageError::EnumerationUnavailable)
        }
    }

    /// The index of the entry to request next. It never reaches
    /// `MAX_ADAPTERS`.
    pub fn index(&self) -> (index: u32)
        ensures
            index == self@.len(),
            index < MAX_ADAPTERS,
    {
        proof {
            use_type_invariant(self);
        }
        self.entries.len() as u32
    }

    /// Takes the reply for the entry at `index` and decides how to go on: a
    /// missing description aborts, the end of the enumeration or the
    /// `MAX_ADAPTERS`-th entry finishes with the report, anything else asks
    /// for the next entry.
    pub fn advance(self, reply: AdapterReply) -> (step: ScanStep)
        ensures
            self@.len() < MAX_ADAPTERS,
            match reply {
                AdapterReply::Exhausted => {
                    &&& step matches ScanStep::Finish(report)
                    &&& is_usage_report(report@, self@)
                    &&& report.len() == identities(self@).len()
                },
                AdapterReply::Undescribed => step == ScanStep::Abort(
                    UsageError::DescriptionUnavailable,
                ),
                AdapterReply::Described(luid) => {
                    let entries = self@.push(entry_of(luid));
                    if entries.len() < MAX_ADAPTERS {
                        step matches ScanStep::Query(next) && next@ == entries
                    } else {
                        &&& step matches ScanStep::Finish(report)
                        &&& is_usage_report(report@, entries)
                        &&& report.len() == identities(entries).len()
                    }
                },
            },
    {
        proof {
            use_type_invariant(&self);
        }
        let mut entries = self.entries;
        match reply {
            AdapterReply::Exhausted => ScanStep::Finish(usage_report(&entries)),
            AdapterReply::Undescribed => ScanStep::Abort(UsageError::DescriptionUnavailable),
            AdapterReply::Described(luid) => {
                entries.push(AdapterEntry { luid, sample: PLACEHOLDER_SAMPLE });
                if entries.len() < MAX_ADAPTERS {
                    ScanStep::Query(AdapterScan { entries })
                } else {
                    ScanStep::Finish(usage_report(&entries))
                }
            },
        }
    }
}

} // verus!
