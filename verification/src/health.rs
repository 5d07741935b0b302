//! The moods a record carries, and a record of one: what a scope says of
//! itself, how severe it is, and the evidence, when it was observed.

use vstd::prelude::*;

verus! {

/// The mood of a record, from nothing to act on to ended.
#[derive(Clone, Copy, Debug, PartialEq, Eq, Structural)]
pub enum Health {
    /// Nothing to act on.
    Fine,
    /// Stopped on purpose, to resume.
    Paused,
    /// Starting, nothing to judge yet.
    Working,
    /// Running, with a fault that stays on the record.
    Stressed,
    /// Running out of what it needs.
    Exhausted,
    /// Above its leaves, holding on one that is not fine.
    Holding,
    /// Ended badly.
    Done,
}

/// A record as plain values.
pub struct HealthRecordView {
    pub scope: Seq<char>,
    pub health: Health,
    pub severity: u8,
    pub evidence: Seq<char>,
    pub observed_unix_nanos: i64,
}

/// What a scope says of itself: its mood, how severe, why, and when.
#[derive(Clone, Debug)]
pub struct HealthRecord {
    pub scope: String,
    pub health: Health,
    pub severity: u8,
    pub evidence: String,
    pub observed_unix_nanos: i64,
}

impl View for HealthRecord {
    type V = HealthRecordView;

    open spec fn view(&self) -> HealthRecordView {
        HealthRecordView {
            scope: self.scope@,
            health: self.health,
            severity: self.severity,
            evidence: self.evidence@,
            observed_unix_nanos: self.observed_unix_nanos,
        }
    }
}

/// The views of a list of records.
pub open spec fn record_views(records: Seq<HealthRecord>) -> Seq<HealthRecordView> {
    records.map_values(|record: HealthRecord| record@)
}

/// A copy of `record`.
pub fn copied_record(record: &HealthRecord) -> (copy: HealthRecord)
    ensures
        copy@ == record@,
{
    HealthRecord {
        scope: record.scope.clone(),
        health: record.health,
        severity: record.severity,
        evidence: record.evidence.clone(),
        observed_unix_nanos: record.observed_unix_nanos,
    }
}

} // verus!
