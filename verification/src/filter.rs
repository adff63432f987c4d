//! Which records a reader hands out.

use crate::message::{date_time_of, text_or_empty, JournalMessage};
use crate::time::Timestamp;
use crate::wire::FieldBytes;
use vstd::prelude::*;

verus! {

/// What a caller wants to see. A criterion that is `None` holds nothing
/// back.
#[derive(Debug, Clone)]
pub struct Filter {
    /// Only records of this unit.
    pub unit: Option<String>,
    /// Only records from this instant on.
    pub since: Option<Timestamp>,
    /// Only records up to this instant.
    pub until: Option<Timestamp>,
    /// No more records than this.
    pub lines: Option<u64>,
}

/// The record belongs to another unit than the one asked for. A record that
/// names no unit belongs to the unit of the empty name.
pub open spec fn wrong_unit(filter: Filter, rec: Seq<FieldBytes>) -> bool {
    filter.unit matches Some(unit) && unit@ != text_or_empty(rec, "_SYSTEMD_UNIT"@)
}

/// The record tells its instant, and that lies before `since`.
pub open spec fn too_early(filter: Filter, rec: Seq<FieldBytes>) -> bool {
    filter.since matches Some(since) && date_time_of(rec) matches Some(at) && at.earlier_than(since)
}

/// The record tells its instant, and that lies after `until`.
pub open spec fn too_late(filter: Filter, rec: Seq<FieldBytes>) -> bool {
    filter.until matches Some(until) && date_time_of(rec) matches Some(at) && until.earlier_than(at)
}

/// The filter holds the record back: one of its criteria speaks against it.
pub open spec fn rejects(filter: Filter, rec: Seq<FieldBytes>) -> bool {
    wrong_unit(filter, rec) || too_early(filter, rec) || too_late(filter, rec)
}

/// A reader with this filter, or with none, holds the record back.
pub open spec fn filtered_out(filter: Option<Filter>, rec: Seq<FieldBytes>) -> bool {
    filter matches Some(f) && rejects(f, rec)
}

impl Filter {
    /// Whether the filter holds `msg` back.
    pub fn rejects(&self, msg: &JournalMessage) -> (res: bool)
        ensures
            res == rejects(*self, msg@),
    {
        let mut held_back = false;
        if let Some(unit) = &self.unit {
            let same = *unit == msg.systemd_unit();
            if !same {
                held_back = true;
            }
        }
        if let Some(since) = &self.since {
            if let Some(at) = msg.date_time() {
                if at.is_before(since) {
                    held_back = true;
                }
            }
        }
        if let Some(until) = &self.until {
            if let Some(at) = msg.date_time() {
                if until.is_before(&at) {
                    held_back = true;
                }
            }
        }
        held_back
    }

    /// Whether `shown` records are as many as were asked for. A limit of
    /// zero is never reached.
    pub fn limit_reached(&self, shown: u64) -> (res: bool)
        ensures
            res == (self.lines == Some(shown)),
    {
        match self.lines {
            Some(limit) => shown == limit,
            None => false,
        }
    }
}

/// A record that tells its instant is held back where that lies before the
/// lower bound.
pub proof fn lemma_before_since_rejected(filter: Filter, rec: Seq<FieldBytes>)
    requires
        filter.since is Some,
        date_time_of(rec) is Some,
        date_time_of(rec).unwrap().earlier_than(filter.since.unwrap()),
    ensures
        rejects(filter, rec),
{
}

/// A record that tells its instant is held back where that lies after the
/// upper bound.
pub proof fn lemma_after_until_rejected(filter: Filter, rec: Seq<FieldBytes>)
    requires
        filter.until is Some,
        date_time_of(rec) is Some,
        filter.until.unwrap().earlier_than(date_time_of(rec).unwrap()),
    ensures
        rejects(filter, rec),
{
}

/// The bounds are inclusive: a record whose instant lies neither before the
/// lower bound nor after the upper one passes, where the unit does not
/// speak against it.
pub proof fn lemma_within_window_accepted(filter: Filter, rec: Seq<FieldBytes>)
    requires
        !wrong_unit(filter, rec),
        date_time_of(rec) is Some,
        filter.since matches Some(since) ==> !date_time_of(rec).unwrap().earlier_than(since),
        filter.until matches Some(until) ==> !until.earlier_than(date_time_of(rec).unwrap()),
    ensures
        !rejects(filter, rec),
{
}

/// A record that tells no instant is never held back for its time.
pub proof fn lemma_unknown_time_passes(filter: Filter, rec: Seq<FieldBytes>)
    requires
        date_time_of(rec) is None,
    ensures
        !too_early(filter, rec),
        !too_late(filter, rec),
        rejects(filter, rec) == wrong_unit(filter, rec),
{
}

/// A record is held back where its unit is not, character for character,
/// the one asked for; with that very unit it passes, where its time does
/// not speak against it.
pub proof fn lemma_unit_decides(filter: Filter, rec: Seq<FieldBytes>, unit: String)
    requires
        filter.unit == Some(unit),
    ensures
        unit@ != text_or_empty(rec, "_SYSTEMD_UNIT"@) ==> rejects(filter, rec),
        unit@ == text_or_empty(rec, "_SYSTEMD_UNIT"@) && !too_early(filter, rec) && !too_late(
            filter,
            rec,
        ) ==> !rejects(filter, rec),
{
}

/// Without a filter, and with one that sets no criterion, every record
/// passes.
pub proof fn lemma_no_criterion_accepts(filter: Option<Filter>, rec: Seq<FieldBytes>)
    requires
        filter matches Some(f) ==> f.unit is None && f.since is None && f.until is None,
    ensures
        !filtered_out(filter, rec),
{
}

} // verus!
