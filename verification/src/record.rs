//! Records and the filter predicates that select them.

use vstd::prelude::*;

verus! {

/// Review status of a submitted record.
#[derive(Clone, Copy, Debug, PartialEq, Eq, Structural)]
pub enum RecordStatus {
    Submitted,
    Approved,
    Rejected,
}

/// One row of the paginated table, reduced to the fields pagination reads.
///
/// `id` is the cursor key: the table hands out ids in strictly increasing
/// order, so `id` totally orders the rows.
#[derive(Clone, Copy, Debug, PartialEq, Eq, Structural)]
pub struct Record {
    pub id: u64,
    pub status: RecordStatus,
    pub player: u64,
    pub submitter: u64,
    pub demon: u64,
    pub progress: u8,
}

/// A caller-supplied conjunction of per-field conditions. A field set to
/// `None` does not constrain the corresponding record field.
///
/// The same filter value is meant to drive the page query and both extremal
/// lookups of one request, so that links and content agree on which records
/// are in the set.
#[derive(Clone, Copy, Debug)]
pub struct Filter {
    pub status: Option<RecordStatus>,
    pub player: Option<u64>,
    pub submitter: Option<u64>,
    pub demon: Option<u64>,
    pub progress_min: Option<u8>,
    pub progress_max: Option<u8>,
}

impl Filter {
    /// The filter that matches every record.
    pub fn any() -> (f: Filter)
        ensures
            f == (Filter {
                status: None,
                player: None,
                submitter: None,
                demon: None,
                progress_min: None,
                progress_max: None,
            }),
    {
        Filter { status: None, player: None, submitter: None, demon: None, progress_min: None, progress_max: None }
    }

    /// What it means for a record to satisfy this filter.
    pub open spec fn matches(self, r: Record) -> bool {
        &&& (self.status matches Some(s) ==> r.status == s)
        &&& (self.player matches Some(p) ==> r.player == p)
        &&& (self.submitter matches Some(p) ==> r.submitter == p)
        &&& (self.demon matches Some(d) ==> r.demon == d)
        &&& (self.progress_min matches Some(m) ==> r.progress >= m)
        &&& (self.progress_max matches Some(m) ==> r.progress <= m)
    }

    /// Decides whether `r` satisfies the filter.
    pub fn accepts(&self, r: &Record) -> (b: bool)
        ensures
            b == self.matches(*r),
    {
        let status_ok = match self.status {
            Some(s) => s == r.status,
            None => true,
        };
        let player_ok = match self.player {
            Some(p) => p == r.player,
            None => true,
        };
        let submitter_ok = match self.submitter {
            Some(p) => p == r.submitter,
            None => true,
        };
        let demon_ok = match self.demon {
            Some(d) => d == r.demon,
            None => true,
        };
        let min_ok = match self.progress_min {
            Some(m) => r.progress >= m,
            None => true,
        };
        let max_ok = match self.progress_max {
            Some(m) => r.progress <= m,
            None => true,
        };
        status_ok && player_ok && submitter_ok && demon_ok && min_ok && max_ok
    }
}

} // verus!
