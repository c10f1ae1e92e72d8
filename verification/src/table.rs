//! The backing store: an in-memory record table ordered by key.
//!
//! The table stands for the abstract capabilities the engine consumes: a
//! filtered, bounded, ordered slice query and the extremal-key lookup. Its
//! invariant — strictly increasing ids — is what a serial primary key gives.

use vstd::prelude::*;

use crate::record::{Filter, Record};
use crate::select::{in_bound, selected, sorted_by_id, spec_max_id, spec_min_id, Bound};

verus! {

/// Decides whether a key lies within a bound.
pub fn bound_admits(b: Bound, id: u64) -> (ok: bool)
    ensures
        ok == in_bound(b, id),
{
    match b {
        Bound::Unbounded => true,
        Bound::Above(k) => id > k,
        Bound::Below(k) => id < k,
        Bound::AtMost(k) => id <= k,
        Bound::AtLeast(k) => id >= k,
    }
}

/// A table of records whose keys increase strictly in storage order.
pub struct Table {
    rows: Vec<Record>,
}

impl View for Table {
    type V = Seq<Record>;

    closed spec fn view(&self) -> Seq<Record> {
        self.rows@
    }
}

impl Table {
    /// The table invariant: rows are sorted strictly by key.
    pub open spec fn wf(self) -> bool {
        sorted_by_id(self@)
    }

    /// An empty table.
    pub fn new() -> (t: Table)
        ensures
            t@ == Seq::<Record>::empty(),
            t.wf(),
    {
        Table { rows: Vec::new() }
    }

    /// How many rows the table holds.
    pub fn len(&self) -> (n: usize)
        ensures
            n == self@.len(),
    {
        self.rows.len()
    }

    /// Appends a row, provided its key exceeds every key already stored —
    /// the discipline a serial primary key enforces. Returns whether the row
    /// was accepted.
    pub fn push_row(&mut self, r: Record) -> (ok: bool)
        requires
            old(self).wf(),
        ensures
            final(self).wf(),
            ok == (old(self)@.len() == 0 || old(self)@.last().id < r.id),
            ok ==> final(self)@ == old(self)@.push(r),
            !ok ==> final(self)@ == old(self)@,
    {
        if self.rows.len() == 0 {
            self.rows.push(r);
            true
        } else {
            let last_id = self.rows[self.rows.len() - 1].id;
            if last_id < r.id {
                let ghost prev = self.rows@;
                self.rows.push(r);
                proof {
                    assert forall|i: int, j: int| 0 <= i < j < self@.len() implies self@[i].id
                        < self@[j].id by {
                        if j < prev.len() {
                            assert(self@[i] == prev[i] && self@[j] == prev[j]);
                        } else {
                            assert(self@[j] == r);
                            if i < prev.len() - 1 {
                                assert(prev[i].id < prev[prev.len() - 1].id);
                            }
                        }
                    }
                }
                true
            } else {
                false
            }
        }
    }

    /// The slice query: all records satisfying `f` within the key bound `b`,
    /// in ascending key order.
    pub fn query(&self, f: &Filter, b: Bound) -> (v: Vec<Record>)
        ensures
            v@ == selected(self@, *f, b),
    {
        let mut v: Vec<Record> = Vec::new();
        let n = self.rows.len();
        let mut i: usize = 0;
        while i < n
            invariant
                n == self@.len(),
                i <= n,
                v@ == selected(self@.take(i as int), *f, b),
                self@ == self.rows@,
            decreases n - i,
        {
            let r = self.rows[i];
            proof {
                assert(self@.take(i + 1).drop_last() =~= self@.take(i as int));
                assert(self@.take(i + 1).last() == self@[i as int]);
            }
            if f.accepts(&r) && bound_admits(b, r.id) {
                v.push(r);
            }
            i = i + 1;
        }
        proof {
            assert(self@.take(n as int) =~= self@);
        }
        v
    }

    /// The extremal lookup: the least and greatest keys currently satisfying
    /// the filter, with no cursor bound applied.
    pub fn extremal_ids(&self, f: &Filter) -> (r: (Option<u64>, Option<u64>))
        ensures
            r.0 == spec_min_id(self@, *f),
            r.1 == spec_max_id(self@, *f),
    {
        let m = self.query(f, Bound::Unbounded);
        if m.len() == 0 {
            (None, None)
        } else {
            (Some(m[0].id), Some(m[m.len() - 1].id))
        }
    }
}

} // verus!
