//! The pagination engine: request validation, the bounded over-fetching page
//! query, and the navigation links of the response envelope.

use vstd::prelude::*;

use crate::record::{Filter, Record, RecordStatus};
use crate::select::{
    admitted, has_matching_above, has_matching_below, lemma_has_above_iff_max,
    lemma_has_below_iff_min, lemma_selected_membership, lemma_selected_sorted, selected,
    sorted_by_id, spec_max_id, spec_min_id, Bound,
};
use crate::table::Table;

verus! {

/// The configured page sizes: the limit used when a request names none, and
/// the largest limit a request may name.
#[derive(Clone, Copy, Debug, PartialEq, Eq, Structural)]
pub struct PageConfig {
    pub default_limit: usize,
    pub max_limit: usize,
}

impl PageConfig {
    /// A usable configuration: the default limit is itself within range.
    pub open spec fn wf(self) -> bool {
        1 <= self.default_limit <= self.max_limit
    }

    /// Builds a configuration, refusing one whose default lies outside the
    /// allowed range.
    pub fn new(default_limit: usize, max_limit: usize) -> (r: Option<PageConfig>)
        ensures
            (1 <= default_limit <= max_limit) <==> r is Some,
            r matches Some(c) ==> c == (PageConfig { default_limit, max_limit }),
    {
        if 1 <= default_limit && default_limit <= max_limit {
            Some(PageConfig { default_limit, max_limit })
        } else {
            None
        }
    }
}

impl Default for PageConfig {
    /// Fifty rows per page unless asked otherwise, at most one hundred.
    fn default() -> (c: PageConfig)
        ensures
            c == (PageConfig { default_limit: 50, max_limit: 100 }),
            c.wf(),
    {
        PageConfig { default_limit: 50, max_limit: 100 }
    }
}

/// Why a pagination request was rejected before any query ran.
#[derive(Clone, Copy, Debug, PartialEq, Eq, Structural)]
pub enum PaginationError {
    /// Both `before` and `after` were supplied: the requested position is
    /// ambiguous.
    AmbiguousCursors,
    /// The requested limit is zero or exceeds the configured maximum.
    LimitOutOfRange,
}

/// One page of results together with its navigation links. Rows are always
/// in ascending key order, whichever cursor drove the query.
#[derive(Debug)]
pub struct Page {
    pub rows: Vec<Record>,
    /// The least matching key, when the page does not already start there.
    pub first: Option<u64>,
    /// The greatest matching key, when the page does not already end there.
    pub last: Option<u64>,
    /// An `after` cursor for the following page, when rows lie beyond this one.
    pub next: Option<u64>,
    /// A `before` cursor for the preceding page, when rows lie before this one.
    pub prev: Option<u64>,
}

/// The limit a request asks for: the named one, or the configured default.
pub open spec fn requested_limit(limit: Option<usize>, cfg: PageConfig) -> usize {
    match limit {
        Some(l) => l,
        None => cfg.default_limit,
    }
}

/// The key bound the request's cursor imposes. `before` and `after` are
/// exclusive: the row at the cursor itself is never returned again.
pub open spec fn cursor_bound(before: Option<u64>, after: Option<u64>) -> Bound {
    match before {
        Some(k) => Bound::Below(k),
        None => match after {
            Some(k) => Bound::Above(k),
            None => Bound::Unbounded,
        },
    }
}

/// The validation outcome of a request: the error it is rejected with, or
/// `None` when it is well-formed.
pub open spec fn validation_of(
    before: Option<u64>,
    after: Option<u64>,
    limit: Option<usize>,
    cfg: PageConfig,
) -> Option<PaginationError> {
    if before is Some && after is Some {
        Some(PaginationError::AmbiguousCursors)
    } else if !(1 <= requested_limit(limit, cfg) <= cfg.max_limit) {
        Some(PaginationError::LimitOutOfRange)
    } else {
        None
    }
}

/// Whether the bound makes the query run in descending key order. A `before`
/// cursor does: the page holds the rows closest beneath it.
pub open spec fn descending(b: Bound) -> bool {
    b is Below || b is AtMost
}

/// The rows of a page: the selection trimmed to `limit` records — its front
/// for an ascending query, its back for a descending one — in ascending
/// order either way.
pub open spec fn spec_rows(s: Seq<Record>, f: Filter, b: Bound, limit: int) -> Seq<Record> {
    let sel = selected(s, f, b);
    if sel.len() <= limit {
        sel
    } else if descending(b) {
        sel.skip(sel.len() - limit)
    } else {
        sel.take(limit)
    }
}

/// The `next` link: the last returned key, exactly when a matching record
/// lies beyond it.
pub open spec fn spec_next(s: Seq<Record>, f: Filter, b: Bound, limit: int) -> Option<u64> {
    let rows = spec_rows(s, f, b, limit);
    if rows.len() == 0 {
        None
    } else if has_matching_above(s, f, rows.last().id) {
        Some(rows.last().id)
    } else {
        None
    }
}

/// The `prev` link: the first returned key, exactly when a matching record
/// lies before it.
pub open spec fn spec_prev(s: Seq<Record>, f: Filter, b: Bound, limit: int) -> Option<u64> {
    let rows = spec_rows(s, f, b, limit);
    if rows.len() == 0 {
        None
    } else if has_matching_below(s, f, rows.first().id) {
        Some(rows.first().id)
    } else {
        None
    }
}

/// The `first` link: the least matching key, omitted when the page already
/// starts at it or is empty.
pub open spec fn spec_first_link(s: Seq<Record>, f: Filter, b: Bound, limit: int) -> Option<u64> {
    let rows = spec_rows(s, f, b, limit);
    if rows.len() == 0 {
        None
    } else if spec_min_id(s, f) == Some(rows.first().id) {
        None
    } else {
        spec_min_id(s, f)
    }
}

/// The `last` link: the greatest matching key, omitted when the page already
/// ends at it or is empty.
pub open spec fn spec_last_link(s: Seq<Record>, f: Filter, b: Bound, limit: int) -> Option<u64> {
    let rows = spec_rows(s, f, b, limit);
    if rows.len() == 0 {
        None
    } else if spec_max_id(s, f) == Some(rows.last().id) {
        None
    } else {
        spec_max_id(s, f)
    }
}

/// Decides whether the bound queries in descending order.
fn is_descending(b: Bound) -> (d: bool)
    ensures
        d == descending(b),
{
    match b {
        Bound::Below(_) => true,
        Bound::AtMost(_) => true,
        _ => false,
    }
}

/// The first `n` records of `v`, or all of them if fewer.
fn front(v: &Vec<Record>, n: usize) -> (r: Vec<Record>)
    ensures
        r@ == (if v@.len() <= n { v@ } else { v@.take(n as int) }),
{
    let end = if v.len() <= n {
        v.len()
    } else {
        n
    };
    let mut r: Vec<Record> = Vec::new();
    let mut i: usize = 0;
    while i < end
        invariant
            i <= end,
            end <= v@.len(),
            r@ == v@.subrange(0, i as int),
        decreases end - i,
    {
        r.push(v[i]);
        i = i + 1;
    }
    proof {
        if v@.len() <= n {
            assert(v@.subrange(0, end as int) =~= v@);
        }
    }
    r
}

/// The last `n` records of `v`, or all of them if fewer.
fn back(v: &Vec<Record>, n: usize) -> (r: Vec<Record>)
    ensures
        r@ == (if v@.len() <= n { v@ } else { v@.skip(v@.len() - n as int) }),
{
    let start = if v.len() <= n {
        0
    } else {
        v.len() - n
    };
    let mut r: Vec<Record> = Vec::new();
    let mut i: usize = start;
    while i < v.len()
        invariant
            start <= i <= v@.len(),
            r@ == v@.subrange(start as int, i as int),
        decreases v@.len() - i,
    {
        r.push(v[i]);
        i = i + 1;
    }
    proof {
        if v@.len() <= n {
            assert(v@.subrange(0, v@.len() as int) =~= v@);
        }
    }
    r
}

/// Validates a request: at most one cursor, and a limit within the
/// configured range, defaulted when absent. Returns the bound and the
/// effective limit the page query is to run with.
pub fn validate(
    before: Option<u64>,
    after: Option<u64>,
    limit: Option<usize>,
    cfg: &PageConfig,
) -> (r: Result<(Bound, usize), PaginationError>)
    requires
        cfg.wf(),
    ensures
        r matches Err(e) ==> validation_of(before, after, limit, *cfg) == Some(e),
        r is Ok ==> validation_of(before, after, limit, *cfg) is None,
        r matches Ok(v) ==> v == (cursor_bound(before, after), requested_limit(limit, *cfg)),
{
    if before.is_some() && after.is_some() {
        return Err(PaginationError::AmbiguousCursors);
    }
    let l = match limit {
        Some(l) => l,
        None => cfg.default_limit,
    };
    if l < 1 || l > cfg.max_limit {
        return Err(PaginationError::LimitOutOfRange);
    }
    let b = match before {
        Some(k) => Bound::Below(k),
        None => match after {
            Some(k) => Bound::Above(k),
            None => Bound::Unbounded,
        },
    };
    Ok((b, l))
}

/// Computes one page at a validated bound: queries the filtered slice, trims
/// it to `limit` rows presented in ascending key order, and derives the four
/// navigation links from the extremal matching keys of the same filter.
pub fn page_at(t: &Table, f: &Filter, b: Bound, limit: usize) -> (p: Page)
    requires
        t.wf(),
        limit >= 1,
    ensures
        p.rows@ == spec_rows(t@, *f, b, limit as int),
        p.next == spec_next(t@, *f, b, limit as int),
        p.prev == spec_prev(t@, *f, b, limit as int),
        p.first == spec_first_link(t@, *f, b, limit as int),
        p.last == spec_last_link(t@, *f, b, limit as int),
        // the result slice invariants: at most `limit` rows, in ascending key
        // order, all matching the filter, none at or beyond the cursor
        p.rows@.len() <= limit,
        sorted_by_id(p.rows@),
        forall|i: int| 0 <= i < p.rows@.len() ==> admitted(*f, b, #[trigger] p.rows@[i]),
{
    let sel = t.query(f, b);
    let rows = if is_descending(b) {
        back(&sel, limit)
    } else {
        front(&sel, limit)
    };
    assert(rows@ == spec_rows(t@, *f, b, limit as int));
    proof {
        lemma_selected_sorted(t@, *f, b);
        lemma_selected_membership(t@, *f, b);
        let off: int = if sel@.len() <= limit {
            0
        } else if descending(b) {
            sel@.len() - limit
        } else {
            0
        };
        assert(forall|i: int| 0 <= i < rows@.len() ==> rows@[i] == sel@[off + i]);
    }
    if rows.len() == 0 {
        Page { rows, first: None, last: None, next: None, prev: None }
    } else {
        let first_id = rows[0].id;
        let last_id = rows[rows.len() - 1].id;
        let (min_id, max_id) = t.extremal_ids(f);
        proof {
            lemma_selected_membership(t@, *f, b);
            lemma_selected_membership(t@, *f, Bound::Unbounded);
            // the first returned row is a matching record, so the filtered
            // set is not empty and both extremal keys exist
            assert(sel@.contains(rows@[0]));
            let i = choose|i: int| 0 <= i < sel@.len() && sel@[i] == rows@[0];
            assert(f.matches(sel@[i]));
            let j = choose|j: int| 0 <= j < t@.len() && t@[j] == sel@[i];
            assert(crate::select::matching(t@, *f).contains(t@[j]));
            lemma_has_above_iff_max(t@, *f, last_id);
            lemma_has_below_iff_min(t@, *f, first_id);
        }
        let next = match max_id {
            Some(m) => if m > last_id {
                Some(last_id)
            } else {
                None
            },
            None => None,
        };
        let prev = match min_id {
            Some(m) => if m < first_id {
                Some(first_id)
            } else {
                None
            },
            None => None,
        };
        let first = match min_id {
            Some(m) => if m != first_id {
                Some(m)
            } else {
                None
            },
            None => None,
        };
        let last = match max_id {
            Some(m) => if m != last_id {
                Some(m)
            } else {
                None
            },
            None => None,
        };
        Page { rows, first, last, next, prev }
    }
}

/// The pagination operation a request reaches after authentication: validate,
/// then page. Every validation failure is reported before any query runs.
pub fn page(
    t: &Table,
    f: &Filter,
    before: Option<u64>,
    after: Option<u64>,
    limit: Option<usize>,
    cfg: &PageConfig,
) -> (r: Result<Page, PaginationError>)
    requires
        t.wf(),
        cfg.wf(),
    ensures
        r matches Err(e) ==> validation_of(before, after, limit, *cfg) == Some(e),
        r is Ok ==> validation_of(before, after, limit, *cfg) is None,
        r matches Ok(p) ==> ({
            let b = cursor_bound(before, after);
            let l = requested_limit(limit, *cfg) as int;
            &&& p.rows@ == spec_rows(t@, *f, b, l)
            &&& p.next == spec_next(t@, *f, b, l)
            &&& p.prev == spec_prev(t@, *f, b, l)
            &&& p.first == spec_first_link(t@, *f, b, l)
            &&& p.last == spec_last_link(t@, *f, b, l)
        }),
{
    match validate(before, after, limit, cfg) {
        Err(e) => Err(e),
        Ok((b, l)) => Ok(page_at(t, f, b, l)),
    }
}

/// The filter a caller is allowed to run. A caller who may not see
/// unapproved records is pinned to approved status; if such a caller
/// explicitly asked for another status, the request is answered with an
/// empty set rather than an error, so the response does not reveal whether
/// hidden records exist.
pub open spec fn visible_filter(f: Filter, can_see_all: bool) -> Option<Filter> {
    if can_see_all {
        Some(f)
    } else {
        match f.status {
            Some(s) => if s == RecordStatus::Approved {
                Some(f)
            } else {
                None
            },
            None => Some(Filter { status: Some(RecordStatus::Approved), ..f }),
        }
    }
}

/// Applies the caller's visibility restriction to a requested filter.
/// `None` means the request must be answered with an empty result set.
pub fn restrict_to_visible(f: &Filter, can_see_all: bool) -> (r: Option<Filter>)
    ensures
        r == visible_filter(*f, can_see_all),
{
    if can_see_all {
        Some(*f)
    } else {
        match f.status {
            Some(s) => if s == RecordStatus::Approved {
                Some(*f)
            } else {
                None
            },
            None => Some(Filter { status: Some(RecordStatus::Approved), ..*f }),
        }
    }
}

/// The whole listing request: validation first, then the visibility
/// restriction, then the page. A caller whose requested status is hidden
/// from them receives an empty page with no links; an invalid request is
/// rejected before any query, whatever the caller may see.
pub fn handle_request(
    t: &Table,
    f: &Filter,
    can_see_all: bool,
    before: Option<u64>,
    after: Option<u64>,
    limit: Option<usize>,
    cfg: &PageConfig,
) -> (r: Result<Page, PaginationError>)
    requires
        t.wf(),
        cfg.wf(),
    ensures
        r matches Err(e) ==> validation_of(before, after, limit, *cfg) == Some(e),
        r is Ok ==> validation_of(before, after, limit, *cfg) is None,
        r matches Ok(p) ==> (match visible_filter(*f, can_see_all) {
            Some(g) => {
                let b = cursor_bound(before, after);
                let l = requested_limit(limit, *cfg) as int;
                &&& p.rows@ == spec_rows(t@, g, b, l)
                &&& p.next == spec_next(t@, g, b, l)
                &&& p.prev == spec_prev(t@, g, b, l)
                &&& p.first == spec_first_link(t@, g, b, l)
                &&& p.last == spec_last_link(t@, g, b, l)
            },
            None => {
                &&& p.rows@ == Seq::<Record>::empty()
                &&& p.next is None
                &&& p.prev is None
                &&& p.first is None
                &&& p.last is None
            },
        }),
{
    let (b, l) = match validate(before, after, limit, cfg) {
        Err(e) => {
            return Err(e);
        },
        Ok(v) => v,
    };
    match restrict_to_visible(f, can_see_all) {
        Some(g) => Ok(page_at(t, &g, b, l)),
        None => {
            let rows: Vec<Record> = Vec::new();
            assert(rows@ =~= Seq::<Record>::empty());
            Ok(Page { rows, first: None, last: None, next: None, prev: None })
        },
    }
}

} // verus!
