//! The navigation laws of the engine: pages chain forward without gaps or
//! duplicates, and a `prev` cursor leads back to the slice it came from.

use vstd::prelude::*;

use crate::engine::{spec_next, spec_prev, spec_rows};
use crate::record::{Filter, Record};
use crate::select::{
    admitted, has_matching_above, has_matching_below, lemma_selected_membership,
    lemma_selected_sorted, lemma_split_above, lemma_split_below, matching, selected, sorted_by_id,
    Bound,
};

verus! {

/// A selection driven by no cursor or by an `after` cursor is a suffix of
/// the whole filtered set: the part beyond the cursor.
pub proof fn lemma_ascending_is_suffix(s: Seq<Record>, f: Filter, b: Bound)
    requires
        sorted_by_id(s),
        b is Unbounded || b is Above,
    ensures
        selected(s, f, b).len() <= matching(s, f).len(),
        selected(s, f, b) == matching(s, f).skip(
            matching(s, f).len() - selected(s, f, b).len(),
        ),
{
    let m = matching(s, f);
    let sel = selected(s, f, b);
    match b {
        Bound::Unbounded => {
            assert(sel == m);
            assert(m.skip(0) =~= m);
        },
        Bound::Above(a) => {
            lemma_split_above(s, f, a);
            let low = selected(s, f, Bound::AtMost(a));
            assert(m == low + sel);
            assert(sel =~= m.skip(low.len() as int));
        },
        _ => {
            assert(false);
        },
    }
}

/// In an ascending traversal, the `next` link exists exactly when the
/// selection holds more than `limit` records, and it carries the key of the
/// last returned row.
pub proof fn lemma_next_iff_more(s: Seq<Record>, f: Filter, b: Bound, limit: int)
    requires
        sorted_by_id(s),
        limit >= 1,
        b is Unbounded || b is Above,
    ensures
        spec_next(s, f, b, limit) is Some <==> selected(s, f, b).len() > limit,
        selected(s, f, b).len() > limit ==> spec_next(s, f, b, limit) == Some(
            selected(s, f, b)[limit - 1].id,
        ),
{
    let sel = selected(s, f, b);
    lemma_selected_sorted(s, f, b);
    lemma_selected_membership(s, f, b);
    if sel.len() == 0 {
    } else {
        let rows = spec_rows(s, f, b, limit);
        if sel.len() > limit {
            assert(rows == sel.take(limit));
            assert(rows.last() == sel[limit - 1]);
            // the over-fetched record just past the page witnesses more data
            assert(admitted(f, b, sel[limit]) && s.contains(sel[limit]));
            let i = choose|i: int| 0 <= i < s.len() && s[i] == sel[limit];
            assert(sel[limit].id > sel[limit - 1].id);
            assert((s[i]).id > rows.last().id && f.matches(s[i]));
            assert(has_matching_above(s, f, rows.last().id));
        } else {
            assert(rows == sel);
            if has_matching_above(s, f, rows.last().id) {
                let i = choose|i: int|
                    0 <= i < s.len() && (#[trigger] s[i]).id > rows.last().id && f.matches(s[i]);
                assert(admitted(f, b, sel[sel.len() - 1]));
                assert(admitted(f, b, s[i]));
                assert(sel.contains(s[i]));
                let j = choose|j: int| 0 <= j < sel.len() && sel[j] == s[i];
                if j < sel.len() - 1 {
                    assert(sel[j].id < sel[sel.len() - 1].id);
                }
                assert(false);
            }
        }
    }
}

/// The selection beyond a page's `next` cursor is exactly the selection the
/// page was cut from, with the page's `limit` records removed from the
/// front: following `next` neither skips nor repeats a record.
pub proof fn lemma_adjacent(s: Seq<Record>, f: Filter, b: Bound, limit: int)
    requires
        sorted_by_id(s),
        limit >= 1,
        b is Unbounded || b is Above,
        selected(s, f, b).len() > limit,
    ensures
        selected(s, f, Bound::Above(selected(s, f, b)[limit - 1].id)) == selected(s, f, b).skip(
            limit,
        ),
{
    let m = matching(s, f);
    let sel = selected(s, f, b);
    let n = sel[limit - 1].id;
    lemma_selected_sorted(s, f, Bound::Unbounded);
    lemma_ascending_is_suffix(s, f, b);
    let c = m.len() - sel.len();
    lemma_split_above(s, f, n);
    let low = selected(s, f, Bound::AtMost(n));
    let high = selected(s, f, Bound::Above(n));
    lemma_selected_membership(s, f, Bound::AtMost(n));
    lemma_selected_membership(s, f, Bound::Above(n));
    let c2 = low.len() as int;
    assert(m == low + high);
    assert(m[c + limit - 1] == sel[limit - 1]);
    assert(m[c + limit] == sel[limit]);
    // the cut between `low` and `high` falls right after the page: the row at
    // the cursor has key exactly n, the row after it a greater key
    if c2 <= c + limit - 1 {
        assert(m[c + limit - 1] == high[c + limit - 1 - c2]);
        assert(admitted(f, Bound::Above(n), high[c + limit - 1 - c2]));
        assert(false);
    }
    assert(m[c + limit].id > m[c + limit - 1].id);
    if c2 > c + limit {
        assert(m[c + limit] == low[c + limit]);
        assert(admitted(f, Bound::AtMost(n), low[c + limit]));
        assert(false);
    }
    assert(c2 == c + limit);
    assert(high =~= m.skip(c2));
    assert(high =~= sel.skip(limit));
}

/// The pages an ascending traversal visits when it always follows `next`,
/// concatenated, with at most `fuel` pages taken.
pub open spec fn forward_traversal(
    s: Seq<Record>,
    f: Filter,
    b: Bound,
    limit: int,
    fuel: nat,
) -> Seq<Record>
    decreases fuel,
{
    if fuel == 0 {
        Seq::empty()
    } else {
        let rows = spec_rows(s, f, b, limit);
        match spec_next(s, f, b, limit) {
            Some(n) => rows + forward_traversal(s, f, Bound::Above(n), limit, (fuel - 1) as nat),
            None => rows,
        }
    }
}

/// No gaps, no duplicates: an ascending traversal that starts at any cursor
/// and always continues at `after = next` reproduces, in key order, exactly
/// the filtered records beyond its starting cursor.
pub proof fn lemma_forward_traversal_complete(
    s: Seq<Record>,
    f: Filter,
    b: Bound,
    limit: int,
    fuel: nat,
)
    requires
        sorted_by_id(s),
        limit >= 1,
        b is Unbounded || b is Above,
        fuel >= selected(s, f, b).len(),
    ensures
        forward_traversal(s, f, b, limit, fuel) == selected(s, f, b),
    decreases fuel,
{
    let sel = selected(s, f, b);
    lemma_next_iff_more(s, f, b, limit);
    if fuel == 0 {
        assert(sel.len() == 0);
        assert(forward_traversal(s, f, b, limit, fuel) =~= sel);
    } else {
        match spec_next(s, f, b, limit) {
            Some(n) => {
                assert(sel.len() > limit);
                assert(n == sel[limit - 1].id);
                lemma_adjacent(s, f, b, limit);
                lemma_forward_traversal_complete(
                    s,
                    f,
                    Bound::Above(n),
                    limit,
                    (fuel - 1) as nat,
                );
                assert(spec_rows(s, f, b, limit) == sel.take(limit));
                assert(sel.take(limit) + sel.skip(limit) =~= sel);
            },
            None => {
                assert(sel.len() <= limit);
                assert(spec_rows(s, f, b, limit) == sel);
            },
        }
    }
}

/// Degenerate `before` cursor: when no matching record lies at or beyond
/// `before`, the page is already the end of the set and carries no `next`
/// link — advancing past the requested upper bound would be meaningless.
pub proof fn lemma_next_none_when_before_exhausted(
    s: Seq<Record>,
    f: Filter,
    bv: u64,
    limit: int,
)
    requires
        sorted_by_id(s),
        limit >= 1,
        forall|i: int| 0 <= i < s.len() && f.matches(#[trigger] s[i]) ==> s[i].id < bv,
    ensures
        spec_next(s, f, Bound::Below(bv), limit) is None,
{
    let b = Bound::Below(bv);
    let sel = selected(s, f, b);
    lemma_selected_sorted(s, f, b);
    lemma_selected_membership(s, f, b);
    let rows = spec_rows(s, f, b, limit);
    if rows.len() > 0 {
        assert(rows.last() == sel[sel.len() - 1]);
        if has_matching_above(s, f, rows.last().id) {
            let i = choose|i: int|
                0 <= i < s.len() && (#[trigger] s[i]).id > rows.last().id && f.matches(s[i]);
            assert(admitted(f, b, s[i]));
            assert(sel.contains(s[i]));
            let j = choose|j: int| 0 <= j < sel.len() && sel[j] == s[i];
            if j < sel.len() - 1 {
                assert(sel[j].id < sel[sel.len() - 1].id);
            }
            assert(false);
        }
    }
}

/// Degenerate `after` cursor: when no matching record lies at or before
/// `after`, the page is already the start of the set and carries no `prev`
/// link.
pub proof fn lemma_prev_none_when_after_exhausted(
    s: Seq<Record>,
    f: Filter,
    av: u64,
    limit: int,
)
    requires
        sorted_by_id(s),
        limit >= 1,
        forall|i: int| 0 <= i < s.len() && f.matches(#[trigger] s[i]) ==> s[i].id > av,
    ensures
        spec_prev(s, f, Bound::Above(av), limit) is None,
{
    let b = Bound::Above(av);
    let sel = selected(s, f, b);
    lemma_selected_sorted(s, f, b);
    lemma_selected_membership(s, f, b);
    let rows = spec_rows(s, f, b, limit);
    if rows.len() > 0 {
        assert(rows.first() == sel[0]);
        if has_matching_below(s, f, rows.first().id) {
            let i = choose|i: int|
                0 <= i < s.len() && (#[trigger] s[i]).id < rows.first().id && f.matches(s[i]);
            assert(admitted(f, b, s[i]));
            assert(sel.contains(s[i]));
            let j = choose|j: int| 0 <= j < sel.len() && sel[j] == s[i];
            if j > 0 {
                assert(sel[0].id < sel[j].id);
            }
            assert(false);
        }
    }
}

/// Symmetry of forward and backward paging: when a page was reached by
/// following `next`, its `prev` link exists, and paginating with
/// `before = prev` returns exactly the page that `next` was taken from —
/// with the same `next` and `prev` links, so that repeating `before = prev`
/// retraces the whole forward chain page by page back to its start.
#[verifier::rlimit(50)]
pub proof fn lemma_backward_symmetry(s: Seq<Record>, f: Filter, b: Bound, limit: int)
    requires
        sorted_by_id(s),
        limit >= 1,
        b is Unbounded || b is Above,
        spec_next(s, f, b, limit) is Some,
    ensures
        spec_next(s, f, b, limit) matches Some(n) ==> ({
            let rows2 = spec_rows(s, f, Bound::Above(n), limit);
            let back = Bound::Below(rows2.first().id);
            &&& rows2.len() > 0
            &&& spec_prev(s, f, Bound::Above(n), limit) == Some(rows2.first().id)
            &&& spec_rows(s, f, back, limit) == spec_rows(s, f, b, limit)
            &&& spec_next(s, f, back, limit) == spec_next(s, f, b, limit)
            &&& spec_prev(s, f, back, limit) == spec_prev(s, f, b, limit)
        }),
{
    let m = matching(s, f);
    let sel = selected(s, f, b);
    lemma_next_iff_more(s, f, b, limit);
    assert(sel.len() > limit);
    let n = sel[limit - 1].id;
    lemma_adjacent(s, f, b, limit);
    let sel2 = selected(s, f, Bound::Above(n));
    assert(sel2 == sel.skip(limit));
    assert(sel2.len() > 0);
    let rows2 = spec_rows(s, f, Bound::Above(n), limit);
    assert(rows2.first() == sel2[0]);
    assert(sel2[0] == sel[limit]);
    let p = sel[limit].id;

    lemma_selected_sorted(s, f, b);
    lemma_selected_sorted(s, f, Bound::Unbounded);
    lemma_selected_membership(s, f, b);

    // prev of the later page exists: the row at the cursor n lies before it
    assert(admitted(f, b, sel[limit - 1]) && s.contains(sel[limit - 1]));
    let wi = choose|i: int| 0 <= i < s.len() && s[i] == sel[limit - 1];
    assert(sel[limit - 1].id < sel[limit].id);
    assert((s[wi]).id < p && f.matches(s[wi]));
    assert(has_matching_below(s, f, rows2.first().id));
    assert(spec_prev(s, f, Bound::Above(n), limit) == Some(rows2.first().id));

    // the selection below p is the whole filtered set up to and including
    // the earlier page; its last `limit` records are that page
    lemma_ascending_is_suffix(s, f, b);
    let c = m.len() - sel.len();
    lemma_split_below(s, f, p);
    let low = selected(s, f, Bound::Below(p));
    let high = selected(s, f, Bound::AtLeast(p));
    lemma_selected_membership(s, f, Bound::Below(p));
    lemma_selected_membership(s, f, Bound::AtLeast(p));
    let cb = low.len() as int;
    assert(m == low + high);
    assert(m[c + limit] == sel[limit]);
    assert(m[c + limit - 1] == sel[limit - 1]);
    if cb > c + limit {
        assert(m[c + limit] == low[c + limit]);
        assert(admitted(f, Bound::Below(p), low[c + limit]));
        assert(false);
    }
    if cb <= c + limit - 1 {
        assert(m[c + limit - 1] == high[c + limit - 1 - cb]);
        assert(admitted(f, Bound::AtLeast(p), high[c + limit - 1 - cb]));
        assert(m[c + limit - 1].id < m[c + limit].id);
        assert(false);
    }
    assert(cb == c + limit);
    assert(low =~= m.take(cb));
    let rows_back = spec_rows(s, f, Bound::Below(p), limit);
    if c == 0 {
        assert(low.len() <= limit);
        assert(rows_back == low);
        assert(low =~= sel.take(limit));
    } else {
        assert(low.len() > limit);
        assert(rows_back == low.skip(low.len() - limit));
        assert(low.skip(low.len() - limit) =~= sel.take(limit));
    }
    assert(spec_rows(s, f, b, limit) == sel.take(limit));
    // the reproduced slice is the same sequence, so its links are the same
    assert(spec_next(s, f, Bound::Below(p), limit) == spec_next(s, f, b, limit));
    assert(spec_prev(s, f, Bound::Below(p), limit) == spec_prev(s, f, b, limit));
}

} // verus!
