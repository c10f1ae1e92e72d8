//! The mathematical model of a bounded, filtered slice of the record table.
//!
//! A table is modelled as a sequence of records sorted strictly by `id`.
//! `selected` picks, in table order, the records that satisfy a filter and a
//! key bound; every contract of the pagination engine is stated over it.

use vstd::prelude::*;

use crate::record::{Filter, Record};

verus! {

/// A bound on the cursor key of a record.
///
/// `Above` and `Below` are the exclusive bounds that `after` and `before`
/// cursors impose. `AtMost` and `AtLeast` are their complements; the engine
/// never queries with them, but the split lemmas below use them to cut the
/// filtered set in two at a key.
#[derive(Clone, Copy, Debug, PartialEq, Eq, Structural)]
pub enum Bound {
    Unbounded,
    Above(u64),
    Below(u64),
    AtMost(u64),
    AtLeast(u64),
}

/// Whether a key lies within the bound.
pub open spec fn in_bound(b: Bound, id: u64) -> bool {
    match b {
        Bound::Unbounded => true,
        Bound::Above(k) => id > k,
        Bound::Below(k) => id < k,
        Bound::AtMost(k) => id <= k,
        Bound::AtLeast(k) => id >= k,
    }
}

/// Whether a record satisfies both the filter and the bound.
pub open spec fn admitted(f: Filter, b: Bound, r: Record) -> bool {
    f.matches(r) && in_bound(b, r.id)
}

/// The subsequence of `s`, in order, whose records satisfy `f` and `b`.
pub open spec fn selected(s: Seq<Record>, f: Filter, b: Bound) -> Seq<Record>
    decreases s.len(),
{
    if s.len() == 0 {
        Seq::empty()
    } else if admitted(f, b, s.last()) {
        selected(s.drop_last(), f, b).push(s.last())
    } else {
        selected(s.drop_last(), f, b)
    }
}

/// The whole filtered set, with no key bound.
pub open spec fn matching(s: Seq<Record>, f: Filter) -> Seq<Record> {
    selected(s, f, Bound::Unbounded)
}

/// Strictly increasing cursor keys: the order every table and every selection
/// from it obeys.
pub open spec fn sorted_by_id(s: Seq<Record>) -> bool {
    forall|i: int, j: int| 0 <= i < j < s.len() ==> s[i].id < s[j].id
}

/// The least key satisfying the filter, if any record does.
pub open spec fn spec_min_id(s: Seq<Record>, f: Filter) -> Option<u64> {
    if matching(s, f).len() == 0 {
        None
    } else {
        Some(matching(s, f).first().id)
    }
}

/// The greatest key satisfying the filter, if any record does.
pub open spec fn spec_max_id(s: Seq<Record>, f: Filter) -> Option<u64> {
    if matching(s, f).len() == 0 {
        None
    } else {
        Some(matching(s, f).last().id)
    }
}

/// Whether some record of `s` satisfies `f` and has a key above `k`.
pub open spec fn has_matching_above(s: Seq<Record>, f: Filter, k: u64) -> bool {
    exists|i: int| 0 <= i < s.len() && (#[trigger] s[i]).id > k && f.matches(s[i])
}

/// Whether some record of `s` satisfies `f` and has a key below `k`.
pub open spec fn has_matching_below(s: Seq<Record>, f: Filter, k: u64) -> bool {
    exists|i: int| 0 <= i < s.len() && (#[trigger] s[i]).id < k && f.matches(s[i])
}

/// Everything `selected` keeps is admitted and comes from `s`, and everything
/// admitted in `s` is kept.
pub proof fn lemma_selected_membership(s: Seq<Record>, f: Filter, b: Bound)
    ensures
        forall|j: int|
            0 <= j < selected(s, f, b).len() ==> admitted(f, b, #[trigger] selected(s, f, b)[j])
                && s.contains(selected(s, f, b)[j]),
        forall|i: int|
            0 <= i < s.len() && admitted(f, b, #[trigger] s[i]) ==> selected(s, f, b).contains(
                s[i],
            ),
    decreases s.len(),
{
    if s.len() == 0 {
    } else {
        let prefix = s.drop_last();
        lemma_selected_membership(prefix, f, b);
        assert forall|j: int|
            0 <= j < selected(s, f, b).len() implies admitted(
            f,
            b,
            #[trigger] selected(s, f, b)[j],
        ) && s.contains(selected(s, f, b)[j]) by {
            let sel = selected(s, f, b);
            if j < selected(prefix, f, b).len() {
                assert(sel[j] == selected(prefix, f, b)[j]);
                let i = choose|i: int| 0 <= i < prefix.len() && prefix[i] == sel[j];
                assert(s[i] == sel[j]);
            } else {
                assert(sel[j] == s.last());
                assert(s[s.len() - 1] == s.last());
            }
        }
        assert forall|i: int|
            0 <= i < s.len() && admitted(f, b, #[trigger] s[i]) implies selected(
            s,
            f,
            b,
        ).contains(s[i]) by {
            let sel = selected(s, f, b);
            if i < s.len() - 1 {
                assert(prefix[i] == s[i]);
                assert(selected(prefix, f, b).contains(s[i]));
                let j = choose|j: int|
                    0 <= j < selected(prefix, f, b).len() && selected(prefix, f, b)[j] == s[i];
                assert(sel[j] == s[i]);
            } else {
                assert(admitted(f, b, s.last()));
                assert(sel[sel.len() - 1] == s.last());
            }
        }
    }
}

/// Selecting from a sorted table yields a sorted selection.
pub proof fn lemma_selected_sorted(s: Seq<Record>, f: Filter, b: Bound)
    requires
        sorted_by_id(s),
    ensures
        sorted_by_id(selected(s, f, b)),
    decreases s.len(),
{
    if s.len() == 0 {
    } else {
        let prefix = s.drop_last();
        assert(sorted_by_id(prefix));
        lemma_selected_sorted(prefix, f, b);
        if admitted(f, b, s.last()) {
            lemma_selected_membership(prefix, f, b);
            let sel = selected(s, f, b);
            assert forall|i: int, j: int| 0 <= i < j < sel.len() implies sel[i].id < sel[j].id by {
                let psel = selected(prefix, f, b);
                if j < psel.len() {
                    assert(sel[i] == psel[i] && sel[j] == psel[j]);
                } else {
                    assert(sel[j] == s.last());
                    assert(sel[i] == psel[i]);
                    let k = choose|k: int| 0 <= k < prefix.len() && prefix[k] == psel[i];
                    assert(s[k] == prefix[k]);
                    assert(s[k].id < s[s.len() - 1].id);
                }
            }
        }
    }
}

/// A selection from a table in which nothing is admitted is empty.
pub proof fn lemma_selected_empty(s: Seq<Record>, f: Filter, b: Bound)
    requires
        forall|i: int| 0 <= i < s.len() ==> !admitted(f, b, #[trigger] s[i]),
    ensures
        selected(s, f, b).len() == 0,
{
    lemma_selected_membership(s, f, b);
    let sel = selected(s, f, b);
    if sel.len() > 0 {
        assert(admitted(f, b, sel[0]) && s.contains(sel[0]));
        let i = choose|i: int| 0 <= i < s.len() && s[i] == sel[0];
        assert(!admitted(f, b, s[i]));
    }
}

/// A record with key above `k` matches the filter exactly when the greatest
/// matching key lies above `k`.
pub proof fn lemma_has_above_iff_max(s: Seq<Record>, f: Filter, k: u64)
    requires
        sorted_by_id(s),
    ensures
        has_matching_above(s, f, k) <==> (matching(s, f).len() > 0 && matching(s, f).last().id
            > k),
{
    lemma_selected_membership(s, f, Bound::Unbounded);
    lemma_selected_sorted(s, f, Bound::Unbounded);
    let m = matching(s, f);
    if has_matching_above(s, f, k) {
        let i = choose|i: int| 0 <= i < s.len() && (#[trigger] s[i]).id > k && f.matches(s[i]);
        assert(admitted(f, Bound::Unbounded, s[i]));
        assert(m.contains(s[i]));
        let j = choose|j: int| 0 <= j < m.len() && m[j] == s[i];
        if j < m.len() - 1 {
            assert(m[j].id < m[m.len() - 1].id);
        }
        assert(m.last().id > k);
    }
    if m.len() > 0 && m.last().id > k {
        assert(admitted(f, Bound::Unbounded, m[m.len() - 1]));
        assert(s.contains(m.last()));
        let i = choose|i: int| 0 <= i < s.len() && s[i] == m.last();
        assert((s[i]).id > k && f.matches(s[i]));
    }
}

/// A record with key below `k` matches the filter exactly when the least
/// matching key lies below `k`.
pub proof fn lemma_has_below_iff_min(s: Seq<Record>, f: Filter, k: u64)
    requires
        sorted_by_id(s),
    ensures
        has_matching_below(s, f, k) <==> (matching(s, f).len() > 0 && matching(s, f).first().id
            < k),
{
    lemma_selected_membership(s, f, Bound::Unbounded);
    lemma_selected_sorted(s, f, Bound::Unbounded);
    let m = matching(s, f);
    if has_matching_below(s, f, k) {
        let i = choose|i: int| 0 <= i < s.len() && (#[trigger] s[i]).id < k && f.matches(s[i]);
        assert(admitted(f, Bound::Unbounded, s[i]));
        assert(m.contains(s[i]));
        let j = choose|j: int| 0 <= j < m.len() && m[j] == s[i];
        if j > 0 {
            assert(m[0].id < m[j].id);
        }
        assert(m.first().id < k);
    }
    if m.len() > 0 && m.first().id < k {
        assert(admitted(f, Bound::Unbounded, m[0]));
        assert(s.contains(m.first()));
        let i = choose|i: int| 0 <= i < s.len() && s[i] == m.first();
        assert((s[i]).id < k && f.matches(s[i]));
    }
}

/// Cutting the filtered set at key `k`: the records at most `k` followed by
/// the records above `k` are exactly the filtered set, in order.
pub proof fn lemma_split_above(s: Seq<Record>, f: Filter, k: u64)
    requires
        sorted_by_id(s),
    ensures
        matching(s, f) == selected(s, f, Bound::AtMost(k)) + selected(s, f, Bound::Above(k)),
    decreases s.len(),
{
    if s.len() == 0 {
        assert(matching(s, f) =~= selected(s, f, Bound::AtMost(k)) + selected(
            s,
            f,
            Bound::Above(k),
        ));
    } else {
        let prefix = s.drop_last();
        assert(sorted_by_id(prefix));
        lemma_split_above(prefix, f, k);
        let pa = selected(prefix, f, Bound::AtMost(k));
        let pb = selected(prefix, f, Bound::Above(k));
        if !f.matches(s.last()) {
            assert(matching(s, f) =~= selected(s, f, Bound::AtMost(k)) + selected(
                s,
                f,
                Bound::Above(k),
            ));
        } else if s.last().id <= k {
            // everything before the last record has a smaller key, so nothing
            // in the prefix lies above k
            assert forall|i: int| 0 <= i < prefix.len() implies !admitted(
                f,
                Bound::Above(k),
                #[trigger] prefix[i],
            ) by {
                assert(prefix[i] == s[i]);
                assert(s[i].id < s[s.len() - 1].id);
            }
            lemma_selected_empty(prefix, f, Bound::Above(k));
            assert(pb =~= Seq::<Record>::empty());
            assert(matching(prefix, f) == pa + pb);
            assert(pa + pb =~= pa);
            assert(matching(s, f) == matching(prefix, f).push(s.last()));
            assert(selected(s, f, Bound::AtMost(k)) == pa.push(s.last()));
            assert(selected(s, f, Bound::Above(k)) =~= Seq::<Record>::empty()) by {
                assert forall|i: int| 0 <= i < s.len() implies !admitted(
                    f,
                    Bound::Above(k),
                    #[trigger] s[i],
                ) by {
                    if i < s.len() - 1 {
                        assert(s[i].id < s[s.len() - 1].id);
                    }
                }
                lemma_selected_empty(s, f, Bound::Above(k));
            }
            assert(matching(s, f) =~= selected(s, f, Bound::AtMost(k)) + selected(
                s,
                f,
                Bound::Above(k),
            ));
        } else {
            assert(matching(s, f) == matching(prefix, f).push(s.last()));
            assert(selected(s, f, Bound::AtMost(k)) == pa);
            assert(selected(s, f, Bound::Above(k)) == pb.push(s.last()));
            assert((pa + pb).push(s.last()) =~= pa + pb.push(s.last()));
        }
    }
}

/// Cutting the filtered set at key `k` the other way round: the records below
/// `k` followed by the records at least `k` are exactly the filtered set.
pub proof fn lemma_split_below(s: Seq<Record>, f: Filter, k: u64)
    requires
        sorted_by_id(s),
    ensures
        matching(s, f) == selected(s, f, Bound::Below(k)) + selected(s, f, Bound::AtLeast(k)),
    decreases s.len(),
{
    if s.len() == 0 {
        assert(matching(s, f) =~= selected(s, f, Bound::Below(k)) + selected(
            s,
            f,
            Bound::AtLeast(k),
        ));
    } else {
        let prefix = s.drop_last();
        assert(sorted_by_id(prefix));
        lemma_split_below(prefix, f, k);
        let pa = selected(prefix, f, Bound::Below(k));
        let pb = selected(prefix, f, Bound::AtLeast(k));
        if !f.matches(s.last()) {
            assert(matching(s, f) =~= selected(s, f, Bound::Below(k)) + selected(
                s,
                f,
                Bound::AtLeast(k),
            ));
        } else if s.last().id < k {
            assert forall|i: int| 0 <= i < prefix.len() implies !admitted(
                f,
                Bound::AtLeast(k),
                #[trigger] prefix[i],
            ) by {
                assert(prefix[i] == s[i]);
                assert(s[i].id < s[s.len() - 1].id);
            }
            lemma_selected_empty(prefix, f, Bound::AtLeast(k));
            assert(pb =~= Seq::<Record>::empty());
            assert(pa + pb =~= pa);
            assert(selected(s, f, Bound::AtLeast(k)) =~= Seq::<Record>::empty()) by {
                assert forall|i: int| 0 <= i < s.len() implies !admitted(
                    f,
                    Bound::AtLeast(k),
                    #[trigger] s[i],
                ) by {
                    if i < s.len() - 1 {
                        assert(s[i].id < s[s.len() - 1].id);
                    }
                }
                lemma_selected_empty(s, f, Bound::AtLeast(k));
            }
            assert(matching(s, f) =~= selected(s, f, Bound::Below(k)) + selected(
                s,
                f,
                Bound::AtLeast(k),
            ));
        } else {
            assert(matching(s, f) == matching(prefix, f).push(s.last()));
            assert(selected(s, f, Bound::Below(k)) == pa);
            assert(selected(s, f, Bound::AtLeast(k)) == pb.push(s.last()));
            assert((pa + pb).push(s.last()) =~= pa + pb.push(s.last()));
        }
    }
}

} // verus!
