use keyset_pagination::{Bound, Filter, PageConfig, PaginationError, Record, RecordStatus, Table};

fn rec(id: u64) -> Record {
    Record { id, status: RecordStatus::Approved, player: 7, submitter: 3, demon: 4, progress: 100 }
}

fn rec_with(id: u64, status: RecordStatus, player: u64, progress: u8) -> Record {
    Record { id, status, player, submitter: 3, demon: 4, progress }
}

fn approved() -> Filter {
    Filter {
        status: Some(RecordStatus::Approved),
        player: None,
        submitter: None,
        demon: None,
        progress_min: None,
        progress_max: None,
    }
}

/// Five approved records with keys [1, 2, 5, 8, 9].
fn demo_table() -> Table {
    let mut t = Table::new();
    for id in [1u64, 2, 5, 8, 9] {
        assert!(t.push_row(rec(id)));
    }
    t
}

fn ids(rows: &[Record]) -> Vec<u64> {
    rows.iter().map(|r| r.id).collect()
}

fn cfg() -> PageConfig {
    PageConfig::default()
}

#[test]
fn first_page_without_cursor() {
    let t = demo_table();
    let p = keyset_pagination::page(&t, &approved(), None, None, Some(2), &cfg()).unwrap();
    assert_eq!(ids(&p.rows), vec![1, 2]);
    assert_eq!(p.next, Some(2));
    assert_eq!(p.prev, None);
    assert_eq!(p.first, None);
    assert_eq!(p.last, Some(9));
}

#[test]
fn page_after_two() {
    let t = demo_table();
    let p = keyset_pagination::page(&t, &approved(), None, Some(2), Some(2), &cfg()).unwrap();
    assert_eq!(ids(&p.rows), vec![5, 8]);
    assert_eq!(p.next, Some(8));
    assert_eq!(p.prev, Some(5));
    assert_eq!(p.first, Some(1));
    assert_eq!(p.last, Some(9));
}

#[test]
fn page_after_last_key_is_empty() {
    let t = demo_table();
    let p = keyset_pagination::page(&t, &approved(), None, Some(9), Some(2), &cfg()).unwrap();
    assert!(p.rows.is_empty());
    assert_eq!(p.next, None);
    assert_eq!(p.prev, None);
    assert_eq!(p.first, None);
    assert_eq!(p.last, None);
}

#[test]
fn page_before_first_key_is_empty() {
    let t = demo_table();
    let p = keyset_pagination::page(&t, &approved(), Some(1), None, Some(2), &cfg()).unwrap();
    assert!(p.rows.is_empty());
    assert_eq!(p.next, None);
    assert_eq!(p.prev, None);
}

#[test]
fn page_before_interior_key() {
    let t = demo_table();
    let p = keyset_pagination::page(&t, &approved(), Some(8), None, Some(2), &cfg()).unwrap();
    assert_eq!(ids(&p.rows), vec![2, 5]);
    assert_eq!(p.next, Some(5));
    assert_eq!(p.prev, Some(2));
    assert_eq!(p.first, Some(1));
    assert_eq!(p.last, Some(9));
}

#[test]
fn page_before_trims_from_the_back() {
    let t = demo_table();
    let p = keyset_pagination::page(&t, &approved(), Some(9), None, Some(2), &cfg()).unwrap();
    assert_eq!(ids(&p.rows), vec![5, 8]);
    assert_eq!(p.next, Some(8));
    assert_eq!(p.prev, Some(5));
    assert_eq!(p.first, Some(1));
    assert_eq!(p.last, Some(9));
}

#[test]
fn filter_matching_nothing_gives_empty_page() {
    let t = demo_table();
    let mut f = approved();
    f.player = Some(12345);
    let p = keyset_pagination::page(&t, &f, None, None, Some(2), &cfg()).unwrap();
    assert!(p.rows.is_empty());
    assert_eq!(p.next, None);
    assert_eq!(p.prev, None);
    assert_eq!(p.first, None);
    assert_eq!(p.last, None);
}

#[test]
fn both_cursors_are_rejected() {
    let t = demo_table();
    let r = keyset_pagination::page(&t, &approved(), Some(5), Some(2), Some(2), &cfg());
    assert_eq!(r.unwrap_err(), PaginationError::AmbiguousCursors);
}

#[test]
fn limit_zero_is_rejected() {
    let t = demo_table();
    let r = keyset_pagination::page(&t, &approved(), None, None, Some(0), &cfg());
    assert_eq!(r.unwrap_err(), PaginationError::LimitOutOfRange);
}

#[test]
fn limit_above_maximum_is_rejected() {
    let t = demo_table();
    let r = keyset_pagination::page(&t, &approved(), None, None, Some(101), &cfg());
    assert_eq!(r.unwrap_err(), PaginationError::LimitOutOfRange);
}

#[test]
fn absent_limit_uses_configured_default() {
    let t = demo_table();
    let small = PageConfig::new(2, 3).unwrap();
    let p = keyset_pagination::page(&t, &approved(), None, None, None, &small).unwrap();
    assert_eq!(ids(&p.rows), vec![1, 2]);
    assert_eq!(p.next, Some(2));
}

#[test]
fn validate_returns_bound_and_effective_limit() {
    let c = cfg();
    assert_eq!(keyset_pagination::validate(None, Some(2), Some(5), &c), Ok((Bound::Above(2), 5)));
    assert_eq!(keyset_pagination::validate(Some(7), None, None, &c), Ok((Bound::Below(7), 50)));
    assert_eq!(keyset_pagination::validate(None, None, None, &c), Ok((Bound::Unbounded, 50)));
}

#[test]
fn invalid_config_is_refused() {
    assert!(PageConfig::new(0, 10).is_none());
    assert!(PageConfig::new(5, 4).is_none());
    assert!(PageConfig::new(1, 1).is_some());
}

#[test]
fn whole_set_in_one_page_has_no_links() {
    let t = demo_table();
    let p = keyset_pagination::page(&t, &approved(), None, None, Some(10), &cfg()).unwrap();
    assert_eq!(ids(&p.rows), vec![1, 2, 5, 8, 9]);
    assert_eq!(p.next, None);
    assert_eq!(p.prev, None);
    assert_eq!(p.first, None);
    assert_eq!(p.last, None);
}

#[test]
fn exactly_limit_rows_with_nothing_beyond_has_no_links() {
    let t = demo_table();
    let p = keyset_pagination::page(&t, &approved(), None, None, Some(5), &cfg()).unwrap();
    assert_eq!(ids(&p.rows), vec![1, 2, 5, 8, 9]);
    assert_eq!(p.next, None);
    assert_eq!(p.prev, None);
}

#[test]
fn forward_traversal_reproduces_the_filtered_set() {
    let t = demo_table();
    let mut seen: Vec<u64> = Vec::new();
    let mut after: Option<u64> = None;
    loop {
        let p = keyset_pagination::page(&t, &approved(), None, after, Some(2), &cfg()).unwrap();
        seen.extend(ids(&p.rows));
        match p.next {
            Some(n) => after = Some(n),
            None => break,
        }
    }
    assert_eq!(seen, vec![1, 2, 5, 8, 9]);
}

#[test]
fn backward_paging_returns_to_the_previous_slice() {
    let t = demo_table();
    let first = keyset_pagination::page(&t, &approved(), None, None, Some(2), &cfg()).unwrap();
    let second =
        keyset_pagination::page(&t, &approved(), None, first.next, Some(2), &cfg()).unwrap();
    assert_eq!(ids(&second.rows), vec![5, 8]);
    let back =
        keyset_pagination::page(&t, &approved(), second.prev, None, Some(2), &cfg()).unwrap();
    assert_eq!(ids(&back.rows), ids(&first.rows));
}

#[test]
fn filter_by_player_and_progress() {
    let mut t = Table::new();
    assert!(t.push_row(rec_with(1, RecordStatus::Approved, 10, 50)));
    assert!(t.push_row(rec_with(2, RecordStatus::Approved, 11, 80)));
    assert!(t.push_row(rec_with(3, RecordStatus::Approved, 10, 90)));
    assert!(t.push_row(rec_with(4, RecordStatus::Approved, 10, 99)));
    let mut f = Filter::any();
    f.player = Some(10);
    f.progress_min = Some(60);
    let p = keyset_pagination::page(&t, &f, None, None, Some(10), &cfg()).unwrap();
    assert_eq!(ids(&p.rows), vec![3, 4]);
}

#[test]
fn hidden_statuses_are_pinned_to_approved() {
    let mut t = Table::new();
    assert!(t.push_row(rec_with(1, RecordStatus::Approved, 10, 50)));
    assert!(t.push_row(rec_with(2, RecordStatus::Submitted, 10, 50)));
    assert!(t.push_row(rec_with(3, RecordStatus::Rejected, 10, 50)));
    assert!(t.push_row(rec_with(4, RecordStatus::Approved, 10, 50)));
    let p = keyset_pagination::handle_request(
        &t,
        &Filter::any(),
        false,
        None,
        None,
        Some(10),
        &cfg(),
    )
    .unwrap();
    assert_eq!(ids(&p.rows), vec![1, 4]);
}

#[test]
fn hidden_status_request_yields_empty_page_not_error() {
    let mut t = Table::new();
    assert!(t.push_row(rec_with(1, RecordStatus::Rejected, 10, 50)));
    let mut f = Filter::any();
    f.status = Some(RecordStatus::Rejected);
    let p =
        keyset_pagination::handle_request(&t, &f, false, None, None, Some(10), &cfg()).unwrap();
    assert!(p.rows.is_empty());
    assert_eq!(p.next, None);
    assert_eq!(p.prev, None);
    assert_eq!(p.first, None);
    assert_eq!(p.last, None);
}

#[test]
fn privileged_caller_sees_requested_status() {
    let mut t = Table::new();
    assert!(t.push_row(rec_with(1, RecordStatus::Rejected, 10, 50)));
    assert!(t.push_row(rec_with(2, RecordStatus::Approved, 10, 50)));
    let mut f = Filter::any();
    f.status = Some(RecordStatus::Rejected);
    let p =
        keyset_pagination::handle_request(&t, &f, true, None, None, Some(10), &cfg()).unwrap();
    assert_eq!(ids(&p.rows), vec![1]);
}

#[test]
fn validation_precedes_visibility() {
    let mut t = Table::new();
    assert!(t.push_row(rec_with(1, RecordStatus::Rejected, 10, 50)));
    let mut f = Filter::any();
    f.status = Some(RecordStatus::Rejected);
    let r = keyset_pagination::handle_request(&t, &f, false, Some(3), Some(1), Some(10), &cfg());
    assert_eq!(r.unwrap_err(), PaginationError::AmbiguousCursors);
}

#[test]
fn paging_at_an_explicit_bound() {
    let t = demo_table();
    let p = keyset_pagination::page_at(&t, &approved(), Bound::Above(2), 2);
    assert_eq!(ids(&p.rows), vec![5, 8]);
    assert_eq!(p.next, Some(8));
    let q = keyset_pagination::page_at(&t, &approved(), Bound::AtLeast(5), 2);
    assert_eq!(ids(&q.rows), vec![5, 8]);
    let r = keyset_pagination::page_at(&t, &approved(), Bound::Unbounded, 3);
    assert_eq!(ids(&r.rows), vec![1, 2, 5]);
}

#[test]
fn table_refuses_non_increasing_keys() {
    let mut t = Table::new();
    assert!(t.push_row(rec(5)));
    assert!(!t.push_row(rec(5)));
    assert!(!t.push_row(rec(3)));
    assert!(t.push_row(rec(6)));
    assert_eq!(t.len(), 2);
}

#[test]
fn extremal_ids_follow_the_filter() {
    let mut t = Table::new();
    assert!(t.push_row(rec_with(1, RecordStatus::Submitted, 10, 50)));
    assert!(t.push_row(rec_with(2, RecordStatus::Approved, 10, 50)));
    assert!(t.push_row(rec_with(5, RecordStatus::Approved, 10, 50)));
    assert!(t.push_row(rec_with(9, RecordStatus::Submitted, 10, 50)));
    assert_eq!(t.extremal_ids(&approved()), (Some(2), Some(5)));
    assert_eq!(t.extremal_ids(&Filter::any()), (Some(1), Some(9)));
    let mut none = Filter::any();
    none.player = Some(99);
    assert_eq!(t.extremal_ids(&none), (None, None));
}
