use ringside::errors::Error;
use ringside::pagination::{paginate, ITEMS_PER_PAGE};

fn rows(n: i32) -> Vec<i32> {
    (0..n).collect()
}

#[test]
fn total_pages_is_the_ceiling_of_rows_over_page_size() {
    for (n, expected) in [(0i32, 0i64), (1, 1), (3, 1), (4, 1), (5, 2), (8, 2), (9, 3), (10, 3)] {
        let page = paginate(rows(n), 1, ITEMS_PER_PAGE).unwrap();
        assert_eq!(page.total_pages, expected, "{} rows", n);
    }
}

#[test]
fn total_pages_is_zero_exactly_when_no_row_matches() {
    let empty = paginate(rows(0), 1, ITEMS_PER_PAGE).unwrap();
    assert_eq!(empty.total_pages, 0);
    assert!(empty.items.is_empty());
    let one = paginate(rows(1), 1, ITEMS_PER_PAGE).unwrap();
    assert_eq!(one.total_pages, 1);
}

#[test]
fn a_page_past_the_end_is_empty_with_the_same_total() {
    let page = paginate(rows(10), 5, ITEMS_PER_PAGE).unwrap();
    assert!(page.items.is_empty());
    assert_eq!(page.total_pages, 3);
}

#[test]
fn a_page_below_one_is_rejected() {
    assert!(matches!(paginate(rows(10), 0, ITEMS_PER_PAGE), Err(Error::InvalidPage)));
    assert!(matches!(paginate(rows(10), -3, ITEMS_PER_PAGE), Err(Error::InvalidPage)));
}

#[test]
fn each_page_holds_its_slice_of_the_rows() {
    assert_eq!(paginate(rows(10), 1, ITEMS_PER_PAGE).unwrap().items, vec![0, 1, 2, 3]);
    assert_eq!(paginate(rows(10), 2, ITEMS_PER_PAGE).unwrap().items, vec![4, 5, 6, 7]);
    assert_eq!(paginate(rows(10), 3, ITEMS_PER_PAGE).unwrap().items, vec![8, 9]);
}

#[test]
fn concatenating_all_pages_reproduces_the_rows() {
    let all = rows(11);
    let total = paginate(all.clone(), 1, ITEMS_PER_PAGE).unwrap().total_pages;
    let mut gathered: Vec<i32> = Vec::new();
    for p in 1..=total {
        gathered.extend(paginate(all.clone(), p, ITEMS_PER_PAGE).unwrap().items);
    }
    assert_eq!(gathered, all);
}

#[test]
fn other_page_sizes_follow_the_same_arithmetic() {
    let page = paginate(rows(7), 2, 3).unwrap();
    assert_eq!(page.total_pages, 3);
    assert_eq!(page.items, vec![3, 4, 5]);
    let last = paginate(rows(7), 3, 3).unwrap();
    assert_eq!(last.items, vec![6]);
}
