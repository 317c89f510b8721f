//! Tests of the lazy extra-attribute machinery: the write-once memo cell,
//! the lookup interpretation, and the memoize-once accounting.

use photoslibrary::{interpret_extra_row, ColumnValue, ExtraCell, LookupError, PhotoExtra};

/// Fetches through a memo cell the way a caller would, counting how many
/// times the store had to be asked.
fn access_counting(cell: &mut ExtraCell, store_calls: &mut usize) -> String {
    if cell.needs_fetch() {
        *store_calls += 1;
        cell.fill(PhotoExtra { original_filename: "IMG_0002.HEIC".to_string() });
    }
    cell.get().unwrap().original_filename.clone()
}

#[test]
fn two_accesses_perform_one_lookup_and_agree() {
    let mut cell = ExtraCell::new();
    let mut store_calls = 0usize;
    let first = access_counting(&mut cell, &mut store_calls);
    assert_eq!(store_calls, 1);
    let second = access_counting(&mut cell, &mut store_calls);
    assert_eq!(store_calls, 1);
    assert_eq!(first, second);
    assert_eq!(first, "IMG_0002.HEIC");
}

#[test]
fn a_fresh_cell_reads_nothing_and_wants_a_fetch() {
    let cell = ExtraCell::new();
    assert!(cell.needs_fetch());
    assert!(cell.get().is_none());
}

#[test]
fn an_abandoned_fetch_leaves_the_cell_retryable() {
    // A fetch that fails or is cancelled stores nothing, so the next access
    // still asks the store instead of seeing a poisoned cell.
    let mut cell = ExtraCell::new();
    assert!(cell.needs_fetch());
    // the first attempt errors out; nothing is filled
    assert!(cell.needs_fetch());
    cell.fill(PhotoExtra { original_filename: "A.jpg".to_string() });
    assert!(!cell.needs_fetch());
    assert_eq!(cell.get().unwrap().original_filename, "A.jpg");
}

#[test]
fn a_matching_text_row_is_the_original_filename() {
    let r = interpret_extra_row(Some(ColumnValue::Text("DSC_1.NEF".to_string())));
    assert_eq!(r.unwrap().original_filename, "DSC_1.NEF");
}

#[test]
fn a_missing_row_is_not_found() {
    assert_eq!(interpret_extra_row(None).unwrap_err(), LookupError::NotFound);
}

#[test]
fn an_ill_shaped_row_is_a_store_error() {
    assert_eq!(
        interpret_extra_row(Some(ColumnValue::Integer(3))).unwrap_err(),
        LookupError::StoreError
    );
    assert_eq!(
        interpret_extra_row(Some(ColumnValue::Null)).unwrap_err(),
        LookupError::StoreError
    );
}
