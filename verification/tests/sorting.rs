use rust_manager::sorter::sort_files;

fn names(v: &[&str]) -> Vec<String> {
    v.iter().map(|s| s.to_string()).collect()
}

#[test]
fn numeric_order_beats_string_length() {
    let sorted = sort_files(names(&["file10.tar", "file2.tar"]));
    assert_eq!(sorted, names(&["file2.tar", "file10.tar"]));
}

#[test]
fn unpadded_numbers_sort_numerically() {
    let sorted = sort_files(names(&[
        "marc-100.tar.gz",
        "marc-2.tar.gz",
        "marc-10.tar.gz",
        "marc-1.tar.gz",
        "marc-20.tar.gz",
    ]));
    assert_eq!(
        sorted,
        names(&[
            "marc-1.tar.gz",
            "marc-2.tar.gz",
            "marc-10.tar.gz",
            "marc-20.tar.gz",
            "marc-100.tar.gz",
        ])
    );
}

#[test]
fn no_digit_names_sort_as_key_zero_then_lexically() {
    let sorted = sort_files(names(&["beta.gz", "alpha.gz", "gamma-1.gz"]));
    // "alpha" and "beta" have key 0 and precede key 1; ties break lexically.
    assert_eq!(sorted, names(&["alpha.gz", "beta.gz", "gamma-1.gz"]));
}

#[test]
fn equal_keys_fall_back_to_stem_order() {
    let sorted = sort_files(names(&["b-7.gz", "a-7.gz", "c-7.gz"]));
    assert_eq!(sorted, names(&["a-7.gz", "b-7.gz", "c-7.gz"]));
}

#[test]
fn sorting_is_idempotent() {
    let once = sort_files(names(&[
        "marc-3.tar.gz",
        "marc-12.tar.gz",
        "marc-1.tar.gz",
        "other.gz",
    ]));
    let twice = sort_files(once.clone());
    assert_eq!(once, twice);
}

#[test]
fn huge_numbers_order_by_their_full_value() {
    // The numeric key is unbounded: a twenty-digit number still sorts
    // after a small one.
    let sorted = sort_files(names(&["a-99999999999999999999.gz", "b-1.gz"]));
    assert_eq!(sorted, names(&["b-1.gz", "a-99999999999999999999.gz"]));
    let sorted = sort_files(names(&["3000000000.gz", "b5.gz"]));
    assert_eq!(sorted, names(&["b5.gz", "3000000000.gz"]));
}

#[test]
fn leading_zeros_do_not_change_the_key() {
    // "007" and "7" carry the same numeric key; the tie breaks on the stem.
    let sorted = sort_files(names(&["b-7.gz", "a-007.gz"]));
    assert_eq!(sorted, names(&["a-007.gz", "b-7.gz"]));
}

#[test]
fn empty_input_sorts_to_empty() {
    let sorted = sort_files(Vec::new());
    assert!(sorted.is_empty());
}
