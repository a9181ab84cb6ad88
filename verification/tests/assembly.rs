use fortnite_downloader::assembly::{assemble_file, write_part};

#[test]
fn parts_end_to_end_make_the_file() {
    let results = vec![Some((vec![1u8, 2, 3], 0usize)), Some((vec![4u8, 5], 3)), Some((vec![6u8], 5))];
    let (file, failed) = assemble_file(6, &results);
    assert_eq!(file, vec![1, 2, 3, 4, 5, 6]);
    assert_eq!(failed, 0);
}

#[test]
fn failed_parts_leave_zeros_and_are_counted() {
    let results = vec![Some((vec![1u8, 2], 0usize)), None, Some((vec![5u8], 4)), None];
    let (file, failed) = assemble_file(5, &results);
    assert_eq!(file, vec![1, 2, 0, 0, 5]);
    assert_eq!(failed, 2);
}

#[test]
fn later_parts_overwrite_earlier_ones() {
    let results = vec![Some((vec![1u8, 1, 1], 0usize)), Some((vec![2u8], 1))];
    let (file, failed) = assemble_file(4, &results);
    assert_eq!(file, vec![1, 2, 1, 0]);
    assert_eq!(failed, 0);
}

#[test]
fn write_part_copies_in_place() {
    let mut buffer = vec![9u8; 6];
    write_part(&mut buffer, &vec![1, 2], 2);
    assert_eq!(buffer, vec![9, 9, 1, 2, 9, 9]);
}

#[test]
fn disjoint_parts_in_any_order_land_in_place() {
    let results = vec![Some((vec![7u8, 8], 4usize)), None, Some((vec![1u8, 2], 0)), Some((vec![5u8], 3))];
    let (file, failed) = assemble_file(7, &results);
    assert_eq!(file, vec![1, 2, 0, 5, 7, 8, 0]);
    assert_eq!(failed, 1);
}
